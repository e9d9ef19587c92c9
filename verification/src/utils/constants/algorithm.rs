use vstd::prelude::*;

verus! {

/// The path of the endpoint that switches the host-selection strategy.
pub const SWITCH_ALGORITHM_ENDPOINT: &'static str = "/switch-algorithm";

/// The query parameter that names the strategy to switch to.
pub const STRATEGY_QUERY_PARAM: &'static str = "strategy";

/// A host is overloaded when its open connections lie further than this many
/// median absolute deviations from the median.
pub const OVERLOAD_FACTOR_CONNECTIONS: u64 = 10;

/// After the adaptive engine switches strategy, it waits this long before it
/// looks again.
pub const ALGORITHM_SWITCH_TIMEOUT_SEC: u64 = 30;

} // verus!
