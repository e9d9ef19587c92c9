use vstd::prelude::*;

verus! {

/// Seconds between two rounds of health probes.
pub const CHECK_INTERVAL_SEC: u64 = 5;

/// How long a health probe may take before the host counts as down.
pub const TIMEOUT_MS: u64 = 1000;

} // verus!
