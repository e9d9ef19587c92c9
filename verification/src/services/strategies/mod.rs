pub mod least_connections;
pub mod round_robin;

pub use least_connections::LeastConnections;
pub use round_robin::RoundRobin;

use vstd::prelude::*;

use crate::services::hosts::{is_healthy, HostAddr, HostTable};

verus! {

/// The host-selection strategies the load balancer can run.
#[derive(Clone, Copy, Debug, PartialEq, Eq, Structural)]
pub enum Strategy {
    RoundRobin,
    LeastConnections,
}

/// The name by which a strategy is shown and requested.
pub open spec fn strategy_name(s: Strategy) -> Seq<char> {
    match s {
        Strategy::RoundRobin => "RoundRobin"@,
        Strategy::LeastConnections => "LeastConnections"@,
    }
}

/// The strategy with exactly this name (case-sensitive), if there is one.
pub open spec fn strategy_named(name: Seq<char>) -> Option<Strategy> {
    if name == "RoundRobin"@ {
        Some(Strategy::RoundRobin)
    } else if name == "LeastConnections"@ {
        Some(Strategy::LeastConnections)
    } else {
        None
    }
}

impl Strategy {
    /// The strategy's name.
    pub fn as_ref(&self) -> (name: &'static str)
        ensures
            name@ == strategy_name(*self),
    {
        match self {
            Strategy::RoundRobin => "RoundRobin",
            Strategy::LeastConnections => "LeastConnections",
        }
    }

    /// Parses a strategy from its exact name.
    pub fn from_name(name: &str) -> (r: Option<Strategy>)
        ensures
            r == strategy_named(name@),
    {
        let owned: String = name.to_owned();
        if owned == "RoundRobin".to_owned() {
            Some(Strategy::RoundRobin)
        } else if owned == "LeastConnections".to_owned() {
            Some(Strategy::LeastConnections)
        } else {
            None
        }
    }
}

/// Parsing a strategy's name gives the strategy back.
pub proof fn lemma_strategy_name_round_trip(s: Strategy)
    ensures
        strategy_named(strategy_name(s)) == Some(s),
{
    reveal_strlit("RoundRobin");
    reveal_strlit("LeastConnections");
    assert("RoundRobin"@ != "LeastConnections"@) by {
        assert("RoundRobin"@.len() != "LeastConnections"@.len());
    }
}

/// A host-selection strategy.
pub trait Algorithm: Send + Sync + Sized {
    /// The strategy this algorithm runs.
    spec fn kind(&self) -> Strategy;

    /// The algorithm's own consistency.
    spec fn wf(&self) -> bool;

    /// Picks a healthy host, or none. The table is left as it was.
    fn get_host(&mut self, hosts: &mut HostTable) -> (picked: Option<HostAddr>)
        requires
            old(self).wf(),
            old(hosts).wf(),
        ensures
            final(self).wf(),
            final(self).kind() == old(self).kind(),
            final(hosts)@ == old(hosts)@,
            picked matches Some(a) ==> is_healthy(old(hosts)@, a),
    ;

    /// The strategy this algorithm runs.
    fn get_strategy(&mut self) -> (s: Strategy)
        ensures
            s == old(self).kind(),
            *final(self) == *old(self),
    ;
}

} // verus!
