//! The first form of host selection: a round robin over a plain list of
//! addresses, without health information.

use vstd::prelude::*;

use crate::services::hosts::HostAddr;

verus! {

/// The strategies of the plain-list selector.
#[derive(Clone, Copy, Debug, PartialEq, Eq, Structural)]
pub enum Strategy {
    RoundRobin,
}

/// Picks one address out of a non-empty list.
pub trait Algorithm: Send + Sync + Sized {
    fn get_host(&mut self, hosts: &[HostAddr]) -> (host: HostAddr)
        requires
            hosts@.len() > 0,
        ensures
            hosts@.contains(host),
    ;
}

/// Hands out the addresses of the list in turn.
#[derive(Debug)]
pub struct RoundRobin {
    last_host: usize,
}

impl Clone for RoundRobin {
    fn clone(&self) -> (r: RoundRobin)
        ensures
            r.last() == self.last(),
    {
        proof {
            use_type_invariant(self);
        }
        RoundRobin { last_host: self.last_host }
    }
}

impl RoundRobin {
    #[verifier::type_invariant]
    spec fn below_max(&self) -> bool {
        self.last_host < usize::MAX
    }

    /// The position of the address handed out last.
    pub closed spec fn last(&self) -> int {
        self.last_host as int
    }
}

impl Default for RoundRobin {
    fn default() -> (r: RoundRobin)
        ensures
            r.last() == 0,
    {
        RoundRobin { last_host: 0 }
    }
}

impl Algorithm for RoundRobin {
    /// Moves to the next position, wrapping around the list, and hands out
    /// the address there.
    fn get_host(&mut self, hosts: &[HostAddr]) -> (host: HostAddr)
        ensures
            final(self).last() == (old(self).last() + 1) % (hosts@.len() as int),
            host == hosts@[final(self).last()],
    {
        proof {
            use_type_invariant(&*self);
        }
        self.last_host = (self.last_host + 1) % hosts.len();
        hosts[self.last_host]
    }
}

} // verus!
