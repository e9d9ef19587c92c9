use vstd::prelude::*;

use crate::services::hosts::{
    is_healthy, lemma_index_of_unique, HostAddr, HostEntry, HostTable,
};
use crate::services::strategies::{Algorithm, Strategy};

verus! {

/// Some host of the table is healthy.
pub open spec fn any_healthy(s: Seq<HostEntry>) -> bool {
    exists|i: int| 0 <= i < s.len() && s[i].status.healthy
}

/// `a` is healthy and no healthy host has fewer open connections.
pub open spec fn least_loaded(s: Seq<HostEntry>, a: HostAddr) -> bool {
    exists|i: int|
        0 <= i < s.len() && #[trigger] s[i].addr == a && s[i].status.healthy && forall|j: int|
            0 <= j < s.len() && s[j].status.healthy ==> s[i].status.open_connections
                <= #[trigger] s[j].status.open_connections
}

/// Row `i` is healthy and no healthy row has fewer open connections.
pub open spec fn least_loaded_row(s: Seq<HostEntry>, i: int) -> bool {
    &&& 0 <= i < s.len()
    &&& s[i].status.healthy
    &&& forall|j: int|
        0 <= j < s.len() && s[j].status.healthy ==> s[i].status.open_connections
            <= #[trigger] s[j].status.open_connections
}

/// Row `i` is the first least-loaded row in table order.
pub open spec fn first_least_loaded_row(s: Seq<HostEntry>, i: int) -> bool {
    &&& least_loaded_row(s, i)
    &&& forall|j: int| 0 <= j < i ==> !#[trigger] least_loaded_row(s, j)
}

/// Sends each request to a healthy host with the fewest open connections.
#[derive(Clone, Copy, Debug)]
pub struct LeastConnections;

impl Default for LeastConnections {
    fn default() -> (r: LeastConnections)
        ensures
            r == LeastConnections,
    {
        LeastConnections
    }
}

impl LeastConnections {
    /// The first healthy host, in table order, with the fewest open connections.
    pub fn least_loaded_host(hosts: &HostTable) -> (picked: Option<HostAddr>)
        requires
            hosts.wf(),
        ensures
            picked is None <==> !any_healthy(hosts@),
            picked matches Some(a) ==> least_loaded(hosts@, a) && is_healthy(hosts@, a),
            picked matches Some(a) ==> exists|i: int|
                first_least_loaded_row(hosts@, i) && #[trigger] hosts@[i].addr == a,
    {
        let n: usize = hosts.len();
        let mut best: Option<usize> = None;
        let mut i: usize = 0;
        while i < n
            invariant
                n == hosts@.len(),
                i <= n,
                best is None <==> forall|k: int| 0 <= k < i ==> !hosts@[k].status.healthy,
                best matches Some(b) ==> {
                    &&& b < i
                    &&& hosts@[b as int].status.healthy
                    &&& forall|k: int|
                        0 <= k < i && hosts@[k].status.healthy
                            ==> hosts@[b as int].status.open_connections
                            <= hosts@[k].status.open_connections
                    &&& forall|k: int|
                        0 <= k < b && hosts@[k].status.healthy
                            ==> hosts@[b as int].status.open_connections
                            < hosts@[k].status.open_connections
                },
            decreases n - i,
        {
            let e: HostEntry = hosts.entry(i);
            if e.status.healthy {
                match best {
                    None => {
                        best = Some(i);
                    },
                    Some(b) => {
                        if e.status.open_connections < hosts.entry(b).status.open_connections {
                            best = Some(i);
                        }
                    },
                }
            }
            i = i + 1;
        }
        match best {
            None => None,
            Some(b) => {
                let a: HostAddr = hosts.entry(b).addr;
                proof {
                    lemma_index_of_unique(hosts@, b as int);
                    assert(hosts@[b as int].addr == a);
                    assert forall|j: int| 0 <= j < b implies !#[trigger] least_loaded_row(hosts@, j) by {
                        if least_loaded_row(hosts@, j) {
                            assert(hosts@[j].status.open_connections
                                <= hosts@[b as int].status.open_connections);
                        }
                    }
                    assert(first_least_loaded_row(hosts@, b as int));
                }
                Some(a)
            },
        }
    }
}

impl Algorithm for LeastConnections {
    open spec fn kind(&self) -> Strategy {
        Strategy::LeastConnections
    }

    open spec fn wf(&self) -> bool {
        true
    }

    /// A healthy host with the fewest open connections; none exactly when no
    /// host is healthy.
    fn get_host(&mut self, hosts: &mut HostTable) -> (picked: Option<HostAddr>)
        ensures
            picked is None <==> !any_healthy(old(hosts)@),
            picked matches Some(a) ==> least_loaded(old(hosts)@, a),
            picked matches Some(a) ==> exists|i: int|
                first_least_loaded_row(old(hosts)@, i) && #[trigger] old(hosts)@[i].addr == a,
    {
        LeastConnections::least_loaded_host(hosts)
    }

    fn get_strategy(&mut self) -> (s: Strategy) {
        Strategy::LeastConnections
    }
}

} // verus!
