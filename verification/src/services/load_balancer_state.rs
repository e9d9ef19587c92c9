use vstd::prelude::*;

use crate::services::hosts::{
    addrs_of, distinct_addrs, has_addr, index_of, is_healthy, lemma_index_of_unique,
    lemma_lookup_after_replace, lookup, table_insert, table_replace, HostAddr, HostEntry,
    HostStatus, HostTable,
};
use crate::services::statistics::{is_overloaded, overloaded};
use crate::services::strategies::least_connections::{
    any_healthy, first_least_loaded_row, least_loaded, least_loaded_row,
};
use crate::services::strategies::round_robin::{
    lemma_rr_consecutive_picks_differ, lemma_rr_cursor_on_pick,
    lemma_round_robin_cycle, lemma_round_robin_full_turn, lemma_round_robin_serves_every_healthy,
    lemma_rr_step_health_only,
    lemma_rr_step_picks_healthy, rr_cursor_after, rr_step,
};
use crate::services::strategies::{Algorithm, LeastConnections, RoundRobin, Strategy};
use crate::utils::configuration::Config;

verus! {

/// The strategy currently in charge, with its own state.
pub enum SelectedAlgorithm {
    RoundRobin(RoundRobin),
    LeastConnections(LeastConnections),
}

#[verifier::ext_equal]
/// What the load balancer's state amounts to: the host table, the strategy
/// in charge, and (for round robin) the position of the host handed out last.
pub struct LoadBalancerView {
    pub hosts: Seq<HostEntry>,
    pub strategy: Strategy,
    pub cursor: int,
}

/// The table built from the configured addresses, each added as a fresh,
/// healthy, idle host; an address listed twice keeps one row.
pub open spec fn table_from(addrs: Seq<HostAddr>) -> Seq<HostEntry>
    decreases addrs.len(),
{
    if addrs.len() == 0 {
        Seq::empty()
    } else {
        table_insert(
            table_from(addrs.drop_last()),
            addrs.last(),
            HostStatus { healthy: true, open_connections: 0 },
        )
    }
}

/// The table with one more open connection on `a` (unchanged when `a` has no row).
pub open spec fn add_connection(s: Seq<HostEntry>, a: HostAddr) -> Seq<HostEntry> {
    match lookup(s, a) {
        Some(st) => table_replace(
            s,
            a,
            HostStatus { open_connections: (st.open_connections + 1) as u32, ..st },
        ),
        None => s,
    }
}

/// The table with one open connection fewer on `a` (unchanged when `a` has no row).
pub open spec fn remove_connection(s: Seq<HostEntry>, a: HostAddr) -> Seq<HostEntry> {
    match lookup(s, a) {
        Some(st) => table_replace(
            s,
            a,
            HostStatus { open_connections: (st.open_connections - 1) as u32, ..st },
        ),
        None => s,
    }
}

/// The table with `a` marked healthy or not (unchanged when `a` has no row).
pub open spec fn mark_health(s: Seq<HostEntry>, a: HostAddr, health: bool) -> Seq<HostEntry> {
    match lookup(s, a) {
        Some(st) => table_replace(s, a, HostStatus { healthy: health, ..st }),
        None => s,
    }
}

/// The open connections of each host, in table order.
pub open spec fn connection_counts(s: Seq<HostEntry>) -> Seq<u64> {
    s.map_values(|e: HostEntry| e.status.open_connections as u64)
}

/// The round-robin pick in state `v`.
pub open spec fn round_robin_pick(v: LoadBalancerView) -> (int, Option<HostAddr>) {
    rr_step(addrs_of(v.hosts), v.hosts, v.cursor)
}

/// `a` is the host that the strategy in charge hands out next: for round
/// robin the next healthy host after the cursor, for least connections the
/// first host in table order among the healthy ones with the fewest open
/// connections.
pub open spec fn next_pick(v: LoadBalancerView, a: HostAddr) -> bool {
    match v.strategy {
        Strategy::RoundRobin => round_robin_pick(v).1 == Some(a),
        Strategy::LeastConnections => exists|i: int|
            first_least_loaded_row(v.hosts, i) && #[trigger] v.hosts[i].addr == a,
    }
}

/// Counting one more connection on whichever host may be handed out next
/// stays within `u32`.
pub open spec fn pick_fits(v: LoadBalancerView) -> bool {
    forall|a: HostAddr|
        #[trigger] next_pick(v, a) ==> (lookup(v.hosts, a) matches Some(st) && st.open_connections
            < u32::MAX)
}

/// The state after a pick: the cursor a round robin moved to.
pub open spec fn cursor_after_pick(v: LoadBalancerView) -> int {
    match v.strategy {
        Strategy::RoundRobin => round_robin_pick(v).0,
        Strategy::LeastConnections => v.cursor,
    }
}

/// Counting a new connection on `a` changes `a`'s count by one and nothing
/// else; in particular no host's health.
pub proof fn lemma_add_connection_effect(s: Seq<HostEntry>, a: HostAddr, b: HostAddr)
    requires
        distinct_addrs(s),
    ensures
        distinct_addrs(add_connection(s, a)),
        lookup(add_connection(s, a), b) == match lookup(s, b) {
            Some(st) => if b == a {
                Some(HostStatus { open_connections: (st.open_connections + 1) as u32, ..st })
            } else {
                Some(st)
            },
            None => None,
        },
        is_healthy(add_connection(s, a), b) == is_healthy(s, b),
{
    if let Some(st) = lookup(s, a) {
        lemma_lookup_after_replace(
            s,
            a,
            HostStatus { open_connections: (st.open_connections + 1) as u32, ..st },
            b,
        );
    }
}

/// Closing a connection undoes counting it: a pick followed by the
/// disconnect of the picked host leaves the table as it was.
pub proof fn lemma_disconnect_undoes_pick(s: Seq<HostEntry>, a: HostAddr)
    requires
        distinct_addrs(s),
        lookup(s, a) matches Some(st) ==> st.open_connections < u32::MAX,
    ensures
        remove_connection(add_connection(s, a), a) == s,
{
    if let Some(st) = lookup(s, a) {
        let up = HostStatus { open_connections: (st.open_connections + 1) as u32, ..st };
        lemma_lookup_after_replace(s, a, up, a);
        let t = add_connection(s, a);
        let i: int = index_of(s, a);
        lemma_index_of_unique(s, i);
        lemma_index_of_unique(t, i);
        assert(remove_connection(t, a) =~= s);
    }
}

/// A host marked unhealthy is not healthy afterwards, and marking one host
/// leaves every other host's status as it was.
pub proof fn lemma_mark_health_effect(s: Seq<HostEntry>, a: HostAddr, health: bool, b: HostAddr)
    requires
        distinct_addrs(s),
    ensures
        distinct_addrs(mark_health(s, a, health)),
        lookup(mark_health(s, a, health), b) == match lookup(s, b) {
            Some(st) => if b == a {
                Some(HostStatus { healthy: health, ..st })
            } else {
                Some(st)
            },
            None => None,
        },
        !health ==> !is_healthy(mark_health(s, a, health), a),
{
    if let Some(st) = lookup(s, a) {
        lemma_lookup_after_replace(s, a, HostStatus { healthy: health, ..st }, b);
        lemma_lookup_after_replace(s, a, HostStatus { healthy: health, ..st }, a);
    }
}

/// The state after `set_algorithm(strategy)`: a fresh `strategy` when it was
/// not in charge, else the state as it was.
pub open spec fn after_set_algorithm(v: LoadBalancerView, strategy: Strategy) -> LoadBalancerView {
    if v.strategy != strategy {
        LoadBalancerView { hosts: v.hosts, strategy, cursor: 0 }
    } else {
        v
    }
}

/// Setting the strategy that is already in charge changes nothing: a second
/// `set_algorithm` with the same strategy does not switch.
pub proof fn lemma_set_algorithm_idempotent(v: LoadBalancerView, strategy: Strategy)
    ensures
        after_set_algorithm(v, strategy).strategy == strategy,
        after_set_algorithm(after_set_algorithm(v, strategy), strategy) == after_set_algorithm(
            v,
            strategy,
        ),
{
}

/// The state after `m` picks by a round robin (each pick counting a
/// connection on the host handed out).
pub open spec fn round_robin_run(v: LoadBalancerView, m: nat) -> LoadBalancerView
    decreases m,
{
    if m == 0 {
        v
    } else {
        let u = round_robin_run(v, (m - 1) as nat);
        let step = round_robin_pick(u);
        LoadBalancerView {
            hosts: match step.1 {
                Some(a) => add_connection(u.hosts, a),
                None => u.hosts,
            },
            cursor: step.0,
            ..u
        }
    }
}

/// With round robin in charge and every host healthy, the `m`-th pick hands
/// out the host `m` places after the cursor, whatever the connections already
/// counted; `n` picks hand out each of the `n` hosts once and bring the
/// cursor back where it was.
pub proof fn lemma_round_robin_state_cycle(v: LoadBalancerView, m: nat)
    requires
        v.strategy == Strategy::RoundRobin,
        distinct_addrs(v.hosts),
        v.hosts.len() > 0,
        0 <= v.cursor < v.hosts.len(),
        forall|i: int| 0 <= i < v.hosts.len() ==> #[trigger] v.hosts[i].status.healthy,
    ensures
        round_robin_run(v, m).cursor == (v.cursor + m) % (v.hosts.len() as int),
        round_robin_pick(round_robin_run(v, m)).1 == Some(
            v.hosts[(v.cursor + m + 1) % (v.hosts.len() as int)].addr,
        ),
        round_robin_run(v, v.hosts.len()).cursor == v.cursor,
{
    let ring = addrs_of(v.hosts);
    lemma_healthy_rows(v.hosts);
    assert forall|i: int| 0 <= i < ring.len() implies is_healthy(v.hosts, #[trigger] ring[i]) by {
        assert(v.hosts[i].status.healthy);
    }
    lemma_round_robin_run_tracks_ring(v, m);
    lemma_round_robin_cycle(ring, v.hosts, v.cursor, m);
    lemma_round_robin_run_tracks_ring(v, v.hosts.len());
    lemma_round_robin_full_turn(ring, v.hosts, v.cursor);
}

/// With round robin in charge and no health change between picks, every
/// healthy host is handed out by one of the next `n` picks (each pick
/// counting a connection), whichever hosts are down.
pub proof fn lemma_round_robin_state_serves_every_healthy(v: LoadBalancerView, i: int) -> (m: nat)
    requires
        v.strategy == Strategy::RoundRobin,
        distinct_addrs(v.hosts),
        0 <= v.cursor < v.hosts.len(),
        0 <= i < v.hosts.len(),
        v.hosts[i].status.healthy,
    ensures
        m < v.hosts.len(),
        round_robin_pick(round_robin_run(v, m)).1 == Some(v.hosts[i].addr),
{
    let ring = addrs_of(v.hosts);
    lemma_healthy_rows(v.hosts);
    assert(is_healthy(v.hosts, ring[i]));
    let m: nat = lemma_round_robin_serves_every_healthy(ring, v.hosts, v.cursor, i);
    lemma_round_robin_run_tracks_ring(v, m);
    m
}

/// Picks keep the addresses, their distinctness and every host's health, so
/// a run of picks follows the cursor of the unchanged table.
proof fn lemma_round_robin_run_tracks_ring(v: LoadBalancerView, m: nat)
    requires
        v.strategy == Strategy::RoundRobin,
        distinct_addrs(v.hosts),
    ensures
        round_robin_run(v, m).strategy == Strategy::RoundRobin,
        distinct_addrs(round_robin_run(v, m).hosts),
        addrs_of(round_robin_run(v, m).hosts) == addrs_of(v.hosts),
        forall|a: HostAddr| #[trigger] is_healthy(round_robin_run(v, m).hosts, a) == is_healthy(v.hosts, a),
        round_robin_run(v, m).cursor == rr_cursor_after(addrs_of(v.hosts), v.hosts, v.cursor, m),
        round_robin_pick(round_robin_run(v, m)) == rr_step(
            addrs_of(v.hosts),
            v.hosts,
            round_robin_run(v, m).cursor,
        ),
    decreases m,
{
    if m > 0 {
        lemma_round_robin_run_tracks_ring(v, (m - 1) as nat);
        let u = round_robin_run(v, (m - 1) as nat);
        let step = round_robin_pick(u);
        if let Some(a) = step.1 {
            assert forall|b: HostAddr| #[trigger] is_healthy(add_connection(u.hosts, a), b)
                == is_healthy(u.hosts, b) by {
                lemma_add_connection_effect(u.hosts, a, b);
            }
            lemma_add_connection_effect(u.hosts, a, a);
            if let Some(st) = lookup(u.hosts, a) {
                lemma_replace_keeps_addrs(
                    u.hosts,
                    a,
                    HostStatus { open_connections: (st.open_connections + 1) as u32, ..st },
                );
            }
        }
    }
    let w = round_robin_run(v, m);
    lemma_rr_step_health_only(addrs_of(v.hosts), w.hosts, v.hosts, w.cursor);
}

/// The counts the overload rule reads are every host's open connections, in
/// table order, whatever the host's health.
pub proof fn lemma_connection_counts_rows(s: Seq<HostEntry>)
    ensures
        connection_counts(s).len() == s.len(),
        forall|i: int|
            0 <= i < s.len() ==> #[trigger] connection_counts(s)[i] == s[i].status.open_connections,
{
}

/// A health change never changes whether the hosts are overloaded.
pub proof fn lemma_overload_ignores_health(s: Seq<HostEntry>, a: HostAddr, health: bool)
    requires
        distinct_addrs(s),
    ensures
        overloaded(connection_counts(mark_health(s, a, health))) == overloaded(connection_counts(s)),
{
    let t = mark_health(s, a, health);
    if has_addr(s, a) {
        assert(t.len() == s.len());
        assert forall|i: int| 0 <= i < s.len() implies t[i].status.open_connections
            == s[i].status.open_connections by {
            lemma_index_of_unique(s, index_of(s, a));
        }
    }
    lemma_connection_counts_rows(s);
    lemma_connection_counts_rows(t);
    assert(connection_counts(t) =~= connection_counts(s));
}

/// Setting the strategy that is already in charge changes nothing, not even
/// the round robin's position.
pub proof fn lemma_set_current_algorithm_keeps_state(v: LoadBalancerView, strategy: Strategy)
    requires
        v.strategy == strategy,
    ensures
        after_set_algorithm(v, strategy) == v,
{
}

/// With round robin in charge and the addresses distinct, a pick leaves the
/// cursor on the host it handed out, so the next pick (counting a connection
/// in between) hands out another host whenever another one is healthy.
pub proof fn lemma_round_robin_state_alternates(v: LoadBalancerView, q: int)
    requires
        v.strategy == Strategy::RoundRobin,
        distinct_addrs(v.hosts),
        0 <= v.cursor < v.hosts.len(),
        0 <= q < v.hosts.len(),
        v.hosts[q].status.healthy,
        round_robin_pick(v).1 is Some,
        v.hosts[q].addr != round_robin_pick(v).1->0,
    ensures
        addrs_of(v.hosts)[round_robin_run(v, 1).cursor] == round_robin_pick(v).1->0,
        round_robin_pick(round_robin_run(v, 1)).1 is Some,
        round_robin_pick(round_robin_run(v, 1)).1 != round_robin_pick(v).1,
{
    let ring = addrs_of(v.hosts);
    lemma_healthy_rows(v.hosts);
    assert(is_healthy(v.hosts, ring[q]));
    assert forall|i: int, j: int| 0 <= i < j < ring.len() implies ring[i] != ring[j] by {
        assert(v.hosts[i].addr != v.hosts[j].addr);
    }
    lemma_rr_cursor_on_pick(ring, v.hosts, v.cursor);
    lemma_rr_consecutive_picks_differ(ring, v.hosts, v.cursor, q);
    lemma_round_robin_run_tracks_ring(v, 1);
    lemma_round_robin_run_tracks_ring(v, 0);
}

/// The shared state of the load balancer.
pub struct LoadBalancerState {
    hosts: HostTable,
    algorithm: SelectedAlgorithm,
}

impl View for LoadBalancerState {
    type V = LoadBalancerView;

    closed spec fn view(&self) -> LoadBalancerView {
        LoadBalancerView {
            hosts: self.hosts@,
            strategy: match self.algorithm {
                SelectedAlgorithm::RoundRobin(_) => Strategy::RoundRobin,
                SelectedAlgorithm::LeastConnections(_) => Strategy::LeastConnections,
            },
            cursor: match self.algorithm {
                SelectedAlgorithm::RoundRobin(rr) => rr.cursor(),
                SelectedAlgorithm::LeastConnections(_) => 0,
            },
        }
    }
}

/// Addresses keep their rows when only a status changes.
proof fn lemma_replace_keeps_addrs(s: Seq<HostEntry>, a: HostAddr, st: HostStatus)
    ensures
        addrs_of(table_replace(s, a, st)) == addrs_of(s),
        table_replace(s, a, st).len() == s.len(),
{
    assert(addrs_of(table_replace(s, a, st)) =~= addrs_of(s));
}

/// With distinct addresses, "some host is healthy" and "some address of the
/// table is healthy" agree, row by row.
proof fn lemma_healthy_rows(s: Seq<HostEntry>)
    requires
        distinct_addrs(s),
    ensures
        forall|i: int|
            0 <= i < s.len() ==> (is_healthy(s, #[trigger] addrs_of(s)[i]) <==> s[i].status.healthy),
{
    assert forall|i: int| 0 <= i < s.len() implies (is_healthy(s, #[trigger] addrs_of(s)[i])
        <==> s[i].status.healthy) by {
        lemma_index_of_unique(s, i);
    }
}

impl LoadBalancerState {
    /// Every address has one row, and a round robin runs over exactly the
    /// table's addresses, in table order, with its cursor on the ring.
    pub closed spec fn wf(&self) -> bool {
        &&& self.hosts.wf()
        &&& match self.algorithm {
            SelectedAlgorithm::RoundRobin(rr) => rr.wf() && rr.ring() == addrs_of(self.hosts@),
            SelectedAlgorithm::LeastConnections(_) => true,
        }
    }

    /// What every operation keeps: each address has one row, and the cursor
    /// lies on the ring of the table's addresses.
    pub proof fn lemma_wf_view(&self)
        requires
            self.wf(),
        ensures
            distinct_addrs(self@.hosts),
            self@.hosts.len() == 0 ==> self@.cursor == 0,
            self@.hosts.len() > 0 ==> 0 <= self@.cursor < self@.hosts.len(),
    {
    }

    /// The state for the configured hosts: every host fresh, healthy and idle,
    /// and a round robin over them in the configured order.
    pub fn new(config: &Config) -> (s: LoadBalancerState)
        ensures
            s.wf(),
            s@.hosts == table_from(config.hosts@),
            s@.strategy == Strategy::RoundRobin,
            s@.cursor == 0,
    {
        let mut hosts = HostTable::new();
        let n: usize = config.hosts.len();
        for i in 0..n
            invariant
                n == config.hosts@.len(),
                hosts.wf(),
                hosts@ == table_from(config.hosts@.take(i as int)),
        {
            hosts.insert(config.hosts[i], HostStatus::new());
            assert(config.hosts@.take(i + 1).drop_last() == config.hosts@.take(i as int));
        }
        assert(config.hosts@.take(n as int) == config.hosts@);
        let rr = RoundRobin::new(&mut hosts);
        LoadBalancerState { hosts, algorithm: SelectedAlgorithm::RoundRobin(rr) }
    }

    /// The host table.
    pub fn hosts(&self) -> (t: &HostTable)
        ensures
            t@ == self@.hosts,
            self.wf() ==> t.wf(),
    {
        &self.hosts
    }

    /// The strategy in charge.
    pub fn strategy(&self) -> (s: Strategy)
        ensures
            s == self@.strategy,
    {
        match &self.algorithm {
            SelectedAlgorithm::RoundRobin(_) => Strategy::RoundRobin,
            SelectedAlgorithm::LeastConnections(_) => Strategy::LeastConnections,
        }
    }

    /// Hands out a host chosen by the strategy in charge and counts one more
    /// open connection on it; none when no host is healthy.
    pub fn get_host(&mut self) -> (picked: Option<HostAddr>)
        requires
            old(self).wf(),
            pick_fits(old(self)@),
        ensures
            final(self).wf(),
            picked is None <==> !any_healthy(old(self)@.hosts),
            picked matches Some(a) ==> next_pick(old(self)@, a) && is_healthy(old(self)@.hosts, a),
            final(self)@ == (LoadBalancerView {
                hosts: match picked {
                    Some(a) => add_connection(old(self)@.hosts, a),
                    None => old(self)@.hosts,
                },
                cursor: cursor_after_pick(old(self)@),
                ..old(self)@
            }),
    {
        proof {
            lemma_healthy_rows(self.hosts@);
        }
        let picked: Option<HostAddr> = match &mut self.algorithm {
            SelectedAlgorithm::RoundRobin(rr) => {
                proof {
                    lemma_rr_step_picks_healthy(rr.ring(), self.hosts@, rr.cursor());
                }
                rr.get_host(&mut self.hosts)
            },
            SelectedAlgorithm::LeastConnections(lc) => lc.get_host(&mut self.hosts),
        };
        proof {
            let t = old(self)@.hosts;
            if picked is None {
                if old(self)@.strategy == Strategy::RoundRobin {
                    assert forall|i: int| 0 <= i < t.len() implies !t[i].status.healthy by {
                        assert(addrs_of(t)[i] == t[i].addr);
                        assert(!is_healthy(t, addrs_of(t)[i]));
                    }
                }
            } else {
                let a: HostAddr = picked->0;
                assert(has_addr(t, a));
                assert(t[index_of(t, a)].status.healthy);
            }
        }
        if let Some(host) = picked {
            proof {
                assert(next_pick(old(self)@, host));
            }
            self.increase_connections(&host);
            return Some(host);
        }
        None
    }

    /// Counts a closed connection on `host`.
    pub fn on_disconnect(&mut self, host: &HostAddr)
        requires
            old(self).wf(),
            lookup(old(self)@.hosts, *host) matches Some(st) ==> st.open_connections > 0,
        ensures
            final(self).wf(),
            final(self)@ == (LoadBalancerView {
                hosts: remove_connection(old(self)@.hosts, *host),
                ..old(self)@
            }),
    {
        self.decrease_connections(host);
    }

    /// Puts `strategy` in charge, fresh, unless it already is; says whether
    /// it switched.
    pub fn set_algorithm(&mut self, strategy: Strategy) -> (switched: bool)
        requires
            old(self).wf(),
        ensures
            final(self).wf(),
            switched == (old(self)@.strategy != strategy),
            final(self)@ == after_set_algorithm(old(self)@, strategy),
            !switched ==> final(self)@ == old(self)@,
    {
        let current: Strategy = match &mut self.algorithm {
            SelectedAlgorithm::RoundRobin(rr) => rr.get_strategy(),
            SelectedAlgorithm::LeastConnections(lc) => lc.get_strategy(),
        };
        if current != strategy {
            self.algorithm = match strategy {
                Strategy::RoundRobin => SelectedAlgorithm::RoundRobin(RoundRobin::new(&mut self.hosts)),
                Strategy::LeastConnections => SelectedAlgorithm::LeastConnections(LeastConnections),
            };
            return true;
        }
        false
    }

    /// Records whether `host` answered its health probe.
    pub fn set_host_health(&mut self, host: &HostAddr, health: bool)
        requires
            old(self).wf(),
        ensures
            final(self).wf(),
            final(self)@ == (LoadBalancerView {
                hosts: mark_health(old(self)@.hosts, *host, health),
                ..old(self)@
            }),
    {
        if let Some(status) = self.hosts.get(host) {
            proof {
                lemma_replace_keeps_addrs(
                    self.hosts@,
                    *host,
                    HostStatus { healthy: health, open_connections: status.open_connections },
                );
            }
            self.hosts.replace(
                host,
                HostStatus { healthy: health, open_connections: status.open_connections },
            );
        }
    }

    /// Whether some host's open connections lie far from the others': further
    /// from the median than `OVERLOAD_FACTOR_CONNECTIONS` median absolute
    /// deviations (taken as at least 1).
    pub fn is_worker_overloaded(&self) -> (r: bool)
        ensures
            r == overloaded(connection_counts(self@.hosts)),
    {
        let n: usize = self.hosts.len();
        let mut connections: Vec<u64> = Vec::new();
        for i in 0..n
            invariant
                n == self.hosts@.len(),
                connections@ == connection_counts(self.hosts@).take(i as int),
        {
            connections.push(self.hosts.entry(i).status.open_connections as u64);
            assert(connections@ == connection_counts(self.hosts@).take(i + 1));
        }
        assert(connections@ == connection_counts(self.hosts@));
        is_overloaded(&connections)
    }

    fn increase_connections(&mut self, host: &HostAddr)
        requires
            old(self).wf(),
            lookup(old(self)@.hosts, *host) matches Some(st) ==> st.open_connections < u32::MAX,
        ensures
            final(self).wf(),
            final(self)@ == (LoadBalancerView {
                hosts: add_connection(old(self)@.hosts, *host),
                ..old(self)@
            }),
    {
        if let Some(status) = self.hosts.get(host) {
            let updated = HostStatus {
                healthy: status.healthy,
                open_connections: status.open_connections + 1,
            };
            proof {
                lemma_replace_keeps_addrs(self.hosts@, *host, updated);
            }
            self.hosts.replace(host, updated);
        }
    }

    fn decrease_connections(&mut self, host: &HostAddr)
        requires
            old(self).wf(),
            lookup(old(self)@.hosts, *host) matches Some(st) ==> st.open_connections > 0,
        ensures
            final(self).wf(),
            final(self)@ == (LoadBalancerView {
                hosts: remove_connection(old(self)@.hosts, *host),
                ..old(self)@
            }),
    {
        if let Some(status) = self.hosts.get(host) {
            let updated = HostStatus {
                healthy: status.healthy,
                open_connections: status.open_connections - 1,
            };
            proof {
                lemma_replace_keeps_addrs(self.hosts@, *host, updated);
            }
            self.hosts.replace(host, updated);
        }
    }

    /// Whether a pick now could be counted without overflowing the picked
    /// host's connection count.
    pub fn pick_fits(&self) -> (r: bool)
        requires
            self.wf(),
        ensures
            r == pick_fits(self@),
    {
        match &self.algorithm {
            SelectedAlgorithm::RoundRobin(rr) => {
                let picked = rr.peek(&self.hosts);
                proof {
                    lemma_rr_step_picks_healthy(rr.ring(), self.hosts@, rr.cursor());
                }
                assert(round_robin_pick(self@) == rr_step(rr.ring(), self.hosts@, rr.cursor()));
                match picked {
                    Some(a) => {
                        let st = self.hosts.get(&a);
                        match st {
                            Some(st) => {
                                assert(forall|b: HostAddr| #[trigger] next_pick(self@, b) ==> b == a);
                                assert(next_pick(self@, a));
                                st.open_connections < u32::MAX
                            },
                            None => false,
                        }
                    },
                    None => {
                        assert(forall|b: HostAddr| !#[trigger] next_pick(self@, b));
                        true
                    },
                }
            },
            SelectedAlgorithm::LeastConnections(_) => {
                match LeastConnections::least_loaded_host(&self.hosts) {
                    Some(a) => {
                        proof {
                            lemma_least_loaded_lookup(self.hosts@, a);
                        }
                        let st: HostStatus = self.hosts.get(&a).unwrap();
                        proof {
                            let t = self.hosts@;
                            let i: int = choose|i: int|
                                first_least_loaded_row(t, i) && #[trigger] t[i].addr == a;
                            assert(next_pick(self@, a));
                            assert forall|b: HostAddr| #[trigger] next_pick(self@, b) implies b == a by {
                                let j: int = choose|j: int|
                                    first_least_loaded_row(t, j) && #[trigger] t[j].addr == b;
                                if j < i {
                                    assert(!least_loaded_row(t, j));
                                } else if i < j {
                                    assert(!least_loaded_row(t, i));
                                }
                            }
                        }
                        st.open_connections < u32::MAX
                    },
                    None => {
                        assert forall|b: HostAddr| !#[trigger] next_pick(self@, b) by {
                            if next_pick(self@, b) {
                                let t = self.hosts@;
                                let j: int = choose|j: int|
                                    first_least_loaded_row(t, j) && #[trigger] t[j].addr == b;
                                assert(t[j].status.healthy);
                            }
                        }
                        true
                    },
                }
            },
        }
    }
}

/// A least-loaded host's row: healthy, and no healthy row has fewer connections.
proof fn lemma_least_loaded_lookup(s: Seq<HostEntry>, a: HostAddr)
    requires
        distinct_addrs(s),
        least_loaded(s, a),
    ensures
        (lookup(s, a) matches Some(st) && st.healthy && forall|j: int|
            0 <= j < s.len() && s[j].status.healthy ==> st.open_connections
                <= #[trigger] s[j].status.open_connections),
{
    let i: int = choose|i: int|
        0 <= i < s.len() && #[trigger] s[i].addr == a && s[i].status.healthy && forall|j: int|
            0 <= j < s.len() && s[j].status.healthy ==> s[i].status.open_connections
                <= #[trigger] s[j].status.open_connections;
    lemma_index_of_unique(s, i);
}


} // verus!
