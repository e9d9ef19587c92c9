use vstd::prelude::*;
use vstd::arithmetic::div_mod::{
    lemma_add_mod_noop_right, lemma_mod_add_multiples_vanish, lemma_small_mod,
};

use crate::services::hosts::{addrs_of, is_healthy, HostAddr, HostEntry, HostTable};
use crate::services::strategies::{Algorithm, Strategy};

verus! {

/// The host `k` places after position `c` on the ring.
pub open spec fn rr_slot(ring: Seq<HostAddr>, c: int, k: int) -> HostAddr {
    ring[(c + k) % (ring.len() as int)]
}

/// The first `k` in `from..=ring.len()` whose slot after `c` is healthy.
pub open spec fn rr_scan(ring: Seq<HostAddr>, table: Seq<HostEntry>, c: int, from: int) -> Option<int>
    decreases ring.len() + 1 - from,
{
    if from > ring.len() || from < 1 {
        None
    } else if is_healthy(table, rr_slot(ring, c, from)) {
        Some(from)
    } else {
        rr_scan(ring, table, c, from + 1)
    }
}

/// One round-robin pick from cursor `c`: the next healthy host after `c`
/// around the ring, and the cursor moved onto it; when no host on the ring
/// is healthy, no host, and the cursor after a full turn.
pub open spec fn rr_step(ring: Seq<HostAddr>, table: Seq<HostEntry>, c: int) -> (int, Option<HostAddr>) {
    let n: int = ring.len() as int;
    if n == 0 {
        (c, None)
    } else {
        match rr_scan(ring, table, c, 1) {
            Some(k) => ((c + k) % n, Some(rr_slot(ring, c, k))),
            None => ((c + n) % n, None),
        }
    }
}

/// The cursor after `m` picks from cursor `c`, with the table unchanged.
pub open spec fn rr_cursor_after(ring: Seq<HostAddr>, table: Seq<HostEntry>, c: int, m: nat) -> int
    decreases m,
{
    if m == 0 {
        c
    } else {
        rr_step(ring, table, rr_cursor_after(ring, table, c, (m - 1) as nat)).0
    }
}

/// What `rr_scan` finds: the first healthy slot at or after `from`, or that
/// there is none up to a full turn.
pub proof fn lemma_rr_scan(ring: Seq<HostAddr>, table: Seq<HostEntry>, c: int, from: int)
    requires
        ring.len() > 0,
        1 <= from,
    ensures
        rr_scan(ring, table, c, from) matches Some(k) ==> {
            &&& from <= k <= ring.len()
            &&& is_healthy(table, rr_slot(ring, c, k))
            &&& forall|j: int| from <= j < k ==> !is_healthy(table, #[trigger] rr_slot(ring, c, j))
        },
        rr_scan(ring, table, c, from) is None ==> forall|j: int|
            from <= j <= ring.len() ==> !is_healthy(table, #[trigger] rr_slot(ring, c, j)),
    decreases ring.len() + 1 - from,
{
    if from <= ring.len() && !is_healthy(table, rr_slot(ring, c, from)) {
        lemma_rr_scan(ring, table, c, from + 1);
    }
}

/// A round-robin pick looks at the table only through the hosts' health.
pub proof fn lemma_rr_step_health_only(
    ring: Seq<HostAddr>,
    t1: Seq<HostEntry>,
    t2: Seq<HostEntry>,
    c: int,
)
    requires
        forall|a: HostAddr| #[trigger] is_healthy(t1, a) == is_healthy(t2, a),
    ensures
        rr_step(ring, t1, c) == rr_step(ring, t2, c),
{
    lemma_rr_scan_health_only(ring, t1, t2, c, 1);
}

proof fn lemma_rr_scan_health_only(
    ring: Seq<HostAddr>,
    t1: Seq<HostEntry>,
    t2: Seq<HostEntry>,
    c: int,
    from: int,
)
    requires
        forall|a: HostAddr| #[trigger] is_healthy(t1, a) == is_healthy(t2, a),
    ensures
        rr_scan(ring, t1, c, from) == rr_scan(ring, t2, c, from),
    decreases ring.len() + 1 - from,
{
    if 1 <= from <= ring.len() {
        assert(is_healthy(t1, rr_slot(ring, c, from)) == is_healthy(t2, rr_slot(ring, c, from)));
        lemma_rr_scan_health_only(ring, t1, t2, c, from + 1);
    }
}

/// A pick that hands out a host leaves the cursor on that host's position
/// (on the ring), and one that hands out none leaves the cursor where it was.
pub proof fn lemma_rr_cursor_on_pick(ring: Seq<HostAddr>, table: Seq<HostEntry>, c: int)
    requires
        ring.len() > 0,
        0 <= c < ring.len(),
    ensures
        0 <= rr_step(ring, table, c).0 < ring.len(),
        rr_step(ring, table, c).1 matches Some(a) ==> ring[rr_step(ring, table, c).0] == a,
        rr_step(ring, table, c).1 is None ==> rr_step(ring, table, c).0 == c,
{
    lemma_rr_step_picks_healthy(ring, table, c);
    lemma_mod_add_multiples_vanish(c, ring.len() as int);
    lemma_small_mod(c as nat, ring.len() as nat);
}

/// With the table unchanged and the ring's addresses distinct, two picks in a
/// row never hand out the same host while another host of the ring is
/// healthy: the healthy hosts take turns.
pub proof fn lemma_rr_consecutive_picks_differ(
    ring: Seq<HostAddr>,
    table: Seq<HostEntry>,
    c: int,
    q: int,
)
    requires
        ring.len() > 0,
        0 <= c < ring.len(),
        0 <= q < ring.len(),
        forall|i: int, j: int| 0 <= i < j < ring.len() ==> ring[i] != ring[j],
        rr_step(ring, table, c).1 is Some,
        is_healthy(table, ring[q]),
        ring[q] != rr_step(ring, table, c).1->0,
    ensures
        rr_step(ring, table, rr_step(ring, table, c).0).1 is Some,
        rr_step(ring, table, rr_step(ring, table, c).0).1 != rr_step(ring, table, c).1,
{
    let n: int = ring.len() as int;
    lemma_rr_cursor_on_pick(ring, table, c);
    let p: int = rr_step(ring, table, c).0;
    let a: HostAddr = rr_step(ring, table, c).1->0;
    assert(ring[p] == a);
    assert(q != p);
    let kq: int = lemma_rr_slots_cover(n, p, q);
    assert(kq < n) by {
        if kq == n {
            lemma_mod_add_multiples_vanish(p, n);
            lemma_small_mod(p as nat, n as nat);
        }
    }
    lemma_rr_scan(ring, table, p, 1);
    assert(rr_slot(ring, p, kq) == ring[q]);
    let k: int = rr_scan(ring, table, p, 1)->0;
    assert(k <= kq);
    let p2: int = (p + k) % n;
    assert(p2 != p) by {
        lemma_small_mod(p as nat, n as nat);
        if p + k < n {
            lemma_small_mod((p + k) as nat, n as nat);
        } else {
            lemma_mod_add_multiples_vanish(p + k - n, n);
            lemma_small_mod((p + k - n) as nat, n as nat);
        }
    }
    assert(rr_step(ring, table, p).1 == Some(ring[p2]));
    assert(0 <= p2 < n);
    if p < p2 {
        assert(ring[p] != ring[p2]);
    } else {
        assert(ring[p2] != ring[p]);
    }
}

/// Every position of the ring is the slot `k` after `c` for some `k` in `1..=n`.
proof fn lemma_rr_slots_cover(n: int, c: int, p: int) -> (k: int)
    requires
        0 < n,
        0 <= c < n,
        0 <= p < n,
    ensures
        1 <= k <= n,
        (c + k) % n == p,
{
    let k: int = if p > c {
        p - c
    } else {
        p - c + n
    };
    if p > c {
        lemma_small_mod(p as nat, n as nat);
    } else {
        lemma_mod_add_multiples_vanish(p, n);
        lemma_small_mod(p as nat, n as nat);
    }
    k
}

/// A round-robin pick hands out only healthy hosts of the ring, and hands out
/// none exactly when no host of the ring is healthy.
pub proof fn lemma_rr_step_picks_healthy(ring: Seq<HostAddr>, table: Seq<HostEntry>, c: int)
    requires
        ring.len() == 0 || 0 <= c < ring.len(),
    ensures
        rr_step(ring, table, c).1 matches Some(a) ==> is_healthy(table, a) && ring.contains(a),
        rr_step(ring, table, c).1 is None <==> forall|i: int|
            0 <= i < ring.len() ==> !is_healthy(table, #[trigger] ring[i]),
        ring.len() == 0 || 0 <= rr_step(ring, table, c).0 < ring.len(),
        ring.len() == 0 ==> rr_step(ring, table, c).0 == c,
{
    let n: int = ring.len() as int;
    if n > 0 {
        lemma_rr_scan(ring, table, c, 1);
        match rr_scan(ring, table, c, 1) {
            Some(k) => {
                let p: int = (c + k) % n;
                assert(ring[p] == rr_slot(ring, c, k));
            },
            None => {
                assert forall|i: int| 0 <= i < n implies !is_healthy(table, #[trigger] ring[i]) by {
                    let k: int = lemma_rr_slots_cover(n, c, i);
                    assert(rr_slot(ring, c, k) == ring[i]);
                }
                lemma_mod_add_multiples_vanish(c, n);
                lemma_small_mod(c as nat, n as nat);
            },
        }
    }
}

/// With every host of the ring healthy, a pick moves the cursor one place and
/// hands out the host there: the `m`-th pick hands out the host `m` places
/// after the starting cursor.
pub proof fn lemma_round_robin_cycle(ring: Seq<HostAddr>, table: Seq<HostEntry>, c: int, m: nat)
    requires
        ring.len() > 0,
        0 <= c < ring.len(),
        forall|i: int| 0 <= i < ring.len() ==> is_healthy(table, #[trigger] ring[i]),
    ensures
        rr_cursor_after(ring, table, c, m) == (c + m) % (ring.len() as int),
        rr_step(ring, table, rr_cursor_after(ring, table, c, m)).1 == Some(
            ring[(c + m + 1) % (ring.len() as int)],
        ),
    decreases m,
{
    let n: int = ring.len() as int;
    if m > 0 {
        lemma_round_robin_cycle(ring, table, c, (m - 1) as nat);
    }
    let x: int = rr_cursor_after(ring, table, c, m);
    assert(x == (c + m) % n) by {
        if m == 0 {
            lemma_small_mod(c as nat, n as nat);
        } else {
            let y: int = rr_cursor_after(ring, table, c, (m - 1) as nat);
            assert(is_healthy(table, rr_slot(ring, y, 1)));
            lemma_add_mod_noop_right(1, c + m - 1, n);
        }
    }
    assert(is_healthy(table, rr_slot(ring, x, 1)));
    lemma_add_mod_noop_right(1, c + m, n);
}

/// Picks from offset `o` after `c` (reached after `m <= o` picks) walk
/// forward over the healthy slots, so the healthy slot at offset `k` is
/// handed out by a pick before the `k`-th.
proof fn lemma_rr_reaches_healthy(
    ring: Seq<HostAddr>,
    table: Seq<HostEntry>,
    c: int,
    k: int,
    o: int,
    m: nat,
) -> (r: nat)
    requires
        ring.len() > 0,
        0 <= c < ring.len(),
        1 <= k <= ring.len(),
        is_healthy(table, rr_slot(ring, c, k)),
        0 <= o < k,
        m <= o,
        rr_cursor_after(ring, table, c, m) == (c + o) % (ring.len() as int),
    ensures
        r < k,
        rr_step(ring, table, rr_cursor_after(ring, table, c, r)).1 == Some(rr_slot(ring, c, k)),
    decreases k - o,
{
    let n: int = ring.len() as int;
    let x: int = (c + o) % n;
    assert forall|t: int| #![trigger rr_slot(ring, x, t)] rr_slot(ring, x, t) == rr_slot(ring, c, o + t) by {
        lemma_add_mod_noop_right(t, c + o, n);
    }
    lemma_rr_scan(ring, table, x, 1);
    assert(rr_slot(ring, x, k - o) == rr_slot(ring, c, k));
    let t: int = rr_scan(ring, table, x, 1)->0;
    assert(t <= k - o);
    if t == k - o {
        m
    } else {
        assert(rr_cursor_after(ring, table, c, m + 1) == (x + t) % n);
        lemma_add_mod_noop_right(t, c + o, n);
        lemma_rr_reaches_healthy(ring, table, c, k, o + t, m + 1)
    }
}

/// From any cursor, with the hosts' health unchanged, every healthy host of
/// the ring is handed out by one of the next `n` picks, whichever hosts are
/// down.
pub proof fn lemma_round_robin_serves_every_healthy(
    ring: Seq<HostAddr>,
    table: Seq<HostEntry>,
    c: int,
    p: int,
) -> (m: nat)
    requires
        ring.len() > 0,
        0 <= c < ring.len(),
        0 <= p < ring.len(),
        is_healthy(table, ring[p]),
    ensures
        m < ring.len(),
        rr_step(ring, table, rr_cursor_after(ring, table, c, m)).1 == Some(ring[p]),
{
    let n: int = ring.len() as int;
    let k: int = lemma_rr_slots_cover(n, c, p);
    lemma_small_mod(c as nat, n as nat);
    lemma_rr_reaches_healthy(ring, table, c, k, 0, 0)
}

/// With every host of the ring healthy, `n` picks hand out each position of
/// the ring once and bring the cursor back where it started.
pub proof fn lemma_round_robin_full_turn(ring: Seq<HostAddr>, table: Seq<HostEntry>, c: int)
    requires
        ring.len() > 0,
        0 <= c < ring.len(),
        forall|i: int| 0 <= i < ring.len() ==> is_healthy(table, #[trigger] ring[i]),
    ensures
        rr_cursor_after(ring, table, c, ring.len()) == c,
        forall|p: int|
            #![trigger ring[p]]
            0 <= p < ring.len() ==> exists|m: nat|
                #![trigger rr_cursor_after(ring, table, c, m)]
                m < ring.len() && rr_step(ring, table, rr_cursor_after(ring, table, c, m)).1
                    == Some(ring[p]),
{
    let n: int = ring.len() as int;
    assert(rr_cursor_after(ring, table, c, ring.len()) == c) by {
        lemma_round_robin_cycle(ring, table, c, ring.len());
        lemma_mod_add_multiples_vanish(c, n);
        lemma_small_mod(c as nat, n as nat);
    }
    assert forall|p: int| #![trigger ring[p]] 0 <= p < ring.len() implies exists|m: nat|
        #![trigger rr_cursor_after(ring, table, c, m)]
        m < ring.len() && rr_step(ring, table, rr_cursor_after(ring, table, c, m)).1
            == Some(ring[p]) by {
        let m: nat = lemma_round_robin_reaches(ring, table, c, p);
    }
}

/// With every host of the ring healthy, position `p` is handed out by one of
/// the next `n` picks.
proof fn lemma_round_robin_reaches(ring: Seq<HostAddr>, table: Seq<HostEntry>, c: int, p: int) -> (m: nat)
    requires
        ring.len() > 0,
        0 <= c < ring.len(),
        0 <= p < ring.len(),
        forall|i: int| 0 <= i < ring.len() ==> is_healthy(table, #[trigger] ring[i]),
    ensures
        m < ring.len(),
        rr_step(ring, table, rr_cursor_after(ring, table, c, m)).1 == Some(ring[p]),
{
    let k: int = lemma_rr_slots_cover(ring.len() as int, c, p);
    let m: nat = (k - 1) as nat;
    lemma_round_robin_cycle(ring, table, c, m);
    m
}

/// Hands the healthy hosts out in turn, in the order the table listed them
/// when the strategy was set up.
#[derive(Debug)]
pub struct RoundRobin {
    last_host: usize,
    hosts_vec: Vec<HostAddr>,
}

impl Clone for RoundRobin {
    fn clone(&self) -> (r: RoundRobin)
        ensures
            r.cursor() == self.cursor(),
            r.ring() == self.ring(),
    {
        let mut hosts_vec: Vec<HostAddr> = Vec::new();
        let n: usize = self.hosts_vec.len();
        for i in 0..n
            invariant
                n == self.hosts_vec@.len(),
                hosts_vec@ == self.hosts_vec@.take(i as int),
        {
            hosts_vec.push(self.hosts_vec[i]);
            assert(hosts_vec@ == self.hosts_vec@.take(i + 1));
        }
        assert(self.hosts_vec@.take(n as int) == self.hosts_vec@);
        RoundRobin { last_host: self.last_host, hosts_vec }
    }
}

impl Default for RoundRobin {
    fn default() -> (r: RoundRobin)
        ensures
            r.cursor() == 0,
            r.ring() == Seq::<HostAddr>::empty(),
    {
        RoundRobin { last_host: 0, hosts_vec: Vec::new() }
    }
}

impl RoundRobin {
    /// The position of the host handed out last.
    pub closed spec fn cursor(&self) -> int {
        self.last_host as int
    }

    /// The hosts, in the order they are handed out.
    pub closed spec fn ring(&self) -> Seq<HostAddr> {
        self.hosts_vec@
    }

    /// A round robin over the table's hosts, in table order.
    pub fn new(hosts: &mut HostTable) -> (rr: RoundRobin)
        ensures
            rr.cursor() == 0,
            rr.ring() == addrs_of(old(hosts)@),
            final(hosts)@ == old(hosts)@,
    {
        let hosts_vec: Vec<HostAddr> = hosts.keys();
        RoundRobin { hosts_vec, last_host: 0 }
    }

    /// The host the next pick would hand out, without moving the cursor.
    pub fn peek(&self, hosts: &HostTable) -> (picked: Option<HostAddr>)
        requires
            self.wf(),
            hosts.wf(),
        ensures
            picked == rr_step(self.ring(), hosts@, self.cursor()).1,
    {
        self.scan(hosts).1
    }

    /// Walks the ring from the cursor, one host at a time, at most once
    /// around, and stops at the first healthy host.
    fn scan(&self, hosts: &HostTable) -> (r: (usize, Option<HostAddr>))
        requires
            self.wf(),
            hosts.wf(),
        ensures
            (r.0 as int, r.1) == rr_step(self.ring(), hosts@, self.cursor()),
            self.ring().len() > 0 ==> r.0 < self.ring().len(),
            self.ring().len() == 0 ==> r.0 == 0,
            r.1 matches Some(a) ==> self.ring()[r.0 as int] == a,
            r.1 is None ==> r.0 as int == self.cursor(),
    {
        let n: usize = self.hosts_vec.len();
        let ghost c: int = self.last_host as int;
        let ghost ring: Seq<HostAddr> = self.hosts_vec@;
        let ghost table: Seq<HostEntry> = hosts@;
        proof {
            if n > 0 {
                lemma_rr_scan(ring, table, c, 1);
                lemma_small_mod(c as nat, n as nat);
            }
        }
        let mut cursor: usize = self.last_host;
        let mut t: usize = 0;
        while t < n
            invariant
                n == ring.len(),
                ring == self.ring(),
                c == self.cursor(),
                table == hosts@,
                hosts.wf(),
                n > 0 ==> 0 <= c < n,
                t <= n,
                n > 0 ==> cursor as int == (c + t) % (n as int),
                n == 0 ==> cursor == 0 && c == 0,
                n > 0 ==> rr_scan(ring, table, c, 1) == rr_scan(ring, table, c, t + 1),
            decreases n - t,
        {
            proof {
                lemma_add_mod_noop_right(1, c + t, n as int);
            }
            cursor = (cursor + 1) % n;
            t = t + 1;
            let addr: HostAddr = self.hosts_vec[cursor];
            assert(addr == rr_slot(ring, c, t as int));
            match hosts.get(&addr) {
                Some(status) => {
                    if status.healthy {
                        proof {
                            assert(is_healthy(table, rr_slot(ring, c, t as int)));
                            assert(rr_scan(ring, table, c, t as int) == Some(t as int));
                        }
                        return (cursor, Some(addr));
                    }
                },
                None => {},
            }
        }
        proof {
            if n > 0 {
                lemma_mod_add_multiples_vanish(c, n as int);
                lemma_small_mod(c as nat, n as nat);
            }
        }
        (cursor, None)
    }
}

impl Algorithm for RoundRobin {
    open spec fn kind(&self) -> Strategy {
        Strategy::RoundRobin
    }

    open spec fn wf(&self) -> bool {
        if self.ring().len() == 0 {
            self.cursor() == 0
        } else {
            0 <= self.cursor() < self.ring().len()
        }
    }

    /// Moves the cursor onto the next healthy host after it and hands that
    /// host out; tries each host at most once.
    fn get_host(&mut self, hosts: &mut HostTable) -> (picked: Option<HostAddr>)
        ensures
            (final(self).cursor(), picked) == rr_step(old(self).ring(), old(hosts)@, old(self).cursor()),
            final(self).ring() == old(self).ring(),
            picked matches Some(a) ==> final(self).ring()[final(self).cursor()] == a,
            picked is None ==> final(self).cursor() == old(self).cursor(),
    {
        proof {
            lemma_rr_step_picks_healthy(self.ring(), hosts@, self.cursor());
        }
        let (cursor, picked) = self.scan(hosts);
        self.last_host = cursor;
        picked
    }

    fn get_strategy(&mut self) -> (s: Strategy) {
        Strategy::RoundRobin
    }
}

} // verus!
