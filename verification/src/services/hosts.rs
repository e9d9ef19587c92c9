use vstd::prelude::*;

verus! {

/// The IP part of an upstream host's socket address.
#[derive(Clone, Copy, Debug, PartialEq, Eq, Hash, Structural)]
pub enum HostIp {
    V4(u32),
    V6(u128),
}

/// The socket address of an upstream host.
#[derive(Clone, Copy, Debug, PartialEq, Eq, Hash, Structural)]
pub struct HostAddr {
    pub ip: HostIp,
    pub port: u16,
}

impl HostAddr {
    /// The address `a.b.c.d:port`.
    pub fn v4(a: u8, b: u8, c: u8, d: u8, port: u16) -> (addr: HostAddr)
        ensures
            addr.ip == HostIp::V4((a * 16777216 + b * 65536 + c * 256 + d) as u32),
            addr.port == port,
    {
        let ip: u32 = (a as u32) * 16777216 + (b as u32) * 65536 + (c as u32) * 256 + (d as u32);
        HostAddr { ip: HostIp::V4(ip), port }
    }
}

/// What the load balancer knows of one upstream host.
#[derive(Clone, Copy, Debug, PartialEq, Eq, Structural)]
pub struct HostStatus {
    pub healthy: bool,
    pub open_connections: u32,
}

impl HostStatus {
    /// A host that has not been probed yet is taken to be healthy and idle.
    pub fn new() -> (s: HostStatus)
        ensures
            s.healthy,
            s.open_connections == 0,
    {
        HostStatus { healthy: true, open_connections: 0 }
    }
}

impl Default for HostStatus {
    fn default() -> (s: HostStatus)
        ensures
            !s.healthy,
            s.open_connections == 0,
    {
        HostStatus { healthy: false, open_connections: 0 }
    }
}

/// One row of the host table.
#[derive(Clone, Copy, Debug, PartialEq, Eq, Structural)]
pub struct HostEntry {
    pub addr: HostAddr,
    pub status: HostStatus,
}

/// No address occurs twice in the table.
pub open spec fn distinct_addrs(s: Seq<HostEntry>) -> bool {
    forall|i: int, j: int| 0 <= i < j < s.len() ==> s[i].addr != s[j].addr
}

/// The table holds a row for `a`.
pub open spec fn has_addr(s: Seq<HostEntry>, a: HostAddr) -> bool {
    exists|i: int| 0 <= i < s.len() && s[i].addr == a
}

/// The position of the row for `a` (meaningful when `has_addr(s, a)`).
pub open spec fn index_of(s: Seq<HostEntry>, a: HostAddr) -> int {
    choose|i: int| 0 <= i < s.len() && s[i].addr == a
}

/// The status recorded for `a`, if the table has a row for it.
pub open spec fn lookup(s: Seq<HostEntry>, a: HostAddr) -> Option<HostStatus> {
    if has_addr(s, a) {
        Some(s[index_of(s, a)].status)
    } else {
        None
    }
}

/// `a` has a row and is marked healthy.
pub open spec fn is_healthy(s: Seq<HostEntry>, a: HostAddr) -> bool {
    lookup(s, a) matches Some(st) && st.healthy
}

/// The addresses in table order.
pub open spec fn addrs_of(s: Seq<HostEntry>) -> Seq<HostAddr> {
    s.map_values(|e: HostEntry| e.addr)
}

/// The table after writing `st` for `a`: the row is replaced when there is
/// one, else a row is appended.
pub open spec fn table_insert(s: Seq<HostEntry>, a: HostAddr, st: HostStatus) -> Seq<HostEntry> {
    if has_addr(s, a) {
        s.update(index_of(s, a), HostEntry { addr: a, status: st })
    } else {
        s.push(HostEntry { addr: a, status: st })
    }
}

/// The table after replacing the status of `a`; unchanged when `a` has no row.
pub open spec fn table_replace(s: Seq<HostEntry>, a: HostAddr, st: HostStatus) -> Seq<HostEntry> {
    if has_addr(s, a) {
        s.update(index_of(s, a), HostEntry { addr: a, status: st })
    } else {
        s
    }
}

/// In a table without repeated addresses, the row at `i` is the row of its address.
pub proof fn lemma_index_of_unique(s: Seq<HostEntry>, i: int)
    requires
        distinct_addrs(s),
        0 <= i < s.len(),
    ensures
        has_addr(s, s[i].addr),
        index_of(s, s[i].addr) == i,
        lookup(s, s[i].addr) == Some(s[i].status),
{
    assert(has_addr(s, s[i].addr));
    let k: int = index_of(s, s[i].addr);
    if k != i {
        if k < i {
            assert(s[k].addr != s[i].addr);
        } else {
            assert(s[i].addr != s[k].addr);
        }
    }
}

/// Replacing a status leaves every other address's status as it was, and
/// keeps the addresses distinct.
pub proof fn lemma_lookup_after_replace(s: Seq<HostEntry>, a: HostAddr, st: HostStatus, b: HostAddr)
    requires
        distinct_addrs(s),
    ensures
        distinct_addrs(table_replace(s, a, st)),
        lookup(table_replace(s, a, st), b) == if b == a && has_addr(s, a) {
            Some(st)
        } else {
            lookup(s, b)
        },
{
    if has_addr(s, a) {
        let i: int = index_of(s, a);
        let t: Seq<HostEntry> = table_replace(s, a, st);
        assert(t[i].addr == a);
        assert(distinct_addrs(t));
        lemma_index_of_unique(t, i);
        if b != a {
            if has_addr(s, b) {
                let k: int = index_of(s, b);
                assert(t[k] == s[k]);
                lemma_index_of_unique(s, k);
                lemma_index_of_unique(t, k);
            } else {
                assert(!has_addr(t, b));
            }
        }
    }
}

/// The upstream hosts and their status, keyed by address.
pub struct HostTable {
    entries: Vec<HostEntry>,
}

impl View for HostTable {
    type V = Seq<HostEntry>;

    closed spec fn view(&self) -> Seq<HostEntry> {
        self.entries@
    }
}

impl HostTable {
    /// Every address occurs once.
    pub open spec fn wf(&self) -> bool {
        distinct_addrs(self@)
    }

    pub fn new() -> (t: HostTable)
        ensures
            t@ == Seq::<HostEntry>::empty(),
            t.wf(),
    {
        HostTable { entries: Vec::new() }
    }

    /// The position of the row for `addr`.
    fn find(&self, addr: &HostAddr) -> (r: Option<usize>)
        requires
            self.wf(),
        ensures
            r is None <==> !has_addr(self@, *addr),
            r matches Some(i) ==> i < self@.len() && i == index_of(self@, *addr)
                && self@[i as int].addr == *addr,
    {
        let mut i: usize = 0;
        while i < self.entries.len()
            invariant
                i <= self.entries@.len(),
                self.entries@ == self@,
                self.wf(),
                forall|j: int| 0 <= j < i ==> self@[j].addr != *addr,
            decreases self.entries@.len() - i,
        {
            if self.entries[i].addr == *addr {
                proof {
                    lemma_index_of_unique(self@, i as int);
                }
                return Some(i);
            }
            i = i + 1;
        }
        None
    }

    /// Writes `status` for `addr`, adding a row when there is none.
    pub fn insert(&mut self, addr: HostAddr, status: HostStatus)
        requires
            old(self).wf(),
        ensures
            final(self)@ == table_insert(old(self)@, addr, status),
            final(self).wf(),
    {
        match self.find(&addr) {
            Some(i) => {
                self.entries.set(i, HostEntry { addr, status });
            },
            None => {
                self.entries.push(HostEntry { addr, status });
            },
        }
    }

    /// Replaces the status of `addr`; does nothing when `addr` has no row.
    pub fn replace(&mut self, addr: &HostAddr, status: HostStatus)
        requires
            old(self).wf(),
        ensures
            final(self)@ == table_replace(old(self)@, *addr, status),
            final(self).wf(),
    {
        match self.find(addr) {
            Some(i) => {
                self.entries.set(i, HostEntry { addr: *addr, status });
            },
            None => {},
        }
    }

    /// The status of `addr`, if it has a row.
    pub fn get(&self, addr: &HostAddr) -> (r: Option<HostStatus>)
        requires
            self.wf(),
        ensures
            r == lookup(self@, *addr),
    {
        match self.find(addr) {
            Some(i) => Some(self.entries[i].status),
            None => None,
        }
    }

    pub fn contains_key(&self, addr: &HostAddr) -> (r: bool)
        requires
            self.wf(),
        ensures
            r == has_addr(self@, *addr),
    {
        self.find(addr).is_some()
    }

    pub fn len(&self) -> (n: usize)
        ensures
            n == self@.len(),
    {
        self.entries.len()
    }

    /// The row at position `i`.
    pub fn entry(&self, i: usize) -> (e: HostEntry)
        requires
            i < self@.len(),
        ensures
            e == self@[i as int],
    {
        self.entries[i]
    }

    /// The addresses, in table order.
    pub fn keys(&self) -> (v: Vec<HostAddr>)
        ensures
            v@ == addrs_of(self@),
    {
        let mut v: Vec<HostAddr> = Vec::new();
        let mut i: usize = 0;
        while i < self.entries.len()
            invariant
                i <= self.entries@.len(),
                self.entries@ == self@,
                v@ == addrs_of(self@).take(i as int),
            decreases self.entries@.len() - i,
        {
            v.push(self.entries[i].addr);
            i = i + 1;
            assert(v@ == addrs_of(self@).take(i as int));
        }
        assert(addrs_of(self@).take(i as int) == addrs_of(self@));
        v
    }
}

} // verus!
