//! Median-based outlier detection over the hosts' open connections.
//!
//! A median of whole numbers is a whole or a half number, and a median of
//! half numbers may be a quarter number. So that everything stays an integer,
//! this module works with *twice* the median throughout.

use vstd::prelude::*;
use vstd::relations::{sorted_by, total_ordering};

use crate::utils::constants::algorithm::OVERLOAD_FACTOR_CONNECTIONS;

verus! {

/// The order in which values are sorted.
pub open spec fn ascending() -> spec_fn(u64, u64) -> bool {
    |a: u64, b: u64| a <= b
}

/// The values in ascending order.
pub open spec fn sorted_values(s: Seq<u64>) -> Seq<u64> {
    s.sort_by(ascending())
}

/// Twice the median of an ascending, non-empty sequence: twice its middle
/// value when the length is odd, the sum of its two middle values when even.
pub open spec fn twice_median_of_sorted(s: Seq<u64>) -> int {
    let n: int = s.len() as int;
    if n % 2 == 1 {
        2 * s[n / 2]
    } else {
        s[n / 2 - 1] + s[n / 2]
    }
}

/// Twice the median of a non-empty sequence.
pub open spec fn twice_median(s: Seq<u64>) -> int {
    twice_median_of_sorted(sorted_values(s))
}

pub open spec fn abs_diff(a: int, b: int) -> int {
    if a >= b {
        a - b
    } else {
        b - a
    }
}

/// Twice the distance of a value from the median, given twice the median.
pub open spec fn deviation(twice_med: int) -> spec_fn(u64) -> u64 {
    |x: u64| abs_diff(2 * x, twice_med) as u64
}

/// Twice the distance of each value from the median, given twice the median.
pub open spec fn doubled_deviations(s: Seq<u64>, twice_med: int) -> Seq<u64> {
    s.map_values(deviation(twice_med))
}

/// The overload rule, scaled by four: with `med` the median and `mad` the
/// median absolute deviation of the values, some value `x` has
/// `|x - med| > OVERLOAD_FACTOR_CONNECTIONS * max(mad, 1)`.
///
/// Here `d[i] == 2 * |x_i - med|` and `mad4 == 4 * mad`.
pub open spec fn overloaded(s: Seq<u64>) -> bool {
    &&& s.len() > 0
    &&& {
        let d = doubled_deviations(s, twice_median(s));
        let mad4: int = twice_median(d);
        let bound: int = if mad4 >= 4 {
            OVERLOAD_FACTOR_CONNECTIONS * mad4
        } else {
            4 * OVERLOAD_FACTOR_CONNECTIONS
        };
        exists|i: int| 0 <= i < s.len() && 2 * d[i] > bound
    }
}

proof fn lemma_ascending_total()
    ensures
        total_ordering(ascending()),
{
}

/// What sorting keeps: the values, and an ascending order.
pub proof fn lemma_sorted_values(s: Seq<u64>)
    ensures
        sorted_values(s).len() == s.len(),
        sorted_by(sorted_values(s), ascending()),
        sorted_values(s).to_multiset() == s.to_multiset(),
        forall|i: int| 0 <= i < s.len() ==> s.contains(#[trigger] sorted_values(s)[i]),
{
    lemma_ascending_total();
    s.lemma_sort_by_ensures(ascending());
    broadcast use vstd::seq_lib::group_to_multiset_ensures;

    assert(sorted_values(s).len() == s.len()) by {
        assert(sorted_values(s).to_multiset().len() == s.to_multiset().len());
    }
    assert forall|i: int| 0 <= i < s.len() implies s.contains(#[trigger] sorted_values(s)[i]) by {
        assert(sorted_values(s).contains(sorted_values(s)[i]));
    }
}

/// A sequence whose values all equal `c` has median `c`.
pub proof fn lemma_twice_median_constant(s: Seq<u64>, c: u64)
    requires
        s.len() > 0,
        forall|i: int| 0 <= i < s.len() ==> s[i] == c,
    ensures
        twice_median(s) == 2 * c,
{
    lemma_sorted_values(s);
    let t = sorted_values(s);
    assert forall|i: int| 0 <= i < t.len() implies t[i] == c by {
        assert(s.contains(t[i]));
    }
}

/// When every value is the same, none is an outlier: equal loads never count
/// as overloaded.
pub proof fn lemma_uniform_not_overloaded(s: Seq<u64>)
    requires
        forall|i: int, j: int| 0 <= i < s.len() && 0 <= j < s.len() ==> s[i] == s[j],
    ensures
        !overloaded(s),
{
    if s.len() > 0 {
        let c: u64 = s[0];
        lemma_twice_median_constant(s, c);
        let d = doubled_deviations(s, 2 * c);
        assert forall|i: int| 0 <= i < d.len() implies d[i] == 0u64 by {
            assert(s[i] == c);
        }
        lemma_twice_median_constant(d, 0);
    }
}

/// The sorted form of values that all equal `c` but the one at `k`, `x`:
/// `x` comes last when it is at least `c`, first otherwise.
#[verifier::spinoff_prover]
proof fn lemma_sorted_one_apart(s: Seq<u64>, k: int, c: u64)
    requires
        0 <= k < s.len(),
        forall|i: int| 0 <= i < s.len() && i != k ==> s[i] == c,
    ensures
        sorted_values(s) == (if s[k] >= c {
            Seq::new((s.len() - 1) as nat, |i: int| c).push(s[k])
        } else {
            seq![s[k]] + Seq::new((s.len() - 1) as nat, |i: int| c)
        }),
{
    let n: int = s.len() as int;
    let x: u64 = s[k];
    let pre = s.subrange(0, k);
    let suf = s.subrange(k + 1, n);
    let cs = Seq::new((n - 1) as nat, |i: int| c);
    assert(s == pre + seq![x] + suf);
    assert(cs == pre + suf);
    broadcast use vstd::seq_lib::lemma_multiset_commutative;
    broadcast use vstd::multiset::group_multiset_axioms;

    let t = if x >= c {
        cs.push(x)
    } else {
        seq![x] + cs
    };
    assert(t.to_multiset() == s.to_multiset()) by {
        assert(cs.push(x) == cs + seq![x]);
        assert(s.to_multiset() =~= pre.to_multiset().add(seq![x].to_multiset()).add(
            suf.to_multiset(),
        ));
        assert(cs.to_multiset() =~= pre.to_multiset().add(suf.to_multiset()));
    }
    assert(sorted_by(t, ascending()));
    lemma_sorted_values(s);
    lemma_ascending_total();
    vstd::seq_lib::lemma_sorted_unique(t, sorted_values(s), ascending());
}

/// Of at least three values that all equal `c` but one, the median is `c`.
#[verifier::spinoff_prover]
proof fn lemma_twice_median_one_apart(s: Seq<u64>, k: int, c: u64)
    requires
        s.len() >= 3,
        0 <= k < s.len(),
        forall|i: int| 0 <= i < s.len() && i != k ==> s[i] == c,
    ensures
        twice_median(s) == 2 * c,
{
    let n: int = s.len() as int;
    lemma_sorted_one_apart(s, k, c);
    let t = sorted_values(s);
    assert(t[n / 2] == c);
    if n % 2 == 0 {
        assert(t[n / 2 - 1] == c);
    }
}

/// Of at least three values that all equal `c` but one, `x`, the median is
/// `c`; the others have no spread, so the odd one is overloaded exactly when
/// it lies more than `OVERLOAD_FACTOR_CONNECTIONS` away from `c`.
#[verifier::spinoff_prover]
pub proof fn lemma_single_outlier(s: Seq<u64>, k: int, c: u64)
    requires
        s.len() >= 3,
        0 <= k < s.len(),
        forall|i: int| 0 <= i < s.len() && i != k ==> s[i] == c,
        s[k] <= u32::MAX,
        c <= u32::MAX,
    ensures
        twice_median(s) == 2 * c,
        overloaded(s) <==> abs_diff(s[k] as int, c as int) > OVERLOAD_FACTOR_CONNECTIONS,
{
    let n: int = s.len() as int;
    lemma_twice_median_one_apart(s, k, c);
    let d = doubled_deviations(s, 2 * c);
    assert(d.len() == n);
    assert forall|i: int| 0 <= i < n && i != k implies d[i] == 0u64 by {
        assert(s[i] == c);
    }
    lemma_twice_median_one_apart(d, k, 0);
    assert(d[k] == 2 * abs_diff(s[k] as int, c as int));
    if abs_diff(s[k] as int, c as int) > OVERLOAD_FACTOR_CONNECTIONS {
        assert(2 * d[k] > 4 * OVERLOAD_FACTOR_CONNECTIONS);
    } else {
        assert forall|i: int| 0 <= i < n implies !(2 * d[i] > 4 * OVERLOAD_FACTOR_CONNECTIONS) by {
            if i != k {
                assert(d[i] == 0);
            }
        }
    }
}

/// The overload rule, for every number of values: a value further from the
/// median than `OVERLOAD_FACTOR_CONNECTIONS` times the median absolute
/// deviation (taken as at least 1) makes the load overloaded, and only such a
/// value does. With `m2` twice the median and `mad4` four times the MAD, `x`
/// lies `|2x - m2| / 2` from the median.
pub proof fn lemma_overloaded_iff_far_value(s: Seq<u64>)
    requires
        forall|i: int| 0 <= i < s.len() ==> s[i] <= u32::MAX,
    ensures
        overloaded(s) <==> exists|i: int|
            #![trigger s[i]]
            0 <= i < s.len() && {
                let m2: int = twice_median(s);
                let mad4: int = twice_median(doubled_deviations(s, m2));
                4 * abs_diff(2 * s[i], m2) > OVERLOAD_FACTOR_CONNECTIONS * (if mad4 >= 4 {
                    mad4
                } else {
                    4
                }) * 2
            },
{
    if s.len() > 0 {
        lemma_sorted_values(s);
        let t = sorted_values(s);
        let n: int = s.len() as int;
        assert(s.contains(t[n / 2]));
        if n % 2 == 0 {
            assert(s.contains(t[n / 2 - 1]));
        }
        let m2: int = twice_median(s);
        assert(0 <= m2 <= 2 * (u32::MAX as int));
        let d = doubled_deviations(s, m2);
        assert forall|i: int| 0 <= i < n implies #[trigger] d[i] == abs_diff(2 * s[i], m2) by {
            assert(s[i] <= u32::MAX);
        }
        let mad4: int = twice_median(d);
        let big: int = if mad4 >= 4 {
            mad4
        } else {
            4
        };
        let bound: int = if mad4 >= 4 {
            OVERLOAD_FACTOR_CONNECTIONS * mad4
        } else {
            4 * OVERLOAD_FACTOR_CONNECTIONS
        };
        assert(bound == OVERLOAD_FACTOR_CONNECTIONS * big);
        if overloaded(s) {
            let i: int = choose|i: int| 0 <= i < s.len() && 2 * d[i] > bound;
            assert(d[i] == abs_diff(2 * s[i], m2));
            assert(4 * abs_diff(2 * s[i], m2) > OVERLOAD_FACTOR_CONNECTIONS * big * 2);
        }
        if exists|i: int|
            #![trigger s[i]]
            0 <= i < s.len() && 4 * abs_diff(2 * s[i], m2) > OVERLOAD_FACTOR_CONNECTIONS * big * 2 {
            let i: int = choose|i: int|
                #![trigger s[i]]
                0 <= i < s.len() && 4 * abs_diff(2 * s[i], m2) > OVERLOAD_FACTOR_CONNECTIONS * big
                    * 2;
            assert(d[i] == abs_diff(2 * s[i], m2));
            assert(2 * d[i] > bound);
        }
    }
}

/// The rule's branch for a spread load (MAD of at least 1), for any number of
/// values: a value whose distance from the median exceeds
/// `OVERLOAD_FACTOR_CONNECTIONS` MADs makes the load overloaded.
pub proof fn lemma_far_value_overloads(s: Seq<u64>, i: int)
    requires
        forall|j: int| 0 <= j < s.len() ==> s[j] <= u32::MAX,
        0 <= i < s.len(),
        twice_median(doubled_deviations(s, twice_median(s))) >= 4,
        2 * abs_diff(2 * s[i], twice_median(s)) > OVERLOAD_FACTOR_CONNECTIONS * twice_median(
            doubled_deviations(s, twice_median(s)),
        ),
    ensures
        overloaded(s),
{
    lemma_overloaded_iff_far_value(s);
    let m2: int = twice_median(s);
    let mad4: int = twice_median(doubled_deviations(s, m2));
    assert(4 * abs_diff(2 * s[i], m2) > OVERLOAD_FACTOR_CONNECTIONS * mad4 * 2);
}

/// Applying the same function to two arrangements of the same values gives
/// two arrangements of the same results.
proof fn lemma_map_keeps_multiset<A, B>(a: Seq<A>, b: Seq<A>, f: spec_fn(A) -> B)
    requires
        a.to_multiset() == b.to_multiset(),
    ensures
        a.map_values(f).to_multiset() == b.map_values(f).to_multiset(),
    decreases a.len(),
{
    broadcast use vstd::seq_lib::group_to_multiset_ensures;
    broadcast use vstd::multiset::group_multiset_axioms;

    if a.len() == 0 {
        assert(b.to_multiset().len() == 0);
        assert(b.len() == 0);
        assert(a.map_values(f) =~= b.map_values(f));
    } else {
        let x: A = a.last();
        let a1 = a.drop_last();
        assert(a == a1.push(x));
        vstd::seq_lib::to_multiset_build(a1, x);
        assert(a.to_multiset().count(x) > 0);
        assert(b.contains(x));
        let j: int = choose|j: int| 0 <= j < b.len() && b[j] == x;
        let b1 = b.remove(j);
        vstd::seq_lib::to_multiset_remove(b, j);
        assert(a1.to_multiset() =~= b1.to_multiset());
        lemma_map_keeps_multiset(a1, b1, f);
        assert(a.map_values(f) == a1.map_values(f).push(f(x)));
        vstd::seq_lib::to_multiset_build(a1.map_values(f), f(x));
        assert(b.map_values(f) == b1.map_values(f).insert(j, f(x)));
        vstd::seq_lib::to_multiset_insert(b1.map_values(f), j, f(x));
    }
}

/// Two arrangements of the same values sort alike, so have the same median.
proof fn lemma_same_values_same_sort(s1: Seq<u64>, s2: Seq<u64>)
    requires
        s1.to_multiset() == s2.to_multiset(),
    ensures
        sorted_values(s1) == sorted_values(s2),
        twice_median(s1) == twice_median(s2),
        s1.len() == s2.len(),
{
    broadcast use vstd::seq_lib::group_to_multiset_ensures;

    lemma_sorted_values(s1);
    lemma_sorted_values(s2);
    lemma_ascending_total();
    vstd::seq_lib::lemma_sorted_unique(sorted_values(s1), sorted_values(s2), ascending());
    assert(s1.to_multiset().len() == s2.to_multiset().len());
}

/// Whether the hosts are overloaded depends only on which counts there are,
/// not on which host carries which.
pub proof fn lemma_overloaded_permutation(s1: Seq<u64>, s2: Seq<u64>)
    requires
        s1.to_multiset() == s2.to_multiset(),
    ensures
        overloaded(s1) == overloaded(s2),
{
    lemma_same_values_same_sort(s1, s2);
    let m: int = twice_median(s1);
    let d1 = doubled_deviations(s1, m);
    let d2 = doubled_deviations(s2, m);
    lemma_map_keeps_multiset(s1, s2, deviation(m));
    lemma_same_values_same_sort(d1, d2);
    lemma_overloaded_transfer(s1, s2, m);
    lemma_overloaded_transfer(s2, s1, m);
}

/// An outlying deviation in `s1` is one in `s2` when `s2` holds every value of `s1`.
proof fn lemma_overloaded_transfer(s1: Seq<u64>, s2: Seq<u64>, m: int)
    requires
        s1.to_multiset() == s2.to_multiset(),
        s1.len() == s2.len(),
        twice_median(s1) == m,
        twice_median(s2) == m,
        twice_median(doubled_deviations(s1, m)) == twice_median(doubled_deviations(s2, m)),
    ensures
        overloaded(s1) ==> overloaded(s2),
{
    broadcast use vstd::seq_lib::group_to_multiset_ensures;

    if overloaded(s1) {
        let d1 = doubled_deviations(s1, m);
        let d2 = doubled_deviations(s2, m);
        let mad4: int = twice_median(d1);
        let bound: int = if mad4 >= 4 {
            OVERLOAD_FACTOR_CONNECTIONS * mad4
        } else {
            4 * OVERLOAD_FACTOR_CONNECTIONS
        };
        let i: int = choose|i: int| 0 <= i < s1.len() && 2 * d1[i] > bound;
        let x: u64 = s1[i];
        assert(s1.contains(x));
        assert(s2.to_multiset().count(x) > 0);
        assert(s2.contains(x));
        let j: int = choose|j: int| 0 <= j < s2.len() && s2[j] == x;
        assert(d2[j] == d1[i]);
        assert(2 * d2[j] > bound);
    }
}

/// Shifting a value by `k`.
pub open spec fn shifted(k: u64) -> spec_fn(u64) -> u64 {
    |x: u64| (x + k) as u64
}

/// Whether the hosts are overloaded does not change when every count grows
/// by the same amount.
pub proof fn lemma_overloaded_shift(s: Seq<u64>, k: u64)
    requires
        forall|i: int| 0 <= i < s.len() ==> s[i] + k <= u32::MAX,
    ensures
        overloaded(s.map_values(shifted(k))) == overloaded(s),
{
    let t = s.map_values(shifted(k));
    lemma_sorted_values(s);
    let ss = sorted_values(s);
    let st = ss.map_values(shifted(k));
    assert forall|i: int| 0 <= i < ss.len() implies ss[i] + k <= u32::MAX by {
        assert(s.contains(ss[i]));
    }
    lemma_map_keeps_multiset(ss, s, shifted(k));
    lemma_ascending_total();
    assert(sorted_by(st, ascending())) by {
        assert forall|a: int, b: int| 0 <= a < b < st.len() implies #[trigger] ascending()(
            st[a],
            st[b],
        ) by {
            assert(ascending()(ss[a], ss[b]));
        }
    }
    lemma_sorted_values(t);
    vstd::seq_lib::lemma_sorted_unique(st, sorted_values(t), ascending());
    if s.len() > 0 {
        let m: int = twice_median(s);
        assert(twice_median(t) == m + 2 * k);
        assert(doubled_deviations(t, m + 2 * k) =~= doubled_deviations(s, m));
    }
}

/// Returns the values in ascending order.
fn sort_ascending(v: &Vec<u64>) -> (r: Vec<u64>)
    ensures
        r@ == sorted_values(v@),
{
    let mut out: Vec<u64> = Vec::new();
    let n: usize = v.len();
    assert(out@ == v@.take(0));
    for i in 0..n
        invariant
            n == v@.len(),
            out@.len() == i,
            sorted_by(out@, ascending()),
            out@.to_multiset() == v@.take(i as int).to_multiset(),
    {
        let x: u64 = v[i];
        let mut j: usize = 0;
        while j < out.len() && out[j] <= x
            invariant
                j <= out@.len(),
                forall|k: int| 0 <= k < j ==> out@[k] <= x,
            decreases out@.len() - j,
        {
            j = j + 1;
        }
        let ghost before = out@;
        out.insert(j, x);
        proof {
            assert forall|a: int, b: int| 0 <= a < b < out@.len() implies #[trigger] ascending()(
                out@[a],
                out@[b],
            ) by {
                if b < j {
                } else if b == j {
                } else if a < j {
                    assert(before[a] <= x);
                    assert(ascending()(before[j as int], before[b - 1]) || j == b - 1);
                } else if a == j {
                    assert(ascending()(before[j as int], before[b - 1]) || j == b - 1);
                } else {
                    assert(ascending()(before[a - 1], before[b - 1]));
                }
            }
            vstd::seq_lib::to_multiset_insert(before, j as int, x);
            vstd::seq_lib::to_multiset_build(v@.take(i as int), x);
            assert(v@.take(i as int).push(x) == v@.take(i + 1));
        }
    }
    proof {
        assert(v@.take(n as int) == v@);
        lemma_sorted_values(v@);
        lemma_ascending_total();
        vstd::seq_lib::lemma_sorted_unique(out@, sorted_values(v@), ascending());
    }
    out
}

/// Twice the median of non-empty `v`.
fn twice_median_exec(v: &Vec<u64>) -> (r: u64)
    requires
        v@.len() > 0,
        forall|i: int| 0 <= i < v@.len() ==> v@[i] <= 0x1_0000_0000_0000,
    ensures
        r == twice_median(v@),
        r <= 0x2_0000_0000_0000,
{
    let s = sort_ascending(v);
    proof {
        lemma_sorted_values(v@);
        assert(s@[(s@.len() / 2) as int] <= 0x1_0000_0000_0000) by {
            assert(v@.contains(s@[(s@.len() / 2) as int]));
        }
    }
    let n: usize = s.len();
    if n % 2 == 1 {
        2 * s[n / 2]
    } else {
        proof {
            assert(v@.contains(s@[(s@.len() / 2) as int - 1]));
        }
        s[n / 2 - 1] + s[n / 2]
    }
}

/// Whether some value lies further than `OVERLOAD_FACTOR_CONNECTIONS` median
/// absolute deviations (at least 1) from the median of `counts`.
pub fn is_overloaded(counts: &Vec<u64>) -> (r: bool)
    requires
        forall|i: int| 0 <= i < counts@.len() ==> counts@[i] <= u32::MAX,
    ensures
        r == overloaded(counts@),
{
    let n: usize = counts.len();
    if n == 0 {
        return false;
    }
    let m2: u64 = twice_median_exec(counts);
    proof {
        lemma_sorted_values(counts@);
        let t = sorted_values(counts@);
        assert(counts@.contains(t[(t.len() / 2) as int]));
        if t.len() % 2 == 0 {
            assert(counts@.contains(t[(t.len() / 2) as int - 1]));
        }
    }
    assert(m2 <= 2 * (u32::MAX as int));
    let ghost d_spec = doubled_deviations(counts@, m2 as int);
    let mut devs: Vec<u64> = Vec::new();
    for i in 0..n
        invariant
            n == counts@.len(),
            forall|k: int| 0 <= k < counts@.len() ==> counts@[k] <= u32::MAX,
            m2 <= 2 * (u32::MAX as int),
            m2 == twice_median(counts@),
            d_spec == doubled_deviations(counts@, m2 as int),
            devs@ == d_spec.take(i as int),
    {
        let twice_x: u64 = 2 * counts[i];
        let d: u64 = if twice_x >= m2 {
            twice_x - m2
        } else {
            m2 - twice_x
        };
        devs.push(d);
        assert(devs@ == d_spec.take(i + 1));
    }
    assert(devs@ == d_spec);
    assert forall|k: int| 0 <= k < n implies #[trigger] d_spec[k] <= 0x2_0000_0000 by {
        assert(counts@[k] <= u32::MAX);
    }
    let mad4: u64 = twice_median_exec(&devs);
    let bound: u64 = if mad4 >= 4 {
        OVERLOAD_FACTOR_CONNECTIONS * mad4
    } else {
        4 * OVERLOAD_FACTOR_CONNECTIONS
    };
    let mut i: usize = 0;
    while i < n
        invariant
            n == devs@.len(),
            n == counts@.len(),
            devs@ == d_spec,
            d_spec == doubled_deviations(counts@, twice_median(counts@)),
            mad4 == twice_median(d_spec),
            bound == (if mad4 >= 4 {
                OVERLOAD_FACTOR_CONNECTIONS * mad4
            } else {
                4 * OVERLOAD_FACTOR_CONNECTIONS
            }),
            forall|k: int| 0 <= k < i ==> 2 * d_spec[k] <= bound,
            forall|k: int| 0 <= k < n ==> d_spec[k] <= 0x2_0000_0000,
        decreases n - i,
    {
        if 2 * devs[i] > bound {
            assert(2 * d_spec[i as int] > bound);
            return true;
        }
        i = i + 1;
    }
    false
}

} // verus!
