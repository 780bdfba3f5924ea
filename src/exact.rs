//! The exact solver: a dynamic program over visited-node bitmasks.
use vstd::prelude::*;
use crate::model::{
    arc_value, arcs_present, is_tour, later_at_end, lemma_distinct_len, lemma_later_extend,
    lemma_permutation_len, lemma_route_cost_concat, matrix_arcs, matrix_cost, route_cost,
    outcome, SolveError, SolverResult,
};

verus! {

/// The largest node count the exact solver accepts: its tables hold
/// `2^n * n` entries.
pub const MAX_EXACT_NODES: usize = 20;

/// Node `i` belongs to the node set `m`.
pub open spec fn bit(m: u64, i: int) -> bool {
    0 <= i < 64 && m & (1u64 << (i as u64)) != 0
}

proof fn lemma_bit_single(s: u64, i: u64)
    requires
        s < 64,
        i < 64,
    ensures
        bit(1u64 << s, i as int) <==> i == s,
{
    assert(((1u64 << s) & (1u64 << i) != 0) <==> i == s) by (bit_vector)
        requires
            s < 64,
            i < 64,
    ;
}

proof fn lemma_bit_clear(m: u64, l: u64, i: u64)
    requires
        l < 64,
        i < 64,
        bit(m, l as int),
    ensures
        (m ^ (1u64 << l)) < m,
        bit(m ^ (1u64 << l), i as int) <==> (bit(m, i as int) && i != l),
{
    assert((m & (1u64 << l)) != 0 ==> (m ^ (1u64 << l)) < m) by (bit_vector)
        requires
            l < 64,
    ;
    assert((m & (1u64 << l)) != 0 ==> ((((m ^ (1u64 << l)) & (1u64 << i)) != 0) <==> ((m & (1u64 << i)) != 0
        && i != l))) by (bit_vector)
        requires
            l < 64,
            i < 64,
    ;
}

proof fn lemma_bit_range(m: u64, n: u64, i: u64)
    requires
        n <= 20,
        i < 64,
        m < (1u64 << n),
    ensures
        bit(m, i as int) ==> i < n,
{
    assert(i >= n ==> (m & (1u64 << i)) == 0) by (bit_vector)
        requires
            n <= 20,
            i < 64,
            m < (1u64 << n),
    ;
}

proof fn lemma_bit_full(n: u64, i: u64)
    requires
        n <= 20,
        i < 64,
    ensures
        bit(((1u64 << n) - 1) as u64, i as int) <==> i < n,
{
    assert(((((1u64 << n) - 1) as u64 & (1u64 << i)) != 0) <==> i < n) by (bit_vector)
        requires
            n <= 20,
            i < 64,
    ;
}

proof fn lemma_bit_empty(i: u64)
    requires
        i < 64,
    ensures
        !bit(0, i as int),
{
    assert((0u64 & (1u64 << i)) == 0) by (bit_vector)
        requires
            i < 64,
    ;
}

proof fn lemma_pow_bounds(n: u64, s: u64)
    requires
        n <= 20,
        s < n,
    ensures
        1 <= (1u64 << n) <= 0x100000,
        (1u64 << s) < (1u64 << n),
{
    assert(1 <= (1u64 << n) <= 0x100000) by (bit_vector)
        requires
            n <= 20,
    ;
    assert((1u64 << s) < (1u64 << n)) by (bit_vector)
        requires
            n <= 20,
            s < n,
    ;
}

proof fn lemma_shr_eq(a: u64, b: u64, k: u64)
    requires
        k < 64,
        forall|i: int| k <= i < 64 ==> (bit(a, i) <==> bit(b, i)),
    ensures
        a >> k == b >> k,
    decreases 64 - k,
{
    assert(bit(a, k as int) <==> bit(b, k as int));
    if k == 63 {
        assert(((a & (1u64 << 63u64)) != 0) == ((b & (1u64 << 63u64)) != 0) ==> (a >> 63u64) == (b >> 63u64))
            by (bit_vector);
    } else {
        lemma_shr_eq(a, b, (k + 1) as u64);
        let k1 = (k + 1) as u64;
        assert(k < 63 && k1 == k + 1 && (a >> k1) == (b >> k1) && ((a & (1u64 << k)) != 0) == ((b & (1u64 << k))
            != 0) ==> (a >> k) == (b >> k)) by (bit_vector);
    }
}

/// Two node sets with the same members are equal.
proof fn lemma_bits_ext(a: u64, b: u64)
    requires
        forall|i: int| 0 <= i < 64 ==> (bit(a, i) <==> bit(b, i)),
    ensures
        a == b,
{
    lemma_shr_eq(a, b, 0);
    assert(a >> 0u64 == a && b >> 0u64 == b) by (bit_vector);
}

/// `p` starts at `start`, ends at `l`, visits exactly the nodes of `m`
/// (among `0..n`) once each, and uses present arcs only.
pub open spec fn is_dp_path(
    arc: spec_fn(usize, usize) -> Option<u64>,
    p: Seq<usize>,
    start: usize,
    m: u64,
    l: int,
    n: nat,
) -> bool {
    &&& p.len() >= 1
    &&& p[0] == start
    &&& p.last() == l
    &&& p.no_duplicates()
    &&& forall|k: int| 0 <= k < p.len() ==> (#[trigger] p[k]) < n
    &&& arcs_present(arc, p)
    &&& forall|i: usize| i < n ==> (bit(m, i as int) <==> p.contains(i))
}

/// Entry `(m, l)` of the tables is backed by its predecessor link.
pub open spec fn link_ok(
    arc: spec_fn(usize, usize) -> Option<u64>,
    dp: Seq<Vec<Option<u128>>>,
    parent: Seq<Vec<usize>>,
    n: nat,
    start: usize,
    m: u64,
    l: int,
) -> bool {
    let v = dp[m as int]@[l].unwrap();
    &&& bit(m, l)
    &&& v <= m as int * u64::MAX as int
    &&& if m == (1u64 << (start as u64)) {
        l == start && v == 0 && parent[m as int]@[l] == n
    } else {
        let p = parent[m as int]@[l];
        let pm = m ^ (1u64 << (l as u64));
        &&& p < n
        &&& p != l
        &&& bit(m, p as int)
        &&& pm < dp.len()
        &&& dp[pm as int]@[p as int] is Some
        &&& arc(p, l as usize) is Some
        &&& v == dp[pm as int]@[p as int].unwrap() + arc(p, l as usize).unwrap()
    }
}

/// Every filled entry is backed by its predecessor link.
#[verifier::opaque]
pub open spec fn links_ok(
    arc: spec_fn(usize, usize) -> Option<u64>,
    dp: Seq<Vec<Option<u128>>>,
    parent: Seq<Vec<usize>>,
    n: nat,
    start: usize,
) -> bool {
    forall|m: u64, l: int|
        0 <= l < n && m < dp.len() && (#[trigger] dp[m as int]@[l]) is Some ==> link_ok(arc, dp, parent, n, start, m, l)
}

/// The predecessor of each filled entry is the lowest node through which
/// the entry's cost is reached: every lower candidate costs more.
#[verifier::opaque]
pub open spec fn parents_least(
    arc: spec_fn(usize, usize) -> Option<u64>,
    dp: Seq<Vec<Option<u128>>>,
    parent: Seq<Vec<usize>>,
    n: nat,
    start: usize,
) -> bool {
    forall|m: u64, l: int, q: usize|
        0 <= l < n && m < dp.len() && m != (1u64 << (start as u64)) && (#[trigger] dp[m as int]@[l]) is Some
            && q < parent[m as int]@[l] && q != l && bit(m, q as int)
            && (m ^ (1u64 << (l as u64))) < dp.len()
            && #[trigger] dp[(m ^ (1u64 << (l as u64))) as int]@[q as int] is Some && arc(q, l as usize) is Some
            ==> dp[(m ^ (1u64 << (l as u64))) as int]@[q as int].unwrap() + arc(q, l as usize).unwrap()
                > dp[m as int]@[l].unwrap()
}

/// Entry `(m, l)` is at most the cost of every path it stands for.
pub open spec fn lower_ok(
    arc: spec_fn(usize, usize) -> Option<u64>,
    dp: Seq<Vec<Option<u128>>>,
    n: nat,
    start: usize,
    m: u64,
    l: int,
) -> bool {
    forall|p: Seq<usize>| #[trigger] is_dp_path(arc, p, start, m, l, n)
        ==> dp[m as int]@[l] is Some && dp[m as int]@[l].unwrap() <= route_cost(arc, p)
}

/// Both tables hold `size` rows of `n` entries.
pub open spec fn shaped(dp: Seq<Vec<Option<u128>>>, parent: Seq<Vec<usize>>, size: int, n: nat) -> bool {
    &&& dp.len() == size
    &&& parent.len() == size
    &&& forall|m: int| 0 <= m < size ==> (#[trigger] dp[m])@.len() == n && parent[m]@.len() == n
}

/// No entry of a set from `from` on is filled, but the start entry.
#[verifier::opaque]
pub open spec fn empty_from(dp: Seq<Vec<Option<u128>>>, n: nat, base: u64, from: int) -> bool {
    forall|m: u64, l: int| from <= m < dp.len() && 0 <= l < n && m != base ==> (#[trigger] dp[m as int]@[l]) is None
}

/// Every entry of a set below `mask` bounds its paths.
#[verifier::opaque]
pub open spec fn lower_below(
    arc: spec_fn(usize, usize) -> Option<u64>,
    dp: Seq<Vec<Option<u128>>>,
    n: nat,
    start: usize,
    mask: u64,
) -> bool {
    forall|m: u64, l: int| m < mask && 0 <= l < n ==> #[trigger] lower_ok(arc, dp, n, start, m, l)
}

/// Every entry `(mask, l)` with `l < last` bounds its paths.
#[verifier::opaque]
pub open spec fn lower_row(
    arc: spec_fn(usize, usize) -> Option<u64>,
    dp: Seq<Vec<Option<u128>>>,
    n: nat,
    start: usize,
    mask: u64,
    last: int,
) -> bool {
    forall|l: int| 0 <= l < last ==> #[trigger] lower_ok(arc, dp, n, start, mask, l)
}

/// Lowering entry `(mask, last)` to a cost reached through `prev` keeps the
/// table invariants.
proof fn lemma_relax(
    arc: spec_fn(usize, usize) -> Option<u64>,
    d0: Seq<Vec<Option<u128>>>,
    par0: Seq<Vec<usize>>,
    d1: Seq<Vec<Option<u128>>>,
    par1: Seq<Vec<usize>>,
    n: nat,
    start: usize,
    base: u64,
    mask: u64,
    last: usize,
    prev: usize,
    nc: u128,
)
    requires
        shaped(d0, par0, d0.len() as int, n),
        links_ok(arc, d0, par0, n, start),
        empty_from(d0, n, base, mask + 1),
        lower_below(arc, d0, n, start, mask),
        lower_row(arc, d0, n, start, mask, last as int),
        base == (1u64 << (start as u64)),
        base < d0.len(),
        d0[base as int]@[start as int] == Some(0u128),
        start < n,
        n <= 20,
        mask < d0.len(),
        last < n,
        prev < n,
        prev != last,
        bit(mask, last as int),
        bit(mask, prev as int),
        (mask ^ (1u64 << (last as u64))) < mask,
        d0[(mask ^ (1u64 << (last as u64))) as int]@[prev as int] is Some,
        arc(prev, last) is Some,
        nc == d0[(mask ^ (1u64 << (last as u64))) as int]@[prev as int].unwrap() + arc(prev, last).unwrap(),
        nc <= mask as int * u64::MAX as int,
        d1.len() == d0.len(),
        par1.len() == par0.len(),
        forall|m: int| 0 <= m < d0.len() && m != mask ==> d1[m] == d0[m] && par1[m] == par0[m],
        d1[mask as int]@ == d0[mask as int]@.update(last as int, Some(nc)),
        par1[mask as int]@ == par0[mask as int]@.update(last as int, prev),
    ensures
        shaped(d1, par1, d0.len() as int, n),
        links_ok(arc, d1, par1, n, start),
        empty_from(d1, n, base, mask + 1),
        lower_below(arc, d1, n, start, mask),
        lower_row(arc, d1, n, start, mask, last as int),
        d1[base as int]@[start as int] == Some(0u128),
{
    reveal(links_ok);
    reveal(empty_from);
    reveal(lower_below);
    reveal(lower_row);
    let pm = mask ^ (1u64 << (last as u64));
    if mask == base {
        lemma_bit_single(start as u64, last as u64);
        lemma_bit_single(start as u64, prev as u64);
    }
    assert forall|m: int| 0 <= m < d0.len() implies (#[trigger] d1[m])@.len() == n && par1[m]@.len() == n by {
        if m != mask {
            assert(d1[m] == d0[m]);
        }
    }
    assert forall|m: u64, l: int| 0 <= l < n && m < d1.len() && (#[trigger] d1[m as int]@[l]) is Some
        implies link_ok(arc, d1, par1, n, start, m, l) by {
        if m == mask && l == last {
            assert(d1[pm as int] == d0[pm as int]);
        } else {
            assert(d1[m as int]@[l] == d0[m as int]@[l]);
            assert(par1[m as int]@[l] == par0[m as int]@[l]);
            assert(link_ok(arc, d0, par0, n, start, m, l));
            if m != base {
                let l64 = l as u64;
                lemma_bit_clear(m, l64, 0);
                let q = m ^ (1u64 << l64);
                if q == mask {
                    assert(m > mask);
                    assert(false);
                }
                assert(d1[q as int] == d0[q as int]);
            }
        }
    }
    assert forall|m: u64, l: int| m < mask && 0 <= l < n implies #[trigger] lower_ok(arc, d1, n, start, m, l) by {
        assert(lower_ok(arc, d0, n, start, m, l));
        assert(d1[m as int] == d0[m as int]);
    }
    assert forall|l: int| 0 <= l < last implies #[trigger] lower_ok(arc, d1, n, start, mask, l) by {
        assert(lower_ok(arc, d0, n, start, mask, l));
        assert(d1[mask as int]@[l] == d0[mask as int]@[l]);
    }
    assert forall|m: u64, l: int| mask + 1 <= m < d1.len() && 0 <= l < n && m != base
        implies (#[trigger] d1[m as int]@[l]) is None by {
        assert(d1[m as int] == d0[m as int]);
    }
    if mask != base {
        assert(d1[base as int] == d0[base as int]);
    }
}

/// Lowering entry `(mask, last)` through `prev`, lower than every candidate
/// through a lower node, keeps every predecessor the lowest one.
proof fn lemma_relax_parents(
    arc: spec_fn(usize, usize) -> Option<u64>,
    d0: Seq<Vec<Option<u128>>>,
    par0: Seq<Vec<usize>>,
    d1: Seq<Vec<Option<u128>>>,
    par1: Seq<Vec<usize>>,
    n: nat,
    start: usize,
    base: u64,
    mask: u64,
    last: usize,
    prev: usize,
    nc: u128,
)
    requires
        shaped(d0, par0, d0.len() as int, n),
        links_ok(arc, d0, par0, n, start),
        empty_from(d0, n, base, mask + 1),
        parents_least(arc, d0, par0, n, start),
        base == (1u64 << (start as u64)),
        start < n,
        n <= 20,
        mask < d0.len(),
        last < n,
        bit(mask, last as int),
        (mask ^ (1u64 << (last as u64))) < mask,
        d0[mask as int]@[last as int] is None || nc < d0[mask as int]@[last as int].unwrap(),
        forall|q: usize| q < prev && q != last && bit(mask, q as int)
            && d0[(mask ^ (1u64 << (last as u64))) as int]@[q as int] is Some && arc(q, last) is Some
            ==> d0[mask as int]@[last as int] is Some && d0[mask as int]@[last as int].unwrap()
            <= d0[(mask ^ (1u64 << (last as u64))) as int]@[q as int].unwrap() + arc(q, last).unwrap(),
        d1.len() == d0.len(),
        par1.len() == par0.len(),
        forall|m: int| 0 <= m < d0.len() && m != mask ==> d1[m] == d0[m] && par1[m] == par0[m],
        d1[mask as int]@ == d0[mask as int]@.update(last as int, Some(nc)),
        par1[mask as int]@ == par0[mask as int]@.update(last as int, prev),
    ensures
        parents_least(arc, d1, par1, n, start),
{
    reveal(links_ok);
    reveal(empty_from);
    let pm = mask ^ (1u64 << (last as u64));
    assert(d1[pm as int] == d0[pm as int]);
    reveal(parents_least);
    assert forall|m: u64, l: int, q: usize|
        0 <= l < n && m < d1.len() && m != base && (#[trigger] d1[m as int]@[l]) is Some
            && q < par1[m as int]@[l] && q != l && bit(m, q as int)
            && (m ^ (1u64 << (l as u64))) < d1.len()
            && #[trigger] d1[(m ^ (1u64 << (l as u64))) as int]@[q as int] is Some && arc(q, l as usize) is Some
        implies d1[(m ^ (1u64 << (l as u64))) as int]@[q as int].unwrap() + arc(q, l as usize).unwrap()
                > d1[m as int]@[l].unwrap() by {
        let pq = m ^ (1u64 << (l as u64));
        if m == mask && l == last {
            assert(d1[pm as int] == d0[pm as int]);
        } else {
            assert(d1[m as int]@[l] == d0[m as int]@[l]);
            assert(par1[m as int]@[l] == par0[m as int]@[l]);
            assert(link_ok(arc, d0, par0, n, start, m, l));
            lemma_bit_clear(m, l as u64, 0);
            if pq == mask {
                assert(m > mask);
                assert(false);
            }
            assert(d1[pq as int] == d0[pq as int]);
        }
    }
}

/// Once every predecessor of `(mask, last)` was tried, the entry bounds
/// every path it stands for.
proof fn lemma_row_entry(
    arc: spec_fn(usize, usize) -> Option<u64>,
    dp: Seq<Vec<Option<u128>>>,
    n: nat,
    start: usize,
    base: u64,
    mask: u64,
    last: usize,
)
    requires
        n <= 20,
        start < n,
        last < n,
        base == (1u64 << (start as u64)),
        base < dp.len(),
        dp[base as int]@[start as int] == Some(0u128),
        mask < (1u64 << (n as u64)),
        lower_below(arc, dp, n, start, mask),
        bit(mask, last as int) ==> (mask ^ (1u64 << (last as u64))) < mask,
        bit(mask, last as int) ==> forall|q: usize| q < n && q != last && bit(mask, q as int)
            && dp[(mask ^ (1u64 << (last as u64))) as int]@[q as int] is Some && arc(q, last) is Some
            ==> dp[mask as int]@[last as int] is Some && dp[mask as int]@[last as int].unwrap()
            <= dp[(mask ^ (1u64 << (last as u64))) as int]@[q as int].unwrap() + arc(q, last).unwrap(),
    ensures
        lower_ok(arc, dp, n, start, mask, last as int),
{
    reveal(lower_below);
    let pm = mask ^ (1u64 << (last as u64));
    assert forall|p: Seq<usize>| #[trigger] is_dp_path(arc, p, start, mask, last as int, n)
        implies dp[mask as int]@[last as int] is Some && dp[mask as int]@[last as int].unwrap() <= route_cost(arc, p) by {
        assert(p.contains(last));
        if p.len() == 1 {
            assert forall|i: int| 0 <= i < 64 implies (bit(mask, i) <==> bit(base, i)) by {
                lemma_bit_single(start as u64, i as u64);
                lemma_bit_range(mask, n as u64, i as u64);
                if i < n {
                    assert(p.contains(i as usize) <==> i == start);
                }
            }
            lemma_bits_ext(mask, base);
            assert(route_cost(arc, p) == 0);
        } else {
            let q = p[p.len() - 2];
            let pre = p.drop_last();
            assert(q != last);
            assert(p.contains(q));
            assert(bit(mask, q as int));
            assert forall|i: usize| i < n implies (bit(pm, i as int) <==> pre.contains(i)) by {
                lemma_bit_clear(mask, last as u64, i as u64);
                if pre.contains(i) {
                    let k = choose|k: int| 0 <= k < pre.len() && pre[k] == i;
                    assert(p[k] == i);
                    assert(i != last);
                }
                if p.contains(i) && i != last {
                    let k = choose|k: int| 0 <= k < p.len() && p[k] == i;
                    assert(k != p.len() - 1);
                    assert(pre[k] == i);
                }
            }
            assert forall|k: int| 0 <= k < pre.len() - 1 implies (#[trigger] arc(pre[k], pre[k + 1])).is_some() by {
                assert(arc(p[k], p[k + 1]).is_some());
            }
            assert(is_dp_path(arc, pre, start, pm, q as int, n));
            assert(lower_ok(arc, dp, n, start, pm, q as int));
            let i2 = p.len() - 2;
            assert(arc(p[i2], p[i2 + 1]).is_some());
        }
    }
}

/// Fills the tables for paths that start at `start`: afterwards every entry
/// is backed by a link and bounds every path it stands for.
#[verifier::rlimit(50)]
fn fill_tables(distance_matrix: &Vec<Vec<Option<u64>>>, n: usize, start: usize) -> (r: (
    Vec<Vec<Option<u128>>>,
    Vec<Vec<usize>>,
))
    requires
        n == distance_matrix@.len(),
        1 <= n <= MAX_EXACT_NODES,
        start < n,
    ensures
        r.0@.len() == (1u64 << (n as u64)),
        shaped(r.0@, r.1@, r.0@.len() as int, n as nat),
        links_ok(matrix_arcs(distance_matrix@), r.0@, r.1@, n as nat, start),
        parents_least(matrix_arcs(distance_matrix@), r.0@, r.1@, n as nat, start),
        lower_below(matrix_arcs(distance_matrix@), r.0@, n as nat, start, (1u64 << (n as u64))),
{
    let ghost arc = matrix_arcs(distance_matrix@);
    let size64: u64 = 1u64 << (n as u64);
    proof {
        lemma_pow_bounds(n as u64, start as u64);
    }
    let size: usize = size64 as usize;
    let mut dp: Vec<Vec<Option<u128>>> = vec![vec![None; n]; size];
    let mut parent: Vec<Vec<usize>> = vec![vec![n; n]; size];
    let base: u64 = 1u64 << (start as u64);
    dp[base as usize][start] = Some(0);
    proof {
        reveal(parents_least);
        reveal(links_ok);
        reveal(empty_from);
        reveal(lower_below);
        lemma_bit_single(start as u64, start as u64);
        assert forall|m: u64, l: int| 0 <= l < n && m < dp@.len() && (#[trigger] dp@[m as int]@[l]) is Some
            implies link_ok(arc, dp@, parent@, n as nat, start, m, l) by {
            assert(m == base && l == start);
        }
        assert forall|m: u64, l: int| m < 1 && 0 <= l < n implies #[trigger] lower_ok(arc, dp@, n as nat, start, m, l) by {
            assert forall|p: Seq<usize>| #[trigger] is_dp_path(arc, p, start, m, l, n as nat) implies false by {
                assert(p.contains(start));
                lemma_bit_empty(start as u64);
            }
        }
    }
    let mut mask: u64 = 1;
    while mask < size64
        invariant
            1 <= mask <= size64,
            size64 == (1u64 << (n as u64)),
            size == size64,
            1 <= size64 <= 0x100000,
            base == (1u64 << (start as u64)),
            base < size64,
                n == distance_matrix@.len(),
            1 <= n <= MAX_EXACT_NODES,
            start < n,
            arc == matrix_arcs(distance_matrix@),
            shaped(dp@, parent@, size as int, n as nat),
            dp@[base as int]@[start as int] == Some(0u128),
            links_ok(arc, dp@, parent@, n as nat, start),
            parents_least(arc, dp@, parent@, n as nat, start),
            empty_from(dp@, n as nat, base, mask as int),
            lower_below(arc, dp@, n as nat, start, mask),
        decreases size64 - mask,
    {
        proof {
            reveal(empty_from);
            reveal(lower_row);
        }
        for last in 0..n
            invariant
                1 <= mask < size64,
                size64 == (1u64 << (n as u64)),
                size == size64,
                1 <= size64 <= 0x100000,
                base == (1u64 << (start as u64)),
                base < size64,
                        n == distance_matrix@.len(),
                1 <= n <= MAX_EXACT_NODES,
                start < n,
                arc == matrix_arcs(distance_matrix@),
                shaped(dp@, parent@, size as int, n as nat),
                dp@[base as int]@[start as int] == Some(0u128),
                links_ok(arc, dp@, parent@, n as nat, start),
                parents_least(arc, dp@, parent@, n as nat, start),
                empty_from(dp@, n as nat, base, mask + 1),
                lower_below(arc, dp@, n as nat, start, mask),
                lower_row(arc, dp@, n as nat, start, mask, last as int),
        {
            let pm: u64 = mask ^ (1u64 << (last as u64));
            if mask & (1u64 << (last as u64)) != 0 {
                proof {
                    lemma_bit_clear(mask, last as u64, 0);
                }
                for prev in 0..n
                    invariant
                        1 <= mask < size64,
                        size64 == (1u64 << (n as u64)),
                        size == size64,
                        base == (1u64 << (start as u64)),
                        base < size64,
                                        n == distance_matrix@.len(),
                        1 <= n <= MAX_EXACT_NODES,
                        start < n,
                        last < n,
                        bit(mask, last as int),
                        pm == mask ^ (1u64 << (last as u64)),
                        pm < mask,
                        arc == matrix_arcs(distance_matrix@),
                        shaped(dp@, parent@, size as int, n as nat),
                        dp@[base as int]@[start as int] == Some(0u128),
                        links_ok(arc, dp@, parent@, n as nat, start),
                        parents_least(arc, dp@, parent@, n as nat, start),
                        empty_from(dp@, n as nat, base, mask + 1),
                        lower_below(arc, dp@, n as nat, start, mask),
                        lower_row(arc, dp@, n as nat, start, mask, last as int),
                        forall|q: usize| q < prev && q != last && bit(mask, q as int) && dp@[pm as int]@[q as int] is Some
                            && arc(q, last) is Some ==> dp@[mask as int]@[last as int] is Some
                            && dp@[mask as int]@[last as int].unwrap() <= dp@[pm as int]@[q as int].unwrap() + arc(q, last).unwrap(),
                {
                    if prev != last && mask & (1u64 << (prev as u64)) != 0 {
                        let from_prev = dp[pm as usize][prev];
                        let step = matrix_cost(distance_matrix, prev, last);
                        assert(step == arc(prev, last));
                        if let (Some(w), Some(c)) = (from_prev, step) {
                            assert(link_ok(arc, dp@, parent@, n as nat, start, pm, prev as int)) by {
                                reveal(links_ok);
                            }
                            assert(w + c <= mask as int * u64::MAX as int) by (nonlinear_arith)
                                requires
                                    w <= pm as int * u64::MAX as int,
                                    c <= u64::MAX,
                                    pm < mask,
                            ;
                            let new_cost: u128 = w + c as u128;
                            let current = dp[mask as usize][last];
                            let improves = match current {
                                None => true,
                                Some(v) => new_cost < v,
                            };
                            if improves {
                                let ghost d0 = dp@;
                                let ghost par0 = parent@;
                                dp[mask as usize][last] = Some(new_cost);
                                parent[mask as usize][last] = prev;
                                proof {
                                    lemma_relax_parents(arc, d0, par0, dp@, parent@, n as nat, start, base, mask, last, prev, new_cost);
                                    lemma_relax(arc, d0, par0, dp@, parent@, n as nat, start, base, mask, last, prev, new_cost);
                                    assert(dp@[pm as int] == d0[pm as int]);
                                }
                            }
                        }
                    }
                }
            }
            proof {
                if bit(mask, last as int) {
                    lemma_bit_clear(mask, last as u64, 0);
                }
                lemma_row_entry(arc, dp@, n as nat, start, base, mask, last);
                reveal(lower_row);
            }
        }
        proof {
            reveal(lower_below);
            reveal(lower_row);
            assert forall|m: u64, l: int| m < mask + 1 && 0 <= l < n implies #[trigger] lower_ok(arc, dp@, n as nat, start, m, l) by {
                if m == mask {
                    assert(lower_ok(arc, dp@, n as nat, start, mask, l));
                }
            }
        }
        mask = mask + 1;
    }
    (dp, parent)
}

/// Cost of going from `x` along `s`: the arc to its first node, then `s`.
pub open spec fn tail_cost(arc: spec_fn(usize, usize) -> Option<u64>, x: usize, s: Seq<usize>) -> int {
    if s.len() == 0 {
        0
    } else {
        arc_value(arc, x, s[0]) + route_cost(arc, s)
    }
}

/// `t` ends with `u`, and up to the first node of `u` it is a path for entry
/// `(m, u[0])`.
pub open spec fn agrees(
    arc: spec_fn(usize, usize) -> Option<u64>,
    t: Seq<usize>,
    u: Seq<usize>,
    start: usize,
    m: u64,
    n: nat,
) -> bool {
    let d = t.len() - u.len();
    &&& u.len() >= 1
    &&& t.len() >= u.len()
    &&& t.skip(d) == u
    &&& is_dp_path(arc, t.take(d + 1), start, m, u[0] as int, n)
}

/// A one-node path stands only for the start set.
proof fn lemma_single_path_mask(
    arc: spec_fn(usize, usize) -> Option<u64>,
    p: Seq<usize>,
    start: usize,
    m: u64,
    l: int,
    n: nat,
)
    requires
        is_dp_path(arc, p, start, m, l, n),
        p.len() == 1,
        n <= 20,
        start < n,
        m < (1u64 << (n as u64)),
    ensures
        m == (1u64 << (start as u64)),
{
    let base = 1u64 << (start as u64);
    assert forall|i: int| 0 <= i < 64 implies (bit(m, i) <==> bit(base, i)) by {
        lemma_bit_single(start as u64, i as u64);
        lemma_bit_range(m, n as u64, i as u64);
        if i < n {
            assert(p.contains(i as usize) <==> i == start);
        }
    }
    lemma_bits_ext(m, base);
}

/// A path for the start set is the start node alone.
proof fn lemma_base_path(arc: spec_fn(usize, usize) -> Option<u64>, p: Seq<usize>, start: usize, l: int, n: nat)
    requires
        is_dp_path(arc, p, start, 1u64 << (start as u64), l, n),
        start < n,
        n <= 20,
    ensures
        p.len() == 1,
{
    if p.len() > 1 {
        assert(p[1] < n);
        assert(p.contains(p[1]));
        lemma_bit_single(start as u64, p[1] as u64);
        assert(p[0] == p[1]);
    }
}

/// One step back along the predecessor links keeps every cheapest route from
/// `start` either later at the end than the route being rebuilt, or in
/// agreement with it.
proof fn lemma_back_step(
    arc: spec_fn(usize, usize) -> Option<u64>,
    dp: Seq<Vec<Option<u128>>>,
    parent: Seq<Vec<usize>>,
    n: nat,
    start: usize,
    mask: u64,
    u: Seq<usize>,
    value: u128,
    best: u128,
    t: Seq<usize>,
)
    requires
        shaped(dp, parent, dp.len() as int, n),
        dp.len() == (1u64 << (n as u64)),
        links_ok(arc, dp, parent, n, start),
        parents_least(arc, dp, parent, n, start),
        lower_below(arc, dp, n, start, (1u64 << (n as u64))),
        1 <= n <= 20,
        start < n,
        mask < dp.len(),
        u.len() >= 1,
        u[0] < n,
        bit(mask, u[0] as int),
        mask != (1u64 << (start as u64)),
        dp[mask as int]@[u[0] as int] == Some(value),
        value + tail_cost(arc, u[0], u.drop_first()) == best,
        route_cost(arc, t) == best,
        agrees(arc, t, u, start, mask, n),
        parent[mask as int]@[u[0] as int] < n,
        t.len() >= u.len() + 1,
    ensures
        later_at_end(t, seq![parent[mask as int]@[u[0] as int]] + u) || agrees(
            arc,
            t,
            seq![parent[mask as int]@[u[0] as int]] + u,
            start,
            mask ^ (1u64 << (u[0] as u64)),
            n,
        ),
{
    reveal(links_ok);
    reveal(parents_least);
    reveal(lower_below);
    let cur = u[0];
    let next = parent[mask as int]@[cur as int];
    let pm = mask ^ (1u64 << (cur as u64));
    let d = t.len() - u.len();
    let p = t.take(d + 1);
    let s = u.drop_first();
    assert(link_ok(arc, dp, parent, n, start, mask, cur as int));
    lemma_bit_clear(mask, cur as u64, 0);
    // The part of `t` up to `cur` costs exactly `value`.
    assert(t =~= p + s) by {
        assert forall|j: int| 0 <= j < t.len() implies t[j] == (p + s)[j] by {
            if j > d {
                assert(t.skip(d)[j - d] == t[j]);
                assert(u[j - d] == s[j - d - 1]);
            }
        }
    }
    assert(p.last() == cur);
    if s.len() > 0 {
        lemma_route_cost_concat(arc, p, s);
    } else {
        assert(p + s =~= p);
    }
    assert(route_cost(arc, p) == value);
    if p.len() == 1 {
        lemma_single_path_mask(arc, p, start, mask, cur as int, n);
    }
    let q = p[p.len() - 2];
    let pre = p.drop_last();
    assert(q != cur);
    assert(p.contains(q));
    assert(bit(mask, q as int));
    assert forall|i: usize| i < n implies (bit(pm, i as int) <==> pre.contains(i)) by {
        lemma_bit_clear(mask, cur as u64, i as u64);
        if pre.contains(i) {
            let k = choose|k: int| 0 <= k < pre.len() && pre[k] == i;
            assert(p[k] == i);
            assert(i != cur);
        }
        if p.contains(i) && i != cur {
            let k = choose|k: int| 0 <= k < p.len() && p[k] == i;
            assert(k != p.len() - 1);
            assert(pre[k] == i);
        }
    }
    assert forall|k: int| 0 <= k < pre.len() - 1 implies (#[trigger] arc(pre[k], pre[k + 1])).is_some() by {
        assert(arc(p[k], p[k + 1]).is_some());
    }
    assert(is_dp_path(arc, pre, start, pm, q as int, n));
    assert(lower_ok(arc, dp, n, start, pm, q as int));
    let i2 = p.len() - 2;
    assert(arc(p[i2], p[i2 + 1]).is_some());
    assert(p.drop_last() =~= pre);
    assert(route_cost(arc, p) == route_cost(arc, pre) + arc_value(arc, q, cur));
    let v = seq![next] + u;
    if q > next {
        assert(t[d - 1] == q);
        assert(v[(d - 1) - (d - 1)] == next);
        assert forall|j: int| d - 1 < j < t.len() implies t[j] == v[j - (d - 1)] by {
            assert(t.skip(d)[j - d] == t[j]);
            assert(v[j - (d - 1)] == u[j - d]);
        }
        assert(later_at_end(t, v));
    } else if q == next {
        assert(t.skip(d - 1) =~= v) by {
            assert forall|j: int| 0 <= j < v.len() implies t.skip(d - 1)[j] == v[j] by {
                if j > 0 {
                    assert(t.skip(d)[j - 1] == t[d - 1 + j]);
                }
            }
        }
        assert(t.take(d) =~= pre);
    } else {
        assert(q < next);
        assert(dp[pm as int]@[q as int] is Some);
    }
}

/// Cheapest tour that starts at `start`, if there is one: its cost and route.
fn best_from(distance_matrix: &Vec<Vec<Option<u64>>>, n: usize, start: usize) -> (r: (Option<u128>, Vec<usize>))
    requires
        n == distance_matrix@.len(),
        1 <= n <= MAX_EXACT_NODES,
        start < n,
    ensures
        r.0 is None ==> r.1@.len() == 0 && forall|p: Seq<usize>|
            #[trigger] is_tour(matrix_arcs(distance_matrix@), p, n as nat) ==> p[0] != start,
        r.0 matches Some(c) ==> {
            &&& is_tour(matrix_arcs(distance_matrix@), r.1@, n as nat)
            &&& r.1@[0] == start
            &&& c == route_cost(matrix_arcs(distance_matrix@), r.1@)
            &&& forall|p: Seq<usize>| #[trigger] is_tour(matrix_arcs(distance_matrix@), p, n as nat) && p[0] == start
                ==> c <= route_cost(matrix_arcs(distance_matrix@), p)
            &&& forall|p: Seq<usize>| #[trigger] is_tour(matrix_arcs(distance_matrix@), p, n as nat) && p[0] == start
                && route_cost(matrix_arcs(distance_matrix@), p) == c ==> p == r.1@ || later_at_end(p, r.1@)
        },
{
    let ghost arc = matrix_arcs(distance_matrix@);
    let (dp, parent) = fill_tables(distance_matrix, n, start);
    proof {
        reveal(links_ok);
        reveal(lower_below);
    }
    let ghost nn = n as nat;
    proof {
        lemma_pow_bounds(n as u64, start as u64);
    }
    let full: u64 = ((1u64 << (n as u64)) - 1) as u64;
    // A tour from `start` is a path over the full set, so its entry bounds it.
    assert forall|p: Seq<usize>| #[trigger] is_tour(arc, p, nn) && p[0] == start implies dp@[full as int]@[p.last() as int] is Some
        && dp@[full as int]@[p.last() as int].unwrap() <= route_cost(arc, p) && p.last() < n by {
        assert(p.contains(0));
        assert forall|i: usize| i < n implies (bit(full, i as int) <==> p.contains(i)) by {
            lemma_bit_full(n as u64, i as u64);
        }
        assert(p.last() < n);
        assert(is_dp_path(arc, p, start, full, p.last() as int, nn));
        assert(lower_ok(arc, dp@, nn, start, full, p.last() as int));
    }
    let mut best: Option<(usize, u128)> = None;
    for i in 0..n
        invariant
            full < dp@.len(),
            shaped(dp@, parent@, dp@.len() as int, nn),
            nn == n,
            match best {
                None => forall|l: int| 0 <= l < i ==> dp@[full as int]@[l] is None,
                Some((bl, bv)) => {
                    &&& bl < i
                    &&& dp@[full as int]@[bl as int] == Some(bv)
                    &&& forall|l: int| 0 <= l < i && dp@[full as int]@[l] is Some ==> bv <= dp@[full as int]@[l].unwrap()
                    &&& forall|l: int| 0 <= l < bl && dp@[full as int]@[l] is Some ==> bv < dp@[full as int]@[l].unwrap()
                },
            },
    {
        if let Some(v) = dp[full as usize][i] {
            let take = match best {
                None => true,
                Some((_, bv)) => v < bv,
            };
            if take {
                best = Some((i, v));
            }
        }
    }
    match best {
        None => (None, Vec::new()),
        Some((best_last, best_cost)) => {
            let mut path: Vec<usize> = Vec::new();
            let mut mask: u64 = full;
            let mut current: usize = best_last;
            let ghost mut value: u128 = best_cost;
            proof {
                assert(link_ok(arc, dp@, parent@, nn, start, full, best_last as int));
                assert forall|i: usize| i < n implies bit(full, i as int) by {
                    lemma_bit_full(n as u64, i as u64);
                }
            }
            assert forall|p: Seq<usize>| #[trigger] is_tour(arc, p, nn) && p[0] == start implies best_cost <= route_cost(arc, p) by {
                assert(dp@[full as int]@[p.last() as int] is Some);
            }
            assert forall|t: Seq<usize>| #[trigger] is_tour(arc, t, nn) && t[0] == start && route_cost(arc, t) == best_cost
                implies later_at_end(t, seq![best_last] + path@) || agrees(arc, t, seq![best_last] + path@, start, full, nn) by {
                let u = seq![best_last] + path@;
                assert(u =~= seq![best_last]);
                let l = t.last();
                assert(dp@[full as int]@[l as int] is Some);
                assert(t.contains(0));
                let k = t.len() - 1;
                if l > best_last {
                    assert(t[k] > u[k - k]);
                    assert(later_at_end(t, u));
                } else {
                    assert(l == best_last);
                    assert(t.skip(k) =~= u);
                    assert(t.take(k + 1) =~= t);
                    assert forall|i: usize| i < n implies (bit(full, i as int) <==> t.contains(i)) by {
                        lemma_bit_full(n as u64, i as u64);
                    }
                }
            }
            loop
                invariant
                    shaped(dp@, parent@, dp@.len() as int, nn),
                    links_ok(arc, dp@, parent@, nn, start),
                    nn == n,
                    1 <= n <= MAX_EXACT_NODES,
                    start < n,
                    mask < dp@.len(),
                    current < n,
                    bit(mask, current as int),
                    dp@[mask as int]@[current as int] == Some(value),
                    path@.no_duplicates(),
                    forall|k: int| 0 <= k < path@.len() ==> (#[trigger] path@[k]) < n,
                    forall|i: usize| i < n ==> (path@.contains(i) <==> !bit(mask, i as int)),
                    arcs_present(arc, path@),
                    path@.len() > 0 ==> arc(current, path@[0]) is Some,
                    arc == matrix_arcs(distance_matrix@),
                    forall|p: Seq<usize>| #[trigger] is_tour(arc, p, nn) && p[0] == start ==> best_cost <= route_cost(arc, p),
                    value + tail_cost(arc, current, path@) == best_cost,
                    dp@.len() == (1u64 << (n as u64)),
                    parents_least(arc, dp@, parent@, nn, start),
                    lower_below(arc, dp@, nn, start, (1u64 << (n as u64))),
                    forall|t: Seq<usize>| #[trigger] is_tour(arc, t, nn) && t[0] == start && route_cost(arc, t) == best_cost
                        ==> later_at_end(t, seq![current] + path@) || agrees(arc, t, seq![current] + path@, start, mask, nn),
                decreases mask,
            {
                assert(link_ok(arc, dp@, parent@, nn, start, mask, current as int)) by {
                    reveal(links_ok);
                }
                let ghost suffix = path@;
                path.insert(0, current);
                assert(path@ == seq![current] + suffix);
                proof {
                    assert(!suffix.contains(current));
                    if suffix.len() > 0 {
                        lemma_route_cost_concat(arc, seq![current], suffix);
                        assert(seq![current].last() == current);
                        assert(route_cost(arc, seq![current]) == 0);
                    }
                    assert forall|k: int| 0 <= k < path@.len() - 1 implies (#[trigger] arc(path@[k], path@[k + 1])).is_some() by {
                        if k > 0 {
                            let j = k - 1;
                            assert(arc(suffix[j], suffix[j + 1]).is_some());
                        }
                    }
                }
                let next = parent[mask as usize][current];
                if next == n {
                    proof {
                        lemma_bit_single(start as u64, current as u64);
                        assert forall|i: usize| i < n implies path@.contains(i) by {
                            lemma_bit_single(start as u64, i as u64);
                            if i == current {
                                assert(path@[0] == i);
                            } else {
                                assert(suffix.contains(i));
                                let k = choose|k: int| 0 <= k < suffix.len() && suffix[k] == i;
                                assert(path@[k + 1] == i);
                            }
                        }
                    }
                    proof {
                        assert(path@ =~= seq![current] + suffix);
                        lemma_permutation_len(path@, nn);
                        assert forall|t: Seq<usize>| #[trigger] is_tour(arc, t, nn) && t[0] == start
                            && route_cost(arc, t) == best_cost implies t == path@ || later_at_end(t, path@) by {
                            lemma_permutation_len(t, nn);
                            if !later_at_end(t, path@) {
                                assert(agrees(arc, t, path@, start, mask, nn));
                                lemma_base_path(arc, t.take(t.len() - path@.len() + 1), start, current as int, nn);
                                assert(t.skip(0) =~= t);
                            }
                        }
                    }
                    return (Some(best_cost), path);
                }
                let ghost old_mask = mask;
                let ghost old_value = value;
                let ghost pm = mask ^ (1u64 << (current as u64));
                proof {
                    lemma_bit_clear(mask, current as u64, 0);
                    assert forall|i: usize| i < n implies (path@.contains(i) <==> !bit(pm, i as int)) by {
                        lemma_bit_clear(old_mask, current as u64, i as u64);
                        if i == current {
                            assert(path@[0] == i);
                        } else if suffix.contains(i) {
                            let k = choose|k: int| 0 <= k < suffix.len() && suffix[k] == i;
                            assert(path@[k + 1] == i);
                        } else if path@.contains(i) {
                            let k = choose|k: int| 0 <= k < path@.len() && path@[k] == i;
                            assert(k > 0);
                            assert(suffix[k - 1] == i);
                        }
                    }
                    value = dp@[pm as int]@[next as int].unwrap();
                    assert(path@ =~= seq![current] + suffix);
                    assert(bit(pm, next as int)) by {
                        lemma_bit_clear(old_mask, current as u64, next as u64);
                    }
                    assert(!path@.contains(next));
                    assert((seq![next] + path@).len() <= nn) by {
                        assert forall|a: int, b: int| 0 <= a < b < (seq![next] + path@).len() implies (seq![next] + path@)[a]
                            != (seq![next] + path@)[b] by {
                            if a == 0 {
                                assert(path@[b - 1] == (seq![next] + path@)[b]);
                            } else {
                                assert(path@[a - 1] != path@[b - 1]);
                            }
                        }
                        assert forall|k: int| 0 <= k < (seq![next] + path@).len() implies (#[trigger] (seq![next] + path@)[k]) < nn by {
                            if k > 0 {
                                assert(path@[k - 1] < n);
                            }
                        }
                        lemma_distinct_len(seq![next] + path@, nn);
                    }
                    assert forall|t: Seq<usize>| #[trigger] is_tour(arc, t, nn) && t[0] == start && route_cost(arc, t) == best_cost
                        implies later_at_end(t, seq![next] + path@) || agrees(arc, t, seq![next] + path@, start, pm, nn) by {
                        lemma_permutation_len(t, nn);
                        if later_at_end(t, path@) {
                            lemma_later_extend(t, path@, next);
                        } else {
                            assert(path@.drop_first() =~= suffix);
                            lemma_back_step(arc, dp@, parent@, nn, start, old_mask, path@, old_value, best_cost, t);
                        }
                    }
                }
                mask = mask ^ (1u64 << (current as u64));
                current = next;
            }
        },
    }
}

/// What the exact solver answers on `m`: `TooManyNodes` exactly when `m` has
/// over `MAX_EXACT_NODES` nodes; else cost 0 and no route for no nodes; else
/// no route (`None`) exactly when no complete route exists; else a complete
/// route with its cost, which no complete route undercuts. Among the
/// cheapest complete routes it is one with the lowest first node, and among
/// those the lowest read from its end (lowest last node, then lowest node
/// before it, and so on).
pub open spec fn exact_answer(m: Seq<Vec<Option<u64>>>, r: Result<(Option<u128>, Seq<usize>), SolveError>) -> bool {
    let arc = matrix_arcs(m);
    let n = m.len();
    if n > MAX_EXACT_NODES {
        r == Err::<(Option<u128>, Seq<usize>), SolveError>(SolveError::TooManyNodes { nodes: n as usize, limit: MAX_EXACT_NODES })
    } else {
        match r {
            Err(_) => false,
            Ok((cost, route)) => {
                &&& n == 0 ==> cost == Some(0u128) && route.len() == 0
                &&& n > 0 ==> (cost is None <==> forall|p: Seq<usize>| !(#[trigger] is_tour(arc, p, n)))
                &&& cost is None ==> route.len() == 0
                &&& n > 0 && cost is Some ==> {
                    &&& is_tour(arc, route, n)
                    &&& route.len() > 0
                    &&& cost.unwrap() == route_cost(arc, route)
                    &&& forall|p: Seq<usize>| #[trigger] is_tour(arc, p, n) ==> route_cost(arc, route) <= route_cost(arc, p)
                    &&& forall|p: Seq<usize>| #[trigger] is_tour(arc, p, n) && route_cost(arc, p) == route_cost(arc, route)
                        ==> route[0] <= p[0]
                    &&& forall|p: Seq<usize>| #[trigger] is_tour(arc, p, n) && p[0] == route[0]
                        && route_cost(arc, p) == route_cost(arc, route) ==> p == route || later_at_end(p, route)
                }
            },
        }
    }
}

/// Exact solver: the cheapest open route through all nodes of a dense
/// matrix. The dynamic program runs from each start node in turn, and the
/// cheapest answer is kept; equal costs go to the lowest start node, then
/// to the route that is lowest read from its end.
///
/// Over `MAX_EXACT_NODES` nodes: `TooManyNodes`, before any table is made.
/// No nodes: cost 0 and an empty route. No complete route at all:
/// `cost == None` and an empty route. Entries beyond a short row are absent
/// arcs.
pub fn held_karp_algorithm(distance_matrix: &Vec<Vec<Option<u64>>>) -> (r: Result<SolverResult, SolveError>)
    ensures
        exact_answer(distance_matrix@, outcome(r)),
{
    let n = distance_matrix.len();
    if n > MAX_EXACT_NODES {
        return Err(SolveError::TooManyNodes { nodes: n, limit: MAX_EXACT_NODES });
    }
    if n == 0 {
        return Ok(SolverResult { cost: Some(0), route: Vec::new() });
    }
    let ghost arc = matrix_arcs(distance_matrix@);
    let ghost nn = n as nat;
    let mut best: Option<(u128, Vec<usize>)> = None;
    for start in 0..n
        invariant
            n == distance_matrix@.len(),
            nn == n,
            1 <= n <= MAX_EXACT_NODES,
            arc == matrix_arcs(distance_matrix@),
            match best {
                None => forall|p: Seq<usize>| #[trigger] is_tour(arc, p, nn) ==> p[0] >= start,
                Some((c, r)) => {
                    &&& is_tour(arc, r@, nn)
                    &&& r@.len() > 0
                    &&& r@[0] < start
                    &&& c == route_cost(arc, r@)
                    &&& forall|p: Seq<usize>| #[trigger] is_tour(arc, p, nn) && p[0] < start ==> c <= route_cost(arc, p)
                    &&& forall|p: Seq<usize>| #[trigger] is_tour(arc, p, nn) && p[0] < r@[0] ==> c < route_cost(arc, p)
                    &&& forall|p: Seq<usize>| #[trigger] is_tour(arc, p, nn) && p[0] == r@[0] && route_cost(arc, p) == c
                        ==> p == r@ || later_at_end(p, r@)
                },
            },
    {
        let (cost, route) = best_from(distance_matrix, n, start);
        match cost {
            Some(c) => {
                assert(route@.contains(0));
                let replace = match &best {
                    None => true,
                    Some((bc, _)) => c < *bc,
                };
                if replace {
                    proof {
                        assert forall|p: Seq<usize>| #[trigger] is_tour(arc, p, nn) && p[0] < start implies c < route_cost(arc, p) by {
                            if let Some((bc, br)) = best {
                                assert(bc <= route_cost(arc, p));
                            }
                        }
                    }
                    best = Some((c, route));
                }
            },
            None => {},
        }
    }
    match best {
        None => {
            proof {
                assert forall|p: Seq<usize>| !(#[trigger] is_tour(arc, p, nn)) by {
                    if is_tour(arc, p, nn) {
                        assert(p.contains(0));
                        assert(p[0] < n);
                    }
                }
            }
            Ok(SolverResult { cost: None, route: Vec::new() })
        },
        Some((c, r)) => {
            proof {
                assert forall|p: Seq<usize>| #[trigger] is_tour(arc, p, nn) implies c <= route_cost(arc, p) by {
                    assert(p.contains(0));
                    assert(p[0] < n);
                }
            }
            Ok(SolverResult { cost: Some(c), route: r })
        },
    }
}

} // verus!
