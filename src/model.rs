//! Shared data model: arc lookups, route cost and route shape.
use std::collections::HashMap;
use vstd::prelude::*;

verus! {

broadcast use vstd::std_specs::hash::group_hash_axioms;

/// Arc lookup of a dense matrix over the nodes `0..m.len()`: `None` where
/// either end is not a node, where row `i` is too short, or where the arc is
/// absent.
pub open spec fn matrix_arc(m: Seq<Vec<Option<u64>>>, i: usize, j: usize) -> Option<u64> {
    if i < m.len() && j < m.len() && j < m[i as int]@.len() {
        m[i as int]@[j as int]
    } else {
        None
    }
}

/// Arc lookup of a sparse map: `None` where the arc is not listed.
pub open spec fn map_arc(g: Map<usize, HashMap<usize, u64>>, i: usize, j: usize) -> Option<u64> {
    if g.contains_key(i) && g[i]@.contains_key(j) {
        Some(g[i]@[j])
    } else {
        None
    }
}

/// The arcs of a dense matrix, as a lookup function.
pub open spec fn matrix_arcs(m: Seq<Vec<Option<u64>>>) -> spec_fn(usize, usize) -> Option<u64> {
    |i: usize, j: usize| matrix_arc(m, i, j)
}

/// The arcs of a sparse map, as a lookup function.
pub open spec fn map_arcs(g: Map<usize, HashMap<usize, u64>>) -> spec_fn(usize, usize) -> Option<u64> {
    |i: usize, j: usize| map_arc(g, i, j)
}

/// A dense matrix with `n` rows of `n` entries each.
pub open spec fn is_square(m: Seq<Vec<Option<u64>>>) -> bool {
    forall|i: int| 0 <= i < m.len() ==> (#[trigger] m[i])@.len() == m.len()
}

/// Every consecutive arc of `r` is present.
pub open spec fn arcs_present(arc: spec_fn(usize, usize) -> Option<u64>, r: Seq<usize>) -> bool {
    forall|i: int| 0 <= i < r.len() - 1 ==> (#[trigger] arc(r[i], r[i + 1])).is_some()
}

/// Cost of the arc `i -> j`, zero where it is absent.
pub open spec fn arc_value(arc: spec_fn(usize, usize) -> Option<u64>, i: usize, j: usize) -> int {
    match arc(i, j) {
        Some(c) => c as int,
        None => 0,
    }
}

/// Sum of the consecutive arc costs of `r` (absent arcs count as zero).
pub open spec fn route_cost(arc: spec_fn(usize, usize) -> Option<u64>, r: Seq<usize>) -> int
    decreases r.len(),
{
    if r.len() < 2 {
        0
    } else {
        route_cost(arc, r.drop_last()) + arc_value(arc, r[r.len() - 2], r[r.len() - 1])
    }
}

/// `r` lists each of the nodes `0..n` exactly once.
pub open spec fn is_permutation(r: Seq<usize>, n: nat) -> bool {
    &&& r.no_duplicates()
    &&& forall|i: int| 0 <= i < r.len() ==> (#[trigger] r[i]) < n
    &&& forall|i: usize| i < n ==> r.contains(i)
}

/// A complete route over `0..n` whose arcs are all present.
pub open spec fn is_tour(arc: spec_fn(usize, usize) -> Option<u64>, r: Seq<usize>, n: nat) -> bool {
    is_permutation(r, n) && arcs_present(arc, r)
}

/// The value of each vector, in order.
pub open spec fn views(v: Seq<Vec<usize>>) -> Seq<Seq<usize>> {
    v.map_values(|x: Vec<usize>| x@)
}

/// Cost of the arc `i -> j` of a dense matrix.
pub(crate) fn matrix_cost(m: &Vec<Vec<Option<u64>>>, i: usize, j: usize) -> (r: Option<u64>)
    ensures
        r == matrix_arc(m@, i, j),
{
    if i < m.len() && j < m.len() && j < m[i].len() {
        m[i][j]
    } else {
        None
    }
}

/// Cost of the arc `i -> j` of a sparse map.
pub(crate) fn arc_cost(g: &HashMap<usize, HashMap<usize, u64>>, i: usize, j: usize) -> (r: Option<u64>)
    ensures
        r == map_arc(g@, i, j),
{
    match g.get(&i) {
        Some(row) => match row.get(&j) {
            Some(c) => Some(*c),
            None => None,
        },
        None => None,
    }
}

/// A copy of `a`.
pub(crate) fn copy_route(a: &Vec<usize>) -> (r: Vec<usize>)
    ensures
        r@ == a@,
{
    let mut r: Vec<usize> = Vec::new();
    for i in 0..a.len()
        invariant
            r@ == a@.take(i as int),
    {
        r.push(a[i]);
        assert(r@ =~= a@.take(i + 1));
    }
    assert(r@ =~= a@);
    r
}

/// `a` followed by `b`.
pub(crate) fn joined(a: &Vec<usize>, b: &Vec<usize>) -> (r: Vec<usize>)
    ensures
        r@ == a@ + b@,
{
    let mut r = copy_route(a);
    for i in 0..b.len()
        invariant
            r@ == a@ + b@.take(i as int),
    {
        r.push(b[i]);
        assert(r@ =~= a@ + b@.take(i + 1));
    }
    assert(r@ =~= a@ + b@);
    r
}

/// Whether `a` and `b` hold the same nodes in the same order.
pub(crate) fn same_route(a: &Vec<usize>, b: &Vec<usize>) -> (r: bool)
    ensures
        r == (a@ == b@),
{
    if a.len() != b.len() {
        return false;
    }
    for i in 0..a.len()
        invariant
            a@.len() == b@.len(),
            forall|k: int| 0 <= k < i ==> a@[k] == b@[k],
    {
        if a[i] != b[i] {
            return false;
        }
    }
    assert(a@ =~= b@);
    true
}

/// Whether `list` holds a vector equal to `r`.
pub(crate) fn contains_route(list: &Vec<Vec<usize>>, r: &Vec<usize>) -> (b: bool)
    ensures
        b == views(list@).contains(r@),
{
    for i in 0..list.len()
        invariant
            forall|k: int| 0 <= k < i ==> list@[k]@ != r@,
    {
        if same_route(&list[i], r) {
            assert(views(list@)[i as int] == r@);
            return true;
        }
    }
    proof {
        if views(list@).contains(r@) {
            let k = choose|k: int| 0 <= k < views(list@).len() && views(list@)[k] == r@;
            assert(list@[k]@ == r@);
        }
    }
    false
}

/// A route never costs less than nothing.
pub proof fn lemma_route_cost_nonneg(arc: spec_fn(usize, usize) -> Option<u64>, r: Seq<usize>)
    ensures
        route_cost(arc, r) >= 0,
    decreases r.len(),
{
    if r.len() >= 2 {
        lemma_route_cost_nonneg(arc, r.drop_last());
    }
}

/// Joining two routes adds the arc between them to their costs.
pub proof fn lemma_route_cost_concat(arc: spec_fn(usize, usize) -> Option<u64>, a: Seq<usize>, b: Seq<usize>)
    requires
        a.len() > 0,
        b.len() > 0,
    ensures
        route_cost(arc, a + b) == route_cost(arc, a) + arc_value(arc, a.last(), b[0]) + route_cost(arc, b),
    decreases b.len(),
{
    if b.len() == 1 {
        assert((a + b).drop_last() =~= a);
    } else {
        lemma_route_cost_concat(arc, a, b.drop_last());
        assert((a + b).drop_last() =~= a + b.drop_last());
    }
}

/// Joining two routes whose arcs are present, by a present arc.
pub proof fn lemma_arcs_concat(arc: spec_fn(usize, usize) -> Option<u64>, a: Seq<usize>, b: Seq<usize>)
    requires
        a.len() > 0,
        b.len() > 0,
        arcs_present(arc, a),
        arcs_present(arc, b),
        arc(a.last(), b[0]).is_some(),
    ensures
        arcs_present(arc, a + b),
{
    let c = a + b;
    assert forall|i: int| 0 <= i < c.len() - 1 implies (#[trigger] arc(c[i], c[i + 1])).is_some() by {
        if i < a.len() - 1 {
            assert(arc(a[i], a[i + 1]).is_some());
        } else if i >= a.len() {
            assert(arc(b[i - a.len()], b[i - a.len() + 1]).is_some());
        }
    }
}

/// The nodes `0..n`.
pub open spec fn node_range(n: nat) -> Set<usize> {
    Set::new(|i: usize| i < n)
}

pub proof fn lemma_node_range(n: nat)
    requires
        n <= usize::MAX + 1,
    ensures
        node_range(n).finite(),
        node_range(n).len() == n,
    decreases n,
{
    if n == 0 {
        assert(node_range(n) =~= Set::empty());
    } else {
        lemma_node_range((n - 1) as nat);
        assert(node_range((n - 1) as nat).insert((n - 1) as usize) =~= node_range(n));
    }
}

/// `n` distinct nodes below `n` are all of them.
pub proof fn lemma_full_permutation(r: Seq<usize>, n: nat)
    requires
        r.no_duplicates(),
        r.len() == n,
        n <= usize::MAX,
        forall|i: int| 0 <= i < r.len() ==> (#[trigger] r[i]) < n,
    ensures
        is_permutation(r, n),
{
    lemma_node_range(n);
    r.unique_seq_to_set();
    assert(r.to_set().subset_of(node_range(n)));
    vstd::set_lib::lemma_subset_equality(r.to_set(), node_range(n));
    assert forall|i: usize| i < n implies r.contains(i) by {
        assert(node_range(n).contains(i));
        assert(r.to_set().contains(i));
    }
}

/// Distinct nodes below `n` number at most `n`.
pub proof fn lemma_distinct_len(r: Seq<usize>, n: nat)
    requires
        r.no_duplicates(),
        n <= usize::MAX,
        forall|i: int| 0 <= i < r.len() ==> (#[trigger] r[i]) < n,
    ensures
        r.len() <= n,
{
    lemma_node_range(n);
    r.unique_seq_to_set();
    assert(r.to_set().subset_of(node_range(n)));
    vstd::set_lib::lemma_len_subset(r.to_set(), node_range(n));
}

/// A permutation of `0..n` has `n` entries.
pub proof fn lemma_permutation_len(r: Seq<usize>, n: nat)
    requires
        is_permutation(r, n),
        n <= usize::MAX,
    ensures
        r.len() == n,
{
    lemma_node_range(n);
    r.unique_seq_to_set();
    assert(r.to_set() =~= node_range(n)) by {
        assert forall|i: usize| node_range(n).contains(i) implies r.to_set().contains(i) by {
            assert(r.contains(i));
        }
    }
}

/// Read from the end, `t` has a higher node than `u` at the last position
/// where they differ (the two aligned at their ends, `t` at least as long).
pub open spec fn later_at_end(t: Seq<usize>, u: Seq<usize>) -> bool {
    let d = t.len() - u.len();
    &&& t.len() >= u.len()
    &&& exists|k: int| #![trigger t[k]]
        d <= k < t.len() && t[k] > u[k - d] && forall|j: int| k < j < t.len() ==> t[j] == u[j - d]
}

/// Staying later at the end when `u` grows at its front.
pub proof fn lemma_later_extend(t: Seq<usize>, u: Seq<usize>, x: usize)
    requires
        later_at_end(t, u),
        t.len() >= u.len() + 1,
    ensures
        later_at_end(t, seq![x] + u),
{
    let d = t.len() - u.len();
    let k = choose|k: int| #![trigger t[k]]
        d <= k < t.len() && t[k] > u[k - d] && forall|j: int| k < j < t.len() ==> t[j] == u[j - d];
    let v = seq![x] + u;
    assert(v[k - (d - 1)] == u[k - d]);
    assert forall|j: int| k < j < t.len() implies t[j] == v[j - (d - 1)] by {
        assert(v[j - (d - 1)] == u[j - d]);
    }
    assert(t[k] > v[k - (d - 1)]);
}

/// Of two sequences of one length, at most one is later at the end.
pub proof fn lemma_later_asymmetric(a: Seq<usize>, b: Seq<usize>)
    requires
        a.len() == b.len(),
        later_at_end(a, b),
    ensures
        !later_at_end(b, a),
{
    let k1 = choose|k: int| #![trigger a[k]] 0 <= k < a.len() && a[k] > b[k] && forall|j: int| k < j < a.len() ==> a[j] == b[j];
    if later_at_end(b, a) {
        let k2 = choose|k: int| #![trigger b[k]] 0 <= k < b.len() && b[k] > a[k] && forall|j: int| k < j < b.len() ==> b[j] == a[j];
        if k1 < k2 {
            assert(a[k2] == b[k2]);
        } else if k2 < k1 {
            assert(b[k1] == a[k1]);
        }
    }
}

/// Outcome of a solver: a route with its total cost, or `cost == None` (an
/// infinite cost) with an empty route when no route was found.
#[derive(Debug, Clone, PartialEq, Eq)]
pub struct SolverResult {
    pub cost: Option<u128>,
    pub route: Vec<usize>,
}

/// The mathematical value of a solver's answer: cost and route, or the error.
pub open spec fn outcome(r: Result<SolverResult, SolveError>) -> Result<(Option<u128>, Seq<usize>), SolveError> {
    match r {
        Ok(res) => Ok((res.cost, res.route@)),
        Err(e) => Err(e),
    }
}

/// Errors that are not infeasibility.
#[derive(Debug, Clone, Copy, PartialEq, Eq, Structural)]
pub enum SolveError {
    /// The exact solver was given more nodes than it may allocate for.
    TooManyNodes { nodes: usize, limit: usize },
    /// A heuristic was given a graph without nodes.
    EmptyGraph,
    /// The complete-graph heuristic found no unvisited node reachable from `node`.
    IncompleteGraph { node: usize },
    /// The fragment-merging heuristic used up its step budget.
    StepLimitReached { steps: u64 },
}

} // verus!
