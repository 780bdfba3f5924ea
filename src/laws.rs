//! Properties that relate the solvers and the validator.
use std::collections::HashMap;
use vstd::prelude::*;
use crate::exact::exact_answer;
use crate::fragments::merging_answer;
use crate::greedy::{dead_end, greedy_answer, greedy_walk, nearest_choice};
use crate::model::{
    arcs_present, is_square, is_tour, later_at_end, lemma_later_asymmetric, lemma_node_range,
    lemma_permutation_len, map_arc, map_arcs, matrix_arc, matrix_arcs, node_range, route_cost,
    SolveError,
};
use crate::tables::{highest_node, listed_cost, nodes_in_range};
use crate::validate::{check_answer, step_ok, RouteCheck};

verus! {

broadcast use vstd::std_specs::hash::group_hash_axioms;

/// `m` is a dense matrix of the sparse map `g`: every node of `g` is a row
/// of `m`, and both give every arc the same cost.
pub open spec fn same_graph(m: Seq<Vec<Option<u64>>>, g: Map<usize, HashMap<usize, u64>>) -> bool {
    &&& is_square(m)
    &&& forall|k: usize| g.contains_key(k) ==> k < m.len()
    &&& forall|i: usize, j: usize| #[trigger] matrix_arc(m, i, j) == map_arc(g, i, j)
}

/// A route without repeats, along present arcs, with its exact cost, passes
/// the validator.
proof fn lemma_route_passes(m: Seq<Vec<Option<u64>>>, cost: u128, p: Seq<usize>, verdict: RouteCheck)
    requires
        p.len() > 0,
        p[0] < m.len(),
        p.no_duplicates(),
        arcs_present(matrix_arcs(m), p),
        cost == route_cost(matrix_arcs(m), p),
        check_answer(m, cost, p, verdict),
    ensures
        verdict == RouteCheck::Valid,
{
    let arc = matrix_arcs(m);
    assert forall|k: int| 0 <= k < p.len() - 1 implies #[trigger] step_ok(arc, p, k) by {
        assert(arc(p[k], p[k + 1]) is Some);
        let t = p.take(k + 1);
        if t.contains(p[k + 1]) {
            let a = choose|a: int| 0 <= a < t.len() && t[a] == p[k + 1];
            assert(p[a] == p[k + 1]);
        }
    }
    match verdict {
        RouteCheck::MissingArc { .. } => {
            let i = choose|i: int| 0 <= i < p.len() - 1 && (#[trigger] arc(p[i], p[i + 1])) is None;
            assert(step_ok(arc, p, i));
        },
        RouteCheck::RevisitedNode { .. } => {
            let i = choose|i: int| 0 <= i < p.len() - 1 && (#[trigger] p.take(i + 1)).contains(p[i + 1]);
            assert(step_ok(arc, p, i));
        },
        _ => {},
    }
}

/// An empty route is reported as "no path found".
proof fn lemma_empty_route_check(m: Seq<Vec<Option<u64>>>, cost: u128, p: Seq<usize>, verdict: RouteCheck)
    requires
        p.len() == 0,
        check_answer(m, cost, p, verdict),
    ensures
        verdict == RouteCheck::NoPathFound,
{
}

/// Two arc lookups that agree give every route the same cost.
proof fn lemma_route_cost_agree(
    f: spec_fn(usize, usize) -> Option<u64>,
    h: spec_fn(usize, usize) -> Option<u64>,
    p: Seq<usize>,
)
    requires
        forall|i: usize, j: usize| #[trigger] f(i, j) == h(i, j),
    ensures
        route_cost(f, p) == route_cost(h, p),
        arcs_present(f, p) == arcs_present(h, p),
    decreases p.len(),
{
    if p.len() >= 2 {
        lemma_route_cost_agree(f, h, p.drop_last());
    }
    assert(arcs_present(f, p) == arcs_present(h, p)) by {
        if arcs_present(f, p) {
            assert forall|k: int| 0 <= k < p.len() - 1 implies (#[trigger] h(p[k], p[k + 1])).is_some() by {
                assert(f(p[k], p[k + 1]).is_some());
            }
        }
        if arcs_present(h, p) {
            assert forall|k: int| 0 <= k < p.len() - 1 implies (#[trigger] f(p[k], p[k + 1])).is_some() by {
                assert(h(p[k], p[k + 1]).is_some());
            }
        }
    }
}

/// Every answer of the exact solver checks out: a route it gives passes the
/// validator with the cost it gives, and where it gives no route (no nodes,
/// or no complete route) the validator reports that no path was found.
pub proof fn law_exact_answer_checks(
    m: Seq<Vec<Option<u64>>>,
    cost: Option<u128>,
    route: Seq<usize>,
    claimed: u128,
    verdict: RouteCheck,
)
    requires
        exact_answer(m, Ok((cost, route))),
        cost is Some ==> claimed == cost.unwrap(),
        check_answer(m, claimed, route, verdict),
    ensures
        verdict == (if route.len() == 0 { RouteCheck::NoPathFound } else { RouteCheck::Valid }),
{
    if route.len() == 0 {
        lemma_empty_route_check(m, claimed, route, verdict);
    } else {
        assert(route.contains(route[0]));
        lemma_route_passes(m, claimed, route, verdict);
    }
}

/// Every answer of the complete-graph heuristic on a map checks out on a
/// matrix of the same graph with as many nodes.
pub proof fn law_greedy_answer_checks(
    m: Seq<Vec<Option<u64>>>,
    g: Map<usize, HashMap<usize, u64>>,
    cost: Option<u128>,
    route: Seq<usize>,
    claimed: u128,
    verdict: RouteCheck,
)
    requires
        same_graph(m, g),
        m.len() == g.len(),
        greedy_answer(g, Ok((cost, route))),
        cost is Some ==> claimed == cost.unwrap(),
        check_answer(m, claimed, route, verdict),
    ensures
        verdict == RouteCheck::Valid,
{
    assert forall|i: usize, j: usize| #[trigger] matrix_arcs(m)(i, j) == map_arcs(g)(i, j) by {
        assert(matrix_arc(m, i, j) == map_arc(g, i, j));
    }
    lemma_route_cost_agree(matrix_arcs(m), map_arcs(g), route);
    assert(route[0] == 0);
    lemma_route_passes(m, claimed, route, verdict);
}

/// Every answer of the fragment-merging heuristic checks out on a matrix of
/// the same graph: a route it gives passes the validator, and where it gives
/// no route the validator reports that no path was found.
pub proof fn law_merging_answer_checks(
    m: Seq<Vec<Option<u64>>>,
    g: Map<usize, HashMap<usize, u64>>,
    max_steps: u64,
    cost: Option<u128>,
    route: Seq<usize>,
    claimed: u128,
    verdict: RouteCheck,
)
    requires
        same_graph(m, g),
        merging_answer(g, max_steps, Ok((cost, route))),
        cost is Some ==> claimed == cost.unwrap(),
        check_answer(m, claimed, route, verdict),
    ensures
        verdict == (if route.len() == 0 { RouteCheck::NoPathFound } else { RouteCheck::Valid }),
{
    if route.len() == 0 {
        lemma_empty_route_check(m, claimed, route, verdict);
    } else {
        assert forall|i: usize, j: usize| #[trigger] matrix_arcs(m)(i, j) == map_arcs(g)(i, j) by {
            assert(matrix_arc(m, i, j) == map_arc(g, i, j));
        }
        lemma_route_cost_agree(matrix_arcs(m), map_arcs(g), route);
        assert(route.to_set().contains(route[0]));
        lemma_route_passes(m, claimed, route, verdict);
    }
}

/// The exact solver is optimal (stated for small matrices): it finds no
/// route exactly when there is no complete route, and otherwise a complete
/// route whose cost is the least cost of all complete routes.
pub proof fn law_exact_optimal(m: Seq<Vec<Option<u64>>>, cost: Option<u128>, route: Seq<usize>)
    requires
        0 < m.len() <= 8,
        exact_answer(m, Ok((cost, route))),
    ensures
        cost is None <==> forall|p: Seq<usize>| !(#[trigger] is_tour(matrix_arcs(m), p, m.len())),
        cost is Some ==> {
            &&& is_tour(matrix_arcs(m), route, m.len())
            &&& cost.unwrap() == route_cost(matrix_arcs(m), route)
            &&& forall|p: Seq<usize>| #[trigger] is_tour(matrix_arcs(m), p, m.len()) ==> cost.unwrap()
                <= route_cost(matrix_arcs(m), p)
        },
{
}

/// Cheaper arcs never raise the exact optimum: where every arc of `m1` is
/// also in `m2` at no greater cost, the exact cost on `m2` is at most that
/// on `m1`.
pub proof fn law_exact_monotone(
    m1: Seq<Vec<Option<u64>>>,
    m2: Seq<Vec<Option<u64>>>,
    cost1: u128,
    route1: Seq<usize>,
    r2: Result<(Option<u128>, Seq<usize>), SolveError>,
)
    requires
        m1.len() == m2.len(),
        forall|i: usize, j: usize| #[trigger] matrix_arc(m1, i, j) is Some ==> matrix_arc(m2, i, j) is Some
            && matrix_arc(m2, i, j).unwrap() <= matrix_arc(m1, i, j).unwrap(),
        exact_answer(m1, Ok((Some(cost1), route1))),
        exact_answer(m2, r2),
    ensures
        r2 matches Ok((Some(c2), _)) && c2 <= cost1,
{
    let n = m1.len();
    assert forall|i: usize, j: usize| #[trigger] matrix_arcs(m1)(i, j) is Some implies matrix_arcs(m2)(i, j) is Some
        && matrix_arcs(m2)(i, j).unwrap() <= matrix_arcs(m1)(i, j).unwrap() by {
        assert(matrix_arc(m1, i, j) is Some);
    }
    if n == 0 {
    } else {
        lemma_route_cost_le(matrix_arcs(m1), matrix_arcs(m2), route1);
        assert(is_tour(matrix_arcs(m2), route1, n));
    }
}

/// A route along arcs of `f` is a route along arcs of `h` costing no more,
/// where `h` has every arc of `f` at no greater cost.
proof fn lemma_route_cost_le(
    f: spec_fn(usize, usize) -> Option<u64>,
    h: spec_fn(usize, usize) -> Option<u64>,
    p: Seq<usize>,
)
    requires
        arcs_present(f, p),
        forall|i: usize, j: usize| #[trigger] f(i, j) is Some ==> h(i, j) is Some && h(i, j).unwrap() <= f(i, j).unwrap(),
    ensures
        arcs_present(h, p),
        route_cost(h, p) <= route_cost(f, p),
    decreases p.len(),
{
    assert forall|k: int| 0 <= k < p.len() - 1 implies (#[trigger] h(p[k], p[k + 1])).is_some() by {
        assert(f(p[k], p[k + 1]).is_some());
    }
    if p.len() >= 2 {
        let q = p.drop_last();
        assert forall|k: int| 0 <= k < q.len() - 1 implies (#[trigger] f(q[k], q[k + 1])).is_some() by {
            assert(f(p[k], p[k + 1]).is_some());
        }
        lemma_route_cost_le(f, h, q);
        let k = p.len() - 2;
        assert(f(p[k], p[k + 1]).is_some());
    }
}

/// Each node of a walk of the complete-graph heuristic is a node below `n`,
/// and none repeats.
proof fn lemma_walk_distinct(arc: spec_fn(usize, usize) -> Option<u64>, w: Seq<usize>, n: nat)
    requires
        greedy_walk(arc, w, n),
        n > 0,
    ensures
        w.no_duplicates(),
        forall|k: int| 0 <= k < w.len() ==> (#[trigger] w[k]) < n,
{
    assert forall|a: int, b: int| 0 <= a < b < w.len() implies w[a] != w[b] by {
        assert(nearest_choice(arc, w.take(b), n, w[b]));
        assert(w.take(b)[a] == w[a]);
    }
    assert forall|k: int| 0 <= k < w.len() implies (#[trigger] w[k]) < n by {
        if k > 0 {
            assert(nearest_choice(arc, w.take(k), n, w[k]));
        }
    }
}

/// A walk of the heuristic is the beginning of every longer one.
proof fn lemma_walk_prefix(arc: spec_fn(usize, usize) -> Option<u64>, w1: Seq<usize>, w2: Seq<usize>, n: nat)
    requires
        greedy_walk(arc, w1, n),
        greedy_walk(arc, w2, n),
        w1.len() <= w2.len(),
    ensures
        w1 == w2.take(w1.len() as int),
{
    assert forall|k: int| 0 <= k < w1.len() implies w1[k] == w2[k] by {
        lemma_walk_prefix_upto(arc, w1, w2, n, k + 1);
        assert(w1.take(k + 1)[k] == w1[k]);
    }
    assert(w1 =~= w2.take(w1.len() as int));
}

proof fn lemma_walk_prefix_upto(arc: spec_fn(usize, usize) -> Option<u64>, w1: Seq<usize>, w2: Seq<usize>, n: nat, k: int)
    requires
        greedy_walk(arc, w1, n),
        greedy_walk(arc, w2, n),
        1 <= k <= w1.len(),
        k <= w2.len(),
    ensures
        w1.take(k) == w2.take(k),
    decreases k,
{
    if k == 1 {
        assert(w1.take(1) =~= w2.take(1));
    } else {
        lemma_walk_prefix_upto(arc, w1, w2, n, k - 1);
        let p = w1.take(k - 1);
        assert(w2.take(k - 1) == p);
        assert(nearest_choice(arc, w1.take(k - 1), n, w1[k - 1]));
        assert(nearest_choice(arc, w2.take(k - 1), n, w2[k - 1]));
        let a = w1[k - 1];
        let b = w2[k - 1];
        if a != b {
            assert(arc(p.last(), b) is Some);
            assert(arc(p.last(), a) is Some);
        }
        assert(w1.take(k) =~= p.push(a));
        assert(w2.take(k) =~= p.push(b));
    }
}

/// A stuck walk of the heuristic is not the beginning of a longer walk.
proof fn lemma_stuck_is_last(arc: spec_fn(usize, usize) -> Option<u64>, w: Seq<usize>, v: Seq<usize>, n: nat)
    requires
        greedy_walk(arc, w, n),
        greedy_walk(arc, v, n),
        dead_end(arc, w, n),
        w.len() <= v.len(),
    ensures
        w == v,
{
    lemma_walk_prefix(arc, w, v, n);
    if w.len() < v.len() {
        let k = w.len() as int;
        assert(nearest_choice(arc, v.take(k), n, v[k]));
        assert(v.take(k) == w);
    }
    assert(w =~= v);
}

/// On a complete graph (every arc between two different nodes `0..n`
/// present) the complete-graph heuristic never fails.
pub proof fn law_greedy_complete_succeeds(g: Map<usize, HashMap<usize, u64>>, r: Result<(Option<u128>, Seq<usize>), SolveError>)
    requires
        0 < g.len() <= usize::MAX,
        forall|i: usize, j: usize| i < g.len() && j < g.len() && i != j ==> #[trigger] map_arc(g, i, j) is Some,
        greedy_answer(g, r),
    ensures
        r is Ok,
{
    let arc = map_arcs(g);
    let n = g.len();
    if let Err(SolveError::IncompleteGraph { node }) = r {
        let w = choose|w: Seq<usize>| #![trigger greedy_walk(arc, w, n)]
            greedy_walk(arc, w, n) && w.len() < n && dead_end(arc, w, n) && w.last() == node;
        lemma_walk_distinct(arc, w, n);
        if forall|k: usize| k < n ==> w.contains(k) {
            assert(node_range(n).subset_of(w.to_set()));
            w.lemma_cardinality_of_set();
            vstd::set_lib::lemma_len_subset(node_range(n), w.to_set());
            lemma_node_range(n);
            assert(false);
        }
        let k = choose|k: usize| k < n && !w.contains(k);
        assert(w.contains(w.last()));
        assert(map_arc(g, w.last(), k) is Some);
        assert(arc(w.last(), k) is None);
    }
}

/// On the same graph, the complete-graph heuristic's route never costs less
/// than the exact solver's.
pub proof fn law_greedy_not_below_exact(
    m: Seq<Vec<Option<u64>>>,
    g: Map<usize, HashMap<usize, u64>>,
    greedy_cost: u128,
    greedy_route: Seq<usize>,
    exact: Result<(Option<u128>, Seq<usize>), SolveError>,
)
    requires
        same_graph(m, g),
        m.len() == g.len(),
        greedy_answer(g, Ok((Some(greedy_cost), greedy_route))),
        exact_answer(m, exact),
        exact is Ok,
    ensures
        exact matches Ok((Some(c), _)) && c <= greedy_cost,
{
    assert forall|i: usize, j: usize| #[trigger] matrix_arcs(m)(i, j) == map_arcs(g)(i, j) by {
        assert(matrix_arc(m, i, j) == map_arc(g, i, j));
    }
    lemma_route_cost_agree(matrix_arcs(m), map_arcs(g), greedy_route);
    assert(is_tour(matrix_arcs(m), greedy_route, m.len()));
    assert(greedy_route[0] == 0);
    assert(m.len() > 0) by {
        if g.len() == 0 {
            assert(false);
        }
    }
    if let Ok((c, p)) = exact {
        assert(c is Some);
        assert(route_cost(matrix_arcs(m), p) <= route_cost(matrix_arcs(m), greedy_route));
    }
}

/// On the same graph, a route of the fragment-merging heuristic that covers
/// every node `0..n` never costs less than the exact solver's route.
pub proof fn law_merging_not_below_exact(
    m: Seq<Vec<Option<u64>>>,
    g: Map<usize, HashMap<usize, u64>>,
    max_steps: u64,
    merged_cost: u128,
    merged_route: Seq<usize>,
    exact: Result<(Option<u128>, Seq<usize>), SolveError>,
)
    requires
        same_graph(m, g),
        g.dom() == node_range(m.len()),
        merging_answer(g, max_steps, Ok((Some(merged_cost), merged_route))),
        exact_answer(m, exact),
        exact is Ok,
    ensures
        exact matches Ok((Some(c), _)) && c <= merged_cost,
{
    let n = m.len();
    assert forall|i: usize, j: usize| #[trigger] matrix_arcs(m)(i, j) == map_arcs(g)(i, j) by {
        assert(matrix_arc(m, i, j) == map_arc(g, i, j));
    }
    lemma_route_cost_agree(matrix_arcs(m), map_arcs(g), merged_route);
    assert forall|k: int| 0 <= k < merged_route.len() implies (#[trigger] merged_route[k]) < n by {
        assert(merged_route.to_set().contains(merged_route[k]));
        assert(node_range(n).contains(merged_route[k]));
    }
    assert forall|i: usize| i < n implies merged_route.contains(i) by {
        assert(node_range(n).contains(i));
        assert(merged_route.to_set().contains(i));
    }
    assert(n > 0) by {
        if n == 0 {
            assert(g.dom() =~= Set::<usize>::empty());
            assert(g.len() == 0);
        }
    }
    assert(is_tour(matrix_arcs(m), merged_route, n));
    if let Ok((c, p)) = exact {
        assert(c is Some);
        assert(route_cost(matrix_arcs(m), p) <= route_cost(matrix_arcs(m), merged_route));
    }
}

/// The exact solver answers the same twice.
pub proof fn law_exact_repeatable(
    m: Seq<Vec<Option<u64>>>,
    r1: Result<(Option<u128>, Seq<usize>), SolveError>,
    r2: Result<(Option<u128>, Seq<usize>), SolveError>,
)
    requires
        exact_answer(m, r1),
        exact_answer(m, r2),
    ensures
        r1 == r2,
{
    let arc = matrix_arcs(m);
    let n = m.len();
    if let (Ok((c1, route1)), Ok((c2, route2))) = (r1, r2) {
        if n > 0 && c1 is Some {
            assert(route_cost(arc, route1) <= route_cost(arc, route2));
            assert(route_cost(arc, route2) <= route_cost(arc, route1));
            assert(route1[0] <= route2[0] && route2[0] <= route1[0]);
            lemma_permutation_len(route1, n);
            lemma_permutation_len(route2, n);
            if route1 != route2 {
                assert(later_at_end(route2, route1));
                assert(later_at_end(route1, route2));
                lemma_later_asymmetric(route1, route2);
            }
        }
        if n == 0 || c1 is None {
            assert(route1 =~= route2);
        }
    }
}

/// The complete-graph heuristic answers the same twice.
pub proof fn law_greedy_repeatable(
    g: Map<usize, HashMap<usize, u64>>,
    r1: Result<(Option<u128>, Seq<usize>), SolveError>,
    r2: Result<(Option<u128>, Seq<usize>), SolveError>,
)
    requires
        greedy_answer(g, r1),
        greedy_answer(g, r2),
    ensures
        r1 == r2,
{
    let arc = map_arcs(g);
    let n = g.len();
    match (r1, r2) {
        (Ok((_, route1)), Ok((_, route2))) => {
            lemma_walk_prefix(arc, route1, route2, n);
            assert(route2.take(route1.len() as int) =~= route2);
        },
        (Ok((_, route1)), Err(SolveError::IncompleteGraph { node })) => {
            let w = choose|w: Seq<usize>| #![trigger greedy_walk(arc, w, n)]
                greedy_walk(arc, w, n) && w.len() < n && dead_end(arc, w, n) && w.last() == node;
            lemma_stuck_is_last(arc, w, route1, n);
        },
        (Err(SolveError::IncompleteGraph { node }), Ok((_, route2))) => {
            let w = choose|w: Seq<usize>| #![trigger greedy_walk(arc, w, n)]
                greedy_walk(arc, w, n) && w.len() < n && dead_end(arc, w, n) && w.last() == node;
            lemma_stuck_is_last(arc, w, route2, n);
        },
        (Err(SolveError::IncompleteGraph { node: a }), Err(SolveError::IncompleteGraph { node: b })) => {
            let w1 = choose|w: Seq<usize>| #![trigger greedy_walk(arc, w, n)]
                greedy_walk(arc, w, n) && w.len() < n && dead_end(arc, w, n) && w.last() == a;
            let w2 = choose|w: Seq<usize>| #![trigger greedy_walk(arc, w, n)]
                greedy_walk(arc, w, n) && w.len() < n && dead_end(arc, w, n) && w.last() == b;
            if w1.len() <= w2.len() {
                lemma_stuck_is_last(arc, w1, w2, n);
            } else {
                lemma_stuck_is_last(arc, w2, w1, n);
            }
        },
        _ => {},
    }
}

/// The fragment-merging heuristic answers the same twice.
pub proof fn law_merging_repeatable(
    g: Map<usize, HashMap<usize, u64>>,
    max_steps: u64,
    r1: Result<(Option<u128>, Seq<usize>), SolveError>,
    r2: Result<(Option<u128>, Seq<usize>), SolveError>,
)
    requires
        merging_answer(g, max_steps, r1),
        merging_answer(g, max_steps, r2),
    ensures
        r1 == r2,
{
}

/// The tables built from one arc list describe the same graph: given what
/// `matrix_from_edges` and `map_from_edges` promise of `m` and `g`, `m` is a
/// matrix of `g`.
pub proof fn law_tables_agree(edges: Seq<(usize, usize, Option<u64>)>, m: Seq<Vec<Option<u64>>>, g: Map<usize, HashMap<usize, u64>>)
    requires
        nodes_in_range(edges),
        is_square(m),
        m.len() == highest_node(edges) + 1,
        forall|i: usize, j: usize| #[trigger] matrix_arc(m, i, j) == listed_cost(edges, i, j),
        forall|i: usize, j: usize| #[trigger] map_arc(g, i, j) == listed_cost(edges, i, j),
        forall|i: usize| g.contains_key(i) <==> exists|k: int| 0 <= k < edges.len() && (#[trigger] edges[k]).0 == i,
    ensures
        same_graph(m, g),
{
    assert forall|i: usize, j: usize| #[trigger] matrix_arc(m, i, j) == map_arc(g, i, j) by {
        assert(matrix_arc(m, i, j) == listed_cost(edges, i, j));
        assert(map_arc(g, i, j) == listed_cost(edges, i, j));
    }
    assert forall|k: usize| g.contains_key(k) implies k < m.len() by {
        let q = choose|q: int| 0 <= q < edges.len() && (#[trigger] edges[q]).0 == k;
        lemma_source_bound(edges, q);
    }
}

proof fn lemma_source_bound(edges: Seq<(usize, usize, Option<u64>)>, q: int)
    requires
        0 <= q < edges.len(),
    ensures
        edges[q].0 <= highest_node(edges),
        edges[q].1 <= highest_node(edges),
    decreases edges.len(),
{
    if q < edges.len() - 1 {
        lemma_source_bound(edges.drop_last(), q);
        assert(edges.drop_last()[q] == edges[q]);
    }
}

} // verus!
