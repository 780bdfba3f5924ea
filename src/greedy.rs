//! The nearest-neighbour heuristic for complete graphs.
use std::collections::HashMap;
use vstd::prelude::*;
use crate::flags::{bits_of, flag, new_flags, set_flag};
use crate::model::{
    arc_cost, arc_value, arcs_present, is_tour, lemma_full_permutation, map_arcs, outcome, route_cost,
    SolveError, SolverResult,
};

verus! {

broadcast use vstd::std_specs::hash::group_hash_axioms;

/// `j` is the nearest unvisited node after the walk `r`: reachable from its
/// last node, and cheaper than every other reachable unvisited node (or as
/// cheap and lower).
pub open spec fn nearest_choice(arc: spec_fn(usize, usize) -> Option<u64>, r: Seq<usize>, n: nat, j: usize) -> bool {
    &&& j < n
    &&& !r.contains(j)
    &&& arc(r.last(), j) is Some
    &&& forall|k: usize| #![trigger arc(r.last(), k)]
        k < n && !r.contains(k) && arc(r.last(), k) is Some && k != j ==> arc_value(arc, r.last(), j) < arc_value(
            arc,
            r.last(),
            k,
        ) || (arc_value(arc, r.last(), j) == arc_value(arc, r.last(), k) && j < k)
}

/// `r` is a walk of the heuristic: it starts at node 0 and each further node
/// is the nearest choice after the nodes before it.
pub open spec fn greedy_walk(arc: spec_fn(usize, usize) -> Option<u64>, r: Seq<usize>, n: nat) -> bool {
    &&& r.len() >= 1
    &&& r[0] == 0
    &&& forall|i: int| 1 <= i < r.len() ==> #[trigger] nearest_choice(arc, r.take(i), n, r[i])
}

/// No unvisited node is reachable from the last node of `r`.
pub open spec fn dead_end(arc: spec_fn(usize, usize) -> Option<u64>, r: Seq<usize>, n: nat) -> bool {
    forall|k: usize| k < n && !r.contains(k) ==> #[trigger] arc(r.last(), k) is None
}

/// What the complete-graph heuristic answers on `g` (nodes `0..n`, `n` the
/// number of keys): `EmptyGraph` exactly when `n == 0`; else either a
/// complete walk of the heuristic with its cost, or `IncompleteGraph` naming
/// the last node of a walk of the heuristic that is stuck before the end.
pub open spec fn greedy_answer(g: Map<usize, HashMap<usize, u64>>, r: Result<(Option<u128>, Seq<usize>), SolveError>) -> bool {
    let arc = map_arcs(g);
    let n = g.len();
    &&& n == 0 <==> r == Err::<(Option<u128>, Seq<usize>), SolveError>(SolveError::EmptyGraph)
    &&& match r {
        Ok((cost, route)) => {
            &&& greedy_walk(arc, route, n)
            &&& route.len() == n
            &&& is_tour(arc, route, n)
            &&& cost is Some
            &&& cost.unwrap() == route_cost(arc, route)
        },
        Err(SolveError::IncompleteGraph { node }) => exists|w: Seq<usize>|
            #![trigger greedy_walk(arc, w, n)]
            greedy_walk(arc, w, n) && w.len() < n && dead_end(arc, w, n) && w.last() == node,
        Err(SolveError::EmptyGraph) => true,
        Err(_) => false,
    }
}

/// Nearest-neighbour heuristic for a complete graph over the nodes
/// `0..n`, `n` being the number of keys of `distances`: start at node 0
/// and go on to the nearest unvisited node (lowest index among equal
/// costs) until every node is visited.
///
/// No nodes: `EmptyGraph`. A walk that reaches a node from which no
/// unvisited node is reachable: `IncompleteGraph` naming that node.
pub fn nearest_neighbor_full_graph(distances: &HashMap<usize, HashMap<usize, u64>>) -> (r: Result<
    SolverResult,
    SolveError,
>)
    ensures
        greedy_answer(distances@, outcome(r)),
{
    let ghost arc = map_arcs(distances@);
    let n = distances.len();
    if n == 0 {
        return Err(SolveError::EmptyGraph);
    }
    let ghost nn = n as nat;
    let mut visited = new_flags(n);
    set_flag(&mut visited, 0);
    let mut path: Vec<usize> = Vec::new();
    path.push(0);
    let mut total: u128 = 0;
    let mut count: usize = 1;
    let mut current: usize = 0;
    proof {
        assert forall|i: int| 1 <= i < path@.len() implies #[trigger] nearest_choice(arc, path@.take(i), nn, path@[i]) by {
        }
        assert forall|i: usize| i < n implies bits_of(visited)[i as int] == path@.contains(i) by {
            if i == 0 {
                assert(path@[0] == 0);
            }
        }
    }
    while count != n
        invariant
            arc == map_arcs(distances@),
            nn == n,
            n == distances@.len(),
            1 <= count <= n,
            path@.len() == count,
            bits_of(visited).len() == n,
            forall|i: usize| i < n ==> bits_of(visited)[i as int] == path@.contains(i),
            greedy_walk(arc, path@, nn),
            current == path@.last(),
            path@.no_duplicates(),
            forall|k: int| 0 <= k < path@.len() ==> (#[trigger] path@[k]) < n,
            arcs_present(arc, path@),
            total == route_cost(arc, path@),
            total <= count as int * u64::MAX as int,
        decreases n - count,
    {
        let mut best: Option<(usize, u64)> = None;
        for j in 0..n
            invariant
                arc == map_arcs(distances@),
                bits_of(visited).len() == n,
                forall|i: usize| i < n ==> bits_of(visited)[i as int] == path@.contains(i),
                current == path@.last(),
                match best {
                    None => forall|k: usize| k < j && !path@.contains(k) ==> #[trigger] arc(current, k) is None,
                    Some((b, bc)) => {
                        &&& b < j
                        &&& !path@.contains(b)
                        &&& arc(current, b) == Some(bc)
                        &&& forall|k: usize| #![trigger arc(current, k)]
                            k < j && !path@.contains(k) && arc(current, k) is Some && k != b ==> bc < arc_value(
                                arc,
                                current,
                                k,
                            ) || (bc == arc_value(arc, current, k) && b < k)
                    },
                },
        {
            if !flag(&visited, j) {
                match arc_cost(distances, current, j) {
                    Some(c) => {
                        let take = match best {
                            None => true,
                            Some((_, bc)) => c < bc,
                        };
                        if take {
                            best = Some((j, c));
                        }
                    },
                    None => {},
                }
            }
        }
        match best {
            None => {
                assert(dead_end(arc, path@, nn));
                return Err(SolveError::IncompleteGraph { node: current });
            },
            Some((j, c)) => {
                let ghost before = path@;
                assert(nearest_choice(arc, before, nn, j));
                path.push(j);
                proof {
                    assert(path@ == before.push(j));
                    assert forall|i: int| 1 <= i < path@.len() implies #[trigger] nearest_choice(arc, path@.take(i), nn, path@[i]) by {
                        if i < before.len() {
                            assert(path@.take(i) =~= before.take(i));
                            assert(nearest_choice(arc, before.take(i), nn, before[i]));
                        } else {
                            assert(path@.take(i) =~= before);
                        }
                    }
                    assert(path@.drop_last() =~= before);
                    let q = before.len() - 1;
                    assert(arc(path@[q], path@[q + 1]) is Some);
                    assert forall|k: int| 0 <= k < path@.len() - 1 implies (#[trigger] arc(path@[k], path@[k + 1])).is_some() by {
                        if k < q {
                            assert(arc(before[k], before[k + 1]).is_some());
                        }
                    }
                }
                assert(total + c <= (count + 1) as int * u64::MAX as int) by (nonlinear_arith)
                    requires
                        total <= count as int * u64::MAX as int,
                        c <= u64::MAX,
                ;
                total = total + c as u128;
                count = count + 1;
                current = j;
                set_flag(&mut visited, j);
            },
        }
    }
    proof {
        lemma_full_permutation(path@, nn);
    }
    Ok(SolverResult { cost: Some(total), route: path })
}

} // verus!
