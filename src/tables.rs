//! Distance tables built from a list of arcs.
use std::collections::HashMap;
use vstd::prelude::*;
use crate::model::{is_square, map_arc, matrix_arc};

verus! {

broadcast use vstd::std_specs::hash::group_hash_axioms;

/// Cost of `from -> to` in an arc list: the last listed entry for that pair
/// wins; `None` where the pair is not listed or its last entry has no cost.
pub open spec fn listed_cost(edges: Seq<(usize, usize, Option<u64>)>, from: usize, to: usize) -> Option<u64>
    decreases edges.len(),
{
    if edges.len() == 0 {
        None
    } else if edges.last().0 == from && edges.last().1 == to {
        edges.last().2
    } else {
        listed_cost(edges.drop_last(), from, to)
    }
}

/// The highest node index an arc list names (0 for an empty list).
pub open spec fn highest_node(edges: Seq<(usize, usize, Option<u64>)>) -> nat
    decreases edges.len(),
{
    if edges.len() == 0 {
        0
    } else {
        let e = edges.last();
        let rest = highest_node(edges.drop_last());
        let hi = if e.0 >= e.1 { e.0 as nat } else { e.1 as nat };
        if hi >= rest { hi } else { rest }
    }
}

/// An arc list whose node indices leave room for one more.
pub open spec fn nodes_in_range(edges: Seq<(usize, usize, Option<u64>)>) -> bool {
    forall|k: int| 0 <= k < edges.len() ==> (#[trigger] edges[k]).0 < usize::MAX && edges[k].1 < usize::MAX
}

proof fn lemma_listed_bound(edges: Seq<(usize, usize, Option<u64>)>, from: usize, to: usize)
    ensures
        listed_cost(edges, from, to) is Some ==> from <= highest_node(edges) && to <= highest_node(edges),
        highest_node(edges) == 0 || exists|k: int|
            0 <= k < edges.len() && (edges[k].0 == highest_node(edges) || edges[k].1 == highest_node(edges)),
    decreases edges.len(),
{
    if edges.len() > 0 {
        lemma_listed_bound(edges.drop_last(), from, to);
        let rest = edges.drop_last();
        if highest_node(rest) != 0 && highest_node(edges) == highest_node(rest) {
            let k = choose|k: int| 0 <= k < rest.len() && (rest[k].0 == highest_node(rest) || rest[k].1 == highest_node(rest));
            assert(edges[k] == rest[k]);
        }
        if highest_node(edges) != highest_node(rest) {
            assert(edges[edges.len() - 1] == edges.last());
        }
    }
}

/// The dense matrix of an arc list: `h + 1` rows of `h + 1` entries, `h`
/// the highest node index named; each entry the listed cost of its arc,
/// `None` where the arc is not listed.
pub fn matrix_from_edges(edges: &Vec<(usize, usize, Option<u64>)>) -> (m: Vec<Vec<Option<u64>>>)
    requires
        nodes_in_range(edges@),
    ensures
        is_square(m@),
        m@.len() == highest_node(edges@) + 1,
        forall|i: usize, j: usize| #[trigger] matrix_arc(m@, i, j) == listed_cost(edges@, i, j),
{
    let mut size: usize = 1;
    for k in 0..edges.len()
        invariant
            nodes_in_range(edges@),
            size == highest_node(edges@.take(k as int)) + 1,
    {
        let (a, b, _) = edges[k];
        assert(edges@.take(k + 1).drop_last() =~= edges@.take(k as int));
        assert(edges@.take(k + 1).last() == edges@[k as int]);
        if a + 1 > size {
            size = a + 1;
        }
        if b + 1 > size {
            size = b + 1;
        }
    }
    assert(edges@.take(edges@.len() as int) =~= edges@);
    let mut m: Vec<Vec<Option<u64>>> = vec![vec![None; size]; size];
    for k in 0..edges.len()
        invariant
            nodes_in_range(edges@),
            size == highest_node(edges@) + 1,
            m@.len() == size,
            forall|r: int| 0 <= r < size ==> (#[trigger] m@[r])@.len() == size,
            forall|i: usize, j: usize| #[trigger] matrix_arc(m@, i, j) == listed_cost(edges@.take(k as int), i, j),
    {
        let (a, b, c) = edges[k];
        let ghost before = m@;
        proof {
            lemma_listed_bound(edges@, a, b);
            lemma_prefix_highest(edges@, k as int + 1);
            assert(edges@.take(k + 1).last() == edges@[k as int]);
        }
        m[a][b] = c;
        proof {
            assert(edges@.take(k + 1).drop_last() =~= edges@.take(k as int));
            assert forall|r: int| 0 <= r < size implies (#[trigger] m@[r])@.len() == size by {
                if r != a {
                    assert(m@[r] == before[r]);
                }
            }
            assert forall|i: usize, j: usize| #[trigger] matrix_arc(m@, i, j) == listed_cost(edges@.take(k + 1), i, j) by {
                if i != a {
                    if i < size {
                        assert(m@[i as int] == before[i as int]);
                    }
                    assert(matrix_arc(before, i, j) == listed_cost(edges@.take(k as int), i, j));
                }
                else {
                    assert(matrix_arc(before, i, j) == listed_cost(edges@.take(k as int), i, j));
                }
            }
        }
    }
    assert(edges@.take(edges@.len() as int) =~= edges@);
    m
}

proof fn lemma_prefix_highest(edges: Seq<(usize, usize, Option<u64>)>, k: int)
    requires
        0 <= k <= edges.len(),
    ensures
        highest_node(edges.take(k)) <= highest_node(edges),
    decreases edges.len() - k,
{
    if k < edges.len() {
        lemma_prefix_highest(edges, k + 1);
        assert(edges.take(k + 1).drop_last() =~= edges.take(k));
    } else {
        assert(edges.take(k) =~= edges);
    }
}

/// The sparse map of an arc list: a key for each node some listed arc
/// leaves, and under it the listed cost of each arc that leaves it (arcs
/// whose last entry has no cost are left out).
pub fn map_from_edges(edges: &Vec<(usize, usize, Option<u64>)>) -> (g: HashMap<usize, HashMap<usize, u64>>)
    ensures
        forall|i: usize, j: usize| #[trigger] map_arc(g@, i, j) == listed_cost(edges@, i, j),
        forall|i: usize| g@.contains_key(i) <==> exists|k: int| 0 <= k < edges@.len() && (#[trigger] edges@[k]).0 == i,
{
    let mut g: HashMap<usize, HashMap<usize, u64>> = HashMap::new();
    for k in 0..edges.len()
        invariant
            forall|i: usize, j: usize| #[trigger] map_arc(g@, i, j) == listed_cost(edges@.take(k as int), i, j),
            forall|i: usize| g@.contains_key(i) <==> exists|q: int| 0 <= q < k && (#[trigger] edges@[q]).0 == i,
    {
        let (a, b, c) = edges[k];
        let ghost before = g@;
        let mut row = match g.remove(&a) {
            Some(r) => r,
            None => HashMap::new(),
        };
        let ghost old_row = row@;
        match c {
            Some(cost) => {
                row.insert(b, cost);
            },
            None => {
                row.remove(&b);
            },
        }
        g.insert(a, row);
        proof {
            assert(edges@.take(k + 1).drop_last() =~= edges@.take(k as int));
            assert(edges@.take(k + 1).last() == edges@[k as int]);
            assert forall|i: usize, j: usize| #[trigger] map_arc(g@, i, j) == listed_cost(edges@.take(k + 1), i, j) by {
                assert(map_arc(before, i, j) == listed_cost(edges@.take(k as int), i, j));
                if i == a {
                    if before.contains_key(a) {
                        assert(old_row == before[a]@);
                    } else {
                        assert(old_row == Map::<usize, u64>::empty());
                    }
                }
            }
            assert forall|i: usize| g@.contains_key(i) <==> exists|q: int| 0 <= q < k + 1 && (#[trigger] edges@[q]).0 == i by {
                if i == a {
                    assert(edges@[k as int].0 == i);
                } else if exists|q: int| 0 <= q < k + 1 && (#[trigger] edges@[q]).0 == i {
                    let q = choose|q: int| 0 <= q < k + 1 && (#[trigger] edges@[q]).0 == i;
                    assert(q < k);
                }
            }
        }
    }
    assert(edges@.take(edges@.len() as int) =~= edges@);
    g
}

} // verus!
