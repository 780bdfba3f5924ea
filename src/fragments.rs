//! The fragment-merging nearest-neighbour heuristic for incomplete graphs.
use std::collections::HashMap;
use vstd::prelude::*;
use vstd::std_specs::iter::IteratorSpec;
use crate::model::{
    arc_cost, arc_value, arcs_present, contains_route, copy_route, joined, map_arcs, outcome, views, SolveError,
    SolverResult, lemma_arcs_concat, lemma_route_cost_concat, lemma_route_cost_nonneg,
    route_cost,
};

verus! {

broadcast use vstd::std_specs::hash::group_hash_axioms;

/// Strictly increasing.
pub open spec fn ascending(s: Seq<usize>) -> bool {
    forall|i: int, j: int| 0 <= i < j < s.len() ==> s[i] < s[j]
}

/// The nodes of a sparse map (its keys), in increasing order.
pub open spec fn key_order(g: Map<usize, HashMap<usize, u64>>) -> Seq<usize> {
    choose|s: Seq<usize>| ascending(s) && s.to_set() == g.dom()
}

/// Inserts `k` into an increasing vector that does not hold it.
fn insert_sorted(v: &mut Vec<usize>, k: usize)
    requires
        ascending(old(v)@),
        !old(v)@.contains(k),
    ensures
        ascending(final(v)@),
        final(v)@.to_set() == old(v)@.to_set().insert(k),
        final(v)@.len() == old(v)@.len() + 1,
{
    let mut i: usize = 0;
    while i < v.len() && v[i] < k
        invariant
            i <= v.len(),
            forall|a: int| 0 <= a < i ==> v@[a] < k,
        decreases v.len() - i,
    {
        i = i + 1;
    }
    proof {
        if i < v.len() {
            assert(v@[i as int] != k);
        }
    }
    let ghost before = v@;
    v.insert(i, k);
    assert(v@ == before.take(i as int).push(k) + before.skip(i as int));
    assert(v@.to_set() =~= before.to_set().insert(k)) by {
        assert forall|x: usize| v@.to_set().contains(x) implies before.to_set().insert(k).contains(x) by {
            let a = choose|a: int| 0 <= a < v@.len() && v@[a] == x;
            if a < i {
                assert(before[a] == x);
            } else if a > i {
                assert(before[a - 1] == x);
            }
        }
        assert forall|x: usize| before.to_set().insert(k).contains(x) implies v@.to_set().contains(x) by {
            if x == k {
                assert(v@[i as int] == k);
            } else {
                let a = choose|a: int| 0 <= a < before.len() && before[a] == x;
                if a < i {
                    assert(v@[a] == x);
                } else {
                    assert(v@[a + 1] == x);
                }
            }
        }
    }
}

/// The keys of `g` in increasing order.
fn sorted_keys(g: &HashMap<usize, HashMap<usize, u64>>) -> (r: Vec<usize>)
    ensures
        ascending(r@),
        r@.to_set() == g@.dom(),
{
    let mut r: Vec<usize> = Vec::new();
    let ghost all = vstd::std_specs::hash::spec_keys_iter(g).remaining();
    for k in it: g.keys()
        invariant
            it.seq() == all,
            all.unref().to_set() == g@.dom(),
            all.no_duplicates(),
            ascending(r@),
            forall|x: usize| r@.contains(x) <==> exists|i: int| 0 <= i < it.index() && *all[i] == x,
    {
        proof {
            if r@.contains(*k) {
                let i = choose|i: int| 0 <= i < it.index() && *all[i] == *k;
                assert(all[i] == all[it.index()]);
            }
        }
        let ghost before = r@;
        insert_sorted(&mut r, *k);
        proof {
            assert forall|x: usize| r@.contains(x) <==> exists|i: int| 0 <= i < it.index() + 1 && *all[i] == x by {
                assert(r@.to_set().contains(x) == before.to_set().insert(*k).contains(x));
                if exists|i: int| 0 <= i < it.index() + 1 && *all[i] == x {
                    let i = choose|i: int| 0 <= i < it.index() + 1 && *all[i] == x;
                    if i < it.index() {
                        assert(before.contains(x));
                    }
                }
            }
        }
    }
    proof {
        assert forall|x: usize| r@.to_set().contains(x) == g@.dom().contains(x) by {
            if g@.dom().contains(x) {
                assert(all.unref().to_set().contains(x));
                let i = choose|i: int| 0 <= i < all.unref().len() && all.unref()[i] == x;
                assert(*all[i] == x);
            }
            if r@.contains(x) {
                let i = choose|i: int| 0 <= i < all.len() && *all[i] == x;
                assert(all.unref()[i] == x);
                assert(all.unref().to_set().contains(x));
            }
        }
        assert(r@.to_set() =~= g@.dom());
    }
    r
}

/// State of the merging process: the ordered fragments (the last one is
/// taken next), the concatenations that were undone, the running cost and
/// the number of consecutive steps that changed nothing.
pub struct Merging {
    pub frags: Seq<Seq<usize>>,
    pub banned: Seq<Seq<usize>>,
    pub total: int,
    pub stuck: nat,
}

/// Fragment `rest[j]` may follow `f`: the arc from `f`'s tail to its head
/// exists and the concatenation was never undone.
pub open spec fn can_join(
    arc: spec_fn(usize, usize) -> Option<u64>,
    rest: Seq<Seq<usize>>,
    f: Seq<usize>,
    banned: Seq<Seq<usize>>,
    j: int,
) -> bool {
    &&& 0 <= j < rest.len()
    &&& rest[j].len() > 0
    &&& arc(f.last(), rest[j][0]).is_some()
    &&& !banned.contains(f + rest[j])
}

/// Joining `rest[j]` is strictly preferred to joining `rest[k]`: cheaper,
/// or as cheap with a lower head node.
pub open spec fn preferred(
    arc: spec_fn(usize, usize) -> Option<u64>,
    rest: Seq<Seq<usize>>,
    f: Seq<usize>,
    j: int,
    k: int,
) -> bool {
    let cj = arc_value(arc, f.last(), rest[j][0]);
    let ck = arc_value(arc, f.last(), rest[k][0]);
    cj < ck || (cj == ck && rest[j][0] < rest[k][0])
}

/// `rest[j]` is the joinable fragment preferred to every other joinable one.
pub open spec fn best_join(
    arc: spec_fn(usize, usize) -> Option<u64>,
    rest: Seq<Seq<usize>>,
    f: Seq<usize>,
    banned: Seq<Seq<usize>>,
    j: int,
) -> bool {
    &&& can_join(arc, rest, f, banned, j)
    &&& forall|k: int| #![trigger can_join(arc, rest, f, banned, k)]
        can_join(arc, rest, f, banned, k) && k != j ==> preferred(arc, rest, f, j, k)
}

/// One step: take the last fragment; join the best fragment after it and put
/// the result first; else undo its last arc (banning it as it stands), keep
/// the shortened fragment last and put the removed node first as a
/// fragment of its own; else (a lone node) put it first unchanged.
pub open spec fn merge_step(arc: spec_fn(usize, usize) -> Option<u64>, s: Merging) -> Merging {
    let rest = s.frags.drop_last();
    let f = s.frags.last();
    if exists|j: int| best_join(arc, rest, f, s.banned, j) {
        let j = choose|j: int| best_join(arc, rest, f, s.banned, j);
        Merging {
            frags: seq![f + rest[j]] + rest.remove(j),
            banned: s.banned,
            total: s.total + arc_value(arc, f.last(), rest[j][0]),
            stuck: 0,
        }
    } else if f.len() > 1 {
        let kept = f.drop_last();
        Merging {
            frags: seq![seq![f.last()]] + rest.push(kept),
            banned: s.banned.push(f),
            total: s.total - arc_value(arc, kept.last(), f.last()),
            stuck: 0,
        }
    } else {
        Merging { frags: seq![f] + rest, banned: s.banned, total: s.total, stuck: s.stuck + 1 }
    }
}

/// Nothing is left to do: one fragment (or none) remains, or every fragment
/// was a lone node that nothing could follow, so the state repeats.
pub open spec fn settled(s: Merging) -> bool {
    s.frags.len() <= 1 || s.stuck >= s.frags.len()
}

/// The state after at most `fuel` steps, stopping early once settled.
pub open spec fn run_merging(arc: spec_fn(usize, usize) -> Option<u64>, s: Merging, fuel: nat) -> Merging
    decreases fuel,
{
    if settled(s) || fuel == 0 {
        s
    } else {
        run_merging(arc, merge_step(arc, s), (fuel - 1) as nat)
    }
}

/// One fragment per node, in the given order.
pub open spec fn start_state(nodes: Seq<usize>) -> Merging {
    Merging { frags: nodes.map_values(|k: usize| seq![k]), banned: seq![], total: 0, stuck: 0 }
}

/// Sum of the route costs of the fragments.
pub open spec fn total_cost(arc: spec_fn(usize, usize) -> Option<u64>, frags: Seq<Seq<usize>>) -> int
    decreases frags.len(),
{
    if frags.len() == 0 {
        0
    } else {
        total_cost(arc, frags.drop_last()) + route_cost(arc, frags.last())
    }
}

/// A valid position `(i, a)` of the fragments.
pub open spec fn is_pos(frags: Seq<Seq<usize>>, i: int, a: int) -> bool {
    0 <= i < frags.len() && 0 <= a < frags[i].len()
}

/// The fragments split `keys`: each key stands at exactly one position, and
/// nothing else stands anywhere.
pub open spec fn partitions(frags: Seq<Seq<usize>>, keys: Set<usize>) -> bool {
    &&& forall|i: int, a: int| is_pos(frags, i, a) ==> keys.contains(#[trigger] frags[i][a])
    &&& forall|i: int, a: int, j: int, b: int|
        is_pos(frags, i, a) && is_pos(frags, j, b) && #[trigger] frags[i][a] == #[trigger] frags[j][b]
            ==> i == j && a == b
    &&& forall|k: usize| keys.contains(k) ==> exists|i: int, a: int| is_pos(frags, i, a) && #[trigger] frags[i][a] == k
}

/// What holds of every state the process reaches.
pub open spec fn merging_inv(arc: spec_fn(usize, usize) -> Option<u64>, keys: Set<usize>, s: Merging) -> bool {
    &&& forall|i: int| 0 <= i < s.frags.len() ==> (#[trigger] s.frags[i]).len() > 0
    &&& forall|i: int| 0 <= i < s.frags.len() ==> arcs_present(arc, #[trigger] s.frags[i])
    &&& partitions(s.frags, keys)
    &&& s.total == total_cost(arc, s.frags)
}

proof fn lemma_total_cost_concat(arc: spec_fn(usize, usize) -> Option<u64>, a: Seq<Seq<usize>>, b: Seq<Seq<usize>>)
    ensures
        total_cost(arc, a + b) == total_cost(arc, a) + total_cost(arc, b),
    decreases b.len(),
{
    if b.len() == 0 {
        assert(a + b =~= a);
    } else {
        lemma_total_cost_concat(arc, a, b.drop_last());
        assert((a + b).drop_last() =~= a + b.drop_last());
    }
}

proof fn lemma_total_cost_single(arc: spec_fn(usize, usize) -> Option<u64>, f: Seq<usize>)
    ensures
        total_cost(arc, seq![f]) == route_cost(arc, f),
{
    assert(seq![f].drop_last() =~= Seq::<Seq<usize>>::empty());
    assert(total_cost(arc, Seq::<Seq<usize>>::empty()) == 0);
    assert(seq![f].last() == f);
}

proof fn lemma_total_cost_nonneg(arc: spec_fn(usize, usize) -> Option<u64>, a: Seq<Seq<usize>>)
    ensures
        total_cost(arc, a) >= 0,
    decreases a.len(),
{
    if a.len() > 0 {
        lemma_total_cost_nonneg(arc, a.drop_last());
        lemma_route_cost_nonneg(arc, a.last());
    }
}

/// Moving nodes between positions by an injective map that reaches every old
/// position keeps a partition.
proof fn lemma_partitions_transfer(
    old: Seq<Seq<usize>>,
    new: Seq<Seq<usize>>,
    keys: Set<usize>,
    back: spec_fn(int, int) -> (int, int),
)
    requires
        partitions(old, keys),
        forall|i: int, a: int| #[trigger] is_pos(new, i, a) ==> is_pos(old, back(i, a).0, back(i, a).1)
            && old[back(i, a).0][back(i, a).1] == new[i][a],
        forall|i: int, a: int, j: int, b: int|
            is_pos(new, i, a) && is_pos(new, j, b) && #[trigger] back(i, a) == #[trigger] back(j, b) ==> i == j && a == b,
        forall|i: int, a: int| #[trigger] is_pos(old, i, a) ==> exists|j: int, b: int| is_pos(new, j, b) && new[j][b] == old[i][a],
    ensures
        partitions(new, keys),
{
    assert forall|i: int, a: int| is_pos(new, i, a) implies keys.contains(#[trigger] new[i][a]) by {
        assert(is_pos(old, back(i, a).0, back(i, a).1));
    }
    assert forall|i: int, a: int, j: int, b: int|
        is_pos(new, i, a) && is_pos(new, j, b) && #[trigger] new[i][a] == #[trigger] new[j][b] implies i == j && a == b by {
        let p = back(i, a);
        let q = back(j, b);
        assert(old[p.0][p.1] == old[q.0][q.1]);
    }
    assert forall|k: usize| keys.contains(k) implies exists|i: int, a: int| is_pos(new, i, a) && #[trigger] new[i][a] == k by {
        let (i, a) = choose|i: int, a: int| is_pos(old, i, a) && #[trigger] old[i][a] == k;
        assert(is_pos(old, i, a));
    }
}

/// Every step keeps the invariant.
proof fn lemma_step_inv(arc: spec_fn(usize, usize) -> Option<u64>, keys: Set<usize>, s: Merging)
    requires
        merging_inv(arc, keys, s),
        !settled(s),
    ensures
        merging_inv(arc, keys, merge_step(arc, s)),
{
    let rest = s.frags.drop_last();
    let f = s.frags.last();
    let n = s.frags.len() as int;
    let t = merge_step(arc, s);
    assert(s.frags =~= rest.push(f));
    assert(s.frags[n - 1] == f);
    assert(f.len() > 0);
    assert(total_cost(arc, s.frags) == total_cost(arc, rest) + route_cost(arc, f));
    if exists|j: int| best_join(arc, rest, f, s.banned, j) {
        let j = choose|j: int| best_join(arc, rest, f, s.banned, j);
        let g = rest[j];
        let removed = rest.remove(j);
        assert(t.frags == seq![f + g] + removed);
        assert(s.frags[j] == g);
        assert(g.len() > 0);
        lemma_arcs_concat(arc, f, g);
        assert forall|i: int| 0 <= i < t.frags.len() implies (#[trigger] t.frags[i]).len() > 0
            && arcs_present(arc, t.frags[i]) by {
            if i > 0 {
                if i - 1 < j {
                    assert(t.frags[i] == s.frags[i - 1]);
                } else {
                    assert(t.frags[i] == s.frags[i]);
                }
            }
        }
        let fl = f.len() as int;
        let back = |i: int, a: int|
            if i == 0 {
                if a < fl {
                    (n - 1, a)
                } else {
                    (j, a - fl)
                }
            } else if i - 1 < j {
                (i - 1, a)
            } else {
                (i, a)
            };
        assert forall|i: int, a: int| #[trigger] is_pos(t.frags, i, a) implies is_pos(s.frags, back(i, a).0, back(i, a).1)
            && s.frags[back(i, a).0][back(i, a).1] == t.frags[i][a] by {
            if i > 0 {
                if i - 1 < j {
                    assert(t.frags[i] == s.frags[i - 1]);
                } else {
                    assert(t.frags[i] == s.frags[i]);
                }
            }
        }
        assert forall|i: int, a: int| #[trigger] is_pos(s.frags, i, a) implies exists|k: int, b: int|
            is_pos(t.frags, k, b) && t.frags[k][b] == s.frags[i][a] by {
            if i == n - 1 {
                assert(is_pos(t.frags, 0, a) && t.frags[0][a] == s.frags[i][a]);
            } else if i == j {
                assert(is_pos(t.frags, 0, fl + a) && t.frags[0][fl + a] == s.frags[i][a]);
            } else if i < j {
                assert(t.frags[i + 1] == s.frags[i]);
                assert(is_pos(t.frags, i + 1, a) && t.frags[i + 1][a] == s.frags[i][a]);
            } else {
                assert(t.frags[i] == s.frags[i]);
                assert(is_pos(t.frags, i, a) && t.frags[i][a] == s.frags[i][a]);
            }
        }
        lemma_partitions_transfer(s.frags, t.frags, keys, back);
        assert(rest =~= rest.take(j) + seq![g] + rest.skip(j + 1));
        assert(removed =~= rest.take(j) + rest.skip(j + 1));
        lemma_total_cost_concat(arc, rest.take(j) + seq![g], rest.skip(j + 1));
        lemma_total_cost_concat(arc, rest.take(j), seq![g]);
        lemma_total_cost_concat(arc, rest.take(j), rest.skip(j + 1));
        lemma_total_cost_concat(arc, seq![f + g], removed);
        lemma_total_cost_single(arc, g);
        lemma_total_cost_single(arc, f + g);
        lemma_route_cost_concat(arc, f, g);
    } else if f.len() > 1 {
        let kept = f.drop_last();
        let l = f.last();
        assert(t.frags == seq![seq![l]] + rest.push(kept));
        assert forall|i: int| 0 <= i < t.frags.len() implies (#[trigger] t.frags[i]).len() > 0
            && arcs_present(arc, t.frags[i]) by {
            if 0 < i < n {
                assert(t.frags[i] == s.frags[i - 1]);
            } else if i == n {
                assert(t.frags[i] == kept);
                assert forall|x: int| 0 <= x < kept.len() - 1 implies (#[trigger] arc(kept[x], kept[x + 1])).is_some() by {
                    assert(arc(f[x], f[x + 1]).is_some());
                }
            }
        }
        let fl = f.len() as int;
        let back = |i: int, a: int|
            if i == 0 {
                (n - 1, fl - 1)
            } else if i < n {
                (i - 1, a)
            } else {
                (n - 1, a)
            };
        assert forall|i: int, a: int| #[trigger] is_pos(t.frags, i, a) implies is_pos(s.frags, back(i, a).0, back(i, a).1)
            && s.frags[back(i, a).0][back(i, a).1] == t.frags[i][a] by {
            if 0 < i < n {
                assert(t.frags[i] == s.frags[i - 1]);
            } else if i == n {
                assert(t.frags[i] == kept);
            }
        }
        assert forall|i: int, a: int| #[trigger] is_pos(s.frags, i, a) implies exists|k: int, b: int|
            is_pos(t.frags, k, b) && t.frags[k][b] == s.frags[i][a] by {
            if i == n - 1 {
                if a == fl - 1 {
                    assert(is_pos(t.frags, 0, 0) && t.frags[0][0] == s.frags[i][a]);
                } else {
                    assert(t.frags[n] == kept);
                    assert(is_pos(t.frags, n, a) && t.frags[n][a] == s.frags[i][a]);
                }
            } else {
                assert(t.frags[i + 1] == s.frags[i]);
                assert(is_pos(t.frags, i + 1, a) && t.frags[i + 1][a] == s.frags[i][a]);
            }
        }
        lemma_partitions_transfer(s.frags, t.frags, keys, back);
        assert(f =~= kept.push(l));
        assert(route_cost(arc, f) == route_cost(arc, kept) + arc_value(arc, kept.last(), l));
        lemma_total_cost_concat(arc, seq![seq![l]], rest.push(kept));
        lemma_total_cost_single(arc, seq![l]);
        assert(rest.push(kept).drop_last() =~= rest);
    } else {
        assert(t.frags == seq![f] + rest);
        assert forall|i: int| 0 <= i < t.frags.len() implies (#[trigger] t.frags[i]).len() > 0
            && arcs_present(arc, t.frags[i]) by {
            if i > 0 {
                assert(t.frags[i] == s.frags[i - 1]);
            }
        }
        let back = |i: int, a: int| if i == 0 { (n - 1, a) } else { (i - 1, a) };
        assert forall|i: int, a: int| #[trigger] is_pos(t.frags, i, a) implies is_pos(s.frags, back(i, a).0, back(i, a).1)
            && s.frags[back(i, a).0][back(i, a).1] == t.frags[i][a] by {
            if i > 0 {
                assert(t.frags[i] == s.frags[i - 1]);
            }
        }
        assert forall|i: int, a: int| #[trigger] is_pos(s.frags, i, a) implies exists|k: int, b: int|
            is_pos(t.frags, k, b) && t.frags[k][b] == s.frags[i][a] by {
            if i == n - 1 {
                assert(is_pos(t.frags, 0, a) && t.frags[0][a] == s.frags[i][a]);
            } else {
                assert(t.frags[i + 1] == s.frags[i]);
                assert(is_pos(t.frags, i + 1, a) && t.frags[i + 1][a] == s.frags[i][a]);
            }
        }
        lemma_partitions_transfer(s.frags, t.frags, keys, back);
        lemma_total_cost_concat(arc, seq![f], rest);
        lemma_total_cost_single(arc, f);
    }
}

proof fn lemma_run_inv(arc: spec_fn(usize, usize) -> Option<u64>, keys: Set<usize>, s: Merging, fuel: nat)
    requires
        merging_inv(arc, keys, s),
    ensures
        merging_inv(arc, keys, run_merging(arc, s, fuel)),
    decreases fuel,
{
    if !settled(s) && fuel > 0 {
        lemma_step_inv(arc, keys, s);
        lemma_run_inv(arc, keys, merge_step(arc, s), (fuel - 1) as nat);
    }
}

proof fn lemma_singletons_cost(arc: spec_fn(usize, usize) -> Option<u64>, nodes: Seq<usize>)
    ensures
        total_cost(arc, nodes.map_values(|k: usize| seq![k])) == 0,
    decreases nodes.len(),
{
    if nodes.len() > 0 {
        lemma_singletons_cost(arc, nodes.drop_last());
        assert(nodes.map_values(|k: usize| seq![k]).drop_last() =~= nodes.drop_last().map_values(|k: usize| seq![k]));
    }
}

proof fn lemma_start_inv(arc: spec_fn(usize, usize) -> Option<u64>, nodes: Seq<usize>)
    requires
        ascending(nodes),
    ensures
        merging_inv(arc, nodes.to_set(), start_state(nodes)),
{
    let s = start_state(nodes);
    assert forall|i: int| 0 <= i < s.frags.len() implies (#[trigger] s.frags[i]).len() > 0
        && arcs_present(arc, s.frags[i]) by {
        assert(s.frags[i] == seq![nodes[i]]);
    }
    assert forall|i: int, a: int| is_pos(s.frags, i, a) implies nodes.to_set().contains(#[trigger] s.frags[i][a]) by {
        assert(s.frags[i] == seq![nodes[i]]);
    }
    assert forall|i: int, a: int, j: int, b: int|
        is_pos(s.frags, i, a) && is_pos(s.frags, j, b) && #[trigger] s.frags[i][a] == #[trigger] s.frags[j][b]
            implies i == j && a == b by {
        assert(s.frags[i] == seq![nodes[i]]);
        assert(s.frags[j] == seq![nodes[j]]);
    }
    assert forall|k: usize| nodes.to_set().contains(k) implies exists|i: int, a: int|
        is_pos(s.frags, i, a) && #[trigger] s.frags[i][a] == k by {
        let i = choose|i: int| 0 <= i < nodes.len() && nodes[i] == k;
        assert(s.frags[i] == seq![nodes[i]]);
        assert(is_pos(s.frags, i, 0));
        assert(s.frags[i][0] == k);
    }
    lemma_singletons_cost(arc, nodes);
}

/// Two increasing sequences with the same elements are equal.
proof fn lemma_ascending_unique(a: Seq<usize>, b: Seq<usize>)
    requires
        ascending(a),
        ascending(b),
        a.to_set() == b.to_set(),
    ensures
        a == b,
    decreases a.len(),
{
    if a.len() == 0 {
        if b.len() > 0 {
            assert(b.to_set().contains(b[0]));
        }
    } else if b.len() == 0 {
        assert(a.to_set().contains(a[0]));
    } else {
        let x = a.last();
        let y = b.last();
        assert(a.to_set().contains(x));
        assert(b.to_set().contains(y));
        let i = choose|i: int| 0 <= i < b.len() && b[i] == x;
        let j = choose|j: int| 0 <= j < a.len() && a[j] == y;
        assert(x == y);
        assert(a.drop_last().to_set() =~= b.drop_last().to_set()) by {
            assert forall|z: usize| a.drop_last().to_set().contains(z) implies b.drop_last().to_set().contains(z) by {
                let p = choose|p: int| 0 <= p < a.len() - 1 && a[p] == z;
                assert(a.to_set().contains(z));
                let q = choose|q: int| 0 <= q < b.len() && b[q] == z;
                assert(q != b.len() - 1);
                assert(b.drop_last()[q] == z);
            }
            assert forall|z: usize| b.drop_last().to_set().contains(z) implies a.drop_last().to_set().contains(z) by {
                let p = choose|p: int| 0 <= p < b.len() - 1 && b[p] == z;
                assert(b.to_set().contains(z));
                let q = choose|q: int| 0 <= q < a.len() && a[q] == z;
                assert(q != a.len() - 1);
                assert(a.drop_last()[q] == z);
            }
        }
        lemma_ascending_unique(a.drop_last(), b.drop_last());
        assert(a =~= a.drop_last().push(x));
        assert(b =~= b.drop_last().push(y));
    }
}

/// The state that the executable vectors and counters stand for.
pub open spec fn state_of(frags: Seq<Vec<usize>>, banned: Seq<Vec<usize>>, total: u128, stuck: usize) -> Merging {
    Merging { frags: views(frags), banned: views(banned), total: total as int, stuck: stuck as nat }
}

/// Where the merging process ends on `g` after at most `max_steps` steps.
pub open spec fn merging_end(g: Map<usize, HashMap<usize, u64>>, max_steps: u64) -> Merging {
    run_merging(map_arcs(g), start_state(key_order(g)), max_steps as nat)
}

/// What the fragment-merging heuristic answers on `g` with a budget of
/// `max_steps` steps: `EmptyGraph` exactly when `g` has no nodes; else, as
/// the process ends: one fragment left gives it as the route with the
/// process's running cost (a route through every node once, along present
/// arcs, costing that much); settled with more fragments gives no route;
/// not settled gives `StepLimitReached`.
pub open spec fn merging_answer(
    g: Map<usize, HashMap<usize, u64>>,
    max_steps: u64,
    r: Result<(Option<u128>, Seq<usize>), SolveError>,
) -> bool {
    let end = merging_end(g, max_steps);
    let arc = map_arcs(g);
    if g.len() == 0 {
        r == Err::<(Option<u128>, Seq<usize>), SolveError>(SolveError::EmptyGraph)
    } else if !settled(end) {
        r == Err::<(Option<u128>, Seq<usize>), SolveError>(SolveError::StepLimitReached { steps: max_steps })
    } else if end.frags.len() == 1 {
        &&& r matches Ok((Some(c), route)) && c == end.total && route == end.frags[0]
        &&& end.frags[0].no_duplicates()
        &&& end.frags[0].to_set() == g.dom()
        &&& arcs_present(arc, end.frags[0])
        &&& end.total == route_cost(arc, end.frags[0])
    } else {
        r == Ok::<(Option<u128>, Seq<usize>), SolveError>((None, Seq::empty()))
    }
}

/// Fragment-merging nearest-neighbour heuristic for graphs that may lack arcs.
///
/// Starts from one fragment per node (nodes in increasing order) and runs
/// `merge_step` until one fragment remains, until no step can change
/// anything, or until `max_steps` steps were taken. One fragment left: it is
/// the route, with the summed cost of its arcs. Nothing left to try: no route
/// (`cost == None`, empty route). Step budget used up: `StepLimitReached`.
/// A map without nodes: `EmptyGraph`.
pub fn nearest_neighbor_sparse(distances: &HashMap<usize, HashMap<usize, u64>>, max_steps: u64) -> (r: Result<
    SolverResult,
    SolveError,
>)
    ensures
        merging_answer(distances@, max_steps, outcome(r)),
{
    let ghost arc = map_arcs(distances@);
    let ghost keyset = distances@.dom();
    let keys = sorted_keys(distances);
    proof {
        let chosen = key_order(distances@);
        assert(ascending(chosen) && chosen.to_set() == distances@.dom());
        lemma_ascending_unique(keys@, chosen);
        lemma_start_inv(arc, keys@);
        keys@.unique_seq_to_set();
        assert(distances@.len() == keyset.len());
    }
    if keys.len() == 0 {
        return Err(SolveError::EmptyGraph);
    }
    let ghost end = merging_end(distances@, max_steps);
    let mut frags: Vec<Vec<usize>> = Vec::new();
    for i in 0..keys.len()
        invariant
            frags@.len() == i,
            views(frags@) == keys@.take(i as int).map_values(|k: usize| seq![k]),
    {
        let mut one: Vec<usize> = Vec::new();
        one.push(keys[i]);
        let ghost before = frags@;
        frags.push(one);
        assert(frags@ == before.push(one));
        assert(views(frags@) =~= keys@.take(i + 1).map_values(|k: usize| seq![k])) by {
            assert forall|x: int| 0 <= x < i + 1 implies views(frags@)[x] == keys@.take(i + 1).map_values(
                |k: usize| seq![k],
            )[x] by {
                if x < i {
                    assert(views(frags@)[x] == views(before)[x]);
                } else {
                    assert(frags@[x]@ =~= seq![keys@[x]]);
                }
            }
        }
    }
    assert(keys@.take(keys@.len() as int) =~= keys@);
    let mut banned: Vec<Vec<usize>> = Vec::new();
    let mut total: u128 = 0;
    let mut stuck: usize = 0;
    let mut steps: u64 = 0;
    assert(state_of(frags@, banned@, total, stuck) == start_state(keys@)) by {
        assert(views(banned@) =~= Seq::<Seq<usize>>::empty());
    }
    loop
        invariant
            merging_inv(arc, keyset, state_of(frags@, banned@, total, stuck)),
            run_merging(arc, state_of(frags@, banned@, total, stuck), (max_steps - steps) as nat) == end,
            end == merging_end(distances@, max_steps),
            arc == map_arcs(distances@),
            keyset == distances@.dom(),
            keyset.contains(keys@[0]),
            steps <= max_steps,
            total <= steps as int * u64::MAX as int,
        ensures
            merging_inv(arc, keyset, state_of(frags@, banned@, total, stuck)),
            settled(state_of(frags@, banned@, total, stuck)),
            state_of(frags@, banned@, total, stuck) == end,
            arc == map_arcs(distances@),
            keyset == distances@.dom(),
        decreases max_steps - steps,
    {
        let ghost cur = state_of(frags@, banned@, total, stuck);
        proof {
            // Some fragment holds the first key, so there is a fragment to take.
            let (i, a) = choose|i: int, a: int| is_pos(cur.frags, i, a) && #[trigger] cur.frags[i][a] == keys@[0];
            assert(frags@.len() > i);
        }
        if frags.len() <= 1 || stuck >= frags.len() {
            break;
        }
        if steps == max_steps {
            return Err(SolveError::StepLimitReached { steps: max_steps });
        }
        let ghost rest = cur.frags.drop_last();
        let f = frags.pop().unwrap();
        assert(views(frags@) =~= rest);
        assert(f@ == cur.frags.last());
        assert(cur.frags[cur.frags.len() - 1] == f@);
        let tail = f[f.len() - 1];
        let mut best: Option<(usize, u64)> = None;
        for idx in 0..frags.len()
            invariant
                views(frags@) == rest,
                frags@.len() == rest.len(),
                rest == cur.frags.drop_last(),
                f@ == cur.frags.last(),
                cur.frags.len() > 1,
                tail == f@.last(),
                merging_inv(arc, keyset, cur),
                views(banned@) == cur.banned,
                arc == map_arcs(distances@),
                match best {
                    None => forall|k: int| 0 <= k < idx ==> !can_join(arc, rest, f@, cur.banned, k),
                    Some((j, c)) => {
                        &&& j < idx
                        &&& can_join(arc, rest, f@, cur.banned, j as int)
                        &&& arc(tail, rest[j as int][0]) == Some(c)
                        &&& forall|k: int| 0 <= k < idx && k != j && can_join(arc, rest, f@, cur.banned, k)
                            ==> preferred(arc, rest, f@, j as int, k)
                    },
                },
        {
            assert(cur.frags[idx as int] == rest[idx as int]);
            assert(rest[idx as int].len() > 0);
            let head = frags[idx][0];
            assert(frags@[idx as int]@ == rest[idx as int]);
            let ghost old_best = best;
            match arc_cost(distances, tail, head) {
                Some(c) => {
                    let wins = match best {
                        None => true,
                        Some((j, bc)) => c < bc || (c == bc && head < frags[j][0]),
                    };
                    proof {
                        if let Some((j, bc)) = old_best {
                            assert(frags@[j as int]@ == rest[j as int]);
                            assert(rest[j as int][0] != rest[idx as int][0]) by {
                                assert(cur.frags[j as int] == rest[j as int]);
                                assert(is_pos(cur.frags, j as int, 0) && is_pos(cur.frags, idx as int, 0));
                            }
                            if wins {
                                assert(preferred(arc, rest, f@, idx as int, j as int));
                            } else {
                                assert(preferred(arc, rest, f@, j as int, idx as int));
                            }
                        }
                    }
                    if wins {
                        let candidate = joined(&f, &frags[idx]);
                        if !contains_route(&banned, &candidate) {
                            best = Some((idx, c));
                            assert(can_join(arc, rest, f@, cur.banned, idx as int));
                            assert(arc(tail, rest[idx as int][0]) == Some(c));
                            assert forall|k: int| 0 <= k < idx + 1 && k != idx && can_join(arc, rest, f@, cur.banned, k)
                                implies preferred(arc, rest, f@, idx as int, k) by {
                                if let Some((j, bc)) = old_best {
                                    if k != j {
                                        assert(preferred(arc, rest, f@, j as int, k));
                                    }
                                }
                            }
                        } else {
                            assert(!can_join(arc, rest, f@, cur.banned, idx as int));
                        }
                    }
                },
                None => {
                    assert(!can_join(arc, rest, f@, cur.banned, idx as int));
                },
            }
        }
        match best {
            Some((j, c)) => {
                proof {
                    assert forall|k: int| best_join(arc, rest, f@, cur.banned, k) implies k == j by {
                        if k != j {
                            assert(preferred(arc, rest, f@, j as int, k));
                            assert(preferred(arc, rest, f@, k, j as int));
                        }
                    }
                    assert(best_join(arc, rest, f@, cur.banned, j as int));
                }
                let g = frags.remove(j);
                assert(g@ == rest[j as int]);
                let merged = joined(&f, &g);
                frags.insert(0, merged);
                assert(views(frags@) =~= seq![f@ + rest[j as int]] + rest.remove(j as int));
                proof {
                    lemma_step_inv(arc, keyset, cur);
                }
                total = total + c as u128;
                stuck = 0;
            },
            None => {
                if f.len() > 1 {
                    let ghost fv = f@;
                    banned.push(copy_route(&f));
                    let mut kept = f;
                    let last = kept.pop().unwrap();
                    let prev = kept[kept.len() - 1];
                    assert(arcs_present(arc, fv));
                    let ghost q = fv.len() - 2;
                    assert(arc(fv[q], fv[q + 1]).is_some());
                    let c = arc_cost(distances, prev, last).unwrap();
                    proof {
                        lemma_step_inv(arc, keyset, cur);
                        lemma_total_cost_nonneg(arc, rest);
                        assert(total_cost(arc, cur.frags) == total_cost(arc, rest) + route_cost(arc, fv)) by {
                            assert(cur.frags.drop_last() == rest);
                        }
                        assert(fv.drop_last() =~= kept@);
                        lemma_route_cost_nonneg(arc, kept@);
                    }
                    total = total - c as u128;
                    frags.push(kept);
                    let mut one: Vec<usize> = Vec::new();
                    one.push(last);
                    frags.insert(0, one);
                    assert(views(frags@) =~= seq![seq![fv.last()]] + rest.push(fv.drop_last()));
                    assert(views(banned@) =~= cur.banned.push(fv));
                    stuck = 0;
                } else {
                    let ghost fv = f@;
                    frags.insert(0, f);
                    assert(views(frags@) =~= seq![fv] + rest);
                    proof {
                        lemma_step_inv(arc, keyset, cur);
                    }
                    stuck = stuck + 1;
                }
            },
        }
        assert(state_of(frags@, banned@, total, stuck) == merge_step(arc, cur));
        assert(total <= (steps + 1) as int * u64::MAX as int) by (nonlinear_arith)
            requires
                total <= steps as int * u64::MAX as int + u64::MAX as int;
        steps = steps + 1;
    }
    let ghost last = state_of(frags@, banned@, total, stuck);
    proof {
        lemma_run_inv(arc, keyset, start_state(keys@), max_steps as nat);
    }
    if frags.len() == 1 {
        let route = frags.pop().unwrap();
        proof {
            assert(last.frags[0] == route@);
            assert forall|a: int, b: int| 0 <= a < b < route@.len() implies route@[a] != route@[b] by {
                assert(is_pos(last.frags, 0, a) && is_pos(last.frags, 0, b));
            }
            assert forall|x: usize| route@.to_set().contains(x) == keyset.contains(x) by {
                if keyset.contains(x) {
                    let (i, a) = choose|i: int, a: int| is_pos(last.frags, i, a) && #[trigger] last.frags[i][a] == x;
                    assert(route@[a] == x);
                }
                if route@.to_set().contains(x) {
                    let a = choose|a: int| 0 <= a < route@.len() && route@[a] == x;
                    assert(is_pos(last.frags, 0, a));
                }
            }
            assert(route@.to_set() =~= keyset);
            assert(last.frags =~= seq![route@]);
            lemma_total_cost_single(arc, route@);
        }
        Ok(SolverResult { cost: Some(total), route })
    } else {
        let res = SolverResult { cost: None, route: Vec::new() };
        assert(res.route@ =~= Seq::<usize>::empty());
        Ok(res)
    }
}

} // verus!
