//! The route validator: tells whether a (cost, route) pair fits a matrix.
use vstd::prelude::*;
use crate::flags::{bits_of, flag, new_flags, set_flag};
use crate::model::{matrix_arcs, matrix_cost, route_cost};
use crate::text::{decimal, push_decimal, push_text};

verus! {

/// Outcome of checking a route: `Valid`, or the first check that failed.
#[derive(Debug, Clone, Copy, PartialEq, Eq, Structural)]
pub enum RouteCheck {
    /// Every check passed.
    Valid,
    /// The route is empty.
    NoPathFound,
    /// The first node is not a node of the matrix.
    UnknownNode { node: usize },
    /// The arc `from -> to` of the route is absent.
    MissingArc { from: usize, to: usize },
    /// `node` stands a second time at `position` of the route.
    RevisitedNode { node: usize, position: usize },
    /// The arcs of the route sum to `expected`, not to the claimed `actual`.
    CostMismatch { expected: u128, actual: u128 },
}

/// How far a claimed route cost may be from the sum of its arcs: one cost
/// unit, a millionth of a written cost unit.
pub const COST_TOLERANCE: u128 = 1;

/// `a` and `b` differ by at most `COST_TOLERANCE`.
pub open spec fn within_tolerance(a: int, b: int) -> bool {
    a - b <= COST_TOLERANCE && b - a <= COST_TOLERANCE
}

impl RouteCheck {
    /// The verdict in words.
    pub open spec fn text(self) -> Seq<char> {
        match self {
            RouteCheck::Valid => "valid"@,
            RouteCheck::NoPathFound => "No path found, path = []"@,
            RouteCheck::UnknownNode { node } => "No location "@ + decimal(node as nat) + " in the matrix"@,
            RouteCheck::MissingArc { from, to } => "No arc from "@ + decimal(from as nat) + " to "@ + decimal(
                to as nat,
            ),
            RouteCheck::RevisitedNode { node, position } => "Visited location "@ + decimal(node as nat)
                + " twice, at position "@ + decimal(position as nat),
            RouteCheck::CostMismatch { expected, actual } => "Cost was "@ + decimal(expected as nat)
                + " but algorithm returned "@ + decimal(actual as nat),
        }
    }

    /// The verdict in words: `text`.
    pub fn message(&self) -> (s: String)
        ensures
            s@ == self.text(),
    {
        let mut s = String::new();
        match *self {
            RouteCheck::Valid => {
                push_text(&mut s, "valid");
            },
            RouteCheck::NoPathFound => {
                push_text(&mut s, "No path found, path = []");
            },
            RouteCheck::UnknownNode { node } => {
                push_text(&mut s, "No location ");
                push_decimal(&mut s, node as u128);
                push_text(&mut s, " in the matrix");
            },
            RouteCheck::MissingArc { from, to } => {
                push_text(&mut s, "No arc from ");
                push_decimal(&mut s, from as u128);
                push_text(&mut s, " to ");
                push_decimal(&mut s, to as u128);
            },
            RouteCheck::RevisitedNode { node, position } => {
                push_text(&mut s, "Visited location ");
                push_decimal(&mut s, node as u128);
                push_text(&mut s, " twice, at position ");
                push_decimal(&mut s, position as u128);
            },
            RouteCheck::CostMismatch { expected, actual } => {
                push_text(&mut s, "Cost was ");
                push_decimal(&mut s, expected);
                push_text(&mut s, " but algorithm returned ");
                push_decimal(&mut s, actual);
            },
        }
        s
    }
}

/// Step `k` of the route (the arc from position `k` to `k + 1`) passes: the
/// arc is present and leads to a node not seen before.
pub open spec fn step_ok(arc: spec_fn(usize, usize) -> Option<u64>, r: Seq<usize>, k: int) -> bool {
    arc(r[k], r[k + 1]) is Some && !r.take(k + 1).contains(r[k + 1])
}

/// Every step before `i` passes.
pub open spec fn steps_ok_before(arc: spec_fn(usize, usize) -> Option<u64>, r: Seq<usize>, i: int) -> bool {
    forall|k: int| 0 <= k < i ==> #[trigger] step_ok(arc, r, k)
}

/// What the validator answers for `cost` and `p` on `m`: the verdict that
/// names the first check to fail, or `Valid`.
pub open spec fn check_answer(m: Seq<Vec<Option<u64>>>, cost: u128, p: Seq<usize>, r: RouteCheck) -> bool {
    let arc = matrix_arcs(m);
    let n = m.len();
    match r {
        RouteCheck::NoPathFound => p.len() == 0,
        RouteCheck::UnknownNode { node } => p.len() > 0 && p[0] >= n && node == p[0],
        RouteCheck::MissingArc { from, to } => p.len() > 0 && p[0] < n && exists|i: int|
            0 <= i < p.len() - 1 && steps_ok_before(arc, p, i) && arc(p[i], p[i + 1]) is None && from == p[i]
                && to == p[i + 1],
        RouteCheck::RevisitedNode { node, position } => p.len() > 0 && p[0] < n && exists|i: int|
            0 <= i < p.len() - 1 && steps_ok_before(arc, p, i) && arc(p[i], p[i + 1]) is Some && p.take(
                i + 1,
            ).contains(p[i + 1]) && node == p[i + 1] && position == i + 1,
        RouteCheck::CostMismatch { expected, actual } => p.len() > 0 && p[0] < n && steps_ok_before(
            arc,
            p,
            p.len() - 1,
        ) && expected == route_cost(arc, p) && actual == cost && !within_tolerance(expected as int, actual as int),
        RouteCheck::Valid => p.len() > 0 && p[0] < n && steps_ok_before(arc, p, p.len() - 1)
            && within_tolerance(route_cost(arc, p), cost as int),
    }
}

/// Checks, in order: the route is not empty (`NoPathFound`); its first node
/// is a node of the matrix (`UnknownNode`); then, arc by arc, that the arc
/// is present (`MissingArc`) and leads to a node not seen before
/// (`RevisitedNode`); last, that the arc costs sum to `cost` within
/// `COST_TOLERANCE` (`CostMismatch`).
pub fn is_valid_route(distance_matrix: &Vec<Vec<Option<u64>>>, cost: u128, path: &Vec<usize>) -> (r: RouteCheck)
    ensures
        check_answer(distance_matrix@, cost, path@, r),
{
    let ghost arc = matrix_arcs(distance_matrix@);
    let n = distance_matrix.len();
    if path.len() == 0 {
        return RouteCheck::NoPathFound;
    }
    if path[0] >= n {
        return RouteCheck::UnknownNode { node: path[0] };
    }
    let mut visited = new_flags(n);
    set_flag(&mut visited, path[0]);
    let mut sum: u128 = 0;
    proof {
        assert forall|j: usize| j < n implies bits_of(visited)[j as int] == path@.take(1).contains(j) by {
            if j == path@[0] {
                assert(path@.take(1)[0] == j);
            }
        }
        assert(path@.take(1) =~= seq![path@[0]]);
    }
    for i in 0..path.len() - 1
        invariant
            arc == matrix_arcs(distance_matrix@),
            n == distance_matrix@.len(),
            path@.len() > 0,
            path@[0] < n,
            bits_of(visited).len() == n,
            forall|j: usize| j < n ==> bits_of(visited)[j as int] == path@.take(i + 1).contains(j),
            steps_ok_before(arc, path@, i as int),
            sum == route_cost(arc, path@.take(i + 1)),
            sum <= i as int * u64::MAX as int,
    {
        let x = path[i];
        let y = path[i + 1];
        let step = matrix_cost(distance_matrix, x, y);
        assert(step == arc(x, y));
        match step {
            None => {
                assert(arc(path@[i as int], path@[i + 1]) is None);
                return RouteCheck::MissingArc { from: x, to: y };
            },
            Some(c) => {
                if flag(&visited, y) {
                    assert(path@.take(i + 1).contains(path@[i + 1]));
                    return RouteCheck::RevisitedNode { node: y, position: i + 1 };
                }
                set_flag(&mut visited, y);
                let ghost before = path@.take(i + 1);
                proof {
                    assert(path@.take(i + 2) =~= before.push(y));
                    assert(path@.take(i + 2).drop_last() =~= before);
                    assert forall|j: usize| j < n implies bits_of(visited)[j as int] == path@.take(i + 2).contains(j) by {
                        if j == y {
                            assert(path@.take(i + 2)[i + 1] == y);
                        } else if before.contains(j) {
                            let k = choose|k: int| 0 <= k < before.len() && before[k] == j;
                            assert(path@.take(i + 2)[k] == j);
                        } else if path@.take(i + 2).contains(j) {
                            let t = path@.take(i + 2);
                            let k = choose|k: int| 0 <= k < t.len() && t[k] == j;
                            assert(before[k] == j);
                        }
                    }
                    assert(step_ok(arc, path@, i as int));
                }
                assert(sum + c <= (i + 1) as int * u64::MAX as int) by (nonlinear_arith)
                    requires
                        sum <= i as int * u64::MAX as int,
                        c <= u64::MAX,
                ;
                sum = sum + c as u128;
            },
        }
    }
    assert(path@.take(path@.len() as int) =~= path@);
    if (sum >= cost && sum - cost <= COST_TOLERANCE) || (cost > sum && cost - sum <= COST_TOLERANCE) {
        RouteCheck::Valid
    } else {
        RouteCheck::CostMismatch { expected: sum, actual: cost }
    }
}

} // verus!
