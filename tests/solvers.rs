use std::collections::HashMap;

use boeing_traveling_salesman::{
    held_karp_algorithm, is_valid_route, map_from_edges, matrix_from_edges, nearest_neighbor_full_graph,
    nearest_neighbor_sparse, RouteCheck, SolveError, SolverResult, MAX_EXACT_NODES,
};

fn map_of(n: usize, arcs: &[(usize, usize, u64)]) -> HashMap<usize, HashMap<usize, u64>> {
    let mut g: HashMap<usize, HashMap<usize, u64>> = HashMap::new();
    for k in 0..n {
        g.insert(k, HashMap::new());
    }
    for &(a, b, c) in arcs {
        g.get_mut(&a).unwrap().insert(b, c);
    }
    g
}

fn matrix_of(n: usize, arcs: &[(usize, usize, u64)]) -> Vec<Vec<Option<u64>>> {
    let mut m = vec![vec![None; n]; n];
    for &(a, b, c) in arcs {
        m[a][b] = Some(c);
    }
    m
}

fn route_cost(m: &Vec<Vec<Option<u64>>>, route: &[usize]) -> Option<u128> {
    let mut total: u128 = 0;
    for w in route.windows(2) {
        total += m[w[0]][w[1]]? as u128;
    }
    Some(total)
}

fn permutations(items: Vec<usize>) -> Vec<Vec<usize>> {
    if items.len() <= 1 {
        return vec![items];
    }
    let mut out = Vec::new();
    for i in 0..items.len() {
        let mut rest = items.clone();
        let first = rest.remove(i);
        for mut p in permutations(rest) {
            p.insert(0, first);
            out.push(p);
        }
    }
    out
}

fn brute_force_from(m: &Vec<Vec<Option<u64>>>, start: usize) -> Option<u128> {
    let n = m.len();
    let others: Vec<usize> = (0..n).filter(|&k| k != start).collect();
    permutations(others)
        .into_iter()
        .filter_map(|mut p| {
            p.insert(0, start);
            route_cost(m, &p)
        })
        .min()
}

fn brute_force(m: &Vec<Vec<Option<u64>>>) -> Option<u128> {
    (0..m.len()).filter_map(|s| brute_force_from(m, s)).min()
}

// Symmetric three-node graph with no self loops.
fn three_node() -> Vec<Vec<Option<u64>>> {
    matrix_of(3, &[(0, 1, 1), (1, 0, 1), (0, 2, 2), (2, 0, 2), (1, 2, 1), (2, 1, 1)])
}

const COMPLETE4: [(usize, usize, u64); 12] = [
    (0, 1, 3),
    (0, 2, 1),
    (0, 3, 4),
    (1, 0, 3),
    (1, 2, 2),
    (1, 3, 2),
    (2, 0, 1),
    (2, 1, 2),
    (2, 3, 5),
    (3, 0, 4),
    (3, 1, 2),
    (3, 2, 5),
];

#[test]
fn exact_single_node() {
    let r = held_karp_algorithm(&vec![vec![None]]).unwrap();
    assert_eq!(r.cost, Some(0));
    assert_eq!(r.route, vec![0]);
}

#[test]
fn exact_no_nodes() {
    let r = held_karp_algorithm(&vec![]).unwrap();
    assert_eq!(r.cost, Some(0));
    assert!(r.route.is_empty());
}

#[test]
fn exact_three_node_example() {
    let m = three_node();
    let first = held_karp_algorithm(&m).unwrap();
    assert_eq!(first.cost, Some(2));
    assert_eq!(first.route, vec![0, 1, 2]);
    let second = held_karp_algorithm(&m).unwrap();
    assert_eq!(first, second);
    assert_eq!(is_valid_route(&m, 2, &first.route), RouteCheck::Valid);
}

#[test]
fn exact_ties_take_lowest_end() {
    // Both routes from node 0 cost 2; read from the end, [0, 2, 1] is lower.
    let m = matrix_of(3, &[(0, 1, 1), (1, 0, 1), (0, 2, 1), (2, 0, 1), (1, 2, 1), (2, 1, 1)]);
    let r = held_karp_algorithm(&m).unwrap();
    assert_eq!(r.cost, Some(2));
    assert_eq!(r.route, vec![0, 2, 1]);
    assert_eq!(held_karp_algorithm(&m).unwrap(), r);
}

#[test]
fn exact_retries_later_start() {
    // From node 0 only node 2 is reachable, and 2 leads nowhere.
    let m = matrix_of(3, &[(1, 0, 1), (0, 2, 1)]);
    let r = held_karp_algorithm(&m).unwrap();
    assert_eq!(r.cost, Some(2));
    assert_eq!(r.route, vec![1, 0, 2]);
}

#[test]
fn exact_finds_cheapest_over_all_starts() {
    // From node 0 the only complete route costs 20; from node 1 one costs 11.
    let m = matrix_of(3, &[(0, 1, 10), (1, 2, 10), (2, 0, 1)]);
    let r = held_karp_algorithm(&m).unwrap();
    assert_eq!(r.route, vec![1, 2, 0]);
    assert_eq!(r.cost, Some(11));
    assert_eq!(brute_force(&m), Some(11));
}

#[test]
fn exact_two_nodes_cheaper_start_later() {
    let m = matrix_of(2, &[(0, 1, 5), (1, 0, 1)]);
    let r = held_karp_algorithm(&m).unwrap();
    assert_eq!(r, SolverResult { cost: Some(1), route: vec![1, 0] });
    let only_back = matrix_of(2, &[(1, 0, 1)]);
    assert_eq!(held_karp_algorithm(&only_back).unwrap().cost, Some(1));
    let sparse = nearest_neighbor_sparse(&map_of(2, &[(0, 1, 5), (1, 0, 1)]), 100).unwrap();
    assert!(sparse.cost.unwrap() >= r.cost.unwrap());
}

#[test]
fn exact_equal_costs_take_lowest_start() {
    // [0, 1] and [1, 0] both cost 3.
    let m = matrix_of(2, &[(0, 1, 3), (1, 0, 3)]);
    assert_eq!(held_karp_algorithm(&m).unwrap().route, vec![0, 1]);
}

#[test]
fn exact_infeasible() {
    let m = matrix_of(2, &[]);
    let r = held_karp_algorithm(&m).unwrap();
    assert_eq!(r, SolverResult { cost: None, route: vec![] });
}

#[test]
fn exact_rejects_oversized_input() {
    let n = MAX_EXACT_NODES + 1;
    let m = vec![vec![Some(1); n]; n];
    assert_eq!(held_karp_algorithm(&m), Err(SolveError::TooManyNodes { nodes: 21, limit: 20 }));
}

#[test]
fn exact_complete_four_nodes() {
    let m = matrix_of(4, &COMPLETE4);
    let r = held_karp_algorithm(&m).unwrap();
    assert_eq!(r.cost, Some(5));
    assert_eq!(r.route, vec![0, 2, 1, 3]);
    assert_eq!(r.cost, brute_force(&m));
}

#[test]
fn exact_matches_brute_force() {
    // Pseudo-random directed graphs with some arcs missing.
    let mut seed: u64 = 12345;
    for n in 1..=7usize {
        for _ in 0..6 {
            let mut m = vec![vec![None; n]; n];
            for i in 0..n {
                for j in 0..n {
                    seed = seed.wrapping_mul(6364136223846793005).wrapping_add(1442695040888963407);
                    let v = (seed >> 33) % 13;
                    if i != j && v < 10 {
                        m[i][j] = Some(v + 1);
                    }
                }
            }
            let r = held_karp_algorithm(&m).unwrap();
            match r.cost {
                None => assert_eq!(brute_force(&m), None),
                Some(c) => {
                    let start = r.route[0];
                    assert_eq!(Some(c), brute_force(&m));
                    for s in 0..start {
                        assert!(brute_force_from(&m, s).map_or(true, |v| v > c));
                    }
                    assert_eq!(r.route.len(), n);
                    assert_eq!(is_valid_route(&m, c, &r.route), RouteCheck::Valid);
                }
            }
        }
    }
}

#[test]
fn exact_symmetric_optimum_matches_brute_force() {
    // Complete and symmetric: every start has routes; the cheapest starts at 0.
    let m = matrix_of(4, &[
        (0, 1, 1), (1, 0, 1), (1, 2, 1), (2, 1, 1), (2, 3, 1), (3, 2, 1),
        (0, 2, 9), (2, 0, 9), (0, 3, 9), (3, 0, 9), (1, 3, 9), (3, 1, 9),
    ]);
    let r = held_karp_algorithm(&m).unwrap();
    assert_eq!(r.cost, Some(3));
    assert_eq!(r.cost, brute_force(&m));
}

#[test]
fn greedy_complete_graph() {
    let g = map_of(4, &COMPLETE4);
    let r = nearest_neighbor_full_graph(&g).unwrap();
    assert_eq!(r.route, vec![0, 2, 1, 3]);
    assert_eq!(r.cost, Some(5));
    let m = matrix_of(4, &COMPLETE4);
    assert_eq!(is_valid_route(&m, 5, &r.route), RouteCheck::Valid);
    let exact = held_karp_algorithm(&m).unwrap();
    assert!(exact.cost.unwrap() <= r.cost.unwrap());
}

#[test]
fn greedy_not_below_exact() {
    // Greedy goes 0 -> 1 (cost 1) and then pays 10; the exact route 2 -> 1 -> 0 pays 1 + 1.
    let arcs = [(0, 1, 1), (0, 2, 2), (1, 0, 1), (1, 2, 10), (2, 0, 2), (2, 1, 1)];
    let g = map_of(3, &arcs);
    let m = matrix_of(3, &arcs);
    let greedy = nearest_neighbor_full_graph(&g).unwrap();
    assert_eq!(greedy.route, vec![0, 1, 2]);
    assert_eq!(greedy.cost, Some(11));
    let exact = held_karp_algorithm(&m).unwrap();
    assert_eq!(exact.cost, Some(2));
    assert_eq!(exact.route, vec![2, 1, 0]);
}

#[test]
fn greedy_ties_take_lowest_node() {
    let arcs = [(0, 1, 2), (0, 2, 2), (1, 2, 1), (2, 1, 1), (1, 0, 2), (2, 0, 2)];
    let r = nearest_neighbor_full_graph(&map_of(3, &arcs)).unwrap();
    assert_eq!(r.route, vec![0, 1, 2]);
    assert_eq!(r.cost, Some(3));
}

#[test]
fn greedy_reports_incomplete_graph() {
    let arcs = [(0, 1, 1), (1, 0, 1), (2, 0, 1)];
    let r = nearest_neighbor_full_graph(&map_of(3, &arcs));
    assert_eq!(r, Err(SolveError::IncompleteGraph { node: 1 }));
}

#[test]
fn greedy_empty_graph() {
    assert_eq!(nearest_neighbor_full_graph(&HashMap::new()), Err(SolveError::EmptyGraph));
}

#[test]
fn greedy_single_node() {
    let r = nearest_neighbor_full_graph(&map_of(1, &[])).unwrap();
    assert_eq!(r, SolverResult { cost: Some(0), route: vec![0] });
}

#[test]
fn greedy_is_repeatable() {
    let g = map_of(4, &COMPLETE4);
    assert_eq!(nearest_neighbor_full_graph(&g), nearest_neighbor_full_graph(&g));
}

#[test]
fn sparse_disconnected_pair_terminates() {
    let g = map_of(2, &[]);
    let r = nearest_neighbor_sparse(&g, 1000).unwrap();
    assert_eq!(r, SolverResult { cost: None, route: vec![] });
}

#[test]
fn sparse_budget_can_run_out() {
    let g = map_of(2, &[]);
    assert_eq!(nearest_neighbor_sparse(&g, 1), Err(SolveError::StepLimitReached { steps: 1 }));
}

#[test]
fn sparse_joins_fragments() {
    let arcs = [(0, 1, 1), (1, 2, 1), (2, 0, 5)];
    let r = nearest_neighbor_sparse(&map_of(3, &arcs), 100).unwrap();
    assert_eq!(r.route, vec![1, 2, 0]);
    assert_eq!(r.cost, Some(6));
    assert_eq!(is_valid_route(&matrix_of(3, &arcs), 6, &r.route), RouteCheck::Valid);
}

#[test]
fn sparse_undoes_dead_ends() {
    // The first join 2 -> 1 leads nowhere; it is undone and 0 -> 1 -> 2 is found.
    let arcs = [(0, 1, 1), (1, 2, 1), (2, 1, 1)];
    let g = map_of(3, &arcs);
    let r = nearest_neighbor_sparse(&g, 7).unwrap();
    assert_eq!(r.route, vec![0, 1, 2]);
    assert_eq!(r.cost, Some(2));
    assert_eq!(nearest_neighbor_sparse(&g, 6), Err(SolveError::StepLimitReached { steps: 6 }));
    assert_eq!(is_valid_route(&matrix_of(3, &arcs), 2, &r.route), RouteCheck::Valid);
}

#[test]
fn sparse_keys_only_are_nodes() {
    // Node 2 has no outgoing arc, so it is not a key and not on the route.
    let mut g: HashMap<usize, HashMap<usize, u64>> = HashMap::new();
    g.insert(0, HashMap::from([(1, 1)]));
    g.insert(1, HashMap::from([(2, 1)]));
    let r = nearest_neighbor_sparse(&g, 100).unwrap();
    assert_eq!(r, SolverResult { cost: Some(1), route: vec![0, 1] });
}

#[test]
fn sparse_empty_graph() {
    assert_eq!(nearest_neighbor_sparse(&HashMap::new(), 10), Err(SolveError::EmptyGraph));
}

#[test]
fn sparse_is_repeatable() {
    let g = map_of(4, &COMPLETE4);
    let first = nearest_neighbor_sparse(&g, 1000);
    assert_eq!(first, nearest_neighbor_sparse(&g, 1000));
    let r = first.unwrap();
    assert_eq!(r.route.len(), 4);
    let m = matrix_of(4, &COMPLETE4);
    assert_eq!(is_valid_route(&m, r.cost.unwrap(), &r.route), RouteCheck::Valid);
}

#[test]
fn every_solver_answer_checks_out() {
    let edges: Vec<(usize, usize, Option<u64>)> = [(0, 1, 4), (1, 2, 3), (2, 3, 2), (3, 0, 7), (1, 3, 1), (3, 2, 6), (0, 2, 5), (2, 0, 8)]
        .iter()
        .map(|&(a, b, c)| (a, b, Some(c)))
        .collect();
    let m = matrix_from_edges(&edges);
    let g = map_from_edges(&edges);
    let exact = held_karp_algorithm(&m).unwrap();
    assert_eq!(is_valid_route(&m, exact.cost.unwrap(), &exact.route), RouteCheck::Valid);
    let sparse = nearest_neighbor_sparse(&g, 1000).unwrap();
    assert_eq!(is_valid_route(&m, sparse.cost.unwrap(), &sparse.route), RouteCheck::Valid);
    match nearest_neighbor_full_graph(&g) {
        Ok(r) => assert_eq!(is_valid_route(&m, r.cost.unwrap(), &r.route), RouteCheck::Valid),
        Err(e) => assert!(matches!(e, SolveError::IncompleteGraph { .. })),
    }
}

#[test]
fn matrix_from_edges_last_entry_wins() {
    let edges = vec![(0, 1, Some(5)), (1, 2, Some(3)), (0, 1, Some(7)), (2, 0, Some(4)), (2, 0, None)];
    let m = matrix_from_edges(&edges);
    assert_eq!(m, vec![vec![None, Some(7), None], vec![None, None, Some(3)], vec![None, None, None]]);
    assert_eq!(matrix_from_edges(&vec![]), vec![vec![None]]);
    // A listed arc without a cost still names its nodes.
    assert_eq!(matrix_from_edges(&vec![(0, 2, None)]).len(), 3);
}

#[test]
fn map_from_edges_keys_are_sources() {
    let edges = vec![(0, 1, Some(5)), (1, 2, Some(3)), (0, 1, Some(7)), (0, 3, Some(1)), (4, 0, None), (1, 2, None)];
    let g = map_from_edges(&edges);
    let mut expected: HashMap<usize, HashMap<usize, u64>> = HashMap::new();
    expected.insert(0, HashMap::from([(1, 7), (3, 1)]));
    expected.insert(1, HashMap::new());
    expected.insert(4, HashMap::new());
    assert_eq!(g, expected);
}

#[test]
fn exact_short_rows() {
    let m = vec![vec![None, Some(1)], vec![]];
    let r = held_karp_algorithm(&m).unwrap();
    assert_eq!(r, SolverResult { cost: Some(1), route: vec![0, 1] });
}
