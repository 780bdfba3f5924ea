use boeing_traveling_salesman::{is_valid_route, RouteCheck, COST_TOLERANCE, UNITS_PER_COST};

// Costs in units: one written cost unit is `UNITS_PER_COST` units.
const U: u64 = UNITS_PER_COST;
const UC: u128 = UNITS_PER_COST as u128;

fn sample_matrix() -> Vec<Vec<Option<u64>>> {
    vec![
        vec![Some(0), Some(U), Some(U)],
        vec![Some(U), Some(0), Some(U)],
        vec![Some(U), Some(U), Some(0)],
    ]
}

#[test]
fn test_invalid_arc() {
    // No arc between nodes 0 and 2.
    let distance_matrix = vec![
        vec![Some(0), Some(U), None],
        vec![Some(U), Some(0), Some(U)],
        vec![None, Some(U), Some(0)],
    ];
    let path = vec![0, 2];
    let cost = 0;
    let result = is_valid_route(&distance_matrix, cost, &path).message();
    assert!(result.contains("No arc from 0 to 2"), "Test failed with result: {}", result);
}

#[test]
fn test_revisited_node() {
    let distance_matrix = sample_matrix();
    let path = vec![0, 1, 0];
    let cost = 2 * UC;
    let result = is_valid_route(&distance_matrix, cost, &path).message();
    assert!(result.contains("Visited location 0 twice"), "Test failed with result: {}", result);
}

#[test]
fn test_incorrect_cost() {
    let distance_matrix = sample_matrix();
    let path = vec![0, 1, 2];
    let cost = 3 * UC;
    let result = is_valid_route(&distance_matrix, cost, &path).message();
    assert!(result.contains("Cost was"), "Test failed with result: {}", result);
}

#[test]
fn empty_route_is_no_path_found() {
    let verdict = is_valid_route(&sample_matrix(), 0, &vec![]);
    assert_eq!(verdict, RouteCheck::NoPathFound);
    assert_eq!(verdict.message(), "No path found, path = []");
}

#[test]
fn missing_arc_names_the_arc() {
    let m = vec![
        vec![None, Some(4), None, None],
        vec![None, None, Some(2), None],
        vec![None, None, None, None],
        vec![None, None, None, None],
    ];
    let verdict = is_valid_route(&m, 6, &vec![0, 1, 2, 3]);
    assert_eq!(verdict, RouteCheck::MissingArc { from: 2, to: 3 });
    assert_eq!(verdict.message(), "No arc from 2 to 3");
}

#[test]
fn missing_arc_comes_before_a_repeat() {
    let m = vec![vec![None, Some(1)], vec![Some(1), None]];
    let verdict = is_valid_route(&m, 0, &vec![0, 0, 1]);
    assert_eq!(verdict, RouteCheck::MissingArc { from: 0, to: 0 });
}

#[test]
fn revisit_names_node_and_position() {
    let verdict = is_valid_route(&sample_matrix(), 3 * UC, &vec![2, 0, 1, 0]);
    assert_eq!(verdict, RouteCheck::RevisitedNode { node: 0, position: 3 });
    assert_eq!(verdict.message(), "Visited location 0 twice, at position 3");
}

#[test]
fn cost_mismatch_states_both_values() {
    let verdict = is_valid_route(&sample_matrix(), 3 * UC, &vec![0, 1, 2]);
    assert_eq!(verdict, RouteCheck::CostMismatch { expected: 2 * UC, actual: 3 * UC });
    assert_eq!(verdict.message(), "Cost was 2000000 but algorithm returned 3000000");
}

#[test]
fn large_costs_are_written_in_full() {
    let m = vec![vec![None, Some(u64::MAX)], vec![Some(u64::MAX), None]];
    let verdict = is_valid_route(&m, 7, &vec![0, 1]);
    assert_eq!(verdict, RouteCheck::CostMismatch { expected: u64::MAX as u128, actual: 7 });
    assert_eq!(verdict.message(), "Cost was 18446744073709551615 but algorithm returned 7");
}

#[test]
fn exact_cost_is_valid() {
    let verdict = is_valid_route(&sample_matrix(), 2 * UC, &vec![0, 1, 2]);
    assert_eq!(verdict, RouteCheck::Valid);
    assert_eq!(verdict.message(), "valid");
}

#[test]
fn single_node_route_is_valid_at_zero() {
    assert_eq!(is_valid_route(&sample_matrix(), 0, &vec![1]), RouteCheck::Valid);
}

#[test]
fn unknown_first_node_is_reported() {
    let verdict = is_valid_route(&sample_matrix(), 0, &vec![7]);
    assert_eq!(verdict, RouteCheck::UnknownNode { node: 7 });
    assert_eq!(verdict.message(), "No location 7 in the matrix");
}

#[test]
fn node_outside_matrix_is_a_missing_arc() {
    let verdict = is_valid_route(&sample_matrix(), UC, &vec![0, 9]);
    assert_eq!(verdict, RouteCheck::MissingArc { from: 0, to: 9 });
}

#[test]
fn short_rows_leave_arcs_absent() {
    let m = vec![vec![None, Some(1)], vec![Some(2)]];
    assert_eq!(is_valid_route(&m, 2, &vec![1, 0]), RouteCheck::Valid);
    assert_eq!(is_valid_route(&m, 1, &vec![0, 1]), RouteCheck::Valid);
    let short = vec![vec![None, Some(1)], vec![]];
    assert_eq!(is_valid_route(&short, 0, &vec![1, 0]), RouteCheck::MissingArc { from: 1, to: 0 });
}

#[test]
fn cost_within_one_unit_is_valid() {
    let m = sample_matrix();
    assert_eq!(COST_TOLERANCE, 1);
    assert_eq!(is_valid_route(&m, 2 * UC + 1, &vec![0, 1, 2]), RouteCheck::Valid);
    assert_eq!(is_valid_route(&m, 2 * UC - 1, &vec![0, 1, 2]), RouteCheck::Valid);
    assert_eq!(
        is_valid_route(&m, 2 * UC + 2, &vec![0, 1, 2]),
        RouteCheck::CostMismatch { expected: 2 * UC, actual: 2 * UC + 2 }
    );
    assert_eq!(
        is_valid_route(&m, 2 * UC - 2, &vec![0, 1, 2]),
        RouteCheck::CostMismatch { expected: 2 * UC, actual: 2 * UC - 2 }
    );
}
