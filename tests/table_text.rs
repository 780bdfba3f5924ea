use boeing_traveling_salesman::{
    held_karp_algorithm, map_from_edges, matrix_from_edges, nearest_neighbor_sparse, parse_cost_table, TableError,
    UNITS_PER_COST,
};

#[test]
fn header_is_skipped_and_costs_read_in_millionths() {
    let text = "from,to,cost\n0,1,2.5\n1,2,3\n";
    let edges = parse_cost_table(text.as_bytes()).unwrap();
    assert_eq!(edges, vec![(0, 1, Some(2_500_000)), (1, 2, Some(3 * UNITS_PER_COST))]);
}

#[test]
fn fields_are_trimmed_and_crlf_lines_read() {
    let text = "a,b,c\r\n 3 , 4 ,\t7 \r\n5,6,0.25\r\n";
    let edges = parse_cost_table(text.as_bytes()).unwrap();
    assert_eq!(edges, vec![(3, 4, Some(7_000_000)), (5, 6, Some(250_000))]);
}

#[test]
fn malformed_lines_are_skipped() {
    let text = "h\nx,1,2\n1,2\n1,2,3,4\n\n7,8,9\n";
    assert_eq!(parse_cost_table(text.as_bytes()).unwrap(), vec![(7, 8, Some(9_000_000))]);
}

#[test]
fn unreadable_cost_is_absent() {
    let text = "h\n1,2,abc\n1,3,inf\n1,4,1.2.3\n1,5,.\n1,6,\n";
    assert_eq!(
        parse_cost_table(text.as_bytes()).unwrap(),
        vec![(1, 2, None), (1, 3, None), (1, 4, None), (1, 5, None), (1, 6, None)]
    );
}

#[test]
fn cost_forms() {
    let text = "h\n0,1,+5\n0,2,5.\n0,3,.5\n0,4,0.1234560\n0,5,18446744073709\n0,6,007\n";
    assert_eq!(
        parse_cost_table(text.as_bytes()).unwrap(),
        vec![
            (0, 1, Some(5_000_000)),
            (0, 2, Some(5_000_000)),
            (0, 3, Some(500_000)),
            (0, 4, Some(123_456)),
            (0, 5, Some(18_446_744_073_709_000_000)),
            (0, 6, Some(7_000_000)),
        ]
    );
}

#[test]
fn exponent_form_is_refused() {
    let text = "h\n0,1,2\n0,2,1e3\n";
    assert_eq!(parse_cost_table(text.as_bytes()), Err(TableError::UnsupportedCost { record: 2 }));
    assert_eq!(parse_cost_table(b"h\n0,1,2.5E-1\n"), Err(TableError::UnsupportedCost { record: 1 }));
}

#[test]
fn too_precise_cost_is_refused() {
    let text = "h\n0,1,0.1234567\n";
    assert_eq!(parse_cost_table(text.as_bytes()), Err(TableError::UnsupportedCost { record: 1 }));
}

#[test]
fn negative_cost_is_refused() {
    let text = "h\n0,1,2\nbad line\n1,3,-4\n";
    assert_eq!(parse_cost_table(text.as_bytes()), Err(TableError::UnsupportedCost { record: 3 }));
}

#[test]
fn too_large_cost_is_refused() {
    let text = "h\n0,6,18446744073710\n";
    assert_eq!(parse_cost_table(text.as_bytes()), Err(TableError::UnsupportedCost { record: 1 }));
}

#[test]
fn refused_cost_on_skipped_line_is_ignored() {
    // The node field cannot be read, so the line is skipped before its cost.
    let text = "h\nx,1,1e3\n0,1,2\n";
    assert_eq!(parse_cost_table(text.as_bytes()).unwrap(), vec![(0, 1, Some(2_000_000))]);
}

#[test]
fn oversized_node_indices_are_skipped() {
    let text = "h\n18446744073709551615,1,2\n18446744073709551616,1,2\n+2,1,2\n";
    assert_eq!(parse_cost_table(text.as_bytes()).unwrap(), vec![(2, 1, Some(2_000_000))]);
}

#[test]
fn empty_and_header_only_texts() {
    assert!(parse_cost_table(b"").unwrap().is_empty());
    assert!(parse_cost_table(b"from,to,cost").unwrap().is_empty());
    assert!(parse_cost_table(b"from,to,cost\n").unwrap().is_empty());
}

#[test]
fn text_to_routes() {
    let text = "from,to,cost\n0,1,1\n1,0,1\n0,2,2\n2,0,2\n1,2,1\n2,1,1\n";
    let edges = parse_cost_table(text.as_bytes()).unwrap();
    let m = matrix_from_edges(&edges);
    let exact = held_karp_algorithm(&m).unwrap();
    assert_eq!(exact.cost, Some(2 * UNITS_PER_COST as u128));
    assert_eq!(exact.route, vec![0, 1, 2]);
    let sparse = nearest_neighbor_sparse(&map_from_edges(&edges), 1000).unwrap();
    assert_eq!(sparse.route.len(), 3);
}
