use graph_distances::edges::{build_adjacency_matrix, load_adjacency_matrix, parse_edge_list, LoadError};
use graph_distances::format::{format_adjacency_matrix, format_distance_list};

#[test]
fn loads_triangle() {
    let text = b"0,1,1\n0,2,2\n1,2,3\n".to_vec();
    let m = load_adjacency_matrix(&text, 3).unwrap();
    assert_eq!(m, vec![vec![0, 1, 2], vec![1, 0, 3], vec![2, 3, 0]]);
}

#[test]
fn loads_without_final_newline_and_with_crlf() {
    let text = b"0,1,7\r\n2,1,4".to_vec();
    let m = load_adjacency_matrix(&text, 3).unwrap();
    assert_eq!(m, vec![vec![0, 7, 0], vec![7, 0, 4], vec![0, 4, 0]]);
}

#[test]
fn later_duplicate_edge_wins() {
    let edges = vec![(0, 1, 5), (1, 0, 9)];
    let m = build_adjacency_matrix(&edges, 2).unwrap();
    assert_eq!(m, vec![vec![0, 9], vec![9, 0]]);
}

#[test]
fn empty_text_gives_empty_graph() {
    let m = load_adjacency_matrix(&Vec::new(), 2).unwrap();
    assert_eq!(m, vec![vec![0, 0], vec![0, 0]]);
    assert_eq!(parse_edge_list(&Vec::new()).unwrap(), vec![]);
}

#[test]
fn out_of_range_node_is_rejected() {
    let text = b"0,1,1\n1,3,2\n5,0,1\n".to_vec();
    assert_eq!(load_adjacency_matrix(&text, 3), Err(LoadError::OutOfRange { line: 1, i: 1, j: 3, weight: 2 }));
    assert_eq!(build_adjacency_matrix(&vec![(3, 0, 1)], 3), Err(LoadError::OutOfRange { line: 0, i: 3, j: 0, weight: 1 }));
}

#[test]
fn malformed_lines_are_rejected() {
    for (text, line) in [
        (&b"0,1,1\n0,x,2\n"[..], 1usize),
        (&b"0,1\n"[..], 0),
        (&b"0,1,2,3\n"[..], 0),
        (&b"0,1,1\n\n1,2,1\n"[..], 1),
        (&b"0,1,4294967296\n"[..], 0),
        (&b"0,,1\n"[..], 0),
        (&b"0, 1,1\n"[..], 0),
    ] {
        assert_eq!(
            load_adjacency_matrix(&text.to_vec(), 9),
            Err(LoadError::MalformedEdge { line })
        );
    }
}

#[test]
fn malformed_line_reported_before_out_of_range() {
    let text = b"7,0,1\n0,q,1\n".to_vec();
    assert_eq!(load_adjacency_matrix(&text, 3), Err(LoadError::MalformedEdge { line: 1 }));
}

#[test]
fn parses_largest_weight() {
    let text = b"0,1,4294967295\n".to_vec();
    assert_eq!(parse_edge_list(&text).unwrap(), vec![(0, 1, u32::MAX)]);
}

#[test]
fn formats_distance_list() {
    let out = format_distance_list(&vec![0, 15, u32::MAX, 7]);
    assert_eq!(out, b"0,15,4294967295,7".to_vec());
    assert_eq!(format_distance_list(&vec![]), Vec::<u8>::new());
}

#[test]
fn formats_adjacency_matrix_one_row_per_line() {
    let m = vec![vec![0, 1, 2], vec![1, 0, 3], vec![2, 3, 0]];
    assert_eq!(format_adjacency_matrix(&m), b"0,1,2\n1,0,3\n2,3,0".to_vec());
    assert_eq!(format_adjacency_matrix(&vec![vec![1]]), b"1".to_vec());
    assert_eq!(format_adjacency_matrix(&vec![]), Vec::<u8>::new());
}
