use social_graph::graph::create_graph;
use social_graph::ingest::parse_edge_line;
use social_graph::ingest::parse_edge_list;
use social_graph::ingest::parse_node;
use social_graph::ingest::MalformedLine;
use social_graph::traversal::sixdegrees;

#[test]
fn node_plain_numerals() {
    assert_eq!(parse_node(b"0"), Some(0));
    assert_eq!(parse_node(b"7"), Some(7));
    assert_eq!(parse_node(b"42"), Some(42));
    assert_eq!(parse_node(b"14804766"), Some(14804766));
}

#[test]
fn node_leading_zeros_do_not_count() {
    assert_eq!(parse_node(b"007"), Some(7));
    assert_eq!(parse_node(b"0000"), Some(0));
}

#[test]
fn node_plus_sign_in_front() {
    assert_eq!(parse_node(b"+5"), Some(5));
    assert_eq!(parse_node(b"+"), None);
    assert_eq!(parse_node(b"++5"), None);
    assert_eq!(parse_node(b"5+"), None);
}

#[test]
fn node_rejects_what_is_no_numeral() {
    assert_eq!(parse_node(b""), None);
    assert_eq!(parse_node(b"-1"), None);
    assert_eq!(parse_node(b"12a"), None);
    assert_eq!(parse_node(b"a12"), None);
    assert_eq!(parse_node(b"1 2"), None);
    assert_eq!(parse_node(b"1.5"), None);
    assert_eq!(parse_node(b"0x10"), None);
}

#[test]
fn node_largest_id_and_beyond() {
    let largest = usize::MAX.to_string();
    assert_eq!(parse_node(largest.as_bytes()), Some(usize::MAX));
    let mut beyond = largest.clone().into_bytes();
    let last = beyond.len() - 1;
    beyond[last] += 1;
    assert_eq!(parse_node(&beyond), None);
    let tenfold = format!("{}0", largest);
    assert_eq!(parse_node(tenfold.as_bytes()), None);
    assert_eq!(parse_node(b"99999999999999999999999999999999999999999999"), None);
}

#[test]
fn line_two_ids_and_one_space() {
    assert_eq!(parse_edge_line(b"1 2"), Some((1, 2)));
    assert_eq!(parse_edge_line(b"214328887 34428380"), Some((214328887, 34428380)));
}

#[test]
fn line_blanks_around_and_between() {
    assert_eq!(parse_edge_line(b"  1 2"), Some((1, 2)));
    assert_eq!(parse_edge_line(b"1 2  "), Some((1, 2)));
    assert_eq!(parse_edge_line(b"1    2"), Some((1, 2)));
    assert_eq!(parse_edge_line(b"\t1\t2\r"), Some((1, 2)));
    assert_eq!(parse_edge_line(b"3 3"), Some((3, 3)));
}

#[test]
fn line_wrong_word_count() {
    assert_eq!(parse_edge_line(b""), None);
    assert_eq!(parse_edge_line(b"   "), None);
    assert_eq!(parse_edge_line(b"1"), None);
    assert_eq!(parse_edge_line(b" 1 "), None);
    assert_eq!(parse_edge_line(b"1 2 3"), None);
    assert_eq!(parse_edge_line(b"12"), None);
}

#[test]
fn line_word_that_is_no_id() {
    assert_eq!(parse_edge_line(b"a b"), None);
    assert_eq!(parse_edge_line(b"1 b"), None);
    assert_eq!(parse_edge_line(b"a 2"), None);
    assert_eq!(parse_edge_line(b"1,2"), None);
    assert_eq!(parse_edge_line(b"1 -2"), None);
    assert_eq!(parse_edge_line(b"1 99999999999999999999999999"), None);
}

#[test]
fn list_one_edge_per_line() {
    assert_eq!(parse_edge_list(b"1 2\n2 3\n3 4\n"), Ok(vec![(1, 2), (2, 3), (3, 4)]));
}

#[test]
fn list_last_line_without_line_feed() {
    assert_eq!(parse_edge_list(b"1 2\n2 3"), Ok(vec![(1, 2), (2, 3)]));
    assert_eq!(parse_edge_list(b"5 6"), Ok(vec![(5, 6)]));
}

#[test]
fn list_empty_text_has_no_edges() {
    assert_eq!(parse_edge_list(b""), Ok(Vec::new()));
}

#[test]
fn list_carriage_returns_are_blanks() {
    assert_eq!(parse_edge_list(b"1 2\r\n2 3\r\n"), Ok(vec![(1, 2), (2, 3)]));
}

#[test]
fn list_keeps_duplicates_and_self_loops() {
    assert_eq!(parse_edge_list(b"1 2\n1 2\n2 1\n4 4\n"), Ok(vec![(1, 2), (1, 2), (2, 1), (4, 4)]));
}

#[test]
fn list_empty_line_is_malformed() {
    assert_eq!(parse_edge_list(b"1 2\n\n2 3\n"), Err(MalformedLine { index: 1 }));
    assert_eq!(parse_edge_list(b"\n"), Err(MalformedLine { index: 0 }));
    assert_eq!(parse_edge_list(b"1 2\n\n"), Err(MalformedLine { index: 1 }));
}

#[test]
fn list_reports_first_malformed_line() {
    assert_eq!(parse_edge_list(b"1 2\nx y\n3\n"), Err(MalformedLine { index: 1 }));
    assert_eq!(parse_edge_list(b"1 2 3\n1 2\n"), Err(MalformedLine { index: 0 }));
    assert_eq!(parse_edge_list(b"1 2\n2 3\n3 four"), Err(MalformedLine { index: 2 }));
}

#[test]
fn list_feeds_the_graph() {
    let edges = parse_edge_list(b"1 2\n2 3\n3 4\n").unwrap();
    let graph = create_graph(edges);
    let degrees = sixdegrees(&graph, 1);
    assert_eq!(degrees.len(), 4);
    assert_eq!(degrees[&4], 3);
}
