use noodlez::tgf::parse_tgf;
use noodlez::SimpleGraph;

#[test]
fn parse_simple_graph() {
    let tgf = "  2     1
#
   1 First node
 2 Second node
#
    1       2     Edge between the two
";

    let expected = SimpleGraph {
        nodes: vec![1, 2],
        edges: vec![(1, 2)],
    };

    let parsed_graph = SimpleGraph::from_tgf(tgf);

    assert_eq!(expected, parsed_graph);
}

#[test]
fn parse_graph_without_edges() {
    let g = parse_tgf(b"3 0\n#\n1 a\n2 b\n3 c\n#\n").unwrap();
    assert_eq!(g.nodes, vec![1, 2, 3]);
    assert!(g.edges.is_empty());
}

#[test]
fn parse_empty_sections() {
    let g = parse_tgf(b"0 0\n#\n#\n").unwrap();
    assert!(g.nodes.is_empty() && g.edges.is_empty());
}

#[test]
fn parse_edge_without_label_and_tabs() {
    let g = parse_tgf(b"\t2\t1\t\n#\n1\tx\n2 y\n #\t\n3 4\n10\t20 label\n").unwrap();
    assert_eq!(g.nodes, vec![1, 2]);
    assert_eq!(g.edges, vec![(3, 4), (10, 20)]);
}

#[test]
fn parse_rejects_missing_separator() {
    assert!(parse_tgf(b"1 0\n1 a\n#\n").is_none());
}

#[test]
fn parse_rejects_node_without_label_blank() {
    assert!(parse_tgf(b"1 0\n#\n1\n#\n").is_none());
}

#[test]
fn parse_rejects_missing_final_newline() {
    assert!(parse_tgf(b"1 1\n#\n1 a\n#\n1 1").is_none());
}

#[test]
fn parse_rejects_carriage_return() {
    assert!(parse_tgf(b"1 0\r\n#\n#\n").is_none());
    assert!(parse_tgf(b"1 0\n#\n1 a\r\n#\n").is_none());
}

#[test]
fn parse_rejects_number_too_large() {
    assert!(parse_tgf(b"1 0\n#\n4294967296 a\n#\n").is_none());
    let g = parse_tgf(b"1 0\n#\n4294967295 a\n#\n").unwrap();
    assert_eq!(g.nodes, vec![4294967295]);
}

#[test]
fn parse_rejects_trailing_text() {
    assert!(parse_tgf(b"0 0\n#\n#\nx\n").is_none());
}
