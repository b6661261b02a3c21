use stream_astar::graph::{Graph, GraphStatus, SearchError};

#[test]
fn new_store_has_read_nothing() {
    let graph = Graph::new();
    assert_eq!(graph.len(), 0);
    assert_eq!(graph.node_at(0), None);
    assert!(matches!(graph.read_until(0), GraphStatus::Incomplete));
}

#[test]
fn lines_become_rows_in_order() {
    let mut graph = Graph::new();
    assert!(graph.push_line("1 2\n").is_ok());
    assert!(graph.push_line("\n").is_ok());
    assert!(graph.push_line("0").is_ok());
    assert_eq!(graph.len(), 3);
    assert_eq!(graph.node_at(0), Some(&[1, 2][..]));
    assert_eq!(graph.node_at(1), Some(&[][..]));
    assert_eq!(graph.node_at(2), Some(&[0][..]));
    assert_eq!(graph.node_at(3), None);
}

#[test]
fn status_tells_read_from_unread() {
    let mut graph = Graph::new();
    graph.push_line("1").unwrap();
    graph.push_line("0").unwrap();
    assert!(matches!(graph.read_until(0), GraphStatus::Ready));
    assert!(matches!(graph.read_until(1), GraphStatus::Ready));
    assert!(matches!(graph.read_until(2), GraphStatus::Incomplete));
    assert!(matches!(graph.read_until(usize::MAX), GraphStatus::Incomplete));
}

#[test]
fn node_beyond_the_end_of_the_stream_is_done() {
    let mut graph = Graph::new();
    graph.push_line("1").unwrap();
    graph.push_line("0").unwrap();
    graph.finish();
    assert!(matches!(graph.read_until(1), GraphStatus::Ready));
    assert!(matches!(graph.read_until(2), GraphStatus::Done));
    assert!(matches!(graph.read_until(5), GraphStatus::Done));
    assert_eq!(graph.node_at(5), None);
    assert_eq!(graph.len(), 2);
}

#[test]
fn end_of_an_empty_stream_leaves_no_row() {
    let mut graph = Graph::new();
    graph.finish();
    assert_eq!(graph.len(), 0);
    assert!(matches!(graph.read_until(0), GraphStatus::Done));
}

#[test]
fn malformed_line_is_refused_under_its_number() {
    let mut graph = Graph::new();
    graph.push_line("1").unwrap();
    graph.push_line("2").unwrap();
    let refused = graph.push_line("3 x");
    assert!(matches!(refused, Err(SearchError::MalformedAdjacencyLine { line: 2 })));
    assert_eq!(graph.len(), 2);
    assert_eq!(graph.node_at(2), None);
}

#[test]
fn first_line_is_line_zero() {
    let mut graph = Graph::new();
    let refused = graph.push_line("-1");
    assert!(matches!(refused, Err(SearchError::MalformedAdjacencyLine { line: 0 })));
}
