use stream_astar::graph::SearchError;
use stream_astar::pathfind::{pathfind, Pathfinder, Step, MAX_ROWS};

fn lines(texts: &[&str]) -> Vec<String> {
    texts.iter().map(|text| text.to_string()).collect()
}

fn route(texts: &[&str], start: usize, end: usize) -> Option<Vec<usize>> {
    pathfind(&lines(texts), start, end).unwrap().map(|found| found.as_slice().to_vec())
}

fn is_route(texts: &[&str], start: usize, end: usize, nodes: &[usize]) -> bool {
    let rows: Vec<Vec<usize>> = texts
        .iter()
        .map(|text| text.split_whitespace().map(|token| token.parse().unwrap()).collect())
        .collect();
    nodes.first() == Some(&start)
        && nodes.last() == Some(&end)
        && nodes.windows(2).all(|pair| pair[0] < rows.len() && rows[pair[0]].contains(&pair[1]))
}

#[test]
fn triangle_is_crossed_by_its_direct_edge() {
    let texts = ["1 2", "2", ""];
    let found = route(&texts, 0, 2).unwrap();
    assert!(found == vec![0, 2] || found == vec![0, 1, 2]);
    assert_eq!(found, vec![0, 2]);
    assert!(is_route(&texts, 0, 2, &found));
}

#[test]
fn single_node_is_its_own_route() {
    assert_eq!(route(&[""], 0, 0), Some(vec![0]));
}

#[test]
fn goal_beyond_the_stream_is_out_of_range() {
    let found = pathfind(&lines(&["1", "0"]), 0, 5);
    assert!(matches!(found, Err(SearchError::GraphIndexOutOfRange { index: 5 })));
}

#[test]
fn start_equal_to_goal_needs_no_line() {
    match Pathfinder::begin(7, 7) {
        Step::Found(found) => assert_eq!(found.as_slice(), &[7]),
        _ => panic!("the search should have ended at once"),
    }
    assert_eq!(route(&[], 7, 7), Some(vec![7]));
    assert_eq!(route(&["x"], 3, 3), Some(vec![3]));
}

#[test]
fn start_beyond_the_stream_is_out_of_range() {
    let found = pathfind(&lines(&["1", "0"]), 4, 0);
    assert!(matches!(found, Err(SearchError::GraphIndexOutOfRange { index: 4 })));
    let empty = pathfind(&lines(&[]), 0, 1);
    assert!(matches!(empty, Err(SearchError::GraphIndexOutOfRange { index: 0 })));
}

#[test]
fn child_beyond_the_stream_is_out_of_range() {
    let found = pathfind(&lines(&["9", ""]), 0, 1);
    assert!(matches!(found, Err(SearchError::GraphIndexOutOfRange { index: 9 })));
}

#[test]
fn goal_found_as_a_child_needs_no_row_of_its_own() {
    assert_eq!(route(&["5"], 0, 5), Some(vec![0, 5]));
}

#[test]
fn unreachable_goal_within_the_stream_is_no_path() {
    assert_eq!(route(&["1", "0", ""], 0, 2), None);
    assert_eq!(route(&["", "0"], 0, 1), None);
}

#[test]
fn cycle_does_not_trap_the_search() {
    assert_eq!(route(&["1", "2", "0 3", ""], 0, 3), Some(vec![0, 1, 2, 3]));
    assert_eq!(route(&["0 0 0", ""], 0, 1), None);
}

#[test]
fn malformed_line_is_reported_under_its_number() {
    let found = pathfind(&lines(&["1", "2", "three", ""]), 0, 3);
    assert!(matches!(found, Err(SearchError::MalformedAdjacencyLine { line: 2 })));
}

#[test]
fn malformed_line_on_the_way_to_a_row_is_reported() {
    let found = pathfind(&lines(&["3", "oops", "", "4", ""]), 0, 4);
    assert!(matches!(found, Err(SearchError::MalformedAdjacencyLine { line: 1 })));
}

#[test]
fn lines_that_the_search_never_needs_are_not_read() {
    assert_eq!(route(&["1", "2", "", "not a row"], 0, 2), Some(vec![0, 1, 2]));
}

#[test]
fn malformed_line_comes_before_the_end_of_the_stream() {
    let found = pathfind(&lines(&["7", "x"]), 0, 3);
    assert!(matches!(found, Err(SearchError::MalformedAdjacencyLine { line: 1 })));
}

#[test]
fn estimate_prefers_nodes_numbered_near_the_goal() {
    let texts = ["1 9", "2", "3", "10", "", "", "", "", "", "10", ""];
    let found = route(&texts, 0, 10).unwrap();
    assert_eq!(found, vec![0, 9, 10]);
    assert!(is_route(&texts, 0, 10, &found));
}

#[test]
fn route_found_need_not_be_the_shortest() {
    let texts = ["1 6", "2", "3", "", "3", "4", "5"];
    let found = route(&texts, 0, 3).unwrap();
    assert_eq!(found, vec![0, 1, 2, 3]);
    assert!(is_route(&texts, 0, 3, &found));
}

#[test]
fn shorter_route_found_later_replaces_the_recorded_one() {
    let texts = ["4 1", "2", "3", "6", "3", "", "7", ""];
    let found = route(&texts, 0, 7).unwrap();
    assert!(is_route(&texts, 0, 7, &found));
    assert_eq!(found, vec![0, 4, 3, 6, 7]);
}

#[test]
fn same_stream_gives_the_same_route() {
    let texts = ["1 2 3", "4", "4", "4", "5 6", "7", "7", ""];
    let first = route(&texts, 0, 7).unwrap();
    let second = route(&texts, 0, 7).unwrap();
    assert_eq!(first.len(), second.len());
    assert_eq!(first, second);
    assert!(is_route(&texts, 0, 7, &first));
}

#[test]
fn every_route_found_is_a_walk_of_the_graph() {
    let texts = ["1 2", "3 0", "3 4", "5", "5 1", "6 2", "0 7", "7"];
    for start in 0..8 {
        for end in 0..8 {
            if let Some(found) = route(&texts, start, end) {
                assert!(is_route(&texts, start, end, &found));
                let mut seen = found.clone();
                seen.sort();
                seen.dedup();
                assert_eq!(seen.len(), found.len());
            }
        }
    }
}

#[test]
fn found_exactly_where_a_route_exists() {
    let texts = ["1", "2", "", "4", "3", "0"];
    let reachable = [
        [true, true, true, false, false, false],
        [false, true, true, false, false, false],
        [false, false, true, false, false, false],
        [false, false, false, true, true, false],
        [false, false, false, true, true, false],
        [true, true, true, false, false, true],
    ];
    for start in 0..6 {
        for end in 0..6 {
            assert_eq!(route(&texts, start, end).is_some(), reachable[start][end]);
        }
    }
}

#[test]
fn search_asks_for_lines_one_by_one() {
    let texts = ["2", "", "3", "", "unread"];
    let mut step = Pathfinder::begin(0, 3);
    let mut read = 0;
    loop {
        match step {
            Step::Waiting(finder) => {
                assert_eq!(finder.rows_read(), read);
                assert!(finder.rows_read() < MAX_ROWS);
                step = finder.line(texts[read]);
                read += 1;
            }
            Step::Found(found) => {
                assert_eq!(found.as_slice(), &[0, 2, 3]);
                break;
            }
            _ => panic!("the search should have found a route"),
        }
    }
    assert_eq!(read, 3);
}

#[test]
fn end_of_stream_names_the_node_awaited() {
    let step = Pathfinder::begin(0, 9);
    let finder = match step {
        Step::Waiting(finder) => finder,
        _ => panic!("the search should wait for the row of the start"),
    };
    let finder = match finder.line("4") {
        Step::Waiting(finder) => finder,
        _ => panic!("the search should wait for the row of node 4"),
    };
    assert_eq!(finder.rows_read(), 1);
    match finder.end_of_stream() {
        Step::Failed(SearchError::GraphIndexOutOfRange { index }) => assert_eq!(index, 4),
        _ => panic!("the search should have failed"),
    }
}

#[test]
fn exhausted_search_reads_on_to_the_row_of_the_goal() {
    let mut step = Pathfinder::begin(0, 3);
    let texts = ["", "", "", ""];
    let mut read = 0;
    loop {
        match step {
            Step::Waiting(finder) => {
                step = finder.line(texts[read]);
                read += 1;
            }
            Step::NoPath => break,
            _ => panic!("the search should have ended without a route"),
        }
    }
    assert_eq!(read, 4);
}

#[test]
fn malformed_line_ends_a_waiting_search() {
    let finder = match Pathfinder::begin(0, 1) {
        Step::Waiting(finder) => finder,
        _ => panic!("the search should wait for the row of the start"),
    };
    match finder.line("1 one") {
        Step::Failed(SearchError::MalformedAdjacencyLine { line }) => assert_eq!(line, 0),
        _ => panic!("the line should have been refused"),
    }
}

#[test]
fn long_chain_is_walked_to_its_end() {
    let count = 300;
    let mut texts: Vec<String> = (1..count).map(|next: usize| next.to_string()).collect();
    texts.push(String::new());
    let found = pathfind(&texts, 0, count - 1).unwrap().unwrap();
    let expected: Vec<usize> = (0..count).collect();
    assert_eq!(found.as_slice(), &expected[..]);
}
