use stream_astar::gen::{permutations, print_edges, Edge, EdgePrinter};
use stream_astar::pathfind::pathfind;

fn all_pairs(count: usize) -> Vec<(usize, usize)> {
    let mut pairs = permutations(count);
    let mut all = Vec::new();
    while let Some(pair) = pairs.next() {
        all.push(pair);
    }
    assert_eq!(pairs.next(), None);
    all
}

fn edges(pairs: &[(usize, usize)]) -> Vec<Edge> {
    pairs.iter().map(|&(from, to)| Edge { from, to }).collect()
}

fn printed(pairs: &[(usize, usize)]) -> String {
    String::from_utf8(print_edges(&edges(pairs))).unwrap()
}

#[test]
fn no_pairs_of_fewer_than_two_nodes() {
    assert_eq!(all_pairs(0), vec![]);
    assert_eq!(all_pairs(1), vec![]);
}

#[test]
fn pairs_of_two_nodes() {
    assert_eq!(all_pairs(2), vec![(0, 1), (1, 0)]);
}

#[test]
fn pairs_of_three_nodes_come_row_by_row() {
    assert_eq!(all_pairs(3), vec![(0, 1), (0, 2), (1, 0), (1, 2), (2, 0), (2, 1)]);
}

#[test]
fn pairs_are_those_of_two_nested_loops() {
    for count in 0..12 {
        let mut expected = Vec::new();
        for from in 0..count {
            for to in 0..count {
                if from != to {
                    expected.push((from, to));
                }
            }
        }
        assert_eq!(all_pairs(count), expected);
    }
}

#[test]
fn empty_graph_is_an_empty_line_and_the_end() {
    assert_eq!(printed(&[]), "\n\n");
}

#[test]
fn heads_of_one_tail_share_a_line() {
    assert_eq!(printed(&[(0, 1), (0, 2), (0, 3)]), "1 2 3\n\n");
}

#[test]
fn each_tail_has_the_line_of_its_number() {
    assert_eq!(printed(&[(0, 1), (0, 2), (1, 2), (3, 0)]), "1 2\n2\n\n0\n\n");
}

#[test]
fn first_tail_may_come_late() {
    assert_eq!(printed(&[(2, 7)]), "\n\n7\n\n");
}

#[test]
fn numbers_are_written_in_base_ten() {
    assert_eq!(printed(&[(0, 0), (0, 9), (0, 10), (0, 12345678)]), "0 9 10 12345678\n\n");
    let greatest = format!("{}\n\n", usize::MAX);
    assert_eq!(printed(&[(0, usize::MAX)]), greatest);
}

#[test]
fn printer_writes_edge_by_edge() {
    let mut printer = EdgePrinter::new();
    let mut out = b"# ".to_vec();
    printer.write(&Edge { from: 0, to: 4 }, &mut out);
    assert_eq!(out, b"# 4");
    printer.write(&Edge { from: 0, to: 5 }, &mut out);
    assert_eq!(out, b"# 4 5");
    printer.write(&Edge { from: 2, to: 0 }, &mut out);
    assert_eq!(out, b"# 4 5\n\n0");
    printer.write(&Edge { from: 1, to: 3 }, &mut out);
    assert_eq!(out, b"# 4 5\n\n0 3");
    printer.finish(&mut out);
    assert_eq!(out, b"# 4 5\n\n0 3\n\n");
}

#[test]
fn printed_graph_can_be_searched() {
    let text = printed(&[(0, 1), (0, 3), (1, 2), (2, 4), (3, 4)]);
    let lines: Vec<String> = text.split_inclusive('\n').map(|line| line.to_string()).collect();
    let found = pathfind(&lines, 0, 4).unwrap().unwrap();
    assert_eq!(found.as_slice(), &[0, 3, 4]);
}
