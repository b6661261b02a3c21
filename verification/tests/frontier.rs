use stream_astar::frontier::{Frontier, Node};

fn node(index: usize, priority: u128) -> Node {
    Node { index, priority }
}

#[test]
fn empty_frontier_yields_nothing() {
    let mut frontier = Frontier::new();
    assert_eq!(frontier.len(), 0);
    assert!(frontier.pop().is_none());
    assert_eq!(frontier.len(), 0);
}

#[test]
fn least_priority_leaves_first() {
    let mut frontier = Frontier::new();
    for (index, priority) in [(1, 9), (2, 3), (3, 7), (4, 1), (5, 8), (6, 2), (7, 5)] {
        frontier.push(node(index, priority));
    }
    assert_eq!(frontier.len(), 7);
    let mut order = Vec::new();
    while let Some(next) = frontier.pop() {
        order.push((next.index, next.priority));
    }
    assert_eq!(order, vec![(4, 1), (6, 2), (2, 3), (7, 5), (3, 7), (5, 8), (1, 9)]);
}

#[test]
fn equal_priorities_leave_by_node_number() {
    let mut frontier = Frontier::new();
    for index in [5, 1, 4, 2, 3] {
        frontier.push(node(index, 6));
    }
    let mut order = Vec::new();
    while let Some(next) = frontier.pop() {
        order.push(next.index);
    }
    assert_eq!(order, vec![1, 2, 3, 4, 5]);
}

#[test]
fn entries_of_one_node_wait_side_by_side() {
    let mut frontier = Frontier::new();
    frontier.push(node(3, 5));
    frontier.push(node(3, 2));
    frontier.push(node(3, 5));
    assert_eq!(frontier.len(), 3);
    let first = frontier.pop().unwrap();
    assert_eq!((first.index, first.priority), (3, 2));
    let second = frontier.pop().unwrap();
    assert_eq!((second.index, second.priority), (3, 5));
    let third = frontier.pop().unwrap();
    assert_eq!((third.index, third.priority), (3, 5));
    assert!(frontier.pop().is_none());
}

#[test]
fn pushes_between_pops_are_ordered_too() {
    let mut frontier = Frontier::new();
    frontier.push(node(1, 10));
    frontier.push(node(2, 20));
    assert_eq!(frontier.pop().unwrap().index, 1);
    frontier.push(node(3, 5));
    frontier.push(node(4, 30));
    assert_eq!(frontier.pop().unwrap().index, 3);
    assert_eq!(frontier.pop().unwrap().index, 2);
    assert_eq!(frontier.pop().unwrap().index, 4);
    assert!(frontier.pop().is_none());
}

#[test]
fn many_entries_leave_in_order() {
    let mut frontier = Frontier::new();
    let mut seed: u64 = 12345;
    let mut pushed = Vec::new();
    for index in 0..500usize {
        seed = seed.wrapping_mul(6364136223846793005).wrapping_add(1442695040888963407);
        let priority = (seed >> 40) as u128 % 50;
        pushed.push((priority, index));
        frontier.push(node(index, priority));
    }
    pushed.sort();
    let mut popped = Vec::new();
    while let Some(next) = frontier.pop() {
        popped.push((next.priority, next.index));
    }
    assert_eq!(popped, pushed);
}

#[test]
fn before_orders_by_priority_then_node() {
    assert!(node(9, 1).before(&node(0, 2)));
    assert!(!node(0, 2).before(&node(9, 1)));
    assert!(node(1, 4).before(&node(2, 4)));
    assert!(!node(2, 4).before(&node(1, 4)));
    assert!(node(2, 4).before(&node(2, 4)));
}
