use stream_astar::search::SearchState;

#[test]
fn new_search_has_reached_the_start_only() {
    let mut search = SearchState::new(4, 9);
    assert_eq!(search.path(4), Some(&[][..]));
    assert_eq!(search.path(9), None);
    assert_eq!(search.path(0), None);
    assert_eq!(search.end(), 9);
    assert_eq!(search.next(), Some(4));
    assert_eq!(search.next(), None);
}

#[test]
fn is_done_names_the_goal() {
    let search = SearchState::new(0, 3);
    assert!(search.is_done(3));
    assert!(!search.is_done(0));
    assert!(!search.is_done(4));
}

#[test]
fn distance_is_taken_by_node_numbers() {
    let search = SearchState::new(0, 10);
    assert_eq!(search.distance_from_end(10), 0);
    assert_eq!(search.distance_from_end(3), 7);
    assert_eq!(search.distance_from_end(25), 15);
    let far = SearchState::new(0, 0);
    assert_eq!(far.distance_from_end(usize::MAX), usize::MAX);
}

#[test]
fn first_route_to_a_node_is_recorded() {
    let mut search = SearchState::new(0, 9);
    search.visit(5, &[0, 1], 2);
    assert_eq!(search.path(5), Some(&[0, 1, 2][..]));
}

#[test]
fn shorter_route_replaces_a_longer_one() {
    let mut search = SearchState::new(0, 9);
    search.visit(5, &[0, 1, 2], 3);
    assert_eq!(search.path(5), Some(&[0, 1, 2, 3][..]));
    search.visit(5, &[0], 4);
    assert_eq!(search.path(5), Some(&[0, 4][..]));
}

#[test]
fn route_of_equal_length_is_not_recorded() {
    let mut search = SearchState::new(0, 9);
    search.visit(5, &[0], 1);
    search.visit(5, &[0], 2);
    assert_eq!(search.path(5), Some(&[0, 1][..]));
}

#[test]
fn longer_route_is_not_recorded() {
    let mut search = SearchState::new(0, 9);
    search.visit(5, &[0], 1);
    search.visit(5, &[0, 1, 2], 3);
    assert_eq!(search.path(5), Some(&[0, 1][..]));
}

#[test]
fn route_to_the_start_is_never_replaced() {
    let mut search = SearchState::new(0, 9);
    search.visit(0, &[], 0);
    search.visit(0, &[0, 1], 2);
    assert_eq!(search.path(0), Some(&[][..]));
}

#[test]
fn recorded_lengths_never_grow() {
    let mut search = SearchState::new(0, 50);
    let offers: [(usize, &[usize]); 8] = [
        (7, &[0, 1, 2, 3]),
        (7, &[0, 1]),
        (7, &[0, 1, 2]),
        (8, &[0]),
        (7, &[0]),
        (8, &[0, 1]),
        (7, &[]),
        (7, &[0, 1, 2, 3, 4]),
    ];
    let mut known: Vec<(usize, usize)> = Vec::new();
    for (node, previous) in offers {
        search.visit(node, previous, 9);
        for (seen, len) in known.iter_mut() {
            let now = search.path(*seen).unwrap().len();
            assert!(now <= *len);
            *len = now;
        }
        if !known.iter().any(|(seen, _)| *seen == node) {
            known.push((node, search.path(node).unwrap().len()));
        }
    }
    assert_eq!(search.path(7), Some(&[9][..]));
    assert_eq!(search.path(8), Some(&[0, 9][..]));
}

#[test]
fn should_update_position_compares_the_lengths() {
    let mut search = SearchState::new(0, 9);
    assert!(search.should_update_position(5, &[0, 1, 2]));
    search.visit(5, &[0, 1], 2);
    assert!(search.should_update_position(5, &[0]));
    assert!(search.should_update_position(5, &[]));
    assert!(!search.should_update_position(5, &[0, 1]));
    assert!(!search.should_update_position(5, &[0, 1, 2]));
    assert!(!search.should_update_position(0, &[]));
}

#[test]
fn accepted_visits_wait_under_length_plus_distance() {
    let mut search = SearchState::new(0, 10);
    search.visit(3, &[], 0);
    search.visit(12, &[0, 1], 2);
    search.visit(10, &[0, 1, 2, 3, 4, 5], 6);
    search.visit(4, &[0], 3);
    assert_eq!(search.next(), Some(0));
    assert_eq!(search.next(), Some(12));
    assert_eq!(search.next(), Some(10));
    assert_eq!(search.next(), Some(3));
    assert_eq!(search.next(), Some(4));
    assert_eq!(search.next(), None);
}

#[test]
fn rejected_visit_pushes_nothing() {
    let mut search = SearchState::new(0, 10);
    search.visit(3, &[], 0);
    search.visit(3, &[0, 1], 2);
    assert_eq!(search.next(), Some(0));
    assert_eq!(search.next(), Some(3));
    assert_eq!(search.next(), None);
}

#[test]
fn improved_node_waits_twice() {
    let mut search = SearchState::new(0, 10);
    search.visit(3, &[0, 1], 2);
    search.visit(3, &[], 0);
    assert_eq!(search.next(), Some(0));
    assert_eq!(search.next(), Some(3));
    assert_eq!(search.next(), Some(3));
    assert_eq!(search.next(), None);
}

#[test]
fn estimates_beyond_usize_are_kept_apart() {
    let mut search = SearchState::new(0, 0);
    search.visit(usize::MAX, &[0, 1, 2], 3);
    search.visit(usize::MAX - 1, &[0, 1, 2, 3, 4, 5], 6);
    assert_eq!(search.next(), Some(0));
    assert_eq!(search.next(), Some(usize::MAX));
    assert_eq!(search.next(), Some(usize::MAX - 1));
}
