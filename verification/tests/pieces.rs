use search_engine::engine::{contains_state, is_scheduled, reversed, take_entry};
use search_engine::{JugsNode, JugsProblem, SearchEngine, SearchStrategy, SearchTree};
use std::collections::VecDeque;

fn node(j1: u32, j2: u32) -> JugsNode {
    JugsNode { j1, j2 }
}

fn engine(strategy: SearchStrategy) -> SearchEngine<JugsNode, JugsProblem> {
    SearchEngine {
        start_node: node(0, 0),
        search_problem: JugsProblem { j1_max: 3, j2_max: 2, target: 1 },
        search_strategy: strategy,
    }
}

fn frontier(states: &[(u32, u32)]) -> VecDeque<(JugsNode, usize)> {
    states.iter().enumerate().map(|(handle, s)| (node(s.0, s.1), handle)).collect()
}

#[test]
fn a_new_tree_holds_the_root_alone() {
    let tree = SearchTree::new(node(0, 0));
    assert_eq!(tree.len(), 1);
    assert_eq!(*tree.state(0), node(0, 0));
}

#[test]
fn children_get_the_next_handles_and_keep_their_parent() {
    let mut tree = SearchTree::new(10u32);
    assert_eq!(tree.add_child(0, 11), 1);
    assert_eq!(tree.add_child(0, 12), 2);
    assert_eq!(tree.add_child(1, 13), 3);
    assert_eq!(tree.add_child(3, 14), 4);
    assert_eq!(tree.add_child(1, 15), 5);
    assert_eq!(tree.len(), 6);
    assert_eq!(tree.parent(1), 0);
    assert_eq!(tree.parent(2), 0);
    assert_eq!(tree.parent(3), 1);
    assert_eq!(tree.parent(4), 3);
    assert_eq!(tree.parent(5), 1);
    for handle in 0..6 {
        assert_eq!(*tree.state(handle), 10 + handle as u32);
    }
}

#[test]
fn a_long_chain_keeps_every_parent() {
    let mut tree = SearchTree::new(0u32);
    for i in 1..1000usize {
        assert_eq!(tree.add_child(i - 1, i as u32), i);
    }
    for i in 1..1000usize {
        assert_eq!(tree.parent(i), i - 1);
    }
}

#[test]
fn backtrack_walks_from_the_node_to_the_start() {
    let search = engine(SearchStrategy::BFS);
    let mut tree = SearchTree::new(node(0, 0));
    let a = tree.add_child(0, node(3, 0));
    let _b = tree.add_child(0, node(0, 2));
    let c = tree.add_child(a, node(3, 2));
    let d = tree.add_child(a, node(1, 2));
    assert_eq!(d, 4);
    assert_eq!(search.backtrack(d, tree), vec![node(3, 0), node(1, 2)]);
    let mut tree = SearchTree::new(node(0, 0));
    let a = tree.add_child(0, node(3, 0));
    assert_eq!(search.backtrack(a, tree), vec![node(3, 0)]);
    let _ = c;
}

#[test]
fn backtrack_from_the_root_is_empty() {
    let search = engine(SearchStrategy::BFS);
    let mut tree = SearchTree::new(node(0, 0));
    let _ = tree.add_child(0, node(3, 0));
    assert_eq!(search.backtrack(0, tree), vec![]);
}

#[test]
fn backtrack_stops_at_the_first_state_equal_to_the_start() {
    let search = engine(SearchStrategy::BFS);
    let mut tree = SearchTree::new(node(0, 0));
    let a = tree.add_child(0, node(3, 0));
    let again = tree.add_child(a, node(0, 0));
    let b = tree.add_child(again, node(0, 2));
    let c = tree.add_child(b, node(2, 0));
    assert_eq!(search.backtrack(c, tree), vec![node(0, 2), node(2, 0)]);
    let mut tree = SearchTree::new(node(0, 0));
    let a = tree.add_child(0, node(3, 0));
    let again = tree.add_child(a, node(0, 0));
    assert_eq!(search.backtrack(again, tree), vec![]);
}

#[test]
fn breadth_first_removes_the_oldest_entry() {
    let mut open = frontier(&[(3, 0), (0, 2), (3, 2)]);
    let entry = engine(SearchStrategy::BFS).search(&mut open);
    assert_eq!(entry, (node(3, 0), 0));
    assert_eq!(open, VecDeque::from(vec![(node(0, 2), 1), (node(3, 2), 2)]));
}

#[test]
fn depth_first_removes_the_newest_entry() {
    let mut open = frontier(&[(3, 0), (0, 2), (3, 2)]);
    let entry = engine(SearchStrategy::DFS).search(&mut open);
    assert_eq!(entry, (node(3, 2), 2));
    assert_eq!(open, VecDeque::from(vec![(node(3, 0), 0), (node(0, 2), 1)]));
}

#[test]
fn random_removes_one_entry_and_keeps_the_order_of_the_rest() {
    let states = [(3, 0), (0, 2), (3, 2), (1, 2), (2, 0)];
    let mut seen = [false; 5];
    for _ in 0..500 {
        let mut open = frontier(&states);
        let (state, handle) = engine(SearchStrategy::Random).search(&mut open);
        assert!(handle < 5);
        assert_eq!(state, node(states[handle].0, states[handle].1));
        let mut rest = frontier(&states);
        let _ = rest.remove(handle);
        assert_eq!(open, rest);
        seen[handle] = true;
    }
    assert_eq!(seen, [true; 5]);
}

#[test]
fn take_entry_removes_the_entry_at_the_position() {
    let mut open = frontier(&[(3, 0), (0, 2), (3, 2), (1, 2)]);
    assert_eq!(take_entry(&mut open, 1), (node(0, 2), 1));
    assert_eq!(open, VecDeque::from(vec![(node(3, 0), 0), (node(3, 2), 2), (node(1, 2), 3)]));
    assert_eq!(take_entry(&mut open, 2), (node(1, 2), 3));
    assert_eq!(take_entry(&mut open, 0), (node(3, 0), 0));
    assert_eq!(take_entry(&mut open, 0), (node(3, 2), 2));
    assert!(open.is_empty());
}

#[test]
fn every_strategy_takes_the_only_entry() {
    for strategy in [SearchStrategy::BFS, SearchStrategy::DFS, SearchStrategy::Random] {
        let mut open = frontier(&[(1, 1)]);
        assert_eq!(engine(strategy).search(&mut open), (node(1, 1), 0));
        assert!(open.is_empty());
    }
}

#[test]
fn new_successors_are_neither_closed_nor_scheduled() {
    let search = engine(SearchStrategy::BFS);
    let open = frontier(&[(3, 2)]);
    let closed = vec![node(0, 0), node(3, 0)];
    assert_eq!(search.find_new_successors(&node(3, 0), &open, &closed), vec![node(1, 2)]);
    let open = frontier(&[]);
    assert_eq!(
        search.find_new_successors(&node(3, 0), &open, &closed),
        vec![node(3, 2), node(1, 2)]
    );
    let closed = vec![];
    assert_eq!(
        search.find_new_successors(&node(3, 0), &open, &closed),
        vec![node(0, 0), node(3, 2), node(1, 2)]
    );
    let open = frontier(&[(0, 0), (3, 2), (1, 2)]);
    assert_eq!(search.find_new_successors(&node(3, 0), &open, &closed), vec![]);
}

#[test]
fn reversed_turns_the_order_round() {
    assert_eq!(reversed(vec![1, 2, 3, 4]), vec![4, 3, 2, 1]);
    assert_eq!(reversed(vec![7]), vec![7]);
    assert_eq!(reversed(Vec::<u32>::new()), vec![]);
    assert_eq!(reversed(vec![1, 1, 2]), vec![2, 1, 1]);
}

#[test]
fn contains_state_compares_by_value() {
    let list = vec![node(1, 2), node(3, 0)];
    assert!(contains_state(&list, &node(3, 0)));
    assert!(contains_state(&list, &node(1, 2)));
    assert!(!contains_state(&list, &node(0, 3)));
    assert!(!contains_state(&Vec::new(), &node(0, 0)));
}

#[test]
fn is_scheduled_looks_at_the_states_only() {
    let open = frontier(&[(1, 2), (3, 0)]);
    assert!(is_scheduled(&open, &node(1, 2)));
    assert!(is_scheduled(&open, &node(3, 0)));
    assert!(!is_scheduled(&open, &node(0, 1)));
    assert!(!is_scheduled(&frontier(&[]), &node(1, 2)));
}
