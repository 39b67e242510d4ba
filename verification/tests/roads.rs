use search_engine::{SearchEngine, SearchProblem, SearchStrategy};
use std::cell::RefCell;

/// A road map given by an adjacency list over small integers, which records
/// every state handed to `expand`.
struct Roads {
    edges: Vec<Vec<u32>>,
    goals: Vec<u32>,
    expanded: RefCell<Vec<u32>>,
}

impl SearchProblem<u32> for Roads {
    fn expand(&self, node: &u32) -> Vec<u32> {
        self.expanded.borrow_mut().push(*node);
        self.edges[*node as usize].clone()
    }

    fn goal_state(&self, node: &u32) -> bool {
        self.goals.contains(node)
    }
}

fn engine(
    edges: Vec<Vec<u32>>,
    goals: Vec<u32>,
    strategy: SearchStrategy,
) -> SearchEngine<u32, Roads> {
    SearchEngine {
        start_node: 0,
        search_problem: Roads { edges, goals, expanded: RefCell::new(Vec::new()) },
        search_strategy: strategy,
    }
}

fn expanded(search: &SearchEngine<u32, Roads>) -> Vec<u32> {
    search.search_problem.expanded.borrow().clone()
}

fn strategies() -> [SearchStrategy; 3] {
    [SearchStrategy::BFS, SearchStrategy::DFS, SearchStrategy::Random]
}

/// 0 -> 1 -> 3 -> 4 and 0 -> 2 -> 4, with roads back to 0.
fn diamond() -> Vec<Vec<u32>> {
    vec![vec![1, 2], vec![3, 0], vec![4, 0], vec![4], vec![0]]
}

/// A ring 0 -> 1 -> ... -> 5 -> 0 with a shortcut 0 -> 4, and a town 6 that
/// no road leads to.
fn ring() -> Vec<Vec<u32>> {
    vec![vec![1, 4], vec![2], vec![3], vec![4], vec![5], vec![0], vec![0]]
}

fn follows_roads(edges: &[Vec<u32>], start: u32, path: &[u32]) -> bool {
    let mut current = start;
    for next in path {
        if !edges[current as usize].contains(next) {
            return false;
        }
        current = *next;
    }
    true
}

#[test]
fn breadth_first_takes_the_short_branch() {
    let search = engine(diamond(), vec![4], SearchStrategy::BFS);
    assert_eq!(search.run_search(), Some(vec![2, 4]));
    assert_eq!(expanded(&search), vec![0, 1, 2, 3]);
}

#[test]
fn breadth_first_exhausts_a_level_before_the_next() {
    let search = engine(ring(), vec![5], SearchStrategy::BFS);
    assert_eq!(search.run_search(), Some(vec![4, 5]));
    assert_eq!(expanded(&search), vec![0, 1, 4, 2]);
}

#[test]
fn breadth_first_finds_the_nearest_of_several_goals() {
    let search = engine(ring(), vec![3, 5], SearchStrategy::BFS);
    assert_eq!(search.run_search(), Some(vec![4, 5]));
    let search = engine(ring(), vec![3, 2], SearchStrategy::BFS);
    assert_eq!(search.run_search(), Some(vec![1, 2]));
}

#[test]
fn depth_first_takes_the_newest_entry() {
    let search = engine(diamond(), vec![4], SearchStrategy::DFS);
    assert_eq!(search.run_search(), Some(vec![2, 4]));
    assert_eq!(expanded(&search), vec![0, 2]);
    let search = engine(vec![vec![1, 2], vec![3], vec![], vec![]], vec![3], SearchStrategy::DFS);
    assert_eq!(search.run_search(), Some(vec![1, 3]));
    assert_eq!(expanded(&search), vec![0, 2, 1]);
}

#[test]
fn depth_first_may_return_a_longer_path() {
    let edges = vec![vec![3, 1], vec![2], vec![3], vec![]];
    assert_eq!(engine(edges.clone(), vec![3], SearchStrategy::BFS).run_search(), Some(vec![3]));
    let edges = vec![vec![1, 2], vec![4], vec![3], vec![4], vec![]];
    assert_eq!(
        engine(edges.clone(), vec![4], SearchStrategy::DFS).run_search(),
        Some(vec![2, 3, 4])
    );
    assert_eq!(engine(edges, vec![4], SearchStrategy::BFS).run_search(), Some(vec![1, 4]));
}

#[test]
fn a_goal_at_the_start_is_found_without_expanding() {
    for strategy in strategies() {
        let search = engine(diamond(), vec![0], strategy);
        assert_eq!(search.run_search(), Some(vec![]));
        assert_eq!(expanded(&search), vec![]);
    }
}

#[test]
fn exhaustion_visits_every_reachable_state_once() {
    for strategy in strategies() {
        let search = engine(ring(), vec![6], strategy);
        assert_eq!(search.run_search(), None);
        let mut visited = expanded(&search);
        visited.sort();
        assert_eq!(visited, vec![0, 1, 2, 3, 4, 5]);
    }
}

#[test]
fn exhaustion_orders_follow_the_strategy() {
    let search = engine(ring(), vec![], SearchStrategy::BFS);
    assert_eq!(search.run_search(), None);
    assert_eq!(expanded(&search), vec![0, 1, 4, 2, 5, 3]);
    let search = engine(ring(), vec![], SearchStrategy::DFS);
    assert_eq!(search.run_search(), None);
    assert_eq!(expanded(&search), vec![0, 4, 5, 1, 2, 3]);
}

#[test]
fn no_state_is_expanded_twice() {
    for strategy in strategies() {
        for _ in 0..20 {
            let search = engine(diamond(), vec![], strategy);
            assert_eq!(search.run_search(), None);
            let mut visited = expanded(&search);
            assert_eq!(visited.len(), 5);
            visited.sort();
            visited.dedup();
            assert_eq!(visited.len(), 5);
        }
    }
}

#[test]
fn a_state_without_successors_ends_the_search() {
    for strategy in strategies() {
        let search = engine(vec![vec![]], vec![1], strategy);
        assert_eq!(search.run_search(), None);
        assert_eq!(expanded(&search), vec![0]);
    }
}

#[test]
fn a_road_back_to_the_same_state_is_ignored() {
    for strategy in strategies() {
        let search = engine(vec![vec![0, 1], vec![1, 0]], vec![2], strategy);
        assert_eq!(search.run_search(), None);
        assert_eq!(expanded(&search), vec![0, 1]);
    }
}

#[test]
fn successors_listed_twice_at_once_are_both_scheduled() {
    let search = engine(vec![vec![1, 1], vec![2], vec![]], vec![3], SearchStrategy::BFS);
    assert_eq!(search.run_search(), None);
    assert_eq!(expanded(&search), vec![0, 1, 1, 2]);
    let search = engine(vec![vec![1, 1], vec![2], vec![]], vec![2], SearchStrategy::BFS);
    assert_eq!(search.run_search(), Some(vec![1, 2]));
}

#[test]
fn random_search_returns_a_path_along_the_roads() {
    for _ in 0..200 {
        let search = engine(diamond(), vec![4], SearchStrategy::Random);
        let path = search.run_search().expect("town 4 can be reached");
        assert!(follows_roads(&diamond(), 0, &path));
        assert_eq!(path.last(), Some(&4));
        assert!(!path.contains(&0));
        assert!(path == vec![2, 4] || path == vec![1, 3, 4]);
    }
}

#[test]
fn random_search_takes_every_branch_sooner_or_later() {
    let mut short = false;
    let mut long = false;
    for _ in 0..2000 {
        let edges = vec![vec![1, 2], vec![3], vec![3], vec![]];
        let path = engine(edges, vec![3], SearchStrategy::Random).run_search().unwrap();
        short = short || path == vec![1, 3];
        long = long || path == vec![2, 3];
        assert!(path == vec![1, 3] || path == vec![2, 3]);
    }
    assert!(short && long);
}

#[test]
fn the_path_never_holds_the_start_state() {
    for strategy in strategies() {
        for goal in 1..6 {
            let search = engine(ring(), vec![goal], strategy);
            let path = search.run_search().unwrap();
            assert!(!path.contains(&0));
            assert_eq!(path.last(), Some(&goal));
            assert!(follows_roads(&ring(), 0, &path));
        }
    }
}
