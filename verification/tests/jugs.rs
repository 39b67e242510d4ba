use search_engine::{JugsNode, JugsProblem, SearchEngine, SearchProblem, SearchStrategy};

fn node(j1: u32, j2: u32) -> JugsNode {
    JugsNode { j1, j2 }
}

fn jugs(
    j1_max: u32,
    j2_max: u32,
    target: u32,
    strategy: SearchStrategy,
) -> SearchEngine<JugsNode, JugsProblem> {
    SearchEngine {
        start_node: node(0, 0),
        search_problem: JugsProblem { j1_max, j2_max, target },
        search_strategy: strategy,
    }
}

/// Whether `path` leads from `start` to a goal along moves of the puzzle.
fn is_solution(problem: &JugsProblem, start: &JugsNode, path: &[JugsNode]) -> bool {
    let mut current = start.clone();
    for next in path {
        if !problem.expand(&current).contains(next) {
            return false;
        }
        current = next.clone();
    }
    problem.goal_state(&current)
}

#[test]
fn breadth_first_finds_the_shortest_way_to_measure_one() {
    let path = jugs(3, 2, 1, SearchStrategy::BFS).run_search();
    assert_eq!(path, Some(vec![node(3, 0), node(1, 2)]));
}

#[test]
fn depth_first_follows_the_newest_state() {
    let path = jugs(3, 2, 1, SearchStrategy::DFS).run_search();
    assert_eq!(path, Some(vec![node(0, 2), node(2, 0), node(2, 2), node(3, 1)]));
}

#[test]
fn unreachable_target_reports_no_solution() {
    assert_eq!(jugs(2, 2, 5, SearchStrategy::BFS).run_search(), None);
    assert_eq!(jugs(2, 2, 5, SearchStrategy::DFS).run_search(), None);
    assert_eq!(jugs(2, 2, 5, SearchStrategy::Random).run_search(), None);
}

#[test]
fn random_search_ends_with_a_solution_that_leaves_out_the_start() {
    let search = jugs(3, 2, 1, SearchStrategy::Random);
    for _ in 0..200 {
        let path = search.run_search().expect("a goal can be reached");
        assert!(!path.is_empty());
        assert!(is_solution(&search.search_problem, &search.start_node, &path));
        assert!(!path.contains(&search.start_node));
        let last = path.last().unwrap();
        assert!(last.j1 == 1 || last.j2 == 1);
    }
}

#[test]
fn breadth_first_and_depth_first_repeat_their_result() {
    for strategy in [SearchStrategy::BFS, SearchStrategy::DFS] {
        let search = jugs(5, 3, 4, strategy);
        let first = search.run_search();
        assert!(first.is_some());
        for _ in 0..5 {
            assert_eq!(search.run_search(), first);
        }
    }
}

#[test]
fn breadth_first_measures_four_in_six_moves() {
    let search = jugs(5, 3, 4, SearchStrategy::BFS);
    let path = search.run_search().unwrap();
    assert_eq!(
        path,
        vec![node(5, 0), node(2, 3), node(2, 0), node(0, 2), node(5, 2), node(4, 3)]
    );
    assert!(is_solution(&search.search_problem, &search.start_node, &path));
}

#[test]
fn a_start_that_is_a_goal_gives_the_empty_path() {
    for strategy in [SearchStrategy::BFS, SearchStrategy::DFS, SearchStrategy::Random] {
        assert_eq!(jugs(3, 2, 0, strategy).run_search(), Some(vec![]));
    }
}

#[test]
fn a_search_can_start_from_any_state() {
    let search = SearchEngine {
        start_node: node(3, 2),
        search_problem: JugsProblem { j1_max: 3, j2_max: 2, target: 1 },
        search_strategy: SearchStrategy::BFS,
    };
    assert_eq!(search.run_search(), Some(vec![node(3, 0), node(1, 2)]));
}

#[test]
fn expand_lists_the_moves_in_order() {
    let problem = JugsProblem { j1_max: 3, j2_max: 2, target: 1 };
    assert_eq!(problem.expand(&node(0, 0)), vec![node(3, 0), node(0, 2)]);
    assert_eq!(problem.expand(&node(3, 0)), vec![node(0, 0), node(3, 2), node(1, 2)]);
    assert_eq!(problem.expand(&node(0, 2)), vec![node(0, 0), node(3, 2), node(2, 0)]);
    assert_eq!(problem.expand(&node(3, 2)), vec![node(0, 2), node(3, 0)]);
    assert_eq!(
        problem.expand(&node(1, 2)),
        vec![node(0, 2), node(1, 0), node(3, 2), node(3, 0)]
    );
    assert_eq!(
        problem.expand(&node(1, 1)),
        vec![node(0, 1), node(1, 0), node(3, 1), node(1, 2), node(0, 2), node(2, 0)]
    );
}

#[test]
fn pouring_stops_when_the_other_jug_is_full() {
    let problem = JugsProblem { j1_max: 3, j2_max: 2, target: 1 };
    let moves = problem.expand(&node(3, 1));
    assert_eq!(moves, vec![node(0, 1), node(3, 0), node(3, 2), node(2, 2)]);
    let moves = problem.expand(&node(2, 2));
    assert_eq!(moves, vec![node(0, 2), node(2, 0), node(3, 2), node(3, 1)]);
}

#[test]
fn pouring_empties_the_jug_when_everything_fits() {
    let problem = JugsProblem { j1_max: 10, j2_max: 10, target: 1 };
    let moves = problem.expand(&node(4, 3));
    assert_eq!(
        moves,
        vec![node(0, 3), node(4, 0), node(10, 3), node(4, 10), node(0, 7), node(7, 0)]
    );
}

#[test]
fn expand_works_at_the_largest_capacities() {
    let max = u32::MAX;
    let problem = JugsProblem { j1_max: max, j2_max: max, target: 1 };
    assert_eq!(problem.expand(&node(max, max)), vec![node(0, max), node(max, 0)]);
    assert_eq!(
        problem.expand(&node(max, 0)),
        vec![node(0, 0), node(max, max), node(0, max)]
    );
    assert_eq!(
        problem.expand(&node(max - 1, 2)),
        vec![
            node(0, 2),
            node(max - 1, 0),
            node(max, 2),
            node(max - 1, max),
            node(1, max),
            node(max, 1)
        ]
    );
}

#[test]
fn jugs_without_capacity_allow_no_move() {
    let problem = JugsProblem { j1_max: 0, j2_max: 0, target: 1 };
    assert_eq!(problem.expand(&node(0, 0)), vec![]);
    assert_eq!(jugs(0, 0, 1, SearchStrategy::BFS).run_search(), None);
}

#[test]
fn goal_is_the_target_in_either_jug() {
    let problem = JugsProblem { j1_max: 3, j2_max: 2, target: 1 };
    assert!(problem.goal_state(&node(1, 0)));
    assert!(problem.goal_state(&node(3, 1)));
    assert!(problem.goal_state(&node(1, 1)));
    assert!(!problem.goal_state(&node(0, 0)));
    assert!(!problem.goal_state(&node(3, 2)));
}

#[test]
fn jug_states_compare_and_copy_by_value() {
    let state = node(4, 7);
    let copy = state.clone();
    assert_eq!(copy.j1, 4);
    assert_eq!(copy.j2, 7);
    assert!(state == copy);
    assert!(state != node(7, 4));
    assert!(state != node(4, 8));
    assert!(state != node(5, 7));
}

#[test]
fn a_puzzle_fits_the_tree_when_its_states_do() {
    let start = node(0, 0);
    assert!(JugsProblem { j1_max: 3, j2_max: 2, target: 1 }.fits_search_tree(&start));
    assert!(JugsProblem { j1_max: 1234, j2_max: 12345, target: 543 }.fits_search_tree(&start));
    assert!(JugsProblem { j1_max: 0, j2_max: 4294967294, target: 1 }.fits_search_tree(&start));
    assert!(!JugsProblem { j1_max: 0, j2_max: u32::MAX, target: 1 }.fits_search_tree(&start));
    assert!(JugsProblem { j1_max: 65534, j2_max: 65536, target: 1 }.fits_search_tree(&start));
    assert!(!JugsProblem { j1_max: 65535, j2_max: 65535, target: 1 }.fits_search_tree(&start));
    let largest = JugsProblem { j1_max: u32::MAX, j2_max: u32::MAX, target: 1 };
    assert!(!largest.fits_search_tree(&start));
}

#[test]
fn a_start_above_the_capacities_counts_towards_the_states() {
    let problem = JugsProblem { j1_max: 2, j2_max: 2, target: 1 };
    assert!(problem.fits_search_tree(&node(7, 9)));
    assert!(!problem.fits_search_tree(&node(u32::MAX, 0)));
    assert!(problem.fits_search_tree(&node(0, 1431655764)));
    assert!(!problem.fits_search_tree(&node(0, 1431655765)));
    let search = SearchEngine {
        start_node: node(7, 9),
        search_problem: problem,
        search_strategy: SearchStrategy::BFS,
    };
    assert_eq!(
        search.run_search(),
        Some(vec![node(7, 0), node(5, 2), node(5, 0), node(3, 2), node(3, 0), node(1, 2)])
    );
}
