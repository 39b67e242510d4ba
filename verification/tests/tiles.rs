use search_engine::{SearchEngine, SearchProblem, SearchStrategy, TilesNode, TilesProblem};

fn board() -> TilesNode {
    TilesNode::new(
        vec![
            vec![Some(1), Some(2), Some(3)],
            vec![Some(4), None, Some(5)],
            vec![Some(6), Some(7), Some(8)],
        ],
        1,
        1,
    )
}

#[test]
fn a_board_has_no_successor_and_is_no_goal() {
    let problem = TilesProblem {};
    assert_eq!(problem.expand(&board()), vec![]);
    assert!(!problem.goal_state(&board()));
}

#[test]
fn a_search_over_boards_finds_nothing() {
    for strategy in [SearchStrategy::BFS, SearchStrategy::DFS, SearchStrategy::Random] {
        let search = SearchEngine {
            start_node: board(),
            search_problem: TilesProblem {},
            search_strategy: strategy,
        };
        assert_eq!(search.run_search(), None);
    }
}

#[test]
fn boards_compare_by_value() {
    assert_eq!(board(), board().clone());
    assert!(board() != TilesNode::new(vec![vec![None]], 0, 0));
    assert!(
        TilesNode::new(vec![vec![None, Some(1)]], 0, 0)
            != TilesNode::new(vec![vec![None, Some(1)]], 0, 1)
    );
}
