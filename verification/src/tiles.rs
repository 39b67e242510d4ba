//! The sliding-tile puzzle: a board of numbered tiles with one empty square.
//!
//! The puzzle allows no move and accepts no board as solved, so a search over
//! it visits the start board and reports that there is no solution.

use crate::problem::SearchProblem;
use vstd::prelude::*;

verus! {

/// The sliding-tile puzzle.
pub struct TilesProblem {}

/// A square of the board, by row and column.
#[derive(Clone, Copy, Debug, PartialEq)]
struct Point {
    x: usize,
    y: usize,
}

/// A board: the tile on each square, `None` on the empty one, and where the
/// empty square is.
#[derive(Clone, Debug, PartialEq)]
pub struct TilesNode {
    board: Vec<Vec<Option<u32>>>,
    empty_square: Point,
}

impl TilesNode {
    /// A board with its empty square at row `x`, column `y`.
    pub fn new(board: Vec<Vec<Option<u32>>>, x: usize, y: usize) -> (node: Self)
        ensures
            node.tiles() == board@,
            node.empty_row() == x,
            node.empty_column() == y,
    {
        TilesNode { board, empty_square: Point { x, y } }
    }

    /// The rows of the board.
    pub closed spec fn tiles(&self) -> Seq<Vec<Option<u32>>> {
        self.board@
    }

    /// The row of the empty square.
    pub closed spec fn empty_row(&self) -> usize {
        self.empty_square.x
    }

    /// The column of the empty square.
    pub closed spec fn empty_column(&self) -> usize {
        self.empty_square.y
    }
}

impl SearchProblem<TilesNode> for TilesProblem {
    /// No board has a successor.
    open spec fn successors(&self, node: TilesNode) -> Seq<TilesNode> {
        Seq::empty()
    }

    /// No board is a goal.
    open spec fn is_goal(&self, node: TilesNode) -> bool {
        false
    }

    fn expand(&self, node: &TilesNode) -> (successors: Vec<TilesNode>) {
        let successors: Vec<TilesNode> = Vec::new();
        successors
    }

    fn goal_state(&self, node: &TilesNode) -> (goal: bool) {
        false
    }
}

} // verus!
