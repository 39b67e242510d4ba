//! The search as a state machine over mathematical values.
//!
//! A state holds the frontier, the closed list, the search tree and the handle
//! of the goal node once one was taken from the frontier. A step removes one
//! frontier entry; which one is the only choice the search makes, so a run is
//! the sequence of the positions it removed.

use crate::problem::SearchProblem;
use crate::strategy::{pick_allowed, SearchStrategy};
use crate::tree::TreeShape;
use vstd::prelude::*;

verus! {

/// One moment of a search.
#[verifier::ext_equal]
pub struct SearchState<S> {
    /// The frontier: states scheduled for exploration, each with the handle of
    /// its node in the tree, oldest first.
    pub open: Seq<(S, int)>,
    /// The states that were taken from the frontier, oldest first.
    pub closed: Seq<S>,
    /// The search tree.
    pub tree: TreeShape<S>,
    /// The handle of the goal node, once a goal state was taken from the
    /// frontier.
    pub goal: Option<int>,
}

/// Some entry of the frontier holds the state `state`.
pub open spec fn scheduled<S>(open: Seq<(S, int)>, state: S) -> bool {
    exists|i: int| 0 <= i < open.len() && (#[trigger] open[i]).0 == state
}

/// The test that a candidate successor passes: it is neither closed nor
/// scheduled.
pub open spec fn unseen<S>(open: Seq<(S, int)>, closed: Seq<S>) -> spec_fn(S) -> bool {
    |state: S| !closed.contains(state) && !scheduled(open, state)
}

/// The candidates that are neither closed nor scheduled, in their order.
pub open spec fn new_successors<S>(candidates: Seq<S>, open: Seq<(S, int)>, closed: Seq<S>) -> Seq<
    S,
> {
    candidates.filter(unseen(open, closed))
}

/// Frontier entries for `children`, whose nodes have the handles from
/// `first_handle` on.
pub open spec fn entries_for<S>(children: Seq<S>, first_handle: int) -> Seq<(S, int)> {
    Seq::new(children.len(), |j: int| (children[j], first_handle + j))
}

impl<S> SearchState<S> {
    /// The state in which a search from `start` begins.
    pub open spec fn initial(start: S) -> Self {
        SearchState {
            open: seq![(start, 0int)],
            closed: Seq::empty(),
            tree: TreeShape::single(start),
            goal: None,
        }
    }

    /// The search goes on: no goal was found and the frontier is not empty.
    pub open spec fn running(self) -> bool {
        self.goal is None && self.open.len() > 0
    }

    /// What the search reports in this state: the path to the goal node, or
    /// nothing.
    pub open spec fn outcome(self, start: S) -> Option<Seq<S>> {
        match self.goal {
            Some(handle) => Some(self.tree.trail(handle, start)),
            None => None,
        }
    }
}

/// The state after the entry at `position` was removed from the frontier: its
/// state is closed, and either it is a goal, or its new successors are added
/// to the tree below it and to the end of the frontier.
pub open spec fn step<S: Clone + PartialEq, P: SearchProblem<S>>(
    problem: P,
    state: SearchState<S>,
    position: int,
) -> SearchState<S> {
    let (current, handle) = state.open[position];
    let open = state.open.remove(position);
    let closed = state.closed.push(current);
    if problem.is_goal(current) {
        SearchState { open, closed, tree: state.tree, goal: Some(handle) }
    } else {
        let fresh = new_successors(problem.successors(current), open, closed);
        SearchState {
            open: open + entries_for(fresh, state.tree.nodes.len() as int),
            closed,
            tree: state.tree.grow(handle, fresh),
            goal: None,
        }
    }
}

/// The state after the steps that `picks` lists.
pub open spec fn run<S: Clone + PartialEq, P: SearchProblem<S>>(
    problem: P,
    start: S,
    picks: Seq<int>,
) -> SearchState<S>
    decreases picks.len(),
{
    if picks.len() == 0 {
        SearchState::initial(start)
    } else {
        step(problem, run(problem, start, picks.drop_last()), picks.last())
    }
}

/// `picks` is what a search with `strategy` may do: before each step the
/// search was running, and the strategy allowed the position.
pub open spec fn valid_run<S: Clone + PartialEq, P: SearchProblem<S>>(
    problem: P,
    start: S,
    strategy: SearchStrategy,
    picks: Seq<int>,
) -> bool
    decreases picks.len(),
{
    picks.len() > 0 ==> {
        let before = run(problem, start, picks.drop_last());
        &&& valid_run(problem, start, strategy, picks.drop_last())
        &&& before.running()
        &&& pick_allowed(strategy, before.open.len(), picks.last())
    }
}

/// `picks` is a valid run that has come to its end.
pub open spec fn complete_run<S: Clone + PartialEq, P: SearchProblem<S>>(
    problem: P,
    start: S,
    strategy: SearchStrategy,
    picks: Seq<int>,
) -> bool {
    valid_run(problem, start, strategy, picks) && !run(problem, start, picks).running()
}

/// `result` is what a search from `start` with `strategy` may report.
pub open spec fn search_result<S: Clone + PartialEq, P: SearchProblem<S>>(
    problem: P,
    start: S,
    strategy: SearchStrategy,
    result: Option<Seq<S>>,
) -> bool {
    exists|picks: Seq<int>|
        #![trigger run(problem, start, picks)]
        complete_run(problem, start, strategy, picks) && run(problem, start, picks).outcome(start)
            == result
}

/// No run of the search needs more nodes than a search tree can hold.
pub open spec fn within_capacity<S: Clone + PartialEq, P: SearchProblem<S>>(
    problem: P,
    start: S,
    strategy: SearchStrategy,
    capacity: nat,
) -> bool {
    forall|picks: Seq<int>|
        valid_run(problem, start, strategy, picks) ==> (#[trigger] run(
            problem,
            start,
            picks,
        )).tree.nodes.len() <= capacity
}

} // verus!
