//! Breadth-first search explores the states layer by layer: no state leaves
//! the frontier before every state that is nearer to the start has left it.

use crate::invariants::{
    consistent, lemma_path_prefix, lemma_run_consistent, lemma_step_consistent, seen,
    sound_frontier,
};
use crate::model::{new_successors, run, scheduled, step, valid_run, SearchState};
use crate::problem::{is_path, path_end, reaches_goal, SearchProblem};
use crate::strategy::SearchStrategy;
use crate::tree::TreeShape;
use vstd::prelude::*;

verus! {

/// The frontier is ordered by depth, and no entry is more than one level
/// deeper than the first.
pub open spec fn sorted_by_depth<S>(state: SearchState<S>) -> bool {
    forall|i: int, j: int|
        0 <= i <= j < state.open.len() ==> {
            &&& state.tree.depth((#[trigger] state.open[i]).1) <= state.tree.depth(
                (#[trigger] state.open[j]).1,
            )
            &&& state.tree.depth(state.open[j].1) <= state.tree.depth(state.open[0].1) + 1
        }
}

/// The state `s` is closed, or scheduled with a node that is at most `level`
/// deep.
pub open spec fn settled<S>(state: SearchState<S>, s: S, level: int) -> bool {
    state.closed.contains(s) || exists|i: int|
        0 <= i < state.open.len() && (#[trigger] state.open[i]).0 == s && state.tree.depth(
            state.open[i].1,
        ) <= level
}

/// Every state that a path from the start reaches in no more transitions than
/// the first frontier entry is deep, is closed or scheduled no deeper than the
/// path is long.
pub open spec fn layered<S: Clone + PartialEq, P: SearchProblem<S>>(
    problem: P,
    start: S,
    state: SearchState<S>,
) -> bool {
    forall|path: Seq<S>|
        #![trigger is_path(problem, start, path)]
        state.open.len() > 0 && is_path(problem, start, path) && path.len() <= state.tree.depth(
            state.open[0].1,
        ) ==> settled(state, path_end(start, path), path.len() as int)
}

/// No path from the start to a goal is shorter than the goal node is deep.
pub open spec fn goal_nearest<S: Clone + PartialEq, P: SearchProblem<S>>(
    problem: P,
    start: S,
    state: SearchState<S>,
) -> bool {
    match state.goal {
        Some(handle) => forall|path: Seq<S>| #[trigger]
            reaches_goal(problem, start, path) ==> state.tree.depth(handle) <= path.len(),
        None => true,
    }
}

/// What holds of the states of a breadth-first search.
pub open spec fn breadth_first<S: Clone + PartialEq, P: SearchProblem<S>>(
    problem: P,
    start: S,
    state: SearchState<S>,
) -> bool {
    &&& state.goal is None ==> sorted_by_depth(state) && layered(problem, start, state)
    &&& goal_nearest(problem, start, state)
}

/// Growing a tree leaves the depth of its nodes as it was, and puts the new
/// nodes one level below their parent.
pub proof fn lemma_depth_grow<S>(tree: TreeShape<S>, parent: int, children: Seq<S>, handle: int)
    requires
        tree.well_formed(),
        0 <= parent < tree.nodes.len(),
        0 <= handle < tree.nodes.len() + children.len(),
    ensures
        tree.grow(parent, children).depth(handle) == if handle < tree.nodes.len() {
            tree.depth(handle)
        } else {
            tree.depth(parent) + 1
        },
    decreases handle,
{
    let grown = tree.grow(parent, children);
    if handle < tree.nodes.len() {
        if handle > 0 {
            assert(grown.parents[handle] == tree.parents[handle]);
            lemma_depth_grow(tree, parent, children, tree.parents[handle]);
        }
    } else {
        assert(grown.parents[handle] == parent);
        lemma_depth_grow(tree, parent, children, parent);
    }
}

/// A step that removes the first frontier entry keeps the layers.
pub proof fn lemma_step_breadth_first<S: Clone + PartialEq, P: SearchProblem<S>>(
    problem: P,
    start: S,
    state: SearchState<S>,
)
    requires
        consistent(problem, start, state),
        breadth_first(problem, start, state),
        state.running(),
    ensures
        breadth_first(problem, start, step(problem, state, 0)),
{
    let next = step(problem, state, 0);
    let (current, handle) = state.open[0];
    let rest = state.open.remove(0);
    let n = state.tree.nodes.len() as int;
    let d = state.tree.depth(handle) as int;
    assert(state.open[0].0 == current);
    assert(state.open[0].1 == handle);
    lemma_step_consistent(problem, start, state, 0);
    assert(next.closed.last() == current);

    if problem.is_goal(current) {
        assert forall|path: Seq<S>| #[trigger]
            reaches_goal(problem, start, path) implies d <= path.len() by {
            if path.len() < d {
                let end = path_end(start, path);
                assert(is_path(problem, start, path));
                assert(settled(state, end, path.len() as int));
                if state.closed.contains(end) {
                    let w = choose|w: int| 0 <= w < state.closed.len() && state.closed[w] == end;
                    assert(!problem.is_goal(state.closed[w]));
                } else {
                    let i = choose|i: int|
                        0 <= i < state.open.len() && (#[trigger] state.open[i]).0 == end
                            && state.tree.depth(state.open[i].1) <= path.len();
                    assert(state.tree.depth(state.open[0].1) <= state.tree.depth(
                        state.open[i].1,
                    ));
                }
            }
        }
    } else {
        let fresh = new_successors(problem.successors(current), rest, next.closed);
        assert forall|i: int| 0 <= i < next.open.len() implies {
            &&& d <= next.tree.depth((#[trigger] next.open[i]).1) <= d + 1
            &&& i < rest.len() ==> next.open[i] == state.open[i + 1] && next.tree.depth(
                next.open[i].1,
            ) == state.tree.depth(state.open[i + 1].1)
            &&& i >= rest.len() ==> next.tree.depth(next.open[i].1) == d + 1
        } by {
            if i < rest.len() {
                assert(next.open[i] == state.open[i + 1]);
                lemma_depth_grow(state.tree, handle, fresh, state.open[i + 1].1);
                assert(state.tree.depth(state.open[0].1) <= state.tree.depth(
                    state.open[i + 1].1,
                ));
            } else {
                assert(next.open[i].1 == n + (i - rest.len()));
                lemma_depth_grow(state.tree, handle, fresh, next.open[i].1);
            }
        }
        assert(sorted_by_depth(next)) by {
            assert forall|i: int, j: int| 0 <= i <= j < next.open.len() implies {
                &&& next.tree.depth((#[trigger] next.open[i]).1) <= next.tree.depth(
                    (#[trigger] next.open[j]).1,
                )
                &&& next.tree.depth(next.open[j].1) <= next.tree.depth(next.open[0].1) + 1
            } by {
                if j < rest.len() {
                    assert(state.tree.depth(state.open[i + 1].1) <= state.tree.depth(
                        state.open[j + 1].1,
                    ));
                }
                assert(d <= next.tree.depth(next.open[0].1));
            }
        }
        assert(layered(problem, start, next)) by {
            assert forall|path: Seq<S>|
                #![trigger is_path(problem, start, path)]
                next.open.len() > 0 && is_path(problem, start, path) && path.len()
                    <= next.tree.depth(next.open[0].1) implies settled(
                next,
                path_end(start, path),
                path.len() as int,
            ) by {
                let end = path_end(start, path);
                assert(d <= next.tree.depth(next.open[0].1) <= d + 1);
                if path.len() <= d {
                    assert(settled(state, end, path.len() as int));
                    lemma_settled_after_front(problem, state, end, path.len() as int);
                } else {
                    let before = path.drop_last();
                    let from = path_end(start, before);
                    lemma_path_prefix(problem, start, path);
                    assert(settled(state, from, d));
                    lemma_settled_after_front(problem, state, from, d);
                    assert(settled(next, from, d));
                    if !next.closed.contains(from) {
                        let i = choose|i: int|
                            0 <= i < next.open.len() && (#[trigger] next.open[i]).0 == from
                                && next.tree.depth(next.open[i].1) <= d;
                        assert(next.tree.depth(next.open[0].1) <= next.tree.depth(
                            next.open[i].1,
                        ));
                    }
                    let w = choose|w: int| 0 <= w < next.closed.len() && next.closed[w] == from;
                    let j = choose|j: int|
                        0 <= j < problem.successors(from).len() && problem.successors(from)[j]
                            == path.last();
                    assert(seen(next, problem.successors(next.closed[w])[j]));
                    if !next.closed.contains(end) {
                        let k = choose|k: int|
                            0 <= k < next.open.len() && (#[trigger] next.open[k]).0 == end;
                        assert(next.tree.depth(next.open[k].1) <= d + 1);
                    }
                }
            }
        }
    }
}

/// What was settled before the first frontier entry left is settled after the
/// step, at the same level.
proof fn lemma_settled_after_front<S: Clone + PartialEq, P: SearchProblem<S>>(
    problem: P,
    state: SearchState<S>,
    s: S,
    level: int,
)
    requires
        state.tree.well_formed(),
        sound_frontier(state),
        state.open.len() > 0,
        settled(state, s, level),
    ensures
        settled(step(problem, state, 0), s, level),
{
    let next = step(problem, state, 0);
    let (current, handle) = state.open[0];
    let rest = state.open.remove(0);
    assert(state.open[0].0 == current);
    assert(state.open[0].1 == handle);
    if state.closed.contains(s) {
        let w = choose|w: int| 0 <= w < state.closed.len() && state.closed[w] == s;
        assert(next.closed[w] == s);
    } else {
        let i = choose|i: int|
            0 <= i < state.open.len() && (#[trigger] state.open[i]).0 == s && state.tree.depth(
                state.open[i].1,
            ) <= level;
        if i == 0 {
            assert(next.closed[state.closed.len() as int] == s);
        } else {
            assert(rest[i - 1] == state.open[i]);
            assert(next.open[i - 1] == state.open[i]);
            if !problem.is_goal(current) {
                let fresh = new_successors(problem.successors(current), rest, next.closed);
                lemma_depth_grow(state.tree, handle, fresh, state.open[i].1);
            }
        }
    }
}

/// Every state that a breadth-first search reaches is layered.
pub proof fn lemma_run_breadth_first<S: Clone + PartialEq, P: SearchProblem<S>>(
    problem: P,
    start: S,
    picks: Seq<int>,
)
    requires
        valid_run(problem, start, SearchStrategy::BFS, picks),
    ensures
        breadth_first(problem, start, run(problem, start, picks)),
    decreases picks.len(),
{
    if picks.len() > 0 {
        let before = run(problem, start, picks.drop_last());
        lemma_run_consistent(problem, start, SearchStrategy::BFS, picks.drop_last());
        lemma_run_breadth_first(problem, start, picks.drop_last());
        lemma_step_breadth_first(problem, start, before);
    } else {
        let first = SearchState::initial(start);
        assert(first.tree.depth(0) == 0);
        assert forall|path: Seq<S>|
            #![trigger is_path(problem, start, path)]
            first.open.len() > 0 && is_path(problem, start, path) && path.len()
                <= first.tree.depth(first.open[0].1) implies settled(
            first,
            path_end(start, path),
            path.len() as int,
        ) by {
            assert(first.open[0].0 == start);
        }
    }
}

} // verus!
