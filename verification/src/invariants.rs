//! What holds of every state that a run of the search reaches.

use crate::model::{
    entries_for, new_successors, run, scheduled, step, unseen, valid_run, SearchState,
};
use crate::problem::{is_path, path_end, SearchProblem};
use crate::strategy::SearchStrategy;
use crate::tree::TreeShape;
use vstd::prelude::*;

verus! {

/// The tree grows from `start` along transitions of the problem, and no node
/// but the root holds the start state.
pub open spec fn sound_tree<S: Clone + PartialEq, P: SearchProblem<S>>(
    problem: P,
    start: S,
    tree: TreeShape<S>,
) -> bool {
    &&& tree.well_formed()
    &&& tree.nodes[0] == start
    &&& forall|h: int|
        1 <= h < tree.nodes.len() ==> {
            &&& problem.successors(tree.nodes[tree.parents[h]]).contains(#[trigger] tree.nodes[h])
            &&& tree.nodes[h] != start
        }
}

/// Every frontier entry names a node of the tree that holds its state.
pub open spec fn sound_frontier<S>(state: SearchState<S>) -> bool {
    forall|i: int|
        0 <= i < state.open.len() ==> {
            &&& 0 <= (#[trigger] state.open[i]).1 < state.tree.nodes.len()
            &&& state.tree.nodes[state.open[i].1] == state.open[i].0
        }
}

/// The start state is the first to be closed.
pub open spec fn start_first<S>(start: S, state: SearchState<S>) -> bool {
    if state.closed.len() == 0 {
        state == SearchState::initial(start)
    } else {
        state.closed[0] == start
    }
}

/// A goal handle names the node of the state that was closed last, and that
/// state is a goal.
pub open spec fn sound_goal<S: Clone + PartialEq, P: SearchProblem<S>>(
    problem: P,
    state: SearchState<S>,
) -> bool {
    match state.goal {
        Some(handle) => {
            &&& 0 <= handle < state.tree.nodes.len()
            &&& state.closed.len() > 0
            &&& state.closed.last() == state.tree.nodes[handle]
            &&& problem.is_goal(state.tree.nodes[handle])
        },
        None => true,
    }
}

/// The number of closed states that were expanded: all of them, but for the
/// goal.
pub open spec fn expanded<S>(state: SearchState<S>) -> int {
    if state.goal is Some {
        state.closed.len() - 1
    } else {
        state.closed.len() as int
    }
}

/// The state is closed or scheduled.
pub open spec fn seen<S>(state: SearchState<S>, s: S) -> bool {
    state.closed.contains(s) || scheduled(state.open, s)
}

/// No expanded state is a goal.
pub open spec fn expanded_not_goals<S: Clone + PartialEq, P: SearchProblem<S>>(
    problem: P,
    state: SearchState<S>,
) -> bool {
    forall|i: int| 0 <= i < expanded(state) ==> !problem.is_goal(#[trigger] state.closed[i])
}

/// Every successor of an expanded state is closed or scheduled.
pub open spec fn successors_seen<S: Clone + PartialEq, P: SearchProblem<S>>(
    problem: P,
    state: SearchState<S>,
) -> bool {
    forall|i: int, j: int|
        0 <= i < expanded(state) && 0 <= j < problem.successors(state.closed[i]).len() ==> seen(
            state,
            #[trigger] problem.successors(state.closed[i])[j],
        )
}

/// Every closed state is the state of a node.
pub open spec fn closed_in_tree<S>(state: SearchState<S>) -> bool {
    forall|i: int|
        0 <= i < state.closed.len() ==> state.tree.nodes.contains(#[trigger] state.closed[i])
}

/// Every state of the tree is closed or scheduled.
pub open spec fn nodes_seen<S>(state: SearchState<S>) -> bool {
    forall|h: int| 0 <= h < state.tree.nodes.len() ==> seen(state, #[trigger] state.tree.nodes[h])
}

/// The bookkeeping of a search state is consistent.
pub open spec fn consistent<S: Clone + PartialEq, P: SearchProblem<S>>(
    problem: P,
    start: S,
    state: SearchState<S>,
) -> bool {
    &&& sound_tree(problem, start, state.tree)
    &&& sound_frontier(state)
    &&& start_first(start, state)
    &&& sound_goal(problem, state)
    &&& expanded_not_goals(problem, state)
    &&& successors_seen(problem, state)
    &&& closed_in_tree(state)
    &&& nodes_seen(state)
}

/// The walk back from a node of the search tree gives the path from the start
/// state to that node: it follows transitions of the problem, ends at the
/// node's state, has as many states as the node is deep, and does not hold the
/// start state.
pub proof fn lemma_trail<S: Clone + PartialEq, P: SearchProblem<S>>(
    problem: P,
    start: S,
    tree: TreeShape<S>,
    handle: int,
)
    requires
        sound_tree(problem, start, tree),
        0 <= handle < tree.nodes.len(),
    ensures
        is_path(problem, start, tree.trail(handle, start)),
        path_end(start, tree.trail(handle, start)) == tree.nodes[handle],
        tree.trail(handle, start).len() == tree.depth(handle),
        !tree.trail(handle, start).contains(start),
    decreases handle,
{
    if handle > 0 {
        let parent = tree.parents[handle];
        let above = tree.trail(parent, start);
        let path = tree.trail(handle, start);
        lemma_trail(problem, start, tree, parent);
        assert(tree.nodes[handle] != start);
        assert(path == above.push(tree.nodes[handle]));
        assert forall|i: int| 0 <= i < path.len() implies problem.successors(
            if i == 0 {
                start
            } else {
                path[i - 1]
            },
        ).contains(#[trigger] path[i]) by {
            if i < above.len() {
                assert(path[i] == above[i]);
            }
        }
    }
}

/// A path without its last state is a path.
pub proof fn lemma_path_prefix<S: Clone + PartialEq, P: SearchProblem<S>>(
    problem: P,
    start: S,
    path: Seq<S>,
)
    requires
        is_path(problem, start, path),
        path.len() > 0,
    ensures
        is_path(problem, start, path.drop_last()),
        problem.successors(path_end(start, path.drop_last())).contains(path.last()),
{
    let before = path.drop_last();
    assert forall|i: int| 0 <= i < before.len() implies problem.successors(
        if i == 0 {
            start
        } else {
            before[i - 1]
        },
    ).contains(#[trigger] before[i]) by {
        assert(before[i] == path[i]);
    }
    assert(problem.successors(path_end(start, before)).contains(path[path.len() - 1]));
}

/// A state that was scheduled stays scheduled when another entry leaves the
/// frontier.
pub proof fn lemma_scheduled_after_remove<S>(open: Seq<(S, int)>, position: int, s: S)
    requires
        0 <= position < open.len(),
        scheduled(open, s),
        open[position].0 != s,
    ensures
        scheduled(open.remove(position), s),
{
    let w = choose|i: int| 0 <= i < open.len() && (#[trigger] open[i]).0 == s;
    if w < position {
        assert(open.remove(position)[w].0 == s);
    } else {
        assert(open.remove(position)[w - 1].0 == s);
    }
}

/// What is scheduled in a frontier is scheduled in any extension of it.
pub proof fn lemma_scheduled_extend<S>(open: Seq<(S, int)>, more: Seq<(S, int)>, s: S)
    requires
        scheduled(open, s),
    ensures
        scheduled(open + more, s),
{
    let w = choose|i: int| 0 <= i < open.len() && (#[trigger] open[i]).0 == s;
    assert((open + more)[w].0 == s);
}

/// The new successors are those candidates that are neither closed nor
/// scheduled.
pub proof fn lemma_new_successors<S>(candidates: Seq<S>, open: Seq<(S, int)>, closed: Seq<S>)
    ensures
        forall|j: int|
            0 <= j < new_successors(candidates, open, closed).len() ==> {
                let s = #[trigger] new_successors(candidates, open, closed)[j];
                candidates.contains(s) && !closed.contains(s) && !scheduled(open, s)
            },
        forall|j: int|
            0 <= j < candidates.len() && !closed.contains(candidates[j]) && !scheduled(
                open,
                candidates[j],
            ) ==> new_successors(candidates, open, closed).contains(#[trigger] candidates[j]),
{
    let keep = unseen(open, closed);
    let fresh = candidates.filter(keep);
    assert forall|j: int| 0 <= j < fresh.len() implies {
        let s = #[trigger] fresh[j];
        candidates.contains(s) && !closed.contains(s) && !scheduled(open, s)
    } by {
        candidates.lemma_filter_pred(keep, j);
        assert(fresh.contains(fresh[j]));
        candidates.lemma_filter_contains_rev(keep, fresh[j]);
    }
    assert forall|j: int|
        0 <= j < candidates.len() && !closed.contains(candidates[j]) && !scheduled(
            open,
            candidates[j],
        ) implies fresh.contains(#[trigger] candidates[j]) by {
        candidates.lemma_filter_contains(keep, j);
    }
}

/// What was closed or scheduled before a step is closed or scheduled after it.
pub proof fn lemma_seen_after_step<S: Clone + PartialEq, P: SearchProblem<S>>(
    problem: P,
    state: SearchState<S>,
    position: int,
    s: S,
)
    requires
        0 <= position < state.open.len(),
        seen(state, s),
    ensures
        seen(step(problem, state, position), s),
{
    let next = step(problem, state, position);
    let current = state.open[position].0;
    let rest = state.open.remove(position);
    if state.closed.contains(s) {
        let w = choose|w: int| 0 <= w < state.closed.len() && state.closed[w] == s;
        assert(next.closed[w] == s);
    } else if s == current {
        assert(next.closed[state.closed.len() as int] == s);
    } else {
        lemma_scheduled_after_remove(state.open, position, s);
        if !problem.is_goal(current) {
            let added = next.open.subrange(rest.len() as int, next.open.len() as int);
            lemma_scheduled_extend(rest, added, s);
            assert(next.open =~= rest + added);
        }
    }
}

/// A step of a running search keeps the bookkeeping consistent.
pub proof fn lemma_step_consistent<S: Clone + PartialEq, P: SearchProblem<S>>(
    problem: P,
    start: S,
    state: SearchState<S>,
    position: int,
)
    requires
        consistent(problem, start, state),
        state.running(),
        0 <= position < state.open.len(),
    ensures
        consistent(problem, start, step(problem, state, position)),
{
    let next = step(problem, state, position);
    let (current, handle) = state.open[position];
    let rest = state.open.remove(position);
    let closed = state.closed.push(current);
    let n = state.tree.nodes.len() as int;
    assert(state.open[position].1 == handle);
    assert(next.closed == closed);
    assert(closed[0] == start);
    assert(closed.last() == current);
    let candidates = problem.successors(current);
    let fresh = new_successors(candidates, rest, closed);
    lemma_new_successors(candidates, rest, closed);

    assert(sound_tree(problem, start, next.tree)) by {
        if !problem.is_goal(current) {
            assert forall|h: int| 1 <= h < next.tree.nodes.len() implies {
                &&& 0 <= #[trigger] next.tree.parents[h] < h
                &&& problem.successors(next.tree.nodes[next.tree.parents[h]]).contains(
                    next.tree.nodes[h],
                )
                &&& next.tree.nodes[h] != start
            } by {
                if h < n {
                    assert(next.tree.parents[h] == state.tree.parents[h]);
                    assert(next.tree.nodes[h] == state.tree.nodes[h]);
                } else {
                    assert(next.tree.nodes[h] == fresh[h - n]);
                    assert(next.tree.parents[h] == handle);
                    assert(closed.contains(start));
                }
            }
        }
    }

    assert(sound_frontier(next)) by {
        assert forall|i: int| 0 <= i < next.open.len() implies {
            &&& 0 <= (#[trigger] next.open[i]).1 < next.tree.nodes.len()
            &&& next.tree.nodes[next.open[i].1] == next.open[i].0
        } by {
            if i < rest.len() {
                if i < position {
                    assert(next.open[i] == state.open[i]);
                } else {
                    assert(next.open[i] == state.open[i + 1]);
                }
            } else {
                assert(!problem.is_goal(current));
                assert(next.open[i] == entries_for(fresh, n)[i - rest.len()]);
            }
        }
    }

    assert(closed_in_tree(next)) by {
        assert forall|i: int| 0 <= i < next.closed.len() implies next.tree.nodes.contains(
            #[trigger] next.closed[i],
        ) by {
            let s = next.closed[i];
            if i < state.closed.len() {
                assert(s == state.closed[i]);
                assert(state.tree.nodes.contains(s));
                let h = choose|h: int| 0 <= h < state.tree.nodes.len() && state.tree.nodes[h] == s;
                assert(next.tree.nodes[h] == s);
            } else {
                assert(next.tree.nodes[handle] == s);
            }
        }
    }

    assert(expanded_not_goals(problem, next)) by {
        assert forall|i: int| 0 <= i < expanded(next) implies !problem.is_goal(
            #[trigger] next.closed[i],
        ) by {
            if i < state.closed.len() {
                assert(next.closed[i] == state.closed[i]);
            }
        }
    }

    assert(successors_seen(problem, next)) by {
        assert forall|i: int, j: int|
            0 <= i < expanded(next) && 0 <= j < problem.successors(
                next.closed[i],
            ).len() implies seen(next, #[trigger] problem.successors(next.closed[i])[j]) by {
            let y = problem.successors(next.closed[i])[j];
            if i < state.closed.len() {
                assert(next.closed[i] == state.closed[i]);
                assert(seen(state, problem.successors(state.closed[i])[j]));
                lemma_seen_after_step(problem, state, position, y);
            } else {
                assert(!problem.is_goal(current));
                assert(next.closed[i] == current);
                assert(y == candidates[j]);
                if closed.contains(y) {
                } else if scheduled(rest, y) {
                    lemma_scheduled_extend(rest, entries_for(fresh, n), y);
                } else {
                    assert(fresh.contains(candidates[j]));
                    let w = choose|w: int| 0 <= w < fresh.len() && fresh[w] == y;
                    assert(next.open[rest.len() + w].0 == y);
                }
            }
        }
    }

    assert(nodes_seen(next)) by {
        assert forall|h: int| 0 <= h < next.tree.nodes.len() implies seen(
            next,
            #[trigger] next.tree.nodes[h],
        ) by {
            if h < n {
                assert(next.tree.nodes[h] == state.tree.nodes[h]);
                lemma_seen_after_step(problem, state, position, state.tree.nodes[h]);
            } else {
                assert(next.open[rest.len() + (h - n)].0 == next.tree.nodes[h]);
            }
        }
    }
}

/// Every state that a valid run reaches is consistent.
pub proof fn lemma_run_consistent<S: Clone + PartialEq, P: SearchProblem<S>>(
    problem: P,
    start: S,
    strategy: SearchStrategy,
    picks: Seq<int>,
)
    requires
        valid_run(problem, start, strategy, picks),
    ensures
        consistent(problem, start, run(problem, start, picks)),
    decreases picks.len(),
{
    if picks.len() > 0 {
        lemma_run_consistent(problem, start, strategy, picks.drop_last());
        lemma_step_consistent(
            problem,
            start,
            run(problem, start, picks.drop_last()),
            picks.last(),
        );
    } else {
        let first = SearchState::initial(start);
        assert(first.open[0].0 == start);
    }
}

} // verus!
