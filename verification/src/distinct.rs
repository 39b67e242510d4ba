//! No state is scheduled twice, provided that no step schedules a state twice
//! at once.

use crate::invariants::{
    consistent, lemma_new_successors, lemma_run_consistent, lemma_scheduled_after_remove,
    lemma_trail, seen,
};
use crate::model::{
    entries_for, new_successors, run, scheduled, step, unseen, valid_run, SearchState,
};
use crate::problem::{is_path, reachable, SearchProblem};
use crate::strategy::SearchStrategy;
use vstd::prelude::*;
use vstd::seq_lib::lemma_no_dup_in_concat;

verus! {

/// The problem lists no state twice among the successors of a state that can
/// be reached from `start`.
pub open spec fn distinct_successors<S: Clone + PartialEq, P: SearchProblem<S>>(
    problem: P,
    start: S,
) -> bool {
    forall|s: S| #[trigger] reachable(problem, start, s) ==> problem.successors(s).no_duplicates()
}

/// The states that a step at `position` schedules, unless the state it takes
/// from the frontier is a goal: the successors of that state that are neither
/// closed nor scheduled.
pub open spec fn scheduled_by<S: Clone + PartialEq, P: SearchProblem<S>>(
    problem: P,
    state: SearchState<S>,
    position: int,
) -> Seq<S> {
    new_successors(
        problem.successors(state.open[position].0),
        state.open.remove(position),
        state.closed.push(state.open[position].0),
    )
}

/// No step of the run schedules a state twice at once: the successors that a
/// step adds to the frontier differ from each other.
pub open spec fn schedules_distinct<S: Clone + PartialEq, P: SearchProblem<S>>(
    problem: P,
    start: S,
    picks: Seq<int>,
) -> bool
    decreases picks.len(),
{
    picks.len() > 0 ==> {
        let before = run(problem, start, picks.drop_last());
        &&& schedules_distinct(problem, start, picks.drop_last())
        &&& !problem.is_goal(before.open[picks.last()].0) ==> scheduled_by(
            problem,
            before,
            picks.last(),
        ).no_duplicates()
    }
}

/// No two frontier entries hold the same state.
pub open spec fn distinct_entries<S>(open: Seq<(S, int)>) -> bool {
    forall|i: int, j: int|
        0 <= i < j < open.len() ==> (#[trigger] open[i]).0 != (#[trigger] open[j]).0
}

/// No frontier entry holds a closed state.
pub open spec fn entries_not_closed<S>(open: Seq<(S, int)>, closed: Seq<S>) -> bool {
    forall|i: int| 0 <= i < open.len() ==> !closed.contains((#[trigger] open[i]).0)
}

/// No state occurs twice among the closed and the scheduled states, nor in the
/// tree.
pub open spec fn distinct<S>(state: SearchState<S>) -> bool {
    &&& state.closed.no_duplicates()
    &&& entries_not_closed(state.open, state.closed)
    &&& distinct_entries(state.open)
    &&& state.tree.nodes.no_duplicates()
}

/// Filtering keeps a list free of duplicates.
pub proof fn lemma_filter_distinct<S>(items: Seq<S>, keep: spec_fn(S) -> bool)
    requires
        items.no_duplicates(),
    ensures
        items.filter(keep).no_duplicates(),
    decreases items.len(),
{
    reveal(Seq::filter);
    if items.len() > 0 {
        let front = items.drop_last();
        lemma_filter_distinct(front, keep);
        if keep(items.last()) && front.filter(keep).contains(items.last()) {
            front.lemma_filter_contains_rev(keep, items.last());
            let w = choose|w: int| 0 <= w < front.len() && front[w] == items.last();
            assert(items[w] == items[items.len() - 1]);
        }
    }
}

/// Moving an entry from the frontier to the closed list keeps the states
/// apart.
proof fn lemma_close_distinct<S>(open: Seq<(S, int)>, closed: Seq<S>, position: int)
    requires
        closed.no_duplicates(),
        entries_not_closed(open, closed),
        distinct_entries(open),
        0 <= position < open.len(),
    ensures
        closed.push(open[position].0).no_duplicates(),
        entries_not_closed(open.remove(position), closed.push(open[position].0)),
        distinct_entries(open.remove(position)),
{
    let rest = open.remove(position);
    let current = open[position].0;
    let more = closed.push(current);
    assert(!closed.contains(open[position].0));
    assert forall|i: int| 0 <= i < rest.len() implies !more.contains((#[trigger] rest[i]).0) by {
        let k = if i < position {
            i
        } else {
            i + 1
        };
        assert(rest[i] == open[k]);
        assert(!closed.contains(open[k].0));
        assert(open[k].0 != open[position].0);
        if more.contains(rest[i].0) {
            let w = choose|w: int| 0 <= w < more.len() && more[w] == rest[i].0;
            if w < closed.len() {
                assert(closed[w] == rest[i].0);
            }
        }
    }
    assert forall|i: int, j: int| 0 <= i < j < rest.len() implies (#[trigger] rest[i]).0 != (
    #[trigger] rest[j]).0 by {
        let ki = if i < position {
            i
        } else {
            i + 1
        };
        let kj = if j < position {
            j
        } else {
            j + 1
        };
        assert(rest[i] == open[ki]);
        assert(rest[j] == open[kj]);
    }
}

/// Scheduling states that are new and differ from each other keeps the states
/// apart.
proof fn lemma_schedule_distinct<S>(open: Seq<(S, int)>, closed: Seq<S>, fresh: Seq<S>, first: int)
    requires
        entries_not_closed(open, closed),
        distinct_entries(open),
        fresh.no_duplicates(),
        forall|j: int|
            0 <= j < fresh.len() ==> !closed.contains(#[trigger] fresh[j]) && !scheduled(
                open,
                fresh[j],
            ),
    ensures
        entries_not_closed(open + entries_for(fresh, first), closed),
        distinct_entries(open + entries_for(fresh, first)),
{
    let all = open + entries_for(fresh, first);
    assert forall|i: int| 0 <= i < all.len() implies !closed.contains((#[trigger] all[i]).0) by {
        if i < open.len() {
            assert(all[i] == open[i]);
        } else {
            assert(all[i].0 == fresh[i - open.len()]);
        }
    }
    assert forall|i: int, j: int| 0 <= i < j < all.len() implies (#[trigger] all[i]).0 != (
    #[trigger] all[j]).0 by {
        if j < open.len() {
            assert(all[i] == open[i]);
            assert(all[j] == open[j]);
        } else if i < open.len() {
            assert(all[i] == open[i]);
            assert(all[j].0 == fresh[j - open.len()]);
            assert(!scheduled(open, fresh[j - open.len()]));
        } else {
            assert(all[i].0 == fresh[i - open.len()]);
            assert(all[j].0 == fresh[j - open.len()]);
        }
    }
}

/// A state of the tree differs from every state that is neither closed nor
/// scheduled after the step.
proof fn lemma_node_not_new<S: Clone + PartialEq, P: SearchProblem<S>>(
    problem: P,
    start: S,
    state: SearchState<S>,
    position: int,
    handle: int,
    s: S,
)
    requires
        consistent(problem, start, state),
        0 <= position < state.open.len(),
        0 <= handle < state.tree.nodes.len(),
        !state.closed.push(state.open[position].0).contains(s),
        !scheduled(state.open.remove(position), s),
    ensures
        state.tree.nodes[handle] != s,
{
    let node = state.tree.nodes[handle];
    let closed = state.closed.push(state.open[position].0);
    assert(seen(state, state.tree.nodes[handle]));
    if node == s {
        if state.closed.contains(node) {
            let w = choose|w: int| 0 <= w < state.closed.len() && state.closed[w] == node;
            assert(closed[w] == node);
        } else if node == state.open[position].0 {
            assert(closed[state.closed.len() as int] == node);
        } else {
            lemma_scheduled_after_remove(state.open, position, node);
        }
    }
}

/// A step of a running search schedules no state twice.
pub proof fn lemma_step_distinct<S: Clone + PartialEq, P: SearchProblem<S>>(
    problem: P,
    start: S,
    state: SearchState<S>,
    position: int,
)
    requires
        consistent(problem, start, state),
        distinct(state),
        state.running(),
        0 <= position < state.open.len(),
        !problem.is_goal(state.open[position].0) ==> scheduled_by(
            problem,
            state,
            position,
        ).no_duplicates(),
    ensures
        distinct(step(problem, state, position)),
{
    let next = step(problem, state, position);
    let current = state.open[position].0;
    let handle = state.open[position].1;
    let rest = state.open.remove(position);
    let closed = state.closed.push(current);
    lemma_close_distinct(state.open, state.closed, position);
    assert(next.closed == closed);
    if !problem.is_goal(current) {
        let candidates = problem.successors(current);
        let fresh = new_successors(candidates, rest, closed);
        let first = state.tree.nodes.len() as int;
        assert(fresh == scheduled_by(problem, state, position));
        lemma_new_successors(candidates, rest, closed);
        lemma_schedule_distinct(rest, closed, fresh, first);
        assert(next.open == rest + entries_for(fresh, first));
        assert forall|h: int, j: int|
            0 <= h < state.tree.nodes.len() && 0 <= j < fresh.len() implies state.tree.nodes[h]
            != fresh[j] by {
            lemma_node_not_new(problem, start, state, position, h, fresh[j]);
        }
        lemma_no_dup_in_concat(state.tree.nodes, fresh);
        assert(next.tree.nodes == state.tree.nodes + fresh);
    } else {
        assert(next.open == rest);
        assert(next.tree == state.tree);
    }
}

/// In every state that a valid run reaches, no state is scheduled twice.
pub proof fn lemma_run_distinct<S: Clone + PartialEq, P: SearchProblem<S>>(
    problem: P,
    start: S,
    strategy: SearchStrategy,
    picks: Seq<int>,
)
    requires
        valid_run(problem, start, strategy, picks),
        schedules_distinct(problem, start, picks),
    ensures
        distinct(run(problem, start, picks)),
    decreases picks.len(),
{
    if picks.len() > 0 {
        lemma_run_consistent(problem, start, strategy, picks.drop_last());
        lemma_run_distinct(problem, start, strategy, picks.drop_last());
        lemma_step_distinct(
            problem,
            start,
            run(problem, start, picks.drop_last()),
            picks.last(),
        );
    }
}

/// Where the problem lists no successor twice, no step of a run schedules a
/// state twice at once.
pub proof fn lemma_distinct_successors<S: Clone + PartialEq, P: SearchProblem<S>>(
    problem: P,
    start: S,
    strategy: SearchStrategy,
    picks: Seq<int>,
)
    requires
        distinct_successors(problem, start),
        valid_run(problem, start, strategy, picks),
    ensures
        schedules_distinct(problem, start, picks),
    decreases picks.len(),
{
    if picks.len() > 0 {
        let before = run(problem, start, picks.drop_last());
        let current = before.open[picks.last()].0;
        let handle = before.open[picks.last()].1;
        lemma_distinct_successors(problem, start, strategy, picks.drop_last());
        lemma_run_consistent(problem, start, strategy, picks.drop_last());
        lemma_trail(problem, start, before.tree, handle);
        assert(reachable(problem, start, current)) by {
            assert(is_path(problem, start, before.tree.trail(handle, start)));
        }
        lemma_filter_distinct(
            problem.successors(current),
            unseen(before.open.remove(picks.last()), before.closed.push(current)),
        );
    }
}

} // verus!
