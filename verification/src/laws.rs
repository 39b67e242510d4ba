//! What holds of every search, stated over the results that `run_search`
//! promises.

use crate::distinct::{
    distinct_successors, lemma_distinct_successors, lemma_run_distinct, schedules_distinct,
};
use crate::invariants::{
    consistent, lemma_path_prefix, lemma_run_consistent, lemma_trail, seen, sound_tree,
};
use crate::layers::lemma_run_breadth_first;
use crate::model::{complete_run, run, search_result, valid_run, within_capacity, SearchState};
use crate::problem::{
    is_path, path_end, reachable, shortest, solves, unsolvable, SearchProblem,
};
use crate::strategy::SearchStrategy;
use crate::tree::TreeShape;
use vstd::prelude::*;
use vstd::set_lib::lemma_len_subset;

verus! {

/// Every prefix of a valid run is a valid run.
pub proof fn lemma_valid_prefix<S: Clone + PartialEq, P: SearchProblem<S>>(
    problem: P,
    start: S,
    strategy: SearchStrategy,
    picks: Seq<int>,
    len: int,
)
    requires
        valid_run(problem, start, strategy, picks),
        0 <= len <= picks.len(),
    ensures
        valid_run(problem, start, strategy, picks.take(len)),
    decreases picks.len(),
{
    if len == picks.len() {
        assert(picks.take(len) =~= picks);
    } else {
        lemma_valid_prefix(problem, start, strategy, picks.drop_last(), len);
        assert(picks.drop_last().take(len) =~= picks.take(len));
    }
}

/// Breadth-first and depth-first search have no choice: of two valid runs, the
/// shorter is the beginning of the longer.
pub proof fn lemma_one_run<S: Clone + PartialEq, P: SearchProblem<S>>(
    problem: P,
    start: S,
    strategy: SearchStrategy,
    shorter: Seq<int>,
    longer: Seq<int>,
)
    requires
        strategy != SearchStrategy::Random,
        valid_run(problem, start, strategy, shorter),
        valid_run(problem, start, strategy, longer),
        shorter.len() <= longer.len(),
    ensures
        shorter == longer.take(shorter.len() as int),
    decreases shorter.len(),
{
    if shorter.len() > 0 {
        let len = shorter.len() as int;
        lemma_one_run(problem, start, strategy, shorter.drop_last(), longer);
        lemma_valid_prefix(problem, start, strategy, longer, len);
        assert(longer.take(len).drop_last() =~= longer.take(len - 1));
        assert(longer.take(len).last() == longer[len - 1]);
        assert(shorter =~= shorter.drop_last().push(shorter.last()));
        assert(longer.take(len) =~= longer.take(len - 1).push(longer[len - 1]));
    } else {
        assert(shorter =~= longer.take(0));
    }
}

/// Of two complete runs of a breadth-first or depth-first search, neither is
/// longer than the other.
proof fn lemma_complete_not_longer<S: Clone + PartialEq, P: SearchProblem<S>>(
    problem: P,
    start: S,
    strategy: SearchStrategy,
    shorter: Seq<int>,
    longer: Seq<int>,
)
    requires
        strategy != SearchStrategy::Random,
        complete_run(problem, start, strategy, shorter),
        valid_run(problem, start, strategy, longer),
        shorter.len() <= longer.len(),
    ensures
        shorter == longer,
{
    let len = shorter.len() as int;
    lemma_one_run(problem, start, strategy, shorter, longer);
    if len < longer.len() {
        lemma_valid_prefix(problem, start, strategy, longer, len + 1);
        assert(longer.take(len + 1).drop_last() =~= longer.take(len));
    } else {
        assert(longer.take(len) =~= longer);
    }
}

/// Determinism: a breadth-first or a depth-first search from a given start
/// state has one result. Whatever two invocations report is the same.
pub proof fn lemma_deterministic<S: Clone + PartialEq, P: SearchProblem<S>>(
    problem: P,
    start: S,
    strategy: SearchStrategy,
    first: Option<Seq<S>>,
    second: Option<Seq<S>>,
)
    requires
        strategy != SearchStrategy::Random,
        search_result(problem, start, strategy, first),
        search_result(problem, start, strategy, second),
    ensures
        first == second,
{
    let a = choose|picks: Seq<int>|
        #![trigger run(problem, start, picks)]
        complete_run(problem, start, strategy, picks) && run(problem, start, picks).outcome(start)
            == first;
    let b = choose|picks: Seq<int>|
        #![trigger run(problem, start, picks)]
        complete_run(problem, start, strategy, picks) && run(problem, start, picks).outcome(start)
            == second;
    if a.len() <= b.len() {
        lemma_complete_not_longer(problem, start, strategy, a, b);
    } else {
        lemma_complete_not_longer(problem, start, strategy, b, a);
    }
}

/// A reported path is a solution, and the start state is not on it: the path
/// follows transitions of the problem from the start state to a goal state,
/// and holds only states after the start.
pub proof fn lemma_path_is_solution<S: Clone + PartialEq, P: SearchProblem<S>>(
    problem: P,
    start: S,
    strategy: SearchStrategy,
    path: Seq<S>,
)
    requires
        search_result(problem, start, strategy, Some(path)),
    ensures
        solves(problem, start, path),
{
    let picks = choose|picks: Seq<int>|
        #![trigger run(problem, start, picks)]
        complete_run(problem, start, strategy, picks) && run(problem, start, picks).outcome(start)
            == Some(path);
    let last = run(problem, start, picks);
    lemma_run_consistent(problem, start, strategy, picks);
    lemma_trail(problem, start, last.tree, last.goal->Some_0);
}

/// In a state with an empty frontier and no goal, every state at the end of a
/// path from the start state is closed.
proof fn lemma_closed_covers<S: Clone + PartialEq, P: SearchProblem<S>>(
    problem: P,
    start: S,
    state: SearchState<S>,
    path: Seq<S>,
)
    requires
        consistent(problem, start, state),
        state.goal is None,
        state.open.len() == 0,
        is_path(problem, start, path),
    ensures
        state.closed.contains(path_end(start, path)),
    decreases path.len(),
{
    if path.len() == 0 {
        assert(state.closed[0] == start);
    } else {
        let before = path.drop_last();
        lemma_path_prefix(problem, start, path);
        lemma_closed_covers(problem, start, state, before);
        let from = path_end(start, before);
        let i = choose|i: int| 0 <= i < state.closed.len() && state.closed[i] == from;
        let j = choose|j: int|
            0 <= j < problem.successors(from).len() && problem.successors(from)[j] == path.last();
        assert(seen(state, problem.successors(state.closed[i])[j]));
    }
}

/// Exhaustion: when a run ends without a goal, the closed states are exactly
/// the states that can be reached from the start state, and none of them is a
/// goal. Where no step scheduled a state twice at once, each was closed once.
pub proof fn lemma_exhausted<S: Clone + PartialEq, P: SearchProblem<S>>(
    problem: P,
    start: S,
    strategy: SearchStrategy,
    picks: Seq<int>,
)
    requires
        complete_run(problem, start, strategy, picks),
        run(problem, start, picks).goal is None,
    ensures
        forall|s: S|
            run(problem, start, picks).closed.contains(s) <==> #[trigger] reachable(
                problem,
                start,
                s,
            ),
        unsolvable(problem, start),
        schedules_distinct(problem, start, picks) ==> run(
            problem,
            start,
            picks,
        ).closed.no_duplicates(),
{
    let last = run(problem, start, picks);
    lemma_run_consistent(problem, start, strategy, picks);
    if schedules_distinct(problem, start, picks) {
        lemma_run_distinct(problem, start, strategy, picks);
    }
    assert forall|s: S| last.closed.contains(s) <==> #[trigger] reachable(
        problem,
        start,
        s,
    ) by {
        if last.closed.contains(s) {
            let i = choose|i: int| 0 <= i < last.closed.len() && last.closed[i] == s;
            assert(last.tree.nodes.contains(last.closed[i]));
            let h = choose|h: int| 0 <= h < last.tree.nodes.len() && last.tree.nodes[h] == s;
            lemma_trail(problem, start, last.tree, h);
            assert(is_path(problem, start, last.tree.trail(h, start)));
        }
        if reachable(problem, start, s) {
            let path = choose|path: Seq<S>| #[trigger]
                is_path(problem, start, path) && path_end(start, path) == s;
            lemma_closed_covers(problem, start, last, path);
        }
    }
    assert forall|s: S| #[trigger] reachable(problem, start, s) implies !problem.is_goal(s) by {
        assert(last.closed.contains(s));
        let i = choose|i: int| 0 <= i < last.closed.len() && last.closed[i] == s;
        assert(!problem.is_goal(last.closed[i]));
    }
}

/// A search reports that there is no solution only when no goal state can be
/// reached from the start state, and whenever none can be reached.
pub proof fn lemma_no_solution<S: Clone + PartialEq, P: SearchProblem<S>>(
    problem: P,
    start: S,
    strategy: SearchStrategy,
    result: Option<Seq<S>>,
)
    requires
        search_result(problem, start, strategy, result),
    ensures
        result is None <==> unsolvable(problem, start),
{
    match result {
        Some(path) => {
            lemma_path_is_solution(problem, start, strategy, path);
            assert(reachable(problem, start, path_end(start, path)));
        },
        None => {
            let picks = choose|picks: Seq<int>|
                #![trigger run(problem, start, picks)]
                complete_run(problem, start, strategy, picks) && run(
                    problem,
                    start,
                    picks,
                ).outcome(start) == result;
            lemma_exhausted(problem, start, strategy, picks);
        },
    }
}

/// Shortest path: what a breadth-first search reports is a path to a goal
/// state with the fewest transitions. No path from the start state to any
/// goal state is shorter.
pub proof fn lemma_breadth_first_shortest<S: Clone + PartialEq, P: SearchProblem<S>>(
    problem: P,
    start: S,
    path: Seq<S>,
)
    requires
        search_result(problem, start, SearchStrategy::BFS, Some(path)),
    ensures
        solves(problem, start, path),
        shortest(problem, start, path),
{
    let picks = choose|picks: Seq<int>|
        #![trigger run(problem, start, picks)]
        complete_run(problem, start, SearchStrategy::BFS, picks) && run(
            problem,
            start,
            picks,
        ).outcome(start) == Some(path);
    let last = run(problem, start, picks);
    lemma_run_consistent(problem, start, SearchStrategy::BFS, picks);
    lemma_run_breadth_first(problem, start, picks);
    lemma_trail(problem, start, last.tree, last.goal->Some_0);
}

/// No duplicate expansion: the states that a search takes from its frontier,
/// which are the states it expands and at last the goal, are all different,
/// provided that no step schedules a state twice at once.
pub proof fn lemma_no_duplicate_expansion<S: Clone + PartialEq, P: SearchProblem<S>>(
    problem: P,
    start: S,
    strategy: SearchStrategy,
    picks: Seq<int>,
)
    requires
        valid_run(problem, start, strategy, picks),
        schedules_distinct(problem, start, picks),
    ensures
        run(problem, start, picks).closed.no_duplicates(),
{
    lemma_run_distinct(problem, start, strategy, picks);
}

/// No step schedules a state twice at once where the problem lists no state
/// twice among the successors of a state: then no search expands a state
/// twice.
pub proof fn lemma_distinct_successors_expand_once<S: Clone + PartialEq, P: SearchProblem<S>>(
    problem: P,
    start: S,
    strategy: SearchStrategy,
    picks: Seq<int>,
)
    requires
        valid_run(problem, start, strategy, picks),
        distinct_successors(problem, start),
    ensures
        schedules_distinct(problem, start, picks),
        run(problem, start, picks).closed.no_duplicates(),
{
    lemma_distinct_successors(problem, start, strategy, picks);
    lemma_run_distinct(problem, start, strategy, picks);
}

/// Every node of a sound tree holds a state of any set that holds the start
/// state and the successors of each of its states.
proof fn lemma_nodes_within<S: Clone + PartialEq, P: SearchProblem<S>>(
    problem: P,
    start: S,
    tree: TreeShape<S>,
    universe: Set<S>,
    handle: int,
)
    requires
        sound_tree(problem, start, tree),
        0 <= handle < tree.nodes.len(),
        universe.contains(start),
        forall|s: S, j: int|
            universe.contains(s) && 0 <= j < problem.successors(s).len() ==> universe.contains(
                #[trigger] problem.successors(s)[j],
            ),
    ensures
        universe.contains(tree.nodes[handle]),
    decreases handle,
{
    if handle > 0 {
        let parent = tree.parents[handle];
        lemma_nodes_within(problem, start, tree, universe, parent);
        assert(problem.successors(tree.nodes[parent]).contains(tree.nodes[handle]));
        let j = choose|j: int|
            0 <= j < problem.successors(tree.nodes[parent]).len() && problem.successors(
                tree.nodes[parent],
            )[j] == tree.nodes[handle];
        assert(universe.contains(problem.successors(tree.nodes[parent])[j]));
    }
}

/// A search over a finite state space needs no more nodes than the space has
/// states: where a finite set holds the start state and the successors of
/// each of its states, and the problem lists no successor twice, no run grows
/// the tree beyond the size of that set.
pub proof fn lemma_finite_space_fits<S: Clone + PartialEq, P: SearchProblem<S>>(
    problem: P,
    start: S,
    strategy: SearchStrategy,
    universe: Set<S>,
    capacity: nat,
)
    requires
        distinct_successors(problem, start),
        universe.finite(),
        universe.len() <= capacity,
        universe.contains(start),
        forall|s: S, j: int|
            universe.contains(s) && 0 <= j < problem.successors(s).len() ==> universe.contains(
                #[trigger] problem.successors(s)[j],
            ),
    ensures
        within_capacity(problem, start, strategy, capacity),
{
    assert forall|picks: Seq<int>|
        valid_run(problem, start, strategy, picks) implies (#[trigger] run(
        problem,
        start,
        picks,
    )).tree.nodes.len() <= capacity by {
        let nodes = run(problem, start, picks).tree.nodes;
        lemma_run_consistent(problem, start, strategy, picks);
        lemma_distinct_successors(problem, start, strategy, picks);
        lemma_run_distinct(problem, start, strategy, picks);
        assert forall|s: S| nodes.to_set().contains(s) implies universe.contains(s) by {
            let h = choose|h: int| 0 <= h < nodes.len() && nodes[h] == s;
            lemma_nodes_within(problem, start, run(problem, start, picks).tree, universe, h);
        }
        nodes.unique_seq_to_set();
        lemma_len_subset(nodes.to_set(), universe);
    }
}

/// A search whose start state is a goal reports the empty path, whatever its
/// strategy.
pub proof fn lemma_goal_at_start<S: Clone + PartialEq, P: SearchProblem<S>>(
    problem: P,
    start: S,
    strategy: SearchStrategy,
    result: Option<Seq<S>>,
)
    requires
        problem.is_goal(start),
        search_result(problem, start, strategy, result),
    ensures
        result == Some(Seq::<S>::empty()),
{
    let picks = choose|picks: Seq<int>|
        #![trigger run(problem, start, picks)]
        complete_run(problem, start, strategy, picks) && run(problem, start, picks).outcome(start)
            == result;
    let first = SearchState::initial(start);
    assert(first.open[0] == (start, 0int));
    lemma_valid_prefix(problem, start, strategy, picks, 1);
    assert(picks.take(1).drop_last() =~= Seq::<int>::empty());
    assert(picks.take(1).last() == 0);
    let second = run(problem, start, picks.take(1));
    assert(second.goal == Some(0int));
    if picks.len() > 1 {
        lemma_valid_prefix(problem, start, strategy, picks, 2);
        assert(picks.take(2).drop_last() =~= picks.take(1));
    }
    assert(picks =~= picks.take(1));
    assert(second.tree.trail(0, start) =~= Seq::<S>::empty());
}

/// A run takes one step for each state it closes, and every node of the tree
/// is closed or scheduled by its own entry: a run has no more steps than the
/// tree has nodes.
pub proof fn lemma_steps_bounded<S: Clone + PartialEq, P: SearchProblem<S>>(
    problem: P,
    start: S,
    strategy: SearchStrategy,
    picks: Seq<int>,
)
    requires
        valid_run(problem, start, strategy, picks),
    ensures
        run(problem, start, picks).closed.len() == picks.len(),
        run(problem, start, picks).tree.nodes.len() == picks.len() + run(
            problem,
            start,
            picks,
        ).open.len(),
    decreases picks.len(),
{
    if picks.len() > 0 {
        lemma_steps_bounded(problem, start, strategy, picks.drop_last());
    }
}

} // verus!
