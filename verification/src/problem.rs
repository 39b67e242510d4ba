//! What a client supplies: the successor relation and the goal test, and what
//! the engine's contracts say about paths through the state graph.

use vstd::prelude::*;
use vstd::std_specs::cmp::PartialEqSpec;

verus! {

/// A search problem over states of type `SearchNode`.
///
/// The two spec functions are the mathematical content of the problem; the two
/// executable methods compute them. Because `expand` and `goal_state` are tied
/// to spec functions, they are functions of the problem and the state alone.
pub trait SearchProblem<SearchNode: Clone + PartialEq> {
    /// The states reachable from `node` in one transition, in the order in
    /// which `expand` lists them. An implementation states what they are.
    open spec fn successors(&self, node: SearchNode) -> Seq<SearchNode> {
        arbitrary()
    }

    /// Whether `node` satisfies the termination condition. An implementation
    /// states when it does.
    open spec fn is_goal(&self, node: SearchNode) -> bool {
        arbitrary()
    }

    fn expand(&self, node: &SearchNode) -> (successors: Vec<SearchNode>)
        ensures
            successors@ == self.successors(*node),
    ;

    fn goal_state(&self, node: &SearchNode) -> (goal: bool)
        ensures
            goal == self.is_goal(*node),
    ;
}

/// States are compared by value: `==` on `S` in executable code decides
/// equality of the values.
pub open spec fn value_equality<S: PartialEq>() -> bool {
    &&& S::obeys_eq_spec()
    &&& forall|a: S, b: S| #[trigger] a.eq_spec(&b) <==> a == b
}

/// A clone of a state is an independent copy with the same value.
pub open spec fn faithful_clone<S: Clone>() -> bool {
    forall|a: S, b: S| #[trigger] call_ensures(S::clone, (&a,), b) ==> a == b
}

/// The state type behaves as a plain value under `==` and `clone`.
pub open spec fn plain_values<S: Clone + PartialEq>() -> bool {
    value_equality::<S>() && faithful_clone::<S>()
}

/// `path` lists the states visited after `start`, each one a successor of the
/// state before it.
pub open spec fn is_path<S: Clone + PartialEq, P: SearchProblem<S>>(
    problem: P,
    start: S,
    path: Seq<S>,
) -> bool {
    forall|i: int|
        0 <= i < path.len() ==> problem.successors(
            if i == 0 {
                start
            } else {
                path[i - 1]
            },
        ).contains(#[trigger] path[i])
}

/// The state at which a path from `start` ends; the empty path ends at `start`.
pub open spec fn path_end<S>(start: S, path: Seq<S>) -> S {
    if path.len() == 0 {
        start
    } else {
        path.last()
    }
}

/// `state` can be reached from `start` by zero or more transitions.
pub open spec fn reachable<S: Clone + PartialEq, P: SearchProblem<S>>(
    problem: P,
    start: S,
    state: S,
) -> bool {
    exists|path: Seq<S>| #[trigger] is_path(problem, start, path) && path_end(start, path) == state
}

/// `path` leads from `start` to a goal state.
pub open spec fn reaches_goal<S: Clone + PartialEq, P: SearchProblem<S>>(
    problem: P,
    start: S,
    path: Seq<S>,
) -> bool {
    is_path(problem, start, path) && problem.is_goal(path_end(start, path))
}

/// `path` is a solution: it leads from `start` to a goal state and holds only
/// states after the start, never the start state itself.
pub open spec fn solves<S: Clone + PartialEq, P: SearchProblem<S>>(
    problem: P,
    start: S,
    path: Seq<S>,
) -> bool {
    reaches_goal(problem, start, path) && !path.contains(start)
}

/// No path from `start` to a goal state has fewer transitions than `path`.
pub open spec fn shortest<S: Clone + PartialEq, P: SearchProblem<S>>(
    problem: P,
    start: S,
    path: Seq<S>,
) -> bool {
    forall|other: Seq<S>| #[trigger]
        reaches_goal(problem, start, other) ==> path.len() <= other.len()
}

/// No goal state can be reached from `start`.
pub open spec fn unsolvable<S: Clone + PartialEq, P: SearchProblem<S>>(
    problem: P,
    start: S,
) -> bool {
    forall|s: S| #[trigger] reachable(problem, start, s) ==> !problem.is_goal(s)
}

/// Equality on states, decided by `==`.
pub fn same_state<S: Clone + PartialEq>(a: &S, b: &S) -> (same: bool)
    requires
        value_equality::<S>(),
    ensures
        same == (*a == *b),
{
    a == b
}

/// An independent copy of a state.
pub fn copy_state<S: Clone + PartialEq>(state: &S) -> (copy: S)
    requires
        faithful_clone::<S>(),
    ensures
        copy == *state,
{
    state.clone()
}

} // verus!
