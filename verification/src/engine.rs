//! The search engine: the loop that takes a state from the frontier, tests it,
//! expands it and grows the search tree, and the walk back from a goal node.

use crate::invariants::lemma_run_consistent;
use crate::laws::{lemma_breadth_first_shortest, lemma_no_solution, lemma_path_is_solution};
use crate::model::{
    complete_run, entries_for, new_successors, run, scheduled, search_result, step, unseen,
    valid_run, within_capacity, SearchState,
};
use crate::problem::{
    copy_state, plain_values, same_state, shortest, solves, unsolvable, SearchProblem,
};
use crate::strategy::{pick_allowed, random_below, SearchStrategy};
use crate::tree::{SearchTree, NODE_CAPACITY};
use std::collections::VecDeque;
use vstd::prelude::*;

verus! {

/// A search: where it starts, what problem it solves, and in which order it
/// explores.
pub struct SearchEngine<SearchNode, Problem> where
    SearchNode: Clone + PartialEq + std::fmt::Debug,
    Problem: SearchProblem<SearchNode>,
 {
    pub start_node: SearchNode,
    pub search_problem: Problem,
    pub search_strategy: SearchStrategy,
}

/// The frontier as the model sees it.
pub open spec fn frontier_view<S>(open: Seq<(S, usize)>) -> Seq<(S, int)> {
    Seq::new(open.len(), |i: int| (open[i].0, open[i].1 as int))
}

/// What a search reports, as a mathematical value.
pub open spec fn report_view<S>(result: Option<Vec<S>>) -> Option<Seq<S>> {
    match result {
        Some(path) => Some(path@),
        None => None,
    }
}

/// Whether `state` occurs in `list`.
pub fn contains_state<S: Clone + PartialEq>(list: &Vec<S>, state: &S) -> (found: bool)
    requires
        plain_values::<S>(),
    ensures
        found == list@.contains(*state),
{
    let mut i: usize = 0;
    while i < list.len()
        invariant
            plain_values::<S>(),
            i <= list.len(),
            forall|k: int| 0 <= k < i ==> list@[k] != *state,
        decreases list.len() - i,
    {
        if same_state(&list[i], state) {
            return true;
        }
        i += 1;
    }
    false
}

/// Whether some entry of the frontier holds `state`.
pub fn is_scheduled<S: Clone + PartialEq>(open: &VecDeque<(S, usize)>, state: &S) -> (found: bool)
    requires
        plain_values::<S>(),
    ensures
        found == scheduled(frontier_view(open@), *state),
{
    let mut i: usize = 0;
    while i < open.len()
        invariant
            plain_values::<S>(),
            i <= open@.len(),
            forall|k: int| 0 <= k < i ==> (#[trigger] frontier_view(open@)[k]).0 != *state,
        decreases open@.len() - i,
    {
        if same_state(&open[i].0, state) {
            assert(frontier_view(open@)[i as int].0 == *state);
            return true;
        }
        i += 1;
    }
    false
}

/// Removes the entry at `position` from the frontier; the entries behind it
/// move up.
pub fn take_entry<S>(open: &mut VecDeque<(S, usize)>, position: usize) -> (entry: (S, usize))
    requires
        position < old(open)@.len(),
    ensures
        entry == old(open)@[position as int],
        final(open)@ == old(open)@.remove(position as int),
{
    open.remove(position).unwrap()
}

/// The items in the opposite order.
pub fn reversed<S>(items: Vec<S>) -> (result: Vec<S>)
    ensures
        result@ == items@.reverse(),
{
    let mut rest = items;
    let mut result: Vec<S> = Vec::new();
    while rest.len() > 0
        invariant
            rest@.len() + result@.len() == items@.len(),
            rest@ == items@.take(rest@.len() as int),
            forall|i: int| 0 <= i < result@.len() ==> result@[i] == items@[items@.len() - 1 - i],
        decreases rest@.len(),
    {
        let last = rest.pop().unwrap();
        result.push(last);
    }
    result
}

impl<SearchNode, Problem> SearchEngine<SearchNode, Problem> where
    SearchNode: Clone + PartialEq + std::fmt::Debug,
    Problem: SearchProblem<SearchNode>,
 {
    /// No run of this search needs more nodes than a search tree can hold.
    pub open spec fn fits(&self) -> bool {
        within_capacity(
            self.search_problem,
            self.start_node,
            self.search_strategy,
            NODE_CAPACITY as nat,
        )
    }

    /// Explores the states that can be reached from the start state until a
    /// goal state leaves the frontier, and returns the states that lead from
    /// the start state, which is left out, to that goal; or returns `None`
    /// when the frontier is exhausted.
    ///
    /// The result is that of a complete run of the search. A path is
    /// returned exactly when a goal state can be reached; it is a solution,
    /// and a shortest one when the search is breadth first.
    pub fn run_search(&self) -> (result: Option<Vec<SearchNode>>)
        requires
            plain_values::<SearchNode>(),
            self.fits(),
        ensures
            search_result(
                self.search_problem,
                self.start_node,
                self.search_strategy,
                report_view(result),
            ),
            match result {
                Some(path) => {
                    &&& solves(self.search_problem, self.start_node, path@)
                    &&& self.search_strategy == SearchStrategy::BFS ==> shortest(
                        self.search_problem,
                        self.start_node,
                        path@,
                    )
                },
                None => unsolvable(self.search_problem, self.start_node),
            },
    {
        let mut open: VecDeque<(SearchNode, usize)> = VecDeque::new();
        let mut closed: Vec<SearchNode> = Vec::new();
        let mut search_tree = SearchTree::new(copy_state(&self.start_node));
        open.push_back((copy_state(&self.start_node), 0));
        let ghost mut picks: Seq<int> = Seq::empty();
        proof {
            assert(frontier_view(open@) =~= SearchState::initial(self.start_node).open);
            assert(closed@ =~= SearchState::initial(self.start_node).closed);
        }

        while open.len() > 0
            invariant
                plain_values::<SearchNode>(),
                self.fits(),
                search_tree.wf(),
                valid_run(self.search_problem, self.start_node, self.search_strategy, picks),
                run(self.search_problem, self.start_node, picks) == (SearchState {
                    open: frontier_view(open@),
                    closed: closed@,
                    tree: search_tree@,
                    goal: None,
                }),
            decreases NODE_CAPACITY - search_tree@.nodes.len() + open@.len(),
        {
            let ghost before = run(self.search_problem, self.start_node, picks);
            let ghost old_open = open@;
            proof {
                lemma_run_consistent(
                    self.search_problem,
                    self.start_node,
                    self.search_strategy,
                    picks,
                );
                search_tree.lemma_shape();
            }
            let (current_node, current_node_index) = self.search(&mut open);
            let ghost position = choose|position: int|
                pick_allowed(self.search_strategy, old_open.len(), position) && (
                current_node,
                current_node_index,
            ) == old_open[position] && open@ == old_open.remove(position);
            let ghost next_picks = picks.push(position);
            let ghost after = step(self.search_problem, before, position);
            proof {
                assert(next_picks.drop_last() =~= picks);
                assert(valid_run(
                    self.search_problem,
                    self.start_node,
                    self.search_strategy,
                    next_picks,
                ));
                assert(run(self.search_problem, self.start_node, next_picks) == after);
                assert(before.open[position] == (current_node, current_node_index as int));
                assert(frontier_view(open@) =~= before.open.remove(position));
            }

            closed.push(copy_state(&current_node));

            if self.search_problem.goal_state(&current_node) {
                proof {
                    picks = next_picks;
                    assert(after.goal == Some(current_node_index as int));
                    assert(after.tree == search_tree@);
                    lemma_run_consistent(
                        self.search_problem,
                        self.start_node,
                        self.search_strategy,
                        picks,
                    );
                }
                let path = self.backtrack(current_node_index, search_tree);
                proof {
                    assert(complete_run(
                        self.search_problem,
                        self.start_node,
                        self.search_strategy,
                        picks,
                    ));
                    assert(run(self.search_problem, self.start_node, picks).outcome(
                        self.start_node,
                    ) == Some(path@));
                    lemma_path_is_solution(
                        self.search_problem,
                        self.start_node,
                        self.search_strategy,
                        path@,
                    );
                    if self.search_strategy == SearchStrategy::BFS {
                        lemma_breadth_first_shortest(
                            self.search_problem,
                            self.start_node,
                            path@,
                        );
                    }
                }
                return Some(path);
            }
            let new_successors = self.find_new_successors(&current_node, &open, &closed);
            let ghost rest = frontier_view(open@);
            let ghost first = search_tree@.nodes.len() as int;
            let ghost parent_tree = search_tree@;
            let ghost grown = open@.len() as int;

            let mut j: usize = 0;
            while j < new_successors.len()
                invariant
                    plain_values::<SearchNode>(),
                    search_tree.wf(),
                    j <= new_successors@.len(),
                    first + new_successors@.len() <= NODE_CAPACITY,
                    0 <= current_node_index < first,
                    first == parent_tree.nodes.len(),
                    search_tree@ == parent_tree.grow(
                        current_node_index as int,
                        new_successors@.take(j as int),
                    ),
                    frontier_view(open@) == rest + entries_for(
                        new_successors@.take(j as int),
                        first,
                    ),
                    open@.len() == grown + j,
                decreases new_successors@.len() - j,
            {
                let ghost tree_before = search_tree@;
                let ghost open_before = frontier_view(open@);
                let successor_index = search_tree.add_child(
                    current_node_index,
                    copy_state(&new_successors[j]),
                );
                open.push_back((copy_state(&new_successors[j]), successor_index));
                proof {
                    let taken = new_successors@.take(j as int);
                    let more = new_successors@.take(j + 1);
                    assert(more =~= taken.push(new_successors@[j as int]));
                    assert(search_tree@ =~= parent_tree.grow(current_node_index as int, more));
                    assert(tree_before.nodes.len() == first + j);
                    assert(successor_index == first + j);
                    assert(frontier_view(open@) =~= open_before.push(
                        (new_successors@[j as int], first + j),
                    ));
                    assert(entries_for(more, first) =~= entries_for(taken, first).push(
                        (new_successors@[j as int], first + j),
                    ));
                    assert(frontier_view(open@) =~= rest + entries_for(more, first));
                }
                j += 1;
            }
            proof {
                assert(new_successors@.take(new_successors@.len() as int) =~= new_successors@);
                picks = next_picks;
            }
        }
        proof {
            assert(complete_run(
                self.search_problem,
                self.start_node,
                self.search_strategy,
                picks,
            ));
            lemma_no_solution(
                self.search_problem,
                self.start_node,
                self.search_strategy,
                None,
            );
        }
        None
    }

    /// Removes from the frontier the entry that the strategy chooses.
    pub fn search(&self, open: &mut VecDeque<(SearchNode, usize)>) -> (entry: (SearchNode, usize))
        requires
            old(open)@.len() > 0,
        ensures
            exists|position: int|
                pick_allowed(self.search_strategy, old(open)@.len(), position) && entry == old(
                    open,
                )@[position] && final(open)@ == old(open)@.remove(position),
    {
        match self.search_strategy {
            SearchStrategy::DFS => {
                let entry = open.pop_back().unwrap();
                assert(open@ =~= old(open)@.remove(old(open)@.len() - 1));
                entry
            },
            SearchStrategy::BFS => {
                let entry = open.pop_front().unwrap();
                assert(open@ =~= old(open)@.remove(0));
                entry
            },
            SearchStrategy::Random => {
                let position = random_below(open.len());
                take_entry(open, position)
            },
        }
    }

    /// The successors of `current_node` that are neither closed nor
    /// scheduled, in the order in which the problem lists them.
    pub fn find_new_successors(
        &self,
        current_node: &SearchNode,
        open: &VecDeque<(SearchNode, usize)>,
        closed: &Vec<SearchNode>,
    ) -> (fresh: Vec<SearchNode>)
        requires
            plain_values::<SearchNode>(),
        ensures
            fresh@ == new_successors(
                self.search_problem.successors(*current_node),
                frontier_view(open@),
                closed@,
            ),
    {
        let candidates = self.search_problem.expand(current_node);
        let mut fresh: Vec<SearchNode> = Vec::new();
        let ghost keep = unseen(frontier_view(open@), closed@);
        let mut i: usize = 0;
        proof {
            assert(candidates@.take(0) =~= Seq::<SearchNode>::empty());
            reveal(Seq::filter);
        }
        while i < candidates.len()
            invariant
                plain_values::<SearchNode>(),
                i <= candidates@.len(),
                keep == unseen(frontier_view(open@), closed@),
                fresh@ == candidates@.take(i as int).filter(keep),
            decreases candidates@.len() - i,
        {
            let candidate = &candidates[i];
            proof {
                assert(candidates@.take(i + 1) =~= candidates@.take(i as int).push(*candidate));
                candidates@.take(i as int).lemma_filter_push(*candidate, keep);
            }
            if !contains_state(closed, candidate) && !is_scheduled(open, candidate) {
                fresh.push(copy_state(candidate));
            }
            i += 1;
        }
        proof {
            assert(candidates@.take(candidates@.len() as int) =~= candidates@);
        }
        fresh
    }

    /// The states on the way from the start state, which is left out, to the
    /// node `solution_node_index`. The walk goes from the node towards the
    /// root and ends at the first node whose state equals the start state.
    pub fn backtrack(
        &self,
        solution_node_index: usize,
        search_tree: SearchTree<SearchNode>,
    ) -> (path: Vec<SearchNode>)
        requires
            plain_values::<SearchNode>(),
            search_tree.wf(),
            solution_node_index < search_tree@.nodes.len(),
            search_tree@.nodes[0] == self.start_node,
        ensures
            path@ == search_tree@.trail(solution_node_index as int, self.start_node),
    {
        let mut solution_path: Vec<SearchNode> = Vec::new();
        let mut current_node_index = solution_node_index;
        proof {
            search_tree.lemma_shape();
        }
        while !same_state(search_tree.state(current_node_index), &self.start_node)
            invariant
                plain_values::<SearchNode>(),
                search_tree.wf(),
                search_tree@.well_formed(),
                current_node_index < search_tree@.nodes.len(),
                search_tree@.nodes[0] == self.start_node,
                search_tree@.trail(solution_node_index as int, self.start_node)
                    == search_tree@.trail(current_node_index as int, self.start_node)
                    + solution_path@.reverse(),
            decreases current_node_index,
        {
            let ghost collected = solution_path@;
            let ghost here = current_node_index as int;
            solution_path.push(copy_state(search_tree.state(current_node_index)));
            current_node_index = search_tree.parent(current_node_index);
            proof {
                let tree = search_tree@;
                assert(solution_path@.reverse() =~= seq![tree.nodes[here]] + collected.reverse());
                assert(tree.trail(here, self.start_node) == tree.trail(
                    tree.parents[here],
                    self.start_node,
                ).push(tree.nodes[here]));
                assert(tree.trail(here, self.start_node) + collected.reverse() =~= tree.trail(
                    current_node_index as int,
                    self.start_node,
                ) + solution_path@.reverse());
            }
        }
        proof {
            assert(search_tree@.trail(current_node_index as int, self.start_node)
                =~= Seq::<SearchNode>::empty());
        }
        reversed(solution_path)
    }
}

} // verus!
