//! The water-jug puzzle: two jugs of known capacity, and a target amount to
//! measure in either of them.

use crate::distinct::distinct_successors;
use crate::laws::lemma_finite_space_fits;
use crate::model::within_capacity;
use crate::problem::{plain_values, SearchProblem};
use crate::strategy::SearchStrategy;
use crate::tree::NODE_CAPACITY;
use vstd::arithmetic::div_mod::lemma_fundamental_div_mod_converse;
use vstd::prelude::*;
use vstd::set_lib::{lemma_int_range, lemma_len_subset, lemma_map_size_bound, set_int_range};
use vstd::std_specs::cmp::PartialEqSpecImpl;

verus! {

/// The capacities of the two jugs and the amount to measure.
pub struct JugsProblem {
    pub j1_max: u32,
    pub j2_max: u32,
    pub target: u32,
}

/// How much water each jug holds.
#[derive(Debug)]
pub struct JugsNode {
    pub j1: u32,
    pub j2: u32,
}

impl Clone for JugsNode {
    fn clone(&self) -> (copy: Self)
        ensures
            copy == *self,
    {
        JugsNode { j1: self.j1, j2: self.j2 }
    }
}

impl PartialEq for JugsNode {
    fn eq(&self, other: &Self) -> (equal: bool) {
        self.j1 == other.j1 && self.j2 == other.j2
    }
}

impl PartialEqSpecImpl for JugsNode {
    open spec fn obeys_eq_spec() -> bool {
        true
    }

    open spec fn eq_spec(&self, other: &Self) -> bool {
        self.j1 == other.j1 && self.j2 == other.j2
    }
}

/// Jug states are plain values.
pub proof fn lemma_jugs_plain_values()
    ensures
        plain_values::<JugsNode>(),
{
}

/// The amount that moves when a jug holding `from` is poured into a jug that
/// holds `into` and has room for `into_max`: all of it, or what fits.
pub open spec fn poured(from: u32, into: u32, into_max: u32) -> int {
    if from <= into_max - into {
        from as int
    } else {
        into_max - into
    }
}

/// The state `node` if `possible`, as a list of at most one state.
pub open spec fn move_if(possible: bool, node: JugsNode) -> Seq<JugsNode> {
    if possible {
        seq![node]
    } else {
        Seq::empty()
    }
}

impl JugsProblem {
    /// Emptying the first jug, when it holds water.
    pub open spec fn empty_first(&self, node: JugsNode) -> Seq<JugsNode> {
        move_if(node.j1 > 0, JugsNode { j1: 0, j2: node.j2 })
    }

    /// Emptying the second jug, when it holds water.
    pub open spec fn empty_second(&self, node: JugsNode) -> Seq<JugsNode> {
        move_if(node.j2 > 0, JugsNode { j1: node.j1, j2: 0 })
    }

    /// Filling the first jug, when it is not full.
    pub open spec fn fill_first(&self, node: JugsNode) -> Seq<JugsNode> {
        move_if(node.j1 < self.j1_max, JugsNode { j1: self.j1_max, j2: node.j2 })
    }

    /// Filling the second jug, when it is not full.
    pub open spec fn fill_second(&self, node: JugsNode) -> Seq<JugsNode> {
        move_if(node.j2 < self.j2_max, JugsNode { j1: node.j1, j2: self.j2_max })
    }

    /// Pouring the first jug into the second, when the first holds water and
    /// the second is not full.
    pub open spec fn pour_first(&self, node: JugsNode) -> Seq<JugsNode> {
        let amount = poured(node.j1, node.j2, self.j2_max);
        move_if(
            node.j1 > 0 && node.j2 < self.j2_max,
            JugsNode { j1: (node.j1 - amount) as u32, j2: (node.j2 + amount) as u32 },
        )
    }

    /// Pouring the second jug into the first, when the second holds water and
    /// the first is not full.
    pub open spec fn pour_second(&self, node: JugsNode) -> Seq<JugsNode> {
        let amount = poured(node.j2, node.j1, self.j1_max);
        move_if(
            node.j2 > 0 && node.j1 < self.j1_max,
            JugsNode { j1: (node.j1 + amount) as u32, j2: (node.j2 - amount) as u32 },
        )
    }
}

impl SearchProblem<JugsNode> for JugsProblem {
    /// The moves that are possible, in this order: empty the first jug, empty
    /// the second, fill the first, fill the second, pour the first into the
    /// second, pour the second into the first.
    open spec fn successors(&self, node: JugsNode) -> Seq<JugsNode> {
        self.empty_first(node) + self.empty_second(node) + self.fill_first(node)
            + self.fill_second(node) + self.pour_first(node) + self.pour_second(node)
    }

    /// One of the jugs holds the target amount.
    open spec fn is_goal(&self, node: JugsNode) -> bool {
        node.j1 == self.target || node.j2 == self.target
    }

    fn expand(&self, node: &JugsNode) -> (successors: Vec<JugsNode>) {
        let mut successors: Vec<JugsNode> = Vec::new();

        if node.j1 > 0 {
            successors.push(JugsNode { j1: 0, j2: node.j2 });
        }
        assert(successors@ =~= self.empty_first(*node));

        if node.j2 > 0 {
            successors.push(JugsNode { j1: node.j1, j2: 0 });
        }
        assert(successors@ =~= self.empty_first(*node) + self.empty_second(*node));

        if node.j1 < self.j1_max {
            successors.push(JugsNode { j1: self.j1_max, j2: node.j2 });
        }
        assert(successors@ =~= self.empty_first(*node) + self.empty_second(*node)
            + self.fill_first(*node));

        if node.j2 < self.j2_max {
            successors.push(JugsNode { j1: node.j1, j2: self.j2_max });
        }
        assert(successors@ =~= self.empty_first(*node) + self.empty_second(*node)
            + self.fill_first(*node) + self.fill_second(*node));

        if node.j1 > 0 && node.j2 < self.j2_max {
            if node.j1 > self.j2_max - node.j2 {
                successors.push(
                    JugsNode { j1: node.j1 - (self.j2_max - node.j2), j2: self.j2_max },
                );
            } else {
                successors.push(JugsNode { j1: 0, j2: node.j1 + node.j2 });
            }
        }
        assert(successors@ =~= self.empty_first(*node) + self.empty_second(*node)
            + self.fill_first(*node) + self.fill_second(*node) + self.pour_first(*node));

        if node.j2 > 0 && node.j1 < self.j1_max {
            if node.j2 > self.j1_max - node.j1 {
                successors.push(
                    JugsNode { j1: self.j1_max, j2: node.j2 - (self.j1_max - node.j1) },
                );
            } else {
                successors.push(JugsNode { j1: node.j2 + node.j1, j2: 0 });
            }
        }
        assert(successors@ =~= self.successors(*node));

        successors
    }

    fn goal_state(&self, node: &JugsNode) -> (goal: bool) {
        node.j1 == self.target || node.j2 == self.target
    }
}

/// The most that a jug of capacity `max` holds in a search that starts with
/// `held` in it.
pub open spec fn most(max: u32, held: u32) -> int {
    if held <= max {
        max as int
    } else {
        held as int
    }
}

impl JugsProblem {
    /// The states in which neither jug holds more than it can in a search
    /// from `start`.
    pub open spec fn state_space(&self, start: JugsNode) -> Set<JugsNode> {
        Set::new(
            |s: JugsNode|
                s.j1 <= most(self.j1_max, start.j1) && s.j2 <= most(self.j2_max, start.j2),
        )
    }

    /// The number of states in the state space of a search from `start`.
    pub open spec fn state_count(&self, start: JugsNode) -> int {
        (most(self.j1_max, start.j1) + 1) * (most(self.j2_max, start.j2) + 1)
    }

    /// Whether the state space of a search from `start` fits into a search
    /// tree. Where it does, every search from `start` stays within the tree's
    /// capacity.
    pub fn fits_search_tree(&self, start: &JugsNode) -> (fits: bool)
        ensures
            fits == (self.state_count(*start) <= NODE_CAPACITY),
            fits ==> forall|strategy: SearchStrategy| #[trigger]
                within_capacity(*self, *start, strategy, NODE_CAPACITY as nat),
    {
        let first: u64 = if start.j1 <= self.j1_max {
            self.j1_max as u64
        } else {
            start.j1 as u64
        };
        let second: u64 = if start.j2 <= self.j2_max {
            self.j2_max as u64
        } else {
            start.j2 as u64
        };
        assert((first + 1) * (second + 1) <= 0x1_0000_0000 * 0x1_0000_0000) by (nonlinear_arith)
            requires
                first + 1 <= 0x1_0000_0000,
                second + 1 <= 0x1_0000_0000,
        ;
        let count: u128 = (first as u128 + 1) * (second as u128 + 1);
        let fits = count <= 0xffff_ffff;
        proof {
            if fits {
                assert forall|strategy: SearchStrategy| #[trigger]
                    within_capacity(*self, *start, strategy, NODE_CAPACITY as nat) by {
                    lemma_jugs_fit(*self, *start, strategy);
                }
            }
        }
        fits
    }
}

/// No move leads to the same state as another move from the same state.
pub proof fn lemma_jugs_moves_distinct(problem: JugsProblem, node: JugsNode)
    ensures
        problem.successors(node).no_duplicates(),
{
}

/// No move leaves the state space.
pub proof fn lemma_jugs_moves_stay(problem: JugsProblem, start: JugsNode, node: JugsNode, j: int)
    requires
        problem.state_space(start).contains(node),
        0 <= j < problem.successors(node).len(),
    ensures
        problem.state_space(start).contains(problem.successors(node)[j]),
{
}

/// The state space is finite and has no more states than `state_count` says.
pub proof fn lemma_jugs_state_space(problem: JugsProblem, start: JugsNode)
    ensures
        problem.state_space(start).finite(),
        problem.state_space(start).len() <= problem.state_count(start),
{
    let rows = most(problem.j1_max, start.j1) + 1;
    let columns = most(problem.j2_max, start.j2) + 1;
    let count = problem.state_count(start);
    assert(0 <= count) by (nonlinear_arith)
        requires
            count == rows * columns,
            rows > 0,
            columns > 0,
    ;
    let numbers = set_int_range(0, count);
    let state_of = |i: int| JugsNode { j1: (i / columns) as u32, j2: (i % columns) as u32 };
    let numbered = numbers.map(state_of);
    lemma_int_range(0, count);
    lemma_map_size_bound(numbers, numbered, state_of);
    assert forall|s: JugsNode| problem.state_space(start).contains(s) implies numbered.contains(
        s,
    ) by {
        let i = s.j1 * columns + s.j2;
        lemma_fundamental_div_mod_converse(i, columns, s.j1 as int, s.j2 as int);
        assert(0 <= i < count) by (nonlinear_arith)
            requires
                i == s.j1 * columns + s.j2,
                count == rows * columns,
                0 <= s.j1 < rows,
                0 <= s.j2 < columns,
        ;
        assert(numbers.contains(i));
        assert(state_of(i) == s);
    }
    lemma_len_subset(problem.state_space(start), numbered);
}

/// A search over jugs whose state space fits into a search tree stays within
/// the tree's capacity.
pub proof fn lemma_jugs_fit(problem: JugsProblem, start: JugsNode, strategy: SearchStrategy)
    requires
        problem.state_count(start) <= NODE_CAPACITY,
    ensures
        within_capacity(problem, start, strategy, NODE_CAPACITY as nat),
{
    let space = problem.state_space(start);
    lemma_jugs_state_space(problem, start);
    assert(distinct_successors(problem, start)) by {
        assert forall|s: JugsNode| problem.successors(s).no_duplicates() by {
            lemma_jugs_moves_distinct(problem, s);
        }
    }
    assert forall|s: JugsNode, j: int|
        space.contains(s) && 0 <= j < problem.successors(s).len() implies space.contains(
        #[trigger] problem.successors(s)[j],
    ) by {
        lemma_jugs_moves_stay(problem, start, s, j);
    }
    lemma_finite_space_fits(problem, start, strategy, space, NODE_CAPACITY as nat);
}

} // verus!
