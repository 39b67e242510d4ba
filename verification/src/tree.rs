//! The search tree: every state the search has scheduled, below the state
//! from which it was reached.

use petgraph::graph::{Graph, NodeIndex};
use petgraph::{Directed, Direction};
use vstd::prelude::*;

verus! {

/// petgraph's `Graph`, a graph with node weights `N`, edge weights `E`, edge
/// type `Ty` and index type `Ix`. Nothing is known of a value but what the
/// functions below say.
#[verifier::external_type_specification]
#[verifier::external_body]
#[verifier::reject_recursive_types(N)]
#[verifier::reject_recursive_types(E)]
#[verifier::reject_recursive_types(Ty)]
#[verifier::reject_recursive_types(Ix)]
pub struct ExGraph<N, E, Ty, Ix>(petgraph::graph::Graph<N, E, Ty, Ix>);

/// petgraph's `Directed`, the marker of a graph with directed edges.
#[verifier::external_type_specification]
#[verifier::external_body]
pub struct ExDirected(petgraph::Directed);

/// The number of nodes of a graph. Nodes are numbered from 0 in the order in
/// which they were added.
pub uninterp spec fn graph_node_count(graph: Graph<(), (), Directed, u32>) -> nat;

/// The edges of a graph as (source, target) pairs of node numbers, in the
/// order in which they were added.
pub uninterp spec fn graph_edges(graph: Graph<(), (), Directed, u32>) -> Seq<(int, int)>;

/// The source of the edge into `node` that was added last, if there is one.
pub open spec fn newest_source(edges: Seq<(int, int)>, node: int) -> Option<int>
    decreases edges.len(),
{
    if edges.len() == 0 {
        None
    } else if edges.last().1 == node {
        Some(edges.last().0)
    } else {
        newest_source(edges.drop_last(), node)
    }
}

/// An empty graph.
///
/// Calls petgraph's `Graph::new`. Trusted: the graph has no node and no edge.
#[verifier::external_body]
fn graph_new() -> (graph: Graph<(), (), Directed, u32>)
    ensures
        graph_node_count(graph) == 0,
        graph_edges(graph) == Seq::<(int, int)>::empty(),
{
    Graph::new()
}

/// Adds a node and returns its number.
///
/// Calls petgraph's `Graph::add_node`, which panics when the graph already
/// holds `u32::MAX` nodes. Trusted: the new node gets the next number, and the
/// edges stay as they were.
#[verifier::external_body]
fn graph_add_node(graph: &mut Graph<(), (), Directed, u32>) -> (node: usize)
    requires
        graph_node_count(*old(graph)) < u32::MAX,
    ensures
        node == graph_node_count(*old(graph)),
        graph_node_count(*final(graph)) == graph_node_count(*old(graph)) + 1,
        graph_edges(*final(graph)) == graph_edges(*old(graph)),
{
    graph.add_node(()).index()
}

/// Adds an edge from `source` to `target`.
///
/// Calls petgraph's `Graph::add_edge`, which panics when one of the nodes does
/// not exist or the graph already holds `u32::MAX` edges. Trusted: the edge is
/// appended to the edges, and the nodes stay as they were.
#[verifier::external_body]
fn graph_add_edge(graph: &mut Graph<(), (), Directed, u32>, source: usize, target: usize)
    requires
        source < graph_node_count(*old(graph)),
        target < graph_node_count(*old(graph)),
        graph_edges(*old(graph)).len() < u32::MAX,
    ensures
        graph_node_count(*final(graph)) == graph_node_count(*old(graph)),
        graph_edges(*final(graph)) == graph_edges(*old(graph)).push((source as int, target as int)),
{
    graph.add_edge(NodeIndex::new(source), NodeIndex::new(target), ());
}

/// The first neighbour that `node` has along an incoming edge.
///
/// Calls petgraph's `Graph::neighbors_directed` with `Direction::Incoming` and
/// takes the first item. Trusted: a directed graph lists these neighbours from
/// the edge added last to the edge added first, so the first item is the
/// source of the newest edge into `node`, and there is none when no edge
/// leads into `node`.
#[verifier::external_body]
fn graph_first_incoming(graph: &Graph<(), (), Directed, u32>, node: usize) -> (source: Option<
    usize,
>)
    requires
        node < graph_node_count(*graph),
    ensures
        match source {
            Some(s) => newest_source(graph_edges(*graph), node as int) == Some(s as int),
            None => newest_source(graph_edges(*graph), node as int) is None,
        },
{
    graph.neighbors_directed(NodeIndex::new(node), Direction::Incoming).next().map(|n| n.index())
}

/// The largest number of nodes that a search tree can hold.
pub const NODE_CAPACITY: usize = 0xffff_ffff;

/// The mathematical content of a search tree: the state of each node, and for
/// each node but the root its parent, the node below which it was added.
/// Nodes are numbered from 0, the root, in the order in which they were added.
#[verifier::ext_equal]
pub struct TreeShape<S> {
    pub nodes: Seq<S>,
    pub parents: Seq<int>,
}

impl<S> TreeShape<S> {
    /// The root has no parent, and every other node has exactly one, which was
    /// added before it.
    pub open spec fn well_formed(self) -> bool {
        &&& self.nodes.len() >= 1
        &&& self.parents.len() == self.nodes.len()
        &&& self.parents[0] == -1
        &&& forall|h: int| 1 <= h < self.nodes.len() ==> 0 <= #[trigger] self.parents[h] < h
    }

    /// The tree that holds the root alone.
    pub open spec fn single(root: S) -> Self {
        TreeShape { nodes: seq![root], parents: seq![-1int] }
    }

    /// The tree with one more node, `child`, below `parent`.
    pub open spec fn with_child(self, parent: int, child: S) -> Self {
        TreeShape { nodes: self.nodes.push(child), parents: self.parents.push(parent) }
    }

    /// The tree with `children` added below `parent`, in their order.
    pub open spec fn grow(self, parent: int, children: Seq<S>) -> Self {
        TreeShape {
            nodes: self.nodes + children,
            parents: self.parents + Seq::new(children.len(), |j: int| parent),
        }
    }

    /// The number of parent edges between `handle` and the root.
    pub open spec fn depth(self, handle: int) -> nat
        decreases handle,
    {
        if 0 < handle < self.nodes.len() && 0 <= self.parents[handle] < handle {
            self.depth(self.parents[handle]) + 1
        } else {
            0
        }
    }

    /// The states met when walking from the root down to `handle`, leaving out
    /// everything up to and including the nearest node on the way whose state
    /// equals `start`.
    pub open spec fn trail(self, handle: int, start: S) -> Seq<S>
        decreases handle,
    {
        if 0 <= handle < self.nodes.len() && self.nodes[handle] != start {
            if 0 <= self.parents[handle] < handle {
                self.trail(self.parents[handle], start).push(self.nodes[handle])
            } else {
                seq![self.nodes[handle]]
            }
        } else {
            Seq::empty()
        }
    }
}

/// A search tree: an arena of states, and a graph that holds one edge from
/// the parent to the child for every node but the root.
pub struct SearchTree<S> {
    states: Vec<S>,
    links: Graph<(), (), Directed, u32>,
}

impl<S> View for SearchTree<S> {
    type V = TreeShape<S>;

    closed spec fn view(&self) -> TreeShape<S> {
        TreeShape {
            nodes: self.states@,
            parents: Seq::new(
                self.states@.len(),
                |h: int|
                    if h == 0 {
                        -1
                    } else {
                        graph_edges(self.links)[h - 1].0
                    },
            ),
        }
    }
}

/// In a graph whose `i`-th edge leads into node `i + 1`, the newest edge into
/// a node is the only one.
proof fn lemma_newest_source(edges: Seq<(int, int)>, node: int)
    requires
        forall|i: int| 0 <= i < edges.len() ==> (#[trigger] edges[i]).1 == i + 1,
        1 <= node <= edges.len(),
    ensures
        newest_source(edges, node) == Some(edges[node - 1].0),
    decreases edges.len(),
{
    if edges.last().1 != node {
        lemma_newest_source(edges.drop_last(), node);
    }
}

impl<S> SearchTree<S> {
    /// The arena and the graph describe the same tree.
    pub closed spec fn wf(&self) -> bool {
        &&& 1 <= self.states@.len() <= NODE_CAPACITY
        &&& graph_node_count(self.links) == self.states@.len()
        &&& graph_edges(self.links).len() == self.states@.len() - 1
        &&& forall|i: int|
            0 <= i < graph_edges(self.links).len() ==> {
                &&& (#[trigger] graph_edges(self.links)[i]).1 == i + 1
                &&& 0 <= graph_edges(self.links)[i].0 <= i
            }
    }

    /// What `wf` says of the tree's shape.
    pub proof fn lemma_shape(&self)
        requires
            self.wf(),
        ensures
            self@.well_formed(),
            self@.nodes.len() <= NODE_CAPACITY,
    {
    }

    /// A tree that holds `root` alone.
    pub fn new(root: S) -> (tree: Self)
        ensures
            tree.wf(),
            tree@ == TreeShape::single(root),
    {
        let mut states: Vec<S> = Vec::new();
        states.push(root);
        let mut links = graph_new();
        let _ = graph_add_node(&mut links);
        SearchTree { states, links }
    }

    /// The number of nodes.
    pub fn len(&self) -> (len: usize)
        requires
            self.wf(),
        ensures
            len == self@.nodes.len(),
    {
        self.states.len()
    }

    /// Adds a node that holds `state` below `parent` and returns its handle.
    pub fn add_child(&mut self, parent: usize, state: S) -> (handle: usize)
        requires
            old(self).wf(),
            parent < old(self)@.nodes.len(),
            old(self)@.nodes.len() < NODE_CAPACITY,
        ensures
            final(self).wf(),
            final(self)@ == old(self)@.with_child(parent as int, state),
            handle == old(self)@.nodes.len(),
    {
        let handle = graph_add_node(&mut self.links);
        graph_add_edge(&mut self.links, parent, handle);
        self.states.push(state);
        handle
    }

    /// The state that the node `handle` holds.
    pub fn state(&self, handle: usize) -> (state: &S)
        requires
            self.wf(),
            handle < self@.nodes.len(),
        ensures
            *state == self@.nodes[handle as int],
    {
        &self.states[handle]
    }

    /// The parent of the node `handle`.
    pub fn parent(&self, handle: usize) -> (parent: usize)
        requires
            self.wf(),
            0 < handle < self@.nodes.len(),
        ensures
            parent == self@.parents[handle as int],
    {
        proof {
            lemma_newest_source(graph_edges(self.links), handle as int);
        }
        graph_first_incoming(&self.links, handle).unwrap()
    }
}

} // verus!
