//! A generic state-space search engine.
//!
//! A client describes a problem by two operations, one that lists the states
//! that follow a state and one that recognises a goal. The engine explores the
//! states that can be reached from a start state, breadth first, depth first or
//! in random order, and returns the states that lead to the first goal it
//! takes from its frontier.

pub mod distinct;
pub mod engine;
pub mod invariants;
pub mod jugs;
pub mod laws;
pub mod layers;
pub mod model;
pub mod problem;
pub mod strategy;
pub mod tiles;
pub mod tree;

pub use engine::SearchEngine;
pub use jugs::{JugsNode, JugsProblem};
pub use problem::SearchProblem;
pub use strategy::SearchStrategy;
pub use tiles::{TilesNode, TilesProblem};
pub use tree::{SearchTree, TreeShape, NODE_CAPACITY};
