//! A planner over a graph of one-argument transformers.
//!
//! Each transformer is an [`Edge`] from one kind of value to another. It
//! depends on a set of tags on what it is given, hands out a set of tags on
//! what it returns, and has a cost. [`Graph::search`] finds a chain of edges
//! that carries a value from the kind at hand to the kind asked for; a
//! [`Driver`] asks for plans again and again while transformers fail.
//!
//! Kinds, tags and transformers are known by identifiers only. The caller
//! keeps the transformers themselves and runs them.
//!
//! The modules, from the ground up:
//!
//! - [`variations`]: tag sets.
//! - [`edge`], [`edge_set`], [`graph`]: edges and where they are kept.
//! - [`plan`]: what it means for a chain of edges to answer a query.
//! - [`state`], [`frontier`]: the states of a search and one direction of it.
//! - [`rules`]: what a search does, step by step.
//! - [`searcher`]: the search itself.
//! - [`soundness`], [`counting`]: why the search is right and why it ends.
//! - [`driver`]: planning anew after a failure.
pub mod counting;
pub mod driver;
pub mod edge;
pub mod edge_set;
pub mod frontier;
pub mod graph;
pub mod plan;
pub mod rules;
pub mod searcher;
pub mod soundness;
pub mod state;
pub mod variations;

pub use driver::{Driver, Failure, Step, MAX_ATTEMPTS};
pub use edge::{Edge, EdgeView};
pub use edge_set::EdgeSet;
pub use frontier::Frontier;
pub use graph::Graph;
pub use plan::Query;
pub use searcher::Searcher;
pub use state::State;
pub use variations::{Int, Variations};
