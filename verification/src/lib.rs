//! Best-first search for a cheapest path, in which the successors of a node
//! may depend on the node it was reached from.
//!
//! [`astar_jps`] is the search. It keeps the discovered nodes in a
//! [`store::FrontierStore`], where each node has a fixed index, its best
//! known cost and the index of the node it was best reached from, and the
//! candidates for expansion in a [`queue::CostQueue`], which serves them
//! in the order of [`entry::SmallestCostHolder`]. [`graph`] says what the
//! caller's functions tell about the graph, and the contract of the search
//! is stated in its words. Nodes are numbers, and costs are numbers that
//! add up as [`cost`] says.

pub mod cost;
pub mod entry;
pub mod graph;
pub mod path;
pub mod queue;
pub mod search;
pub mod store;

mod cover;
mod steps;
mod trace;

pub use search::astar_jps;
