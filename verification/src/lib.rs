//! Best-first route search over a directed graph whose adjacency rows arrive
//! as a stream of text lines: line `n` lists the children of node `n`.
//!
//! - [`adjacency`] reads one line as a row of nodes.
//! - [`graph`] keeps the rows read so far.
//! - [`frontier`] is the priority queue of nodes that wait to be expanded,
//!   and [`route`] the sequence of nodes that leads to a node.
//! - [`search`] holds the best route known to each node and the frontier.
//! - [`model`] says what a search does, step by step, as a function of plain
//!   values; [`sound`] and [`laws`] say what holds of every search.
//! - [`pathfind`] runs a search, line by line or over lines at hand.
//! - [`gen`] writes a graph as such a stream.

pub mod adjacency;
pub mod frontier;
pub mod gen;
pub mod graph;
pub mod laws;
pub mod model;
pub mod pathfind;
pub mod route;
pub mod search;
pub mod sound;
