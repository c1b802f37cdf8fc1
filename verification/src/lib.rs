//! Bidirectional, heuristic-guided path search over weighted undirected
//! graphs whose nodes carry a region label.
//!
//! - [`structures`] holds the graph.
//! - [`algorithms`] holds the partition of a graph into regions, the
//!   estimate of remaining cost that the regions feed, the bidirectional
//!   search itself and a breadth-first exploration.
//! - [`grid`] builds the graph of a square grid with obstacles and searches
//!   paths between its cells; [`input`] reads cells from text and
//!   [`report`] computes what a report on a path shows.
//!
//! Real-valued quantities (edge weights, accumulated costs, heuristic
//! estimates) are fixed-point numbers; see [`fixed`].
pub mod algorithms;
pub mod fixed;
pub mod grid;
pub mod input;
pub mod report;
pub mod structures;
