//! Region partitioning, the region-aware heuristic and the bidirectional
//! search that uses both.
pub mod bidirectional;
pub mod exploratory;
pub mod frontier;
pub mod heuristics;
pub mod marks;
pub mod model;
pub mod paths;
pub mod regions;
