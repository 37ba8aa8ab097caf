//! Builds a complete weighted directed graph from per-season team
//! statistics and ranks the teams by a betweenness-centrality measure
//! computed with Brandes-style shortest-path accumulation.

pub mod stats;
pub mod digraph;
pub mod graph_construction;
pub mod ratio;
pub mod betweenness_centrality;
pub mod ranking;
pub mod pipeline;
