//! Analysis of near-Earth-object close-approach records: proximity graphs,
//! closeness centrality, connected components, hazard scoring and ranking,
//! risk bucketing, and pairwise hazard-comparison graphs.
//!
//! All physical quantities are carried as fixed-point integers with one
//! common scale (for example, millionths of the source unit), so that
//! differences and ratios are exact. A distance that the source data could
//! not supply is `None`; it never enters a comparison.

pub mod buckets;
pub mod centrality;
pub mod components;
pub mod hazard_graph;
pub mod pairs;
pub mod paths;
pub mod proximity;
pub mod pgraph;
pub mod rank;
pub mod score;
pub mod topk;
