//! Language statistics: query normalisation, exclude handling, ranking,
//! colour lookup, SVG helpers and the per-user chart cache.
pub mod text;
pub mod query;
pub mod stats;
pub mod sort;
pub mod totals;
pub mod ranking;
pub mod colors;
pub mod svg;
pub mod models;
pub mod github;
pub mod cache;
pub mod shapes;
