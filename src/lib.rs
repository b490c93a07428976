//! Weighted score aggregation and tabular report layout for judged
//! competitions.
pub mod text;
pub mod aggregate;
pub mod model;
pub mod export;
pub mod grid;
