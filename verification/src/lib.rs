//! Tour construction and local-search improvement for the symmetric
//! travelling-salesman problem.
//!
//! The solver works over a precomputed pairwise distance table: a
//! nearest-neighbor pass builds an initial closed tour through the depot
//! and every city, and 2-opt / 3-opt edge exchanges then shorten it until
//! no considered move improves it.
//!
//! Coordinates are fixed-point integers chosen by the caller (who scales
//! whatever unit the raw data uses); distances are rounded Euclidean
//! lengths in the same unit. All arithmetic is exact, so improvement
//! tests compare with strict inequality and cannot oscillate on
//! equal-cost moves.

pub mod distance;
pub mod heuristics;
pub mod models;
