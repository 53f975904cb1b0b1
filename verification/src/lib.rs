//! Exact Wasserstein-1 (earth mover's) distance between two discretized,
//! non-negative mass distributions over a shared finite grid.
//!
//! One-dimensional inputs are solved by the closed-form
//! cumulative-distribution-difference algorithm; higher-dimensional inputs
//! go through a transportation-problem formulation solved by network
//! simplex. All arithmetic is on integers, so results are exact and
//! reproducible.

pub mod error;
pub mod onedim;
pub mod facade;
pub mod grid;
pub mod simplex;

pub use error::Error;
pub use facade::{wasserstein_2d, wasserstein_nd, EMD};
pub use grid::Grid;
pub use onedim::{distance_1d, wasserstein_1d};
