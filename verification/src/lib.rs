//! Quantized mean-variance portfolio selection.
//!
//! From the return series of a universe of assets the library builds every allocation
//! whose weights lie on a grid and add up to one, computes the expected return and the
//! risk of each, scores them, and selects those that no other allocation dominates.
//!
//! All numbers are fixed-point integers. Returns, weights, standard deviations and
//! scores count millionths; variances and covariances count millionths of millionths.
//! Every division rounds toward negative infinity, and no operation overflows.
//!
//! - `fixed`: the fixed-point conventions, floor division and integer square roots
//! - `statistics`: what mean, variance and covariance of return series are
//! - `asset`: return series and assets, and their statistics
//! - `universe`: the ordered list of assets that allocations are indexed by
//! - `portfolio`: an allocation over a universe, its expected return and its risk
//! - `evaluator`: mean-variance utility and Sharpe ratio
//! - `simplex`: the enumeration of the allocations on the grid
//! - `frontier`: Pareto dominance and the efficient frontier
//! - `solver`: the optimizer that ties enumeration, scoring and selection together

pub mod asset;
pub mod error;
pub mod evaluator;
pub mod fixed;
pub mod frontier;
pub mod portfolio;
pub mod simplex;
pub mod solver;
pub mod statistics;
pub mod universe;
