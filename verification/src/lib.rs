//! Numeric kernels for growing histogram-based gradient-boosted decision trees.
//!
//! A tree trainer calls these once for every split it considers, so they are
//! linear, work in place and keep nothing between calls:
//!
//! - [`reduction`] adds up gradients, hessians and weights, in order and in
//!   lanes;
//! - [`leaf`] turns the sums of a node into the value of its leaf and the gain
//!   of a split, and holds both to a monotonic constraint;
//! - [`quantile`] takes weighted percentiles of a feature column, from which
//!   bin boundaries are chosen, and [`binning`] maps a raw value to its bin;
//! - [`partition`] reorders the sample indices of a node so that the samples of
//!   each child are contiguous.
//!
//! The kernels are generic over the number type; [`numeric`] says what they ask
//! of it. [`one_indexed`] holds positions that are counted from one.

pub mod binning;
pub mod leaf;
pub mod numeric;
pub mod one_indexed;
pub mod partition;
pub mod quantile;
pub mod reduction;
