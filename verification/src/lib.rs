//! Dynamic time warping (DTW) distance between two sequences of
//! multi-dimensional points, with a generalized Minkowski (p-norm)
//! pointwise metric over integer-valued coordinates.
//!
//! The crate is layered: [`norm`] holds the pointwise metric, [`accum`] the
//! dynamic program over the cost matrix and the public entry points,
//! [`laws`] the algebraic laws of the distance, and [`paths`] the proof
//! that the recurrence minimizes the accumulated distance over all
//! monotonic warping paths.

pub mod accum;
pub mod laws;
pub mod norm;
pub mod paths;

pub use crate::accum::{dtw, dtw_op, DtwError};
pub use crate::norm::p_norm;
