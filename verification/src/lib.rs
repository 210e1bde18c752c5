//! A BK-tree: a metric-tree index over 64-bit keys that answers range
//! queries ("all stored keys within distance `tol` of a needle") by pruning
//! subtrees with the triangle inequality.

pub mod metric;
pub mod tree;

pub use crate::metric::{Metric, Simple};
pub use crate::tree::{BKTree, Node};
