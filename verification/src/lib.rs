//! Spatial trees over integer coordinates.
//!
//! A map-like container organizes geometric leaves (points, line segments,
//! axis-aligned rectangles) under hierarchical minimum bounding rectangles.
//! Two index families are provided: the classical R-tree with linear or
//! quadratic seed splitting, and the R*-tree with forced reinsertion and
//! axis-choice splitting.

mod arith;
pub mod geometry;
pub mod tree;
pub mod vecext;

pub use crate::tree::mbr::{RLinearTree, RQuadraticTree, RStar, RStarTree, RTree};
