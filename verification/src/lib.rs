//! Ant-colony optimisation over a symmetric distance matrix, with a
//! metric-MDS embedding of the node set for display.
//!
//! All quantities (distances, pheromone levels, tour scores) are held in
//! fixed point: a `u64` counts thousandths, so `1000` stands for `1.0` and
//! `1` stands for the smallest representable distance `0.001`.
//!
//! The distance file format lives in [`aco_file_parser`], the matrix type
//! in [`matrix`], the sampling weights in [`weight`], the colony itself
//! (tour sampling, pheromone reinforcement and evaporation, best-tour
//! extraction, scoring) in [`ant`], the bounded score record in
//! [`history`], one full refinement cycle in [`refine`], and the metric
//! embedding of the node set in [`mds`].

use vstd::prelude::*;

pub mod aco_file_parser;
pub mod ant;
pub mod errors;
pub mod history;
pub mod matrix;
pub mod mds;
pub mod refine;
pub mod tally;
pub mod weight;

verus! {

/// Fixed-point scale: stored values count thousandths.
pub const SCALE: u64 = 1000;

} // verus!
