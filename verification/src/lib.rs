//! A discrete-time simulation substrate: a graph of cells, each holding a
//! per-generation value, wired into neighbor relations by a toroidal lattice
//! builder, and evolved by a pluggable local update rule.

pub mod cell;
pub mod conway;
pub mod error;
pub mod patch;
pub mod patch_poc;
pub mod torus;
pub mod wave;
