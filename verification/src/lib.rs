//! A*-style search over a toroidal (edge-wrapping) grid of cells.
//!
//! Given a snapshot of cells (position, wall/end status, identity), a start
//! cell and a cost-growth mode, the search computes the order in which cells
//! are finalized while moving toward the end cell, and returns that order as
//! a sequence of events.

pub mod astar;
pub mod frontier;
pub mod heuristic;
pub mod node;
pub mod tile;
pub mod torus;
