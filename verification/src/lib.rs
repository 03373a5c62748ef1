//! Conway's Game of Life on an unbounded two-dimensional integer grid.
//!
//! The live-cell set is the authoritative state: the set of currently alive
//! integer coordinates. The generation stepper applies the standard B3/S23
//! rule to produce the next generation. Rendering and input handling are left
//! to the surrounding application.

pub mod grid;
pub mod rules;
pub mod session;
