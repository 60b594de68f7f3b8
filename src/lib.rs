//! A verified solver for a square grid puzzle: one token moves a cell at a
//! time, never into a wall, towards the bottom-right corner, guided by a
//! best-first search over a priority queue.

pub mod board;
pub mod min_priority_queue;
pub mod solver;
