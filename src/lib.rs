//! Random "Ricochet Robots" boards with a guaranteed minimum puzzle depth:
//! a board generator with a validity filter, a slide engine and a
//! breadth-first search over robot configurations.

pub mod geometry;
pub mod move_log;
pub mod board;
pub mod search;
