//! Logic engine of a "Queens" grid puzzle: an N×N board is split into N
//! contiguous colour regions, and a solution holds one queen per row, per
//! column and per region, with no two queens touching (diagonals included).
//!
//! The engine splits a blank board into regions at random, searches a board
//! breadth first for the ways to complete it, and deals puzzles that can be
//! completed in one way only.

pub mod cell;
pub mod grid;
pub mod rules;
pub mod completion;
pub mod lines;
pub mod regions;
pub mod rng;
pub mod state;
pub mod visited;
pub mod search;
pub mod solver;
pub mod growth;
pub mod partition;
pub mod generator;
pub mod play;
