//! Solver for the "arrows and arrows" puzzle: a toroidal grid of directional
//! arrows in which every cell points at a neighbour, wrapping at the edges.
//! The library parses such a grid, follows the arrow pointers from any starting
//! coordinate until the walk repeats, extracts the cycle it fell into, and
//! finds the longest cycle over the whole grid.

pub mod cycle;
pub mod grid;
pub mod parse;
