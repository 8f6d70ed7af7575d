//! Conway's Game of Life on a toroidal grid, with a verified update rule and
//! a verified triangle mesh of the living cells.

pub mod game;
pub mod grid;
pub mod mesh;
pub mod pattern;
