//! Rule engine of an 11x11 tafl game: legal moves, captures, turns and victory.

pub mod pieces;
pub mod minimap;
pub mod board;
pub mod game;

