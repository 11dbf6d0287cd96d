//! A verified chess rules engine: piece movement legality, path
//! obstruction, check and checkmate detection, and the turn state
//! machine that applies moves, captures and castling.

pub mod board;
pub mod laws;
pub mod pieces;
