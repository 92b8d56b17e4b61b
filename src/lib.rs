//! A Connect Four engine: a bitboard position with constant-time win
//! detection, and the statistics of a Monte-Carlo tree search over it.

pub mod board;
pub mod node;
