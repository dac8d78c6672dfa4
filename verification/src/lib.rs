//! Core state-and-search substrate of a chess engine: a bit-packed board
//! representation with constant-time square access, a material evaluator with
//! mate sentinels, and a mergeable cache of explored move continuations.
//!
//! Scores are held in hundredths of a pawn throughout, so a bishop is worth
//! 310 and the mate sentinel is 100_000.

pub mod board_rep;
pub mod continuation;
pub mod piece_color;
pub mod piece_state;
pub mod rawboard;
