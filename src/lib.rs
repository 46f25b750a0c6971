//! Rules engine for Connect-Four style games on boards from 2×2 up to 32×32,
//! built on fixed-width bit sets.
pub mod bits;
pub mod bitboard;
pub mod geometry;
pub mod player;
pub mod outcome;
pub mod position;
pub mod moves;
pub mod board;
pub mod game;
pub mod encode;
