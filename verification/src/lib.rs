//! A verified engine for Ultimate Tic-Tac-Toe.
//!
//! The game is played on a 3x3 grid of 3x3 subboards.  A move's cell
//! coordinates decide which subboard the opponent must play in next.  The
//! library offers two interchangeable board representations (a cell grid and
//! a packed 128-bit encoding), a heuristic, plain minimax and alpha-beta
//! search, and strategies built on them.

pub mod bitboard;
pub mod board;
pub mod minmax;
pub mod player;
pub mod strategy;
pub mod text;

pub use player::Player;
