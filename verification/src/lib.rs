//! Rule engine and search for 5D Chess with Multiverse Time Travel.
pub mod attack;
pub mod board;
pub mod geometry;
pub mod movegen;
pub mod game;
pub mod notation;
pub mod perft;
pub mod moves;
pub mod multiverse;
pub mod text;
pub mod types;
pub mod apply;
pub mod zobrist;
pub mod legal;
pub mod eval;
pub mod search;
