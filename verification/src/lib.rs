//! Zugzwang: a from-scratch chess engine.
//!
//! `board` and `moves`/`movegen` model the game; `search` and `eval` decide
//! what to play.
pub mod text;
pub mod types;
pub mod square;
pub mod moves;
pub mod board;
pub mod eval;
pub mod pst;
pub mod movegen;
pub mod position;
pub mod history;
pub mod killers;
pub mod ordering;
pub mod search;
pub mod fen;
pub mod play;
pub mod zobrist;
pub mod tt;
pub mod uci;
