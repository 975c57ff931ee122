//! A chess rules engine: board model, per-piece movement geometry, check
//! detection, legal-move generation with a king-safety filter, and FEN
//! piece-placement decoding.
use vstd::prelude::*;

pub mod board;
pub mod error;
pub mod game;
pub mod parser;
pub mod pieces;
