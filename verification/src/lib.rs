//! Razor: a chess engine core — bitboards, legal move generation, exchange
//! evaluation, a transposition table and an alpha-beta search.

pub mod types;
pub mod bitboard;
pub mod pext;
pub mod zobrist;
pub mod position;
pub mod movegen;
pub mod eval;
pub mod tt;
pub mod see;
pub mod tune;
pub mod search;
pub mod fen;
pub mod perft;
pub mod datagen;
pub mod uci;
pub mod syzygy;
pub mod nnue;
pub mod sfnnue;
