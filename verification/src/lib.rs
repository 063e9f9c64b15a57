//! A chess engine on bitboards: board representation, move generation,
//! game rules, evaluation and search.
pub mod bits;
pub mod types;
pub mod bitboards;
pub mod attacks;
pub mod zobrist;
pub mod position;
pub mod movegen;
pub mod perft;
pub mod game;
pub mod text;
pub mod fen;
pub mod fen_law;
pub mod eval;
pub mod pst;
pub mod see;
pub mod search;
pub mod gauntlet;
pub mod bot;
pub mod uci;
pub mod cli;
pub mod web;
pub mod validate;
pub mod book;
