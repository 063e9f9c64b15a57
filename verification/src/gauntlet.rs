//! The gauntlet's opponents, from a random mover to iterative deepening
//! with move ordering, a transposition table and quiescence search, each
//! with the same interface: `new`, `with_depth`, `with_time`, `best_move`.
pub mod random;
pub mod negamax;
pub mod alphabeta;
pub mod v4_iterative_deepening;
pub mod v5_move_ordering;
pub mod v6_transposition_table;
pub mod v7_quiescence_search;
