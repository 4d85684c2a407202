//! A small chess library: board representation, move generation, legality
//! checking, FEN/UCI text formats, Zobrist hashing, a material evaluator and a
//! negamax search with a transposition table.
pub mod engine;
pub mod game;
