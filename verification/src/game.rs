pub mod board;
pub mod piece;

pub use board::{Board, BoardAnal, BoardStatus, ChessMove, MoveStatus, RawAnal, RawMove, Square, ZobristKeys};
pub use piece::{move_flags, move_patterns, Color, Movable, Piece, PieceType};
