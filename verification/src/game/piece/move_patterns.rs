//! The move patterns of each kind of piece: `(file delta, rank delta, flags)`.
use super::move_flags::{
    BLACK_ONLY, CAPTURE_ONLY, DOUBLEPAWN, EN_PASSANT, KINGS_CASTLE, MOVE_ONLY, NONE, NON_REPEATABLE,
    QUEENS_CASTLE, R1_PROMOTION, R8_PROMOTION, WHITE_ONLY,
};
use vstd::prelude::*;

verus! {

pub const PAWN_MOVES: [(i8, i8, u16); 12] = [
    (0, 1, MOVE_ONLY | R8_PROMOTION | NON_REPEATABLE | WHITE_ONLY),
    (0, -1, MOVE_ONLY | R1_PROMOTION | NON_REPEATABLE | BLACK_ONLY),
    (1, 1, CAPTURE_ONLY | R8_PROMOTION | NON_REPEATABLE | WHITE_ONLY),
    (-1, -1, CAPTURE_ONLY | R1_PROMOTION | NON_REPEATABLE | BLACK_ONLY),
    (0, 2, MOVE_ONLY | WHITE_ONLY | DOUBLEPAWN | NON_REPEATABLE),
    (0, -2, MOVE_ONLY | BLACK_ONLY | DOUBLEPAWN | NON_REPEATABLE),
    (-1, 1, CAPTURE_ONLY | WHITE_ONLY | R8_PROMOTION | NON_REPEATABLE),
    (1, -1, CAPTURE_ONLY | BLACK_ONLY | R1_PROMOTION | NON_REPEATABLE),
    (1, 1, EN_PASSANT | WHITE_ONLY | R8_PROMOTION | NON_REPEATABLE),
    (-1, 1, EN_PASSANT | WHITE_ONLY | R8_PROMOTION | NON_REPEATABLE),
    (1, -1, EN_PASSANT | BLACK_ONLY | R1_PROMOTION | NON_REPEATABLE),
    (-1, -1, EN_PASSANT | BLACK_ONLY | R1_PROMOTION | NON_REPEATABLE),
];

pub const ROOK_MOVES: [(i8, i8, u16); 4] = [(0, 1, NONE), (0, -1, NONE), (1, 0, NONE), (-1, 0, NONE)];

pub const KNIGHT_MOVES: [(i8, i8, u16); 8] = [
    (2, 1, NON_REPEATABLE),
    (2, -1, NON_REPEATABLE),
    (-2, 1, NON_REPEATABLE),
    (-2, -1, NON_REPEATABLE),
    (1, 2, NON_REPEATABLE),
    (1, -2, NON_REPEATABLE),
    (-1, 2, NON_REPEATABLE),
    (-1, -2, NON_REPEATABLE),
];

pub const BISHOP_MOVES: [(i8, i8, u16); 4] = [(1, 1, NONE), (1, -1, NONE), (-1, 1, NONE), (-1, -1, NONE)];

pub const QUEEN_MOVES: [(i8, i8, u16); 8] = [
    (1, 0, NONE),
    (-1, 0, NONE),
    (0, 1, NONE),
    (0, -1, NONE),
    (1, 1, NONE),
    (1, -1, NONE),
    (-1, 1, NONE),
    (-1, -1, NONE),
];

pub const KING_MOVES: [(i8, i8, u16); 10] = [
    (1, 0, NON_REPEATABLE),
    (-1, 0, NON_REPEATABLE),
    (0, 1, NON_REPEATABLE),
    (0, -1, NON_REPEATABLE),
    (1, 1, NON_REPEATABLE),
    (1, -1, NON_REPEATABLE),
    (-1, 1, NON_REPEATABLE),
    (-1, -1, NON_REPEATABLE),
    (2, 0, KINGS_CASTLE | NON_REPEATABLE | MOVE_ONLY),
    (-2, 0, QUEENS_CASTLE | NON_REPEATABLE | MOVE_ONLY),
];

} // verus!
