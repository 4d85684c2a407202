//! Pieces, colours and the move patterns of each kind of piece.
pub mod move_flags;
pub mod move_patterns;

use self::move_patterns::{BISHOP_MOVES, KING_MOVES, KNIGHT_MOVES, PAWN_MOVES, QUEEN_MOVES, ROOK_MOVES};
use vstd::prelude::*;
use vstd::string::StringExecFns;

verus! {

/// A move pattern is a list of `(file delta, rank delta, flags)` steps.
pub trait Movable {
    fn move_pattern(&self) -> &'static [(i8, i8, u16)];
}

#[derive(Clone, Copy, Debug, PartialEq, Eq, Structural)]
pub enum PieceType {
    Pawn,
    Rook,
    Knight,
    Bishop,
    Queen,
    King,
}

/// The pattern of steps of a kind of piece.
pub open spec fn pattern_of(kind: PieceType) -> Seq<(i8, i8, u16)> {
    match kind {
        PieceType::Pawn => PAWN_MOVES@,
        PieceType::Rook => ROOK_MOVES@,
        PieceType::Knight => KNIGHT_MOVES@,
        PieceType::Bishop => BISHOP_MOVES@,
        PieceType::Queen => QUEEN_MOVES@,
        PieceType::King => KING_MOVES@,
    }
}

/// Every step of every pattern moves by at most two files and two ranks, and
/// moves at all.
pub proof fn lemma_pattern_steps_small(kind: PieceType, i: int)
    requires
        0 <= i < pattern_of(kind).len(),
    ensures
        -2 <= pattern_of(kind)[i].0 <= 2,
        -2 <= pattern_of(kind)[i].1 <= 2,
        pattern_of(kind)[i].0 != 0 || pattern_of(kind)[i].1 != 0,
        pattern_of(kind).len() <= 12,
{
    assert(PAWN_MOVES@.len() == 12);
    assert(KING_MOVES@.len() == 10);
    assert(KNIGHT_MOVES@.len() == 8);
    assert(QUEEN_MOVES@.len() == 8);
    assert(ROOK_MOVES@.len() == 4);
    assert(BISHOP_MOVES@.len() == 4);
}

impl Movable for PieceType {
    fn move_pattern(&self) -> (pattern: &'static [(i8, i8, u16)])
        ensures
            pattern@ == pattern_of(*self),
    {
        match self {
            PieceType::Pawn => &PAWN_MOVES,
            PieceType::Rook => &ROOK_MOVES,
            PieceType::Knight => &KNIGHT_MOVES,
            PieceType::Bishop => &BISHOP_MOVES,
            PieceType::Queen => &QUEEN_MOVES,
            PieceType::King => &KING_MOVES,
        }
    }
}

/// The English name of a kind of piece.
pub open spec fn piece_type_name(kind: PieceType) -> Seq<char> {
    match kind {
        PieceType::Pawn => "Pawn"@,
        PieceType::Rook => "Rook"@,
        PieceType::Knight => "Knight"@,
        PieceType::Bishop => "Bishop"@,
        PieceType::Queen => "Queen"@,
        PieceType::King => "King"@,
    }
}

impl PieceType {
    pub fn what(&self) -> (name: &str)
        ensures
            name@ == piece_type_name(*self),
    {
        match self {
            PieceType::Pawn => "Pawn",
            PieceType::Rook => "Rook",
            PieceType::Knight => "Knight",
            PieceType::Bishop => "Bishop",
            PieceType::Queen => "Queen",
            PieceType::King => "King",
        }
    }
}

#[derive(Clone, Copy, Debug, PartialEq, Eq, Structural)]
pub enum Color {
    White,
    Black,
}

impl Color {
    /// The other colour.
    pub open spec fn other(self) -> Color {
        match self {
            Color::White => Color::Black,
            Color::Black => Color::White,
        }
    }

    pub fn opposite(&self) -> (c: Color)
        ensures
            c == self.other(),
            c != *self,
    {
        match self {
            Color::White => Color::Black,
            Color::Black => Color::White,
        }
    }

    pub fn what(&self) -> (name: &str)
        ensures
            name@ == color_name(*self),
    {
        match self {
            Color::White => "White",
            Color::Black => "Black",
        }
    }
}

/// The English name of a colour.
pub open spec fn color_name(c: Color) -> Seq<char> {
    match c {
        Color::White => "White"@,
        Color::Black => "Black"@,
    }
}

/// Taking the opposite colour twice gives back the colour.
pub proof fn lemma_opposite_involution(c: Color)
    ensures
        c.other().other() == c,
        c.other() != c,
{
}

#[derive(Clone, Copy, Debug, PartialEq, Eq, Structural)]
pub struct Piece {
    pub color: Color,
    pub kind: PieceType,
}

impl Piece {
    pub fn new(color: Color, kind: PieceType) -> (piece: Piece)
        ensures
            piece == (Piece { color, kind }),
    {
        Piece { color: color, kind: kind }
    }

    /// The colour and the kind of the piece, such as `White Pawn`.
    pub fn what(&self) -> (name: String)
        ensures
            name@ == color_name(self.color) + " "@ + piece_type_name(self.kind),
    {
        let mut name = self.color.what().to_owned();
        name.append(" ");
        name.append(self.kind.what());
        name
    }
}

} // verus!
