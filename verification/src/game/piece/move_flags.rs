//! Bit flags that qualify an entry of a piece's move pattern.
use vstd::prelude::*;

verus! {

/// No special flags.
pub const NONE: u16 = 0b0000000000000000;

/// The step is taken once only (knight, king, pawn steps).
pub const NON_REPEATABLE: u16 = 0b0000000000000001;

/// The step may promote on rank 8.
pub const R8_PROMOTION: u16 = 0b0000000000000010;

/// The step may promote on rank 1.
pub const R1_PROMOTION: u16 = 0b0000000000000100;

/// The step is a pawn's double step from its starting rank.
pub const DOUBLEPAWN: u16 = 0b0000000000001000;

/// The step may only end on an empty square.
pub const MOVE_ONLY: u16 = 0b0000000000010000;

/// The step may only end on an enemy piece.
pub const CAPTURE_ONLY: u16 = 0b0000000000100000;

/// The step is a kingside castle.
pub const KINGS_CASTLE: u16 = 0b0000000001000000;

/// The step is a queenside castle.
pub const QUEENS_CASTLE: u16 = 0b0000000010000000;

/// The step is an en passant capture.
pub const EN_PASSANT: u16 = 0b0000000100000000;

/// The step is available to white pieces only.
pub const WHITE_ONLY: u16 = 0b0000001000000000;

/// The step is available to black pieces only.
pub const BLACK_ONLY: u16 = 0b0000010000000000;

} // verus!
