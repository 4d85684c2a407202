//! Playing a move on a board, with castling, en passant, promotion and the
//! clocks.
use crate::game::board::{abs_i8, on_board, spec_delta, Board, ChessMove, MoveStatus, Square};
use crate::game::piece::{Color, Piece, PieceType};
use vstd::prelude::*;

verus! {

/// Castling rights after a move touches `(f, r)`: a rook's home corner loses its right.
pub open spec fn revoke_corner(cr: (bool, bool, bool, bool), f: int, r: int) -> (bool, bool, bool, bool) {
    if f == 7 && r == 0 {
        (false, cr.1, cr.2, cr.3)
    } else if f == 0 && r == 0 {
        (cr.0, false, cr.2, cr.3)
    } else if f == 7 && r == 7 {
        (cr.0, cr.1, false, cr.3)
    } else if f == 0 && r == 7 {
        (cr.0, cr.1, cr.2, false)
    } else {
        cr
    }
}

/// Castling rights after the king of colour `c` moves: both of its rights are gone.
pub open spec fn revoke_color(cr: (bool, bool, bool, bool), c: Color) -> (bool, bool, bool, bool) {
    match c {
        Color::White => (false, false, cr.2, cr.3),
        Color::Black => (cr.0, cr.1, false, false),
    }
}

/// The board with other castling rights.
pub open spec fn with_rights(b: Board, cr: (bool, bool, bool, bool)) -> Board {
    Board { castle_rights: cr, ..b }
}

/// Moving `p` from `from` to `to` (which empties `from`), and whether `to` held a piece.
pub open spec fn transform(b: Board, from: (int, int), to: (int, int), p: Option<Piece>) -> (Board, bool) {
    (b.set_sq(to.0, to.1, p).set_sq(from.0, from.1, None), b.at(to.0, to.1) is Some)
}

/// The board after the squares and rook-corner rights of a move are updated,
/// and whether it captured; a promotion puts the new piece of the side to move.
pub open spec fn move_squares(b: Board, mv: ChessMove) -> (Board, bool) {
    let b1 = with_rights(
        b,
        revoke_corner(
            revoke_corner(b.castle_rights, mv.from.0 as int, mv.from.1 as int),
            mv.to.0 as int,
            mv.to.1 as int,
        ),
    );
    let p = match mv.promotion {
        Some(kind) => Some(Piece { color: b.to_move, kind }),
        None => b1.at(mv.from.0 as int, mv.from.1 as int),
    };
    transform(b1, (mv.from.0 as int, mv.from.1 as int), (mv.to.0 as int, mv.to.1 as int), p)
}

/// The board after its clocks, side to move and en passant target are
/// updated for a move; `reset` restarts the halfmove clock.
pub open spec fn metadata(b: Board, reset: bool, ep: Option<Square>) -> Board {
    Board {
        halfmove_clock: if reset {
            0
        } else {
            (b.halfmove_clock + 1) as u32
        },
        fullmove_number: if b.to_move == Color::Black {
            (b.fullmove_number + 1) as u32
        } else {
            b.fullmove_number
        },
        to_move: b.to_move.other(),
        en_passant_target: ep,
        ..b
    }
}

/// Whether updating the clocks stays within `u32`.
pub open spec fn metadata_safe(b: Board, reset: bool) -> bool {
    &&& !reset ==> b.halfmove_clock < u32::MAX
    &&& b.to_move == Color::Black ==> b.fullmove_number < u32::MAX
}

/// The rank just behind `rank` as seen by colour `c`, computed as the move code does.
pub open spec fn rank_behind(c: Color, rank: usize) -> int {
    (rank as i8) as int + match c {
        Color::White => -1int,
        Color::Black => 1int,
    }
}

/// The result of playing `mv` on `b`.
pub open spec fn apply_result(b: Board, mv: ChessMove) -> Result<Board, MoveStatus> {
    let from = (mv.from.0 as int, mv.from.1 as int);
    let to = (mv.to.0 as int, mv.to.1 as int);
    match b.at(from.0, from.1) {
        None => Err(MoveStatus::InvalidEmptySquare),
        Some(piece) => match piece.kind {
            PieceType::King => {
                let d = spec_delta(mv);
                if d.0 == 2 {
                    // kingside castle: the rook jumps over the king
                    let b1 = move_squares(b, mv).0;
                    let b2 = transform(b1, (from.0 + 3, from.1), (to.0 - 1, to.1), b1.at(from.0 + 3, from.1)).0;
                    Ok(metadata(with_rights(b2, revoke_color(b2.castle_rights, b.to_move)), false, None))
                } else if d.0 == -2 {
                    // queenside castle
                    let b1 = move_squares(b, mv).0;
                    let b2 = transform(b1, (from.0 - 4, from.1), (to.0 + 1, to.1), b1.at(from.0 - 4, from.1)).0;
                    Ok(metadata(with_rights(b2, revoke_color(b2.castle_rights, b.to_move)), false, None))
                } else {
                    let (b1, captured) = move_squares(b, mv);
                    Ok(metadata(with_rights(b1, revoke_color(b1.castle_rights, b.to_move)), captured, None))
                }
            },
            PieceType::Pawn => {
                if b.en_passant_target == Some(mv.to) {
                    // en passant: the captured pawn stands behind the target square
                    let b1 = b.set_sq(to.0, rank_behind(b.to_move, mv.to.1) as usize as int, None);
                    Ok(metadata(move_squares(b1, mv).0, true, None))
                } else {
                    let b1 = move_squares(b, mv).0;
                    let d = spec_delta(mv);
                    if d.1 == 2 || d.1 == -2 {
                        Ok(metadata(b1, true, Some((mv.to.0, rank_behind(b.to_move, mv.to.1) as usize))))
                    } else {
                        Ok(metadata(b1, true, None))
                    }
                }
            },
            _ => {
                let (b1, captured) = move_squares(b, mv);
                Ok(metadata(b1, captured, None))
            },
        },
    }
}

/// Whether the delta of a move fits `i8` and its components have an absolute value.
pub open spec fn delta_safe(mv: ChessMove) -> bool {
    -127 <= spec_delta(mv).0 <= 127 && -127 <= spec_delta(mv).1 <= 127
}

/// Whether playing `mv` on `b` stays on the board and within its integer types.
pub open spec fn apply_safe(b: Board, mv: ChessMove) -> bool {
    let from = (mv.from.0 as int, mv.from.1 as int);
    let to = (mv.to.0 as int, mv.to.1 as int);
    match b.at(from.0, from.1) {
        None => true,
        Some(piece) => match piece.kind {
            PieceType::King => {
                &&& -128 <= spec_delta(mv).0 <= 127 && -128 <= spec_delta(mv).1 <= 127
                &&& spec_delta(mv).0 != -128
                &&& on_board(to.0, to.1)
                &&& spec_delta(mv).0 == 2 ==> from.0 + 3 < 8
                &&& spec_delta(mv).0 == -2 ==> from.0 >= 4
                &&& metadata_safe(
                    b,
                    if spec_delta(mv).0 == 2 || spec_delta(mv).0 == -2 {
                        false
                    } else {
                        b.at(to.0, to.1) is Some
                    },
                )
            },
            PieceType::Pawn => {
                if b.en_passant_target == Some(mv.to) {
                    &&& -128 <= rank_behind(b.to_move, mv.to.1) <= 127
                    &&& on_board(to.0, rank_behind(b.to_move, mv.to.1) as usize as int)
                    &&& on_board(to.0, to.1)
                    &&& metadata_safe(b, true)
                } else {
                    &&& on_board(to.0, to.1)
                    &&& metadata_safe(b, true)
                }
            },
            _ => on_board(to.0, to.1) && metadata_safe(b, b.at(to.0, to.1) is Some),
        },
    }
}

impl Board {
    /// Updates the clocks and the side to move after a move.
    pub fn update_metadata(&mut self, reset_halfmove: bool, en_passant_target: Option<Square>)
        requires
            metadata_safe(*old(self), reset_halfmove),
        ensures
            *final(self) == metadata(*old(self), reset_halfmove, en_passant_target),
    {
        if reset_halfmove {
            self.halfmove_clock = 0;
        } else {
            self.halfmove_clock += 1;
        }
        if self.to_move == Color::Black {
            self.fullmove_number += 1
        }
        self.to_move = self.to_move.opposite();
        self.en_passant_target = en_passant_target;
    }

    fn apply_transform_impl(&mut self, from: Square, to: Square, piece: Option<Piece>) -> (capture: bool)
        requires
            on_board(from.0 as int, from.1 as int),
            on_board(to.0 as int, to.1 as int),
        ensures
            (*final(self), capture) == transform(
                *old(self),
                (from.0 as int, from.1 as int),
                (to.0 as int, to.1 as int),
                piece,
            ),
    {
        let capture = self.get(to).is_some();
        self.edit_board(to, piece);
        self.edit_board(from, None);
        capture
    }

    fn apply_transform(&mut self, from: Square, to: Square) -> (capture: bool)
        requires
            on_board(from.0 as int, from.1 as int),
            on_board(to.0 as int, to.1 as int),
        ensures
            (*final(self), capture) == transform(
                *old(self),
                (from.0 as int, from.1 as int),
                (to.0 as int, to.1 as int),
                old(self).at(from.0 as int, from.1 as int),
            ),
    {
        let piece = self.get(from);
        self.apply_transform_impl(from, to, piece)
    }

    fn apply_move_impl(&mut self, chess_move: ChessMove) -> (capture: bool)
        requires
            on_board(chess_move.from.0 as int, chess_move.from.1 as int),
            on_board(chess_move.to.0 as int, chess_move.to.1 as int),
        ensures
            (*final(self), capture) == move_squares(*old(self), chess_move),
    {
        // a move from or to a rook's home corner takes away that castling right
        match chess_move.from {
            (7, 0) => {
                self.castle_rights.0 = false;
            },
            (0, 0) => {
                self.castle_rights.1 = false;
            },
            (7, 7) => {
                self.castle_rights.2 = false;
            },
            (0, 7) => {
                self.castle_rights.3 = false;
            },
            _ => {},
        }
        match chess_move.to {
            (7, 0) => {
                self.castle_rights.0 = false;
            },
            (0, 0) => {
                self.castle_rights.1 = false;
            },
            (7, 7) => {
                self.castle_rights.2 = false;
            },
            (0, 7) => {
                self.castle_rights.3 = false;
            },
            _ => {},
        }
        let piece = if let Some(ptype) = chess_move.promotion {
            Some(Piece::new(self.to_move, ptype))
        } else {
            self.get(chess_move.from)
        };
        self.apply_transform_impl(chess_move.from, chess_move.to, piece)
    }

    /// Plays `chess_move` without checking that it is legal.
    pub fn apply_move(&mut self, chess_move: ChessMove) -> (result: Result<(), MoveStatus>)
        requires
            apply_safe(*old(self), chess_move),
        ensures
            match apply_result(*old(self), chess_move) {
                Ok(b) => result is Ok && *final(self) == b,
                Err(e) => result == Err::<(), MoveStatus>(e) && *final(self) == *old(self),
            },
    {
        let piece_option = self.get(chess_move.from);
        if piece_option.is_none() {
            return Err(MoveStatus::InvalidEmptySquare);
        }
        let piece = piece_option.unwrap();
        match piece.kind {
            PieceType::King => {
                let delta = chess_move.delta();
                if abs_i8(delta.0) == 2 {
                    match delta.0 {
                        // kingside
                        2 => {
                            self.apply_move_impl(chess_move);
                            self.apply_transform(
                                (chess_move.from.0 + 3, chess_move.from.1),
                                (chess_move.to.0 - 1, chess_move.to.1),
                            );
                            match self.to_move {
                                Color::White => {
                                    self.castle_rights.0 = false;
                                    self.castle_rights.1 = false
                                },
                                Color::Black => {
                                    self.castle_rights.2 = false;
                                    self.castle_rights.3 = false
                                },
                            }
                            self.update_metadata(false, None);
                            return Ok(());
                        },
                        // queenside
                        -2 => {
                            self.apply_move_impl(chess_move);
                            self.apply_transform(
                                (chess_move.from.0 - 4, chess_move.from.1),
                                (chess_move.to.0 + 1, chess_move.to.1),
                            );
                            match self.to_move {
                                Color::White => {
                                    self.castle_rights.0 = false;
                                    self.castle_rights.1 = false
                                },
                                Color::Black => {
                                    self.castle_rights.2 = false;
                                    self.castle_rights.3 = false
                                },
                            }
                            self.update_metadata(false, None);
                            return Ok(());
                        },
                        _ => {
                            return Err(MoveStatus::Invalid);
                        },
                    }
                }
                // an ordinary king move
                let captured = self.apply_move_impl(chess_move);
                match self.to_move {
                    Color::White => {
                        self.castle_rights.0 = false;
                        self.castle_rights.1 = false
                    },
                    Color::Black => {
                        self.castle_rights.2 = false;
                        self.castle_rights.3 = false
                    },
                }
                self.update_metadata(captured, None);
                return Ok(())
            },
            PieceType::Pawn => {
                // en passant
                if let Some(target) = self.en_passant_target {
                    if chess_move.to.0 == target.0 && chess_move.to.1 == target.1 {
                        let behind = (target.1 as i8 + match self.to_move {
                            Color::White => -1,
                            Color::Black => 1,
                        }) as usize;
                        self.edit_board((target.0, behind), None);
                        self.apply_move_impl(chess_move);
                        self.update_metadata(true, None);
                        return Ok(());
                    }
                }
                // an ordinary pawn move
                self.apply_move_impl(chess_move);
                // a double step leaves an en passant target behind the pawn
                if abs_i8(chess_move.delta().1) == 2 {
                    let behind = (chess_move.to.1 as i8 + match self.to_move {
                        Color::White => -1,
                        Color::Black => 1,
                    }) as usize;
                    self.update_metadata(true, Some((chess_move.to.0, behind)));
                } else {
                    self.update_metadata(true, None);
                }
                return Ok(());
            },
            PieceType::Rook => {
                let captured = self.apply_move_impl(chess_move);
                self.update_metadata(captured, None);
                return Ok(());
            },
            _ => {
                let captured = self.apply_move_impl(chess_move);
                self.update_metadata(captured, None);
                return Ok(());
            },
        }
    }

    /// The board after `chess_move`, leaving this board as it is.
    pub fn lookahead(&self, chess_move: ChessMove) -> (result: Result<Board, MoveStatus>)
        requires
            apply_safe(*self, chess_move),
        ensures
            result == apply_result(*self, chess_move),
    {
        let mut fwd = *self;
        if fwd.get(chess_move.from).is_some() {
            match fwd.apply_move(chess_move) {
                Ok(()) => Ok(fwd),
                Err(e) => Err(e),
            }
        } else {
            Err(MoveStatus::InvalidEmptySquare)
        }
    }
}

} // verus!

verus! {

/// A move that can be played passes the turn: the other side moves next,
/// the move number goes up after a move of black, and the halfmove clock
/// either restarts or goes up by one.
pub proof fn lemma_apply_passes_turn(b: Board, mv: ChessMove)
    requires
        apply_safe(b, mv),
        apply_result(b, mv) is Ok,
    ensures
        apply_result(b, mv) matches Ok(a) && {
            &&& a.to_move == b.to_move.other()
            &&& a.fullmove_number == if b.to_move == Color::Black {
                b.fullmove_number + 1
            } else {
                b.fullmove_number as int
            }
            &&& a.halfmove_clock == 0 || a.halfmove_clock == b.halfmove_clock + 1
        },
{
}

/// Castling moves the rook too: when the king on the e-file castles
/// queenside, it lands on the c-file and the rook from the a-file lands on
/// the d-file, the square the king passed over; kingside, the king lands on
/// the g-file and the rook from the h-file on the f-file. The king's and the
/// rook's home squares are left empty and every other square of the board
/// keeps what it held.
pub proof fn lemma_castling_moves_rook(b: Board, mv: ChessMove, f2: int, r2: int)
    requires
        mv.from.0 == 4,
        mv.from.1 < 8,
        mv.to.1 == mv.from.1,
        mv.to.0 == 2 || mv.to.0 == 6,
        mv.promotion is None,
        b.at(4, mv.from.1 as int) matches Some(p) && p.kind == PieceType::King,
    ensures
        apply_result(b, mv) matches Ok(a) && {
            let r = mv.from.1 as int;
            &&& a.at(mv.to.0 as int, r) == b.at(4, r)
            &&& a.at(4, r) is None
            &&& mv.to.0 == 2 ==> {
                &&& a.at(3, r) == b.at(0, r)
                &&& a.at(0, r) is None
                &&& !(r2 == r && (f2 == 0 || f2 == 2 || f2 == 3 || f2 == 4)) ==> a.at(f2, r2) == b.at(f2, r2)
            }
            &&& mv.to.0 == 6 ==> {
                &&& a.at(5, r) == b.at(7, r)
                &&& a.at(7, r) is None
                &&& !(r2 == r && (f2 == 4 || f2 == 5 || f2 == 6 || f2 == 7)) ==> a.at(f2, r2) == b.at(f2, r2)
            }
        },
{
    let r = mv.from.1 as int;
    assert(spec_delta(mv).0 == mv.to.0 as int - 4);
    let b1 = move_squares(b, mv).0;
    assert(b1.at(mv.to.0 as int, r) == b.at(4, r));
    assert(b1.at(4, r) is None);
    assert(!(r2 == r && (f2 == 4 || f2 == mv.to.0 as int)) ==> b1.at(f2, r2) == b.at(f2, r2));
    if mv.to.0 == 2 {
        assert(b1.at(0, r) == b.at(0, r));
    } else {
        assert(b1.at(7, r) == b.at(7, r));
    }
}

/// A move that can be played leaves its origin empty and puts on its
/// destination the piece that moved, or the promoted piece. The one
/// exception is an en passant capture whose captured square is the origin.
pub proof fn lemma_apply_moves_piece(b: Board, mv: ChessMove)
    requires
        apply_safe(b, mv),
        apply_result(b, mv) is Ok,
        mv.from != mv.to,
        !(b.en_passant_target == Some(mv.to) && mv.from.0 == mv.to.0 && mv.from.1 as int == rank_behind(
            b.to_move,
            mv.to.1,
        ) as usize as int),
    ensures
        apply_result(b, mv) matches Ok(a) && {
            &&& a.at(mv.from.0 as int, mv.from.1 as int) is None
            &&& a.at(mv.to.0 as int, mv.to.1 as int) == match mv.promotion {
                Some(kind) => Some(Piece { color: b.to_move, kind }),
                None => b.at(mv.from.0 as int, mv.from.1 as int),
            }
        },
{
    let from = (mv.from.0 as int, mv.from.1 as int);
    let to = (mv.to.0 as int, mv.to.1 as int);
    let piece = b.at(from.0, from.1).unwrap();
    assert(on_board(from.0, from.1));
    assert(on_board(to.0, to.1));
    assert(from != to) by {
        if from == to {
            assert(mv.from == mv.to);
        }
    }
    if piece.kind == PieceType::Pawn && b.en_passant_target == Some(mv.to) {
        let behind = rank_behind(b.to_move, mv.to.1) as usize as int;
        let b1 = b.set_sq(to.0, behind, None);
        assert(b1.at(from.0, from.1) == b.at(from.0, from.1));
    }
}

} // verus!

verus! {

/// Whether the castling rights agree with the board: each right that is kept
/// has its king on its home square and its rook in its corner.
pub open spec fn rights_consistent(b: Board) -> bool {
    let wk = Some(Piece { color: Color::White, kind: PieceType::King });
    let wr = Some(Piece { color: Color::White, kind: PieceType::Rook });
    let bk = Some(Piece { color: Color::Black, kind: PieceType::King });
    let br = Some(Piece { color: Color::Black, kind: PieceType::Rook });
    &&& b.castle_rights.0 ==> b.at(4, 0) == wk && b.at(7, 0) == wr
    &&& b.castle_rights.1 ==> b.at(4, 0) == wk && b.at(0, 0) == wr
    &&& b.castle_rights.2 ==> b.at(4, 7) == bk && b.at(7, 7) == br
    &&& b.castle_rights.3 ==> b.at(4, 7) == bk && b.at(0, 7) == br
}

/// The squares a right looks at: the king's home square and the rook's corner.
pub open spec fn right_squares(i: int) -> ((int, int), (int, int)) {
    if i == 0 {
        ((4, 0), (7, 0))
    } else if i == 1 {
        ((4, 0), (0, 0))
    } else if i == 2 {
        ((4, 7), (7, 7))
    } else {
        ((4, 7), (0, 7))
    }
}

pub open spec fn right_of(cr: (bool, bool, bool, bool), i: int) -> bool {
    if i == 0 {
        cr.0
    } else if i == 1 {
        cr.1
    } else if i == 2 {
        cr.2
    } else {
        cr.3
    }
}

/// The colour whose right `i` is.
pub open spec fn right_color(i: int) -> Color {
    if i < 2 {
        Color::White
    } else {
        Color::Black
    }
}

/// The preconditions of [`lemma_move_keeps_rights_consistent`].
pub open spec fn rights_move_ok(b: Board, mv: ChessMove) -> bool {
    &&& rights_consistent(b)
    &&& apply_safe(b, mv)
    &&& apply_result(b, mv) is Ok
    &&& on_board(mv.from.0 as int, mv.from.1 as int)
    &&& on_board(mv.to.0 as int, mv.to.1 as int)
    &&& mv.from != mv.to
    &&& b.at(mv.from.0 as int, mv.from.1 as int) matches Some(p) && p.color == b.to_move
    &&& !(b.at(mv.to.0 as int, mv.to.1 as int) matches Some(q) && q.kind == PieceType::King)
    &&& (b.at(mv.from.0 as int, mv.from.1 as int)->0.kind == PieceType::Pawn && b.en_passant_target == Some(mv.to))
        ==> 1 <= rank_behind(b.to_move, mv.to.1) <= 6
    &&& (b.at(mv.from.0 as int, mv.from.1 as int)->0.kind == PieceType::King && (spec_delta(mv).0 == 2
        || spec_delta(mv).0 == -2)) ==> mv.from == (4usize, if b.to_move == Color::White {
        0usize
    } else {
        7usize
    })
}

proof fn lemma_move_squares_frame(b: Board, mv: ChessMove, f: int, r: int)
    requires
        on_board(mv.from.0 as int, mv.from.1 as int),
        on_board(mv.to.0 as int, mv.to.1 as int),
        !(f == mv.from.0 && r == mv.from.1),
        !(f == mv.to.0 && r == mv.to.1),
    ensures
        move_squares(b, mv).0.at(f, r) == b.at(f, r),
        move_squares(b, mv).0.castle_rights == revoke_corner(
            revoke_corner(b.castle_rights, mv.from.0 as int, mv.from.1 as int),
            mv.to.0 as int,
            mv.to.1 as int,
        ),
{
}

proof fn lemma_revoke_corner_keeps(cr: (bool, bool, bool, bool), f: int, r: int, i: int)
    requires
        0 <= i < 4,
        right_of(revoke_corner(cr, f, r), i),
    ensures
        right_of(cr, i),
        (f, r) != right_squares(i).1,
{
}

#[verifier::spinoff_prover]
#[verifier::rlimit(40)]
proof fn lemma_right_kept(b: Board, mv: ChessMove, i: int)
    requires
        rights_move_ok(b, mv),
        0 <= i < 4,
        right_of(apply_result(b, mv)->Ok_0.castle_rights, i),
    ensures
        right_of(b.castle_rights, i),
        apply_result(b, mv)->Ok_0.at(right_squares(i).0.0, right_squares(i).0.1) == b.at(
            right_squares(i).0.0,
            right_squares(i).0.1,
        ),
        apply_result(b, mv)->Ok_0.at(right_squares(i).1.0, right_squares(i).1.1) == b.at(
            right_squares(i).1.0,
            right_squares(i).1.1,
        ),
{
    let a = apply_result(b, mv)->Ok_0;
    let p = b.at(mv.from.0 as int, mv.from.1 as int)->0;
    let k = right_squares(i).0;
    let r = right_squares(i).1;
    let ms = move_squares(b, mv).0;
    let crm = revoke_corner(revoke_corner(b.castle_rights, mv.from.0 as int, mv.from.1 as int), mv.to.0 as int, mv.to.1 as int);
    assert(ms.castle_rights == crm);
    let d = spec_delta(mv);
    if p.kind == PieceType::King {
        let home: int = if b.to_move == Color::White { 0 } else { 7 };
        if d.0 == 2 || d.0 == -2 {
            let b2 = if d.0 == 2 {
                transform(ms, (mv.from.0 + 3, mv.from.1 as int), (mv.to.0 - 1, mv.to.1 as int), ms.at(mv.from.0 + 3, mv.from.1 as int)).0
            } else {
                transform(ms, (mv.from.0 - 4, mv.from.1 as int), (mv.to.0 + 1, mv.to.1 as int), ms.at(mv.from.0 - 4, mv.from.1 as int)).0
            };
            assert(a == metadata(with_rights(b2, revoke_color(b2.castle_rights, b.to_move)), false, None));
            assert(b2.castle_rights == crm);
            assert(right_color(i) != b.to_move);
            lemma_revoke_corner_keeps(revoke_corner(b.castle_rights, mv.from.0 as int, mv.from.1 as int), mv.to.0 as int, mv.to.1 as int, i);
            lemma_revoke_corner_keeps(b.castle_rights, mv.from.0 as int, mv.from.1 as int, i);
            assert(k.1 != home && r.1 != home);
            lemma_move_squares_frame(b, mv, k.0, k.1);
            lemma_move_squares_frame(b, mv, r.0, r.1);
        } else {
            let (b1, captured) = move_squares(b, mv);
            assert(a == metadata(with_rights(b1, revoke_color(b1.castle_rights, b.to_move)), captured, None));
            assert(right_color(i) != b.to_move);
            lemma_revoke_corner_keeps(revoke_corner(b.castle_rights, mv.from.0 as int, mv.from.1 as int), mv.to.0 as int, mv.to.1 as int, i);
            lemma_revoke_corner_keeps(b.castle_rights, mv.from.0 as int, mv.from.1 as int, i);
            assert((mv.from.0 as int, mv.from.1 as int) != k);
            assert((mv.to.0 as int, mv.to.1 as int) != k);
            lemma_move_squares_frame(b, mv, k.0, k.1);
            lemma_move_squares_frame(b, mv, r.0, r.1);
        }
    } else if p.kind == PieceType::Pawn && b.en_passant_target == Some(mv.to) {
        let behind = rank_behind(b.to_move, mv.to.1) as usize as int;
        let b1 = b.set_sq(mv.to.0 as int, behind, None);
        assert(a == metadata(move_squares(b1, mv).0, true, None));
        assert(1 <= behind <= 6);
        lemma_revoke_corner_keeps(revoke_corner(b1.castle_rights, mv.from.0 as int, mv.from.1 as int), mv.to.0 as int, mv.to.1 as int, i);
        lemma_revoke_corner_keeps(b.castle_rights, mv.from.0 as int, mv.from.1 as int, i);
        assert((mv.from.0 as int, mv.from.1 as int) != k);
        assert((mv.to.0 as int, mv.to.1 as int) != k);
        lemma_move_squares_frame(b1, mv, k.0, k.1);
        lemma_move_squares_frame(b1, mv, r.0, r.1);
    } else {
        lemma_revoke_corner_keeps(revoke_corner(b.castle_rights, mv.from.0 as int, mv.from.1 as int), mv.to.0 as int, mv.to.1 as int, i);
        lemma_revoke_corner_keeps(b.castle_rights, mv.from.0 as int, mv.from.1 as int, i);
        assert((mv.from.0 as int, mv.from.1 as int) != k);
        assert((mv.to.0 as int, mv.to.1 as int) != k);
        lemma_move_squares_frame(b, mv, k.0, k.1);
        lemma_move_squares_frame(b, mv, r.0, r.1);
    }
}

/// A move keeps the castling rights consistent with the board when it is
/// played by a piece of the side to move, does not capture a king, castles
/// only from the king's home square, and, when it captures en passant, takes
/// a pawn off neither the first nor the last rank.
pub proof fn lemma_move_keeps_rights_consistent(b: Board, mv: ChessMove)
    requires
        rights_move_ok(b, mv),
    ensures
        apply_result(b, mv) matches Ok(a) && rights_consistent(a),
{
    let a = apply_result(b, mv)->Ok_0;
    if a.castle_rights.0 {
        assert(right_of(a.castle_rights, 0));
        lemma_right_kept(b, mv, 0);
    }
    if a.castle_rights.1 {
        assert(right_of(a.castle_rights, 1));
        lemma_right_kept(b, mv, 1);
    }
    if a.castle_rights.2 {
        assert(right_of(a.castle_rights, 2));
        lemma_right_kept(b, mv, 2);
    }
    if a.castle_rights.3 {
        assert(right_of(a.castle_rights, 3));
        lemma_right_kept(b, mv, 3);
    }
}

} // verus!
