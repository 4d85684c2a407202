//! The squares each piece reaches by its move pattern, before any check on
//! the safety of its own king.
use crate::game::board::{on_board, Board, Square};
use crate::game::piece::move_flags::{
    BLACK_ONLY, CAPTURE_ONLY, DOUBLEPAWN, EN_PASSANT, KINGS_CASTLE, MOVE_ONLY, NON_REPEATABLE,
    QUEENS_CASTLE, WHITE_ONLY,
};
use crate::game::piece::move_patterns::KING_MOVES;
use crate::game::piece::{lemma_pattern_steps_small, pattern_of, Color, Movable, Piece, PieceType};
use vstd::prelude::*;

verus! {

/// Whether `flags` holds the bit `bit`.
pub open spec fn has_flag(flags: u16, bit: u16) -> bool {
    flags & bit != 0
}

/// How many steps in direction `(df, dr)` from `(f, r)` at most stay on the board.
pub open spec fn walk_measure(f: int, r: int, df: int, dr: int) -> int {
    if df > 0 {
        8 - f
    } else if df < 0 {
        f + 1
    } else if dr > 0 {
        8 - r
    } else {
        r + 1
    }
}

/// The squares that a piece of colour `c` on `(f, r)` reaches by repeating the
/// step `(df, dr)` under `flags`: empty squares, unless the step only captures,
/// and the first piece met if it is an enemy and the step may capture. A step
/// that does not repeat is taken once.
pub open spec fn ray_squares(b: Board, c: Color, f: int, r: int, df: int, dr: int, flags: u16) -> Seq<Square>
    decreases walk_measure(f, r, df, dr),
    when df != 0 || dr != 0
{
    let nf = f + df;
    let nr = r + dr;
    if !on_board(nf, nr) {
        Seq::empty()
    } else {
        match b.at(nf, nr) {
            Some(t) => if t.color != c && !has_flag(flags, MOVE_ONLY) {
                seq![(nf as usize, nr as usize)]
            } else {
                Seq::empty()
            },
            None => if has_flag(flags, CAPTURE_ONLY) {
                Seq::empty()
            } else if has_flag(flags, NON_REPEATABLE) {
                seq![(nf as usize, nr as usize)]
            } else {
                seq![(nf as usize, nr as usize)] + ray_squares(b, c, nf, nr, df, dr, flags)
            },
        }
    }
}

/// The rank a pawn of colour `c` starts on.
pub open spec fn starting_rank(c: Color) -> int {
    match c {
        Color::White => 1,
        Color::Black => 6,
    }
}

/// Whether colour `c` still has the right to castle on the given side.
pub open spec fn castle_right(b: Board, c: Color, kingside: bool) -> bool {
    match (c, kingside) {
        (Color::White, true) => b.castle_rights.0,
        (Color::White, false) => b.castle_rights.1,
        (Color::Black, true) => b.castle_rights.2,
        (Color::Black, false) => b.castle_rights.3,
    }
}

/// Whether a step is skipped for piece `p` on `(f, r)` before its queenside
/// castling test: a step of the other colour, an en passant step (handled on
/// its own), a double step off the starting rank, or a kingside castle that
/// is not allowed.
pub open spec fn step_skipped_early(b: Board, p: Piece, f: int, r: int, flags: u16) -> bool {
    ||| has_flag(flags, BLACK_ONLY) && p.color != Color::Black
    ||| has_flag(flags, WHITE_ONLY) && p.color != Color::White
    ||| has_flag(flags, EN_PASSANT)
    ||| has_flag(flags, DOUBLEPAWN) && r != starting_rank(p.color)
    ||| has_flag(flags, KINGS_CASTLE) && (!castle_right(b, p.color, true) || b.at(f + 1, r) is Some)
}

/// The squares piece `p` on `(f, r)` reaches by one entry of its pattern. A
/// pawn's double step needs the square it passes over to be empty; castling
/// needs every square between the king and the rook to be empty (the square
/// the king lands on is looked at by the walk).
pub open spec fn step_squares(b: Board, p: Piece, f: int, r: int, step: (i8, i8, u16)) -> Seq<Square> {
    let (df, dr, flags) = step;
    if has_flag(flags, BLACK_ONLY) && p.color != Color::Black {
        Seq::empty()
    } else if has_flag(flags, WHITE_ONLY) && p.color != Color::White {
        Seq::empty()
    } else if has_flag(flags, EN_PASSANT) {
        match b.en_passant_target {
            Some(t) => if (f + df) as usize == t.0 && (r + dr) as usize == t.1 {
                seq![t]
            } else {
                Seq::empty()
            },
            None => Seq::empty(),
        }
    } else if has_flag(flags, DOUBLEPAWN) && (r != starting_rank(p.color) || b.at(
        f,
        if dr > 0 {
            r + 1
        } else {
            r - 1
        },
    ) is Some) {
        Seq::empty()
    } else if has_flag(flags, KINGS_CASTLE) && (!castle_right(b, p.color, true) || b.at(f + 1, r) is Some) {
        Seq::empty()
    } else if has_flag(flags, QUEENS_CASTLE) && (!castle_right(b, p.color, false) || b.at(f - 1, r) is Some
        || b.at(f - 3, r) is Some) {
        Seq::empty()
    } else {
        ray_squares(b, p.color, f, r, df as int, dr as int, flags)
    }
}

/// Whether looking at one entry of the pattern is free of an arithmetic
/// fault: a queenside castle step of a piece on the first file underflows.
pub open spec fn step_safe(b: Board, p: Piece, f: int, r: int, step: (i8, i8, u16)) -> bool {
    !(!step_skipped_early(b, p, f, r, step.2) && has_flag(step.2, QUEENS_CASTLE) && castle_right(
        b,
        p.color,
        false,
    ) && f == 0)
}

/// The squares reached by the given entries of a pattern, in order.
pub open spec fn steps_squares(b: Board, p: Piece, f: int, r: int, steps: Seq<(i8, i8, u16)>) -> Seq<Square>
    decreases steps.len(),
{
    if steps.len() == 0 {
        Seq::empty()
    } else {
        steps_squares(b, p, f, r, steps.drop_last()) + step_squares(b, p, f, r, steps.last())
    }
}

/// The squares the piece on `(f, r)` reaches by its pattern, ignoring the
/// safety of its king; none when the square is empty.
pub open spec fn piece_squares(b: Board, f: int, r: int) -> Option<Seq<Square>> {
    match b.at(f, r) {
        None => None,
        Some(p) => Some(steps_squares(b, p, f, r, pattern_of(p.kind))),
    }
}

/// Whether computing the squares of the piece on `(f, r)` is free of faults.
pub open spec fn piece_squares_safe(b: Board, f: int, r: int) -> bool {
    match b.at(f, r) {
        None => true,
        Some(p) => forall|i: int|
            0 <= i < pattern_of(p.kind).len() ==> #[trigger] step_safe(b, p, f, r, pattern_of(p.kind)[i]),
    }
}

impl Board {
    /// Appends to `squares` the squares reached by repeating `(df, dr)` from
    /// `(file, rank)`.
    fn walk(&self, piece: Piece, file: i8, rank: i8, df: i8, dr: i8, flags: u16, squares: &mut Vec<Square>)
        requires
            on_board(file as int, rank as int),
            -2 <= df <= 2,
            -2 <= dr <= 2,
            df != 0 || dr != 0,
        ensures
            final(squares)@ == old(squares)@ + ray_squares(
                *self,
                piece.color,
                file as int,
                rank as int,
                df as int,
                dr as int,
                flags,
            ),
    {
        let ghost target = squares@ + ray_squares(*self, piece.color, file as int, rank as int, df as int, dr as int, flags);
        let mut f = file;
        let mut r = rank;
        loop
            invariant_except_break
                on_board(f as int, r as int),
                -2 <= df <= 2,
                -2 <= dr <= 2,
                df != 0 || dr != 0,
                squares@ + ray_squares(*self, piece.color, f as int, r as int, df as int, dr as int, flags)
                    == target,
            ensures
                squares@ == target,
            decreases walk_measure(f as int, r as int, df as int, dr as int),
        {
            let ghost (f0, r0) = (f as int, r as int);
            let ghost before = squares@;
            f += df;
            r += dr;
            if f < 0 || f >= 8 || r < 0 || r >= 8 {
                assert(squares@ =~= target);
                break;
            }
            let target_square = self.get((f as usize, r as usize));
            if let Some(target_piece) = target_square {
                if target_piece.color != piece.color && flags & MOVE_ONLY == 0 {
                    squares.push((f as usize, r as usize));
                }
                assert(squares@ =~= target);
                break;
            } else {
                if flags & CAPTURE_ONLY != 0 {
                    assert(squares@ =~= target);
                    break;
                }
                squares.push((f as usize, r as usize));
            }
            if flags & NON_REPEATABLE != 0 {
                assert(squares@ =~= target);
                break;
            }
            assert(squares@ + ray_squares(*self, piece.color, f as int, r as int, df as int, dr as int, flags)
                =~= target);
        }
    }

    /// Appends to `squares` the squares that `piece` on `(file, rank)` reaches
    /// by the pattern entry `step`.
    fn add_step_squares(&self, piece: Piece, file: usize, rank: usize, step: (i8, i8, u16), squares: &mut Vec<Square>)
        requires
            on_board(file as int, rank as int),
            -2 <= step.0 <= 2,
            -2 <= step.1 <= 2,
            step.0 != 0 || step.1 != 0,
            step_safe(*self, piece, file as int, rank as int, step),
        ensures
            final(squares)@ == old(squares)@ + step_squares(*self, piece, file as int, rank as int, step),
    {
        let (df, dr, flags) = step;
        let f = file as i8;
        let r = rank as i8;
        if flags & BLACK_ONLY != 0 && piece.color != Color::Black {
            assert(squares@ =~= old(squares)@ + step_squares(*self, piece, file as int, rank as int, step));
            return;
        }
        if flags & WHITE_ONLY != 0 && piece.color != Color::White {
            assert(squares@ =~= old(squares)@ + step_squares(*self, piece, file as int, rank as int, step));
            return;
        }
        if flags & EN_PASSANT != 0 {
            if let Some((ep_file, ep_rank)) = self.en_passant_target {
                if (f + df) as usize == ep_file && (r + dr) as usize == ep_rank {
                    squares.push((ep_file, ep_rank));
                }
            }
            assert(squares@ =~= old(squares)@ + step_squares(*self, piece, file as int, rank as int, step));
            return;
        }
        if flags & DOUBLEPAWN != 0 {
            // A pawn is taken to be unmoved while it stands on its starting rank.
            let starting_rank: usize = match piece.color {
                Color::White => 1,
                Color::Black => 6,
            };
            if rank != starting_rank {
                assert(squares@ =~= old(squares)@ + step_squares(*self, piece, file as int, rank as int, step));
                return;
            }
            // The square passed over must be empty too.
            let passed: i8 = if dr > 0 {
                r + 1
            } else {
                r - 1
            };
            if self.get((f as usize, passed as usize)).is_some() {
                assert(squares@ =~= old(squares)@ + step_squares(*self, piece, file as int, rank as int, step));
                return;
            }
        }
        if flags & KINGS_CASTLE != 0 {
            let allowed = match piece.color {
                Color::White => self.castle_rights.0,
                Color::Black => self.castle_rights.2,
            };
            // Only the next square is looked at here; the walk looks at the other one.
            if !allowed || self.get((f as usize + 1, r as usize)).is_some() {
                assert(squares@ =~= old(squares)@ + step_squares(*self, piece, file as int, rank as int, step));
                return;
            }
        }
        if flags & QUEENS_CASTLE != 0 {
            let allowed = match piece.color {
                Color::White => self.castle_rights.1,
                Color::Black => self.castle_rights.3,
            };
            if !allowed || self.get((f as usize - 1, r as usize)).is_some() {
                assert(squares@ =~= old(squares)@ + step_squares(*self, piece, file as int, rank as int, step));
                return;
            }
            // The square next to the rook must be empty too.
            if f >= 3 && self.get(((f - 3) as usize, r as usize)).is_some() {
                assert(squares@ =~= old(squares)@ + step_squares(*self, piece, file as int, rank as int, step));
                return;
            }
        }
        self.walk(piece, f, r, df, dr, flags, squares);
    }

    /// The squares the piece on `square` reaches by its pattern, ignoring
    /// the safety of its own king; `None` when the square is empty.
    pub(crate) fn get_piece_squares(&self, square: Square) -> (result: Option<Vec<Square>>)
        requires
            piece_squares_safe(*self, square.0 as int, square.1 as int),
        ensures
            match result {
                None => piece_squares(*self, square.0 as int, square.1 as int) is None,
                Some(v) => piece_squares(*self, square.0 as int, square.1 as int) == Some(v@),
            },
    {
        let (file, rank) = square;
        let piece_opt = self.get((file, rank));
        if piece_opt.is_none() {
            return None;
        }
        let piece = piece_opt.unwrap();
        let pattern = piece.kind.move_pattern();
        let ghost pat = pattern_of(piece.kind);
        let mut squares: Vec<Square> = Vec::new();
        let mut i: usize = 0;
        while i < pattern.len()
            invariant
                on_board(file as int, rank as int),
                pattern@ == pat,
                pat == pattern_of(piece.kind),
                self.at(file as int, rank as int) == Some(piece),
                piece_squares_safe(*self, file as int, rank as int),
                0 <= i <= pattern@.len(),
                squares@ == steps_squares(*self, piece, file as int, rank as int, pat.take(i as int)),
            decreases pattern@.len() - i,
        {
            let step = pattern[i];
            proof {
                lemma_pattern_steps_small(piece.kind, i as int);
                assert(step_safe(*self, piece, file as int, rank as int, pat[i as int]));
                assert(pat.take(i as int + 1).drop_last() =~= pat.take(i as int));
            }
            self.add_step_squares(piece, file, rank, step, &mut squares);
            i += 1;
        }
        assert(pat.take(i as int) =~= pat);
        Some(squares)
    }
}


proof fn lemma_steps_member(b: Board, p: Piece, f: int, r: int, steps: Seq<(i8, i8, u16)>, s: Square)
    requires
        steps_squares(b, p, f, r, steps).contains(s),
    ensures
        exists|k: int| 0 <= k < steps.len() && (#[trigger] step_squares(b, p, f, r, steps[k])).contains(s),
    decreases steps.len(),
{
    let prev = steps_squares(b, p, f, r, steps.drop_last());
    let last = step_squares(b, p, f, r, steps.last());
    let k = choose|k: int| 0 <= k < (prev + last).len() && (prev + last)[k] == s;
    if k < prev.len() {
        assert(prev[k] == s);
        lemma_steps_member(b, p, f, r, steps.drop_last(), s);
        let j = choose|j: int| 0 <= j < steps.drop_last().len() && (#[trigger] step_squares(b, p, f, r, steps.drop_last()[j])).contains(s);
        assert(steps.drop_last()[j] == steps[j]);
    } else {
        assert(last[k - prev.len()] == s);
        assert(steps[steps.len() - 1] == steps.last());
    }
}

proof fn lemma_single_step(b: Board, c: Color, f: int, r: int, df: int, dr: int, flags: u16, s: Square)
    requires
        has_flag(flags, NON_REPEATABLE),
        df != 0 || dr != 0,
    ensures
        ray_squares(b, c, f, r, df, dr, flags).contains(s) ==> {
            &&& on_board(f + df, r + dr)
            &&& s == ((f + df) as usize, (r + dr) as usize)
            &&& has_flag(flags, MOVE_ONLY) ==> b.at(f + df, r + dr) is None
        },
{
    let ray = ray_squares(b, c, f, r, df, dr, flags);
    if ray.contains(s) {
        let k = choose|k: int| 0 <= k < ray.len() && ray[k] == s;
        assert(ray.len() == 1);
    }
}

/// A king castles only over empty squares and with the right to castle:
/// when the squares the king on `(f, r)` reaches include the square two files
/// towards the queenside, that side's right is kept and the three squares
/// between the king and the rook's corner are empty; when they include the
/// square two files towards the kingside, that side's right is kept and the
/// two squares between the king and the rook's corner are empty.
pub proof fn lemma_castling_needs_empty_squares(b: Board, f: int, r: int, s: Square)
    requires
        on_board(f, r),
        b.at(f, r) matches Some(p) && p.kind == PieceType::King,
        piece_squares(b, f, r) matches Some(list) && list.contains(s),
    ensures
        s.1 as int == r && s.0 as int == f - 2 ==> {
            &&& castle_right(b, b.at(f, r)->0.color, false)
            &&& b.at(f - 1, r) is None
            &&& b.at(f - 2, r) is None
            &&& b.at(f - 3, r) is None
        },
        s.1 as int == r && s.0 as int == f + 2 ==> {
            &&& castle_right(b, b.at(f, r)->0.color, true)
            &&& b.at(f + 1, r) is None
            &&& b.at(f + 2, r) is None
        },
{
    let p = b.at(f, r)->0;
    let steps = KING_MOVES@;
    assert(pattern_of(p.kind) == steps);
    lemma_steps_member(b, p, f, r, steps, s);
    let k = choose|k: int| 0 <= k < steps.len() && (#[trigger] step_squares(b, p, f, r, steps[k])).contains(s);
    assert(1u16 & 1024u16 == 0 && 1u16 & 512u16 == 0 && 1u16 & 256u16 == 0 && 1u16 & 8u16 == 0 && 1u16 & 64u16
        == 0 && 1u16 & 128u16 == 0 && 1u16 & 1u16 != 0) by (bit_vector);
    assert(64u16 | 1u16 | 16u16 == 81u16 && 81u16 & 1024u16 == 0 && 81u16 & 512u16 == 0 && 81u16 & 256u16 == 0
        && 81u16 & 8u16 == 0 && 81u16 & 64u16 != 0 && 81u16 & 1u16 != 0 && 81u16 & 16u16 != 0) by (bit_vector);
    assert(128u16 | 1u16 | 16u16 == 145u16 && 145u16 & 1024u16 == 0 && 145u16 & 512u16 == 0 && 145u16 & 256u16
        == 0 && 145u16 & 8u16 == 0 && 145u16 & 64u16 == 0 && 145u16 & 128u16 != 0 && 145u16 & 1u16 != 0 && 145u16
        & 16u16 != 0) by (bit_vector);
    let step = steps[k];
    lemma_pattern_steps_small(p.kind, k);
    lemma_single_step(b, p.color, f, r, step.0 as int, step.1 as int, step.2, s);
}

} // verus!
