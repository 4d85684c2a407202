//! Tests, run before a call, of the conditions under which the board
//! functions are free of faults; each tells exactly when its condition holds.
use crate::game::board::analysis::{
    analysis_of, entries_moves, keys, lemma_raw_side_keys, entry_moves, is_castle, lemma_legal_move_keeps_king_safe, lookup,
    lookup_from, passing, raw_side, targets_moves, validate_of, RawView,
    anal_safe, candidate_moves, candidates, cands_safe, contains_move, contains_square, contains_square_before,
    entries_view, entry_safe, has_key, move_validate, BoardAnal,
    legal_moves_safe, lookup_entry, move_status_safe, raw_of, raw_pieces, raw_view, side_of, transit_square,
    RawAnal,
};
use crate::game::board::apply::{apply_result, apply_safe, metadata_safe, rank_behind};
use crate::game::board::attack::{attack_query_safe, checkers_of, index_square};
use crate::game::board::movegen::{
    castle_right, has_flag, lemma_castling_needs_empty_squares, piece_squares, piece_squares_safe, starting_rank, step_safe, step_skipped_early,
};
use crate::game::board::{on_board, spec_delta, Board, ChessMove, Square};
use crate::game::piece::move_flags::{BLACK_ONLY, DOUBLEPAWN, EN_PASSANT, KINGS_CASTLE, QUEENS_CASTLE, WHITE_ONLY};
use crate::game::piece::{pattern_of, Color, Movable, Piece, PieceType};
use vstd::prelude::*;

verus! {

/// The delta of a move computed without overflow.
fn wide_delta(mv: ChessMove) -> (d: (i16, i16))
    ensures
        d.0 == spec_delta(mv).0,
        d.1 == spec_delta(mv).1,
{
    (
        (mv.to.0 as i8) as i16 - (mv.from.0 as i8) as i16,
        (mv.to.1 as i8) as i16 - (mv.from.1 as i8) as i16,
    )
}

fn metadata_is_safe(b: &Board, reset: bool) -> (ok: bool)
    ensures
        ok == metadata_safe(*b, reset),
{
    (reset || b.halfmove_clock < u32::MAX) && (b.to_move != Color::Black || b.fullmove_number < u32::MAX)
}

fn attack_query_is_safe(square: Square) -> (ok: bool)
    ensures
        ok == attack_query_safe(square),
{
    let f = square.0 as i8;
    let r = square.1 as i8;
    -126 <= f && f <= 125 && -126 <= r && r <= 125
}

impl Board {
    /// Whether [`Board::apply_move`] and [`Board::lookahead`] may be called with `mv`.
    pub fn can_apply(&self, mv: ChessMove) -> (ok: bool)
        ensures
            ok == apply_safe(*self, mv),
    {
        let to_on = mv.to.0 < 8 && mv.to.1 < 8;
        match self.get(mv.from) {
            None => true,
            Some(piece) => match piece.kind {
                PieceType::King => {
                    let d = wide_delta(mv);
                    let reset = if d.0 == 2 || d.0 == -2 {
                        false
                    } else {
                        self.get(mv.to).is_some()
                    };
                    -128 <= d.0 && d.0 <= 127 && -128 <= d.1 && d.1 <= 127 && d.0 != -128 && to_on && (d.0 != 2
                        || mv.from.0 + 3 < 8) && (d.0 != -2 || mv.from.0 >= 4) && metadata_is_safe(self, reset)
                },
                PieceType::Pawn => {
                    let is_target = match self.en_passant_target {
                        Some(t) => t.0 == mv.to.0 && t.1 == mv.to.1,
                        None => false,
                    };
                    if is_target {
                        let behind: i16 = (mv.to.1 as i8) as i16 + match self.to_move {
                            Color::White => -1,
                            Color::Black => 1,
                        };
                        assert(behind == rank_behind(self.to_move, mv.to.1));
                        if behind < -128 || behind > 127 {
                            return false;
                        }
                        let behind_rank = behind as usize;
                        mv.to.0 < 8 && behind_rank < 8 && to_on && metadata_is_safe(self, true)
                    } else {
                        to_on && metadata_is_safe(self, true)
                    }
                },
                _ => to_on && metadata_is_safe(self, self.get(mv.to).is_some()),
            },
        }
    }

    /// Whether looking at pattern entry `step` of `piece` on `(file, rank)` is free of faults.
    fn step_is_safe(&self, piece: Piece, file: usize, rank: usize, step: (i8, i8, u16)) -> (ok: bool)
        requires
            file < 8,
            rank < 8,
        ensures
            ok == step_safe(*self, piece, file as int, rank as int, step),
    {
        let flags = step.2;
        let kings_allowed = match piece.color {
            Color::White => self.castle_rights.0,
            Color::Black => self.castle_rights.2,
        };
        let queens_allowed = match piece.color {
            Color::White => self.castle_rights.1,
            Color::Black => self.castle_rights.3,
        };
        let skipped = (flags & BLACK_ONLY != 0 && piece.color != Color::Black) || (flags & WHITE_ONLY != 0
            && piece.color != Color::White) || (flags & EN_PASSANT != 0) || (flags & DOUBLEPAWN != 0 && rank
            != match piece.color {
            Color::White => 1,
            Color::Black => 6,
        }) || (flags & KINGS_CASTLE != 0 && (!kings_allowed || self.get((file + 1, rank)).is_some()));
        assert(skipped == step_skipped_early(*self, piece, file as int, rank as int, flags));
        !(!skipped && flags & QUEENS_CASTLE != 0 && queens_allowed && file == 0)
    }

    /// Whether looking at the squares the piece on `(file, rank)` reaches is free of faults.
    fn piece_squares_are_safe(&self, file: usize, rank: usize) -> (ok: bool)
        requires
            file < 8,
            rank < 8,
        ensures
            ok == piece_squares_safe(*self, file as int, rank as int),
    {
        match self.get((file, rank)) {
            None => true,
            Some(piece) => {
                let pattern = piece.kind.move_pattern();
                let mut i: usize = 0;
                while i < pattern.len()
                    invariant
                        file < 8,
                        rank < 8,
                        self.at(file as int, rank as int) == Some(piece),
                        pattern@ == pattern_of(piece.kind),
                        0 <= i <= pattern@.len(),
                        forall|k: int| 0 <= k < i ==> #[trigger] step_safe(*self, piece, file as int, rank as int, pattern@[k]),
                    decreases pattern@.len() - i,
                {
                    if !self.step_is_safe(piece, file, rank, pattern[i]) {
                        return false;
                    }
                    i += 1;
                }
                true
            },
        }
    }
}

/// Whether computing the status of `mv` from `raw` is free of faults.
fn move_status_is_safe(b: &Board, raw: &RawAnal, mv: ChessMove) -> (ok: bool)
    ensures
        ok == move_status_safe(*b, raw_view(*raw), mv),
{
    let valid = match lookup_entry(raw_pieces(raw, b.to_move), mv.from) {
        None => return false,
        Some(valid) => valid,
    };
    let piece = match b.get(mv.from) {
        None => return true,
        Some(p) => p,
    };
    if !contains_square(valid, mv.to) {
        return true;
    }
    if !b.can_apply(mv) {
        return false;
    }
    let fwd = match b.lookahead(mv) {
        Err(_) => return true,
        Ok(fwd) => fwd,
    };
    if fwd.checking_pieces(b.to_move).len() > 0 {
        return true;
    }
    let d = wide_delta(mv);
    if !(-128 <= d.0 && d.0 <= 127 && -128 <= d.1 && d.1 <= 127 && d.0 != -128) {
        return false;
    }
    if (d.0 == 2 || d.0 == -2) && piece.kind == PieceType::King && b.checking_pieces(b.to_move).len() == 0 {
        let t: i16 = (mv.to.0 as i8) as i16 + d.0 / 2;
        if t < -128 || t > 127 {
            return false;
        }
        let transit = (t as usize, mv.to.1);
        assert(transit == transit_square(mv));
        attack_query_is_safe(mv.to) && attack_query_is_safe(transit)
    } else {
        true
    }
}

impl Board {
    /// Whether [`Board::anal`] may be called on this board.
    pub fn can_analyse(&self) -> (ok: bool)
        ensures
            ok == anal_safe(*self),
    {
        let mut i: usize = 0;
        while i < 64
            invariant
                0 <= i <= 64,
                forall|k: int| 0 <= k < i ==> #[trigger] piece_squares_safe(*self, k % 8, k / 8),
            decreases 64 - i,
        {
            if !self.piece_squares_are_safe(i % 8, i / 8) {
                return false;
            }
            i += 1;
        }
        let raw = self.raw_analysis();
        let ghost rv = raw_view(raw);
        let entries = raw_pieces(&raw, self.to_move);
        let ghost side = side_of(rv, self.to_move);
        let mut e: usize = 0;
        while e < entries.len()
            invariant
                rv == raw_view(raw),
                rv == raw_of(*self),
                side == side_of(rv, self.to_move),
                entries_view(entries@) == side,
                forall|k: int| 0 <= k < 64 ==> #[trigger] piece_squares_safe(*self, k % 8, k / 8),
                0 <= e <= side.len(),
                forall|k: int| 0 <= k < e ==> #[trigger] entry_safe(*self, rv, side[k]),
            decreases side.len() - e,
        {
            let (pos, list) = &entries[e];
            assert(side[e as int] == (*pos, list@));
            if let Some(piece) = self.get(*pos) {
                let mut j: usize = 0;
                while j < list.len()
                    invariant
                        rv == raw_view(raw),
                        rv == raw_of(*self),
                        side == side_of(rv, self.to_move),
                        0 <= e < side.len(),
                        side[e as int] == (*pos, list@),
                        self.at(pos.0 as int, pos.1 as int) == Some(piece),
                        0 <= j <= list@.len(),
                        forall|k: int| 0 <= k < j ==> #[trigger] cands_safe(*self, rv, candidate_moves(piece, *pos, list@[k])),
                    decreases list@.len() - j,
                {
                    let cands = candidates(piece, *pos, list[j]);
                    let mut c: usize = 0;
                    while c < cands.len()
                        invariant
                            rv == raw_view(raw),
                            rv == raw_of(*self),
                            side == side_of(rv, self.to_move),
                            0 <= e < side.len(),
                            side[e as int] == (*pos, list@),
                            self.at(pos.0 as int, pos.1 as int) == Some(piece),
                            0 <= j < list@.len(),
                            cands@ == candidate_moves(piece, side[e as int].0, side[e as int].1[j as int]),
                            0 <= c <= cands@.len(),
                            forall|k: int| 0 <= k < c ==> #[trigger] move_status_safe(*self, rv, cands@[k]),
                        decreases cands@.len() - c,
                    {
                        if !move_status_is_safe(self, &raw, cands[c]) {
                            assert(!cands_safe(*self, rv, cands@));
                            assert(!entry_safe(*self, rv, side[e as int]));
                            assert(!legal_moves_safe(*self, rv));
                            return false;
                        }
                        c += 1;
                    }
                    j += 1;
                }
                assert(entry_safe(*self, rv, side[e as int]));
            }
            e += 1;
        }
        true
    }
}

} // verus!

verus! {

impl BoardAnal {
    /// Whether [`BoardAnal::is_legal`] may be called with `mv`.
    pub fn can_check(&self, mv: ChessMove) -> (ok: bool)
        ensures
            ok == self@.is_legal_safe(mv),
    {
        contains_move(&self.legal_moves, mv) || move_validate(&self.board, mv).is_err() || move_status_is_safe(
            &self.board,
            &self.raw,
            mv,
        )
    }

    /// Whether [`BoardAnal::captures`] may be called with `color`.
    pub fn can_list_captures(&self, color: Color) -> (ok: bool)
        ensures
            ok == self@.captures_safe(color),
    {
        let own = self.pieces(color);
        let enemy = self.pieces(color.opposite());
        let ghost side = side_of(raw_view(self.raw), color);
        let mut i: usize = 0;
        while i < own.len()
            invariant
                side == side_of(raw_view(self.raw), color),
                entries_view(own@) == side,
                entries_view(enemy@) == side_of(raw_view(self.raw), color.other()),
                0 <= i <= side.len(),
                forall|a: int, j: int|
                    0 <= a < i && 0 <= j < side[a].1.len() && !side[a].1.take(j).contains(side[a].1[j])
                        && self@.is_enemy_square(color, side[a].1[j]) ==> #[trigger] self@.capture_safe(
                        side[a].0,
                        side[a].1[j],
                    ),
            decreases side.len() - i,
        {
            let (start, move_list) = &own[i];
            assert(side[i as int] == (*start, move_list@));
            let mut j: usize = 0;
            while j < move_list.len()
                invariant
                    side == side_of(raw_view(self.raw), color),
                    entries_view(enemy@) == side_of(raw_view(self.raw), color.other()),
                    0 <= i < side.len(),
                    side[i as int] == (*start, move_list@),
                    0 <= j <= move_list@.len(),
                    forall|a: int, k: int|
                        0 <= a < i && 0 <= k < side[a].1.len() && !side[a].1.take(k).contains(side[a].1[k])
                            && self@.is_enemy_square(color, side[a].1[k]) ==> #[trigger] self@.capture_safe(
                            side[a].0,
                            side[a].1[k],
                        ),
                    forall|k: int|
                        0 <= k < j && !side[i as int].1.take(k).contains(side[i as int].1[k])
                            && self@.is_enemy_square(color, side[i as int].1[k]) ==> #[trigger] self@.capture_safe(
                            side[i as int].0,
                            side[i as int].1[k],
                        ),
                decreases move_list@.len() - j,
            {
                let sq = move_list[j];
                let first = !contains_square_before(move_list, j, sq);
                let is_enemy = has_key(enemy, sq) || match self.board.en_passant_target {
                    Some(t) => t.0 == sq.0 && t.1 == sq.1,
                    None => false,
                };
                if first && is_enemy {
                    let safe = match self.board.get(*start) {
                        None => true,
                        Some(piece) => if piece.kind == PieceType::Pawn && (sq.1 == match piece.color {
                            Color::White => 7,
                            Color::Black => 0,
                        }) {
                            self.can_check(ChessMove::new(*start, sq, Some(PieceType::Queen)))
                        } else {
                            self.can_check(ChessMove::new(*start, sq, None))
                        },
                    };
                    if !safe {
                        assert(!self@.capture_safe(side[i as int].0, side[i as int].1[j as int]));
                        return false;
                    }
                }
                j += 1;
            }
            i += 1;
        }
        true
    }
}

impl Board {
    /// Whether [`Board::try_move`] may be called with `anal` and `mv`.
    pub fn can_try(&self, anal: &BoardAnal, mv: ChessMove) -> (ok: bool)
        ensures
            ok == (anal@.is_legal_safe(mv) && (anal@.is_legal_of(mv) is Ok ==> apply_safe(*self, mv))),
    {
        if !anal.can_check(mv) {
            return false;
        }
        match anal.is_legal(mv) {
            Ok(()) => self.can_apply(mv),
            Err(_) => true,
        }
    }
}

} // verus!

verus! {

/// Whether playing the move of the piece on `from` to the listed square `to`,
/// and testing its status, is free of faults whatever promotion it names.
pub open spec fn target_safe(b: Board, from: Square, to: Square) -> bool {
    let mv = ChessMove { from, to, promotion: None };
    &&& apply_safe(b, mv)
    &&& -128 <= spec_delta(mv).0 <= 127
    &&& -128 <= spec_delta(mv).1 <= 127
    &&& spec_delta(mv).0 != -128
    &&& (b.at(from.0 as int, from.1 as int) matches Some(p) && is_castle(p, mv)) ==> {
        &&& attack_query_safe(to)
        &&& -128 <= (to.0 as i8) as int + spec_delta(mv).0 / 2 <= 127
        &&& attack_query_safe(transit_square(mv))
    }
}

/// Whether every square listed for every piece of the side to move is a
/// [`target_safe`] target.
pub open spec fn listed_safe(b: Board) -> bool {
    let side = side_of(raw_of(b), b.to_move);
    forall|i: int, j: int|
        0 <= i < side.len() && 0 <= j < side[i].1.len() ==> #[trigger] target_safe(b, side[i].0, side[i].1[j])
}

proof fn lemma_lookup_from(entries: Seq<(Square, Seq<Square>)>, sq: Square, start: int)
    requires
        0 <= start,
    ensures
        (exists|i: int| start <= i < entries.len() && entries[i].0 == sq) ==> lookup_from(entries, sq, start) is Some,
        lookup_from(entries, sq, start) matches Some(v) ==> exists|i: int|
            start <= i < entries.len() && entries[i].0 == sq && #[trigger] entries[i].1 == v,
    decreases entries.len() - start,
{
    if start < entries.len() && entries[start].0 != sq {
        lemma_lookup_from(entries, sq, start + 1);
        if exists|i: int| start <= i < entries.len() && entries[i].0 == sq {
            let i = choose|i: int| start <= i < entries.len() && entries[i].0 == sq;
            assert(i != start);
        }
    }
    if start < entries.len() && entries[start].0 == sq {
        assert(entries[start].1 == lookup_from(entries, sq, start).unwrap());
    }
}

/// Every piece of colour `c` on the squares `0..n` (rank-major) has an entry
/// for colour `c` in the analysis.
pub proof fn lemma_own_piece_listed(b: Board, c: Color, n: int, sq: Square)
    requires
        0 <= n <= 64,
        on_board(sq.0 as int, sq.1 as int),
        sq.1 * 8 + sq.0 < n,
        b.at(sq.0 as int, sq.1 as int) matches Some(p) && p.color == c,
    ensures
        exists|i: int| 0 <= i < raw_side(b, c, n).len() && #[trigger] raw_side(b, c, n)[i].0 == sq,
    decreases n,
{
    let prev = raw_side(b, c, n - 1);
    let (f, r) = index_square(n - 1);
    if sq.1 * 8 + sq.0 == n - 1 {
        assert(f == sq.0 && r == sq.1);
        let i = prev.len() as int;
        assert(raw_side(b, c, n)[i].0 == sq);
    } else {
        lemma_own_piece_listed(b, c, n - 1, sq);
        let i = choose|i: int| 0 <= i < prev.len() && #[trigger] prev[i].0 == sq;
        assert(raw_side(b, c, n)[i] == prev[i]);
    }
}

proof fn lemma_passing_sub(b: Board, raw: RawView, cands: Seq<ChessMove>, m: ChessMove)
    requires
        passing(b, raw, cands).contains(m),
    ensures
        cands.contains(m),
    decreases cands.len(),
{
    if cands.len() > 0 {
        let prev = passing(b, raw, cands.drop_last());
        let k = choose|k: int| 0 <= k < passing(b, raw, cands).len() && passing(b, raw, cands)[k] == m;
        if k < prev.len() {
            assert(prev[k] == m);
            lemma_passing_sub(b, raw, cands.drop_last(), m);
            let j = choose|j: int| 0 <= j < cands.drop_last().len() && cands.drop_last()[j] == m;
            assert(cands[j] == m);
        } else {
            assert(cands[cands.len() - 1] == m);
        }
    }
}

proof fn lemma_targets_from(b: Board, raw: RawView, piece: Piece, pos: Square, ends: Seq<Square>, m: ChessMove)
    requires
        targets_moves(b, raw, piece, pos, ends).contains(m),
    ensures
        m.from == pos,
    decreases ends.len(),
{
    if ends.len() > 0 {
        let prev = targets_moves(b, raw, piece, pos, ends.drop_last());
        let cands = candidate_moves(piece, pos, ends.last());
        let tail = passing(b, raw, cands);
        let k = choose|k: int| 0 <= k < targets_moves(b, raw, piece, pos, ends).len() && targets_moves(b, raw, piece, pos, ends)[k] == m;
        if k < prev.len() {
            assert(prev[k] == m);
            lemma_targets_from(b, raw, piece, pos, ends.drop_last(), m);
        } else {
            assert(tail[k - prev.len()] == m);
            lemma_passing_sub(b, raw, cands, m);
            let j = choose|j: int| 0 <= j < cands.len() && cands[j] == m;
        }
    }
}

proof fn lemma_entries_from(b: Board, raw: RawView, entries: Seq<(Square, Seq<Square>)>, m: ChessMove)
    requires
        entries_moves(b, raw, entries).contains(m),
    ensures
        exists|i: int| 0 <= i < entries.len() && #[trigger] entries[i].0 == m.from,
    decreases entries.len(),
{
    if entries.len() > 0 {
        let prev = entries_moves(b, raw, entries.drop_last());
        let tail = entry_moves(b, raw, entries.last());
        let k = choose|k: int| 0 <= k < entries_moves(b, raw, entries).len() && entries_moves(b, raw, entries)[k] == m;
        if k < prev.len() {
            assert(prev[k] == m);
            lemma_entries_from(b, raw, entries.drop_last(), m);
            let i = choose|i: int| 0 <= i < entries.drop_last().len() && #[trigger] entries.drop_last()[i].0 == m.from;
            assert(entries[i].0 == m.from);
        } else {
            assert(tail[k - prev.len()] == m);
            let e = entries.last();
            if let Some(piece) = b.at(e.0.0 as int, e.0.1 as int) {
                lemma_targets_from(b, raw, piece, e.0, e.1, m);
            }
            assert(entries[entries.len() - 1].0 == m.from);
        }
    }
}

/// When every listed target is safe, testing any move for legality on `b`,
/// and playing it when it is legal, is free of faults.
pub proof fn lemma_listed_safe_moves(b: Board, mv: ChessMove)
    requires
        listed_safe(b),
    ensures
        analysis_of(b).is_legal_safe(mv),
        analysis_of(b).is_legal_of(mv) is Ok ==> apply_safe(b, mv),
{
    let a = analysis_of(b);
    let raw = raw_of(b);
    let side = side_of(raw, b.to_move);
    let mv0 = ChessMove { from: mv.from, to: mv.to, promotion: None };
    assert(spec_delta(mv) == spec_delta(mv0));
    assert(apply_safe(b, mv) == apply_safe(b, mv0));
    assert(transit_square(mv) == transit_square(mv0));
    let listed = exists|i: int| 0 <= i < side.len() && #[trigger] side[i].0 == mv.from;
    if a.legal.contains(mv) {
        lemma_legal_move_keeps_king_safe(b, raw, mv);
        lemma_entries_from(b, raw, side, mv);
    } else if validate_of(b, mv) is Ok {
        assert(side == raw_side(b, b.to_move, 64));
        lemma_own_piece_listed(b, b.to_move, 64, mv.from);
    }
    if listed {
        lemma_lookup_from(side, mv.from, 0);
        let v = lookup(side, mv.from).unwrap();
        let i = choose|i: int| 0 <= i < side.len() && side[i].0 == mv.from && #[trigger] side[i].1 == v;
        if v.contains(mv.to) {
            let j = choose|j: int| 0 <= j < v.len() && v[j] == mv.to;
            assert(target_safe(b, side[i].0, side[i].1[j]));
        }
    }
}

/// Whether the square `to` listed for the piece on `from` is a [`target_safe`] target.
fn target_is_safe(b: &Board, from: Square, to: Square) -> (ok: bool)
    ensures
        ok == target_safe(*b, from, to),
{
    let mv = ChessMove::new(from, to, None);
    if !b.can_apply(mv) {
        return false;
    }
    let d = wide_delta(mv);
    if !(-128 <= d.0 && d.0 <= 127 && -128 <= d.1 && d.1 <= 127 && d.0 != -128) {
        return false;
    }
    match b.get(from) {
        Some(p) => {
            if p.kind == PieceType::King && (d.0 == 2 || d.0 == -2) {
                let t: i16 = (to.0 as i8) as i16 + d.0 / 2;
                if t < -128 || t > 127 {
                    return false;
                }
                let transit = (t as usize, to.1);
                assert(transit == transit_square(mv));
                attack_query_is_safe(to) && attack_query_is_safe(transit)
            } else {
                true
            }
        },
        None => true,
    }
}

impl BoardAnal {
    /// Whether every square listed for a piece of the side to move is a
    /// [`target_safe`] target, so that any move can be tested and played.
    pub fn targets_are_safe(&self) -> (ok: bool)
        requires
            self.analyses(self.board),
        ensures
            ok == listed_safe(self.board),
    {
        let own = self.pieces(self.board.to_move);
        let ghost side = side_of(raw_of(self.board), self.board.to_move);
        let mut i: usize = 0;
        while i < own.len()
            invariant
                entries_view(own@) == side,
                side == side_of(raw_of(self.board), self.board.to_move),
                0 <= i <= side.len(),
                forall|k: int, j: int|
                    0 <= k < i && 0 <= j < side[k].1.len() ==> #[trigger] target_safe(self.board, side[k].0, side[k].1[j]),
            decreases side.len() - i,
        {
            let (from, targets) = &own[i];
            let mut j: usize = 0;
            while j < targets.len()
                invariant
                    entries_view(own@) == side,
                    side == side_of(raw_of(self.board), self.board.to_move),
                    0 <= i < side.len(),
                    side[i as int] == (*from, targets@),
                    0 <= j <= targets@.len(),
                    forall|k: int, l: int|
                        0 <= k < i && 0 <= l < side[k].1.len() ==> #[trigger] target_safe(self.board, side[k].0, side[k].1[l]),
                    forall|l: int| 0 <= l < j ==> #[trigger] target_safe(self.board, *from, targets@[l]),
                decreases targets@.len() - j,
            {
                if !target_is_safe(&self.board, *from, targets[j]) {
                    assert(target_safe(self.board, side[i as int].0, side[i as int].1[j as int]) == false);
                    assert(!listed_safe(self.board));
                    return false;
                }
                j += 1;
            }
            assert forall|k: int, l: int| 0 <= k < i + 1 && 0 <= l < side[k].1.len() implies #[trigger] target_safe(
                self.board,
                side[k].0,
                side[k].1[l],
            ) by {
                if k == i {
                    assert(target_safe(self.board, *from, targets@[l]));
                }
            }
            i += 1;
        }
        true
    }
}

} // verus!

verus! {

/// Every legal move starts from a piece of the side to move.
pub proof fn lemma_legal_move_from_own_piece(b: Board, m: ChessMove)
    requires
        analysis_of(b).legal.contains(m),
    ensures
        b.at(m.from.0 as int, m.from.1 as int) matches Some(p) && p.color == b.to_move,
{
    let side = side_of(raw_of(b), b.to_move);
    lemma_entries_from(b, raw_of(b), side, m);
    let i = choose|i: int| 0 <= i < side.len() && #[trigger] side[i].0 == m.from;
    assert(side == raw_side(b, b.to_move, 64));
    assert(keys(side)[i] == m.from);
    lemma_raw_side_keys(b, b.to_move, 64, m.from);
}

/// Each entry of the analysis for colour `c` lists exactly the squares the
/// piece on its square reaches by its pattern.
pub proof fn lemma_raw_side_squares(b: Board, c: Color, n: int, i: int)
    requires
        0 <= i < raw_side(b, c, n).len(),
    ensures
        piece_squares(b, raw_side(b, c, n)[i].0.0 as int, raw_side(b, c, n)[i].0.1 as int) == Some(
            raw_side(b, c, n)[i].1,
        ),
    decreases n,
{
    if n > 0 {
        let prev = raw_side(b, c, n - 1);
        if i < prev.len() {
            lemma_raw_side_squares(b, c, n - 1, i);
            assert(raw_side(b, c, n)[i] == prev[i]);
        } else {
            let (f, r) = index_square(n - 1);
            assert(0 <= f < 8 && 0 <= r < 8) by {
                assert(0 <= (n - 1) % 8 < 8);
                if n - 1 >= 64 {
                } else {
                    assert(0 <= (n - 1) / 8 < 8);
                }
            }
        }
    }
}

} // verus!

verus! {

/// The analysis of a board, as a whole: the entries of each colour stand
/// exactly on the squares of that colour's pieces, each lists the squares
/// its piece reaches, and every legal move starts from a piece of the side to
/// move, can be played, and leaves that side's king out of check.
pub proof fn lemma_analysis_of(b: Board, c: Color, sq: Square, m: ChessMove)
    ensures
        keys(side_of(raw_of(b), c)).contains(sq) <==> (on_board(sq.0 as int, sq.1 as int) && (b.at(
            sq.0 as int,
            sq.1 as int,
        ) matches Some(p) && p.color == c)),
        forall|i: int|
            0 <= i < side_of(raw_of(b), c).len() ==> piece_squares(
                b,
                (#[trigger] side_of(raw_of(b), c)[i]).0.0 as int,
                side_of(raw_of(b), c)[i].0.1 as int,
            ) == Some(side_of(raw_of(b), c)[i].1),
        analysis_of(b).legal.contains(m) ==> {
            &&& b.at(m.from.0 as int, m.from.1 as int) matches Some(p) && p.color == b.to_move
            &&& apply_result(b, m) matches Ok(after) && checkers_of(after, b.to_move).len() == 0
        },
{
    let side = side_of(raw_of(b), c);
    assert(side == raw_side(b, c, 64));
    if keys(side).contains(sq) {
        lemma_raw_side_keys(b, c, 64, sq);
    }
    if on_board(sq.0 as int, sq.1 as int) && (b.at(sq.0 as int, sq.1 as int) matches Some(p) && p.color == c) {
        lemma_own_piece_listed(b, c, 64, sq);
        let i = choose|i: int| 0 <= i < side.len() && #[trigger] side[i].0 == sq;
        assert(keys(side)[i] == sq);
    }
    assert forall|i: int| 0 <= i < side.len() implies piece_squares(
        b,
        (#[trigger] side[i]).0.0 as int,
        side[i].0.1 as int,
    ) == Some(side[i].1) by {
        lemma_raw_side_squares(b, c, 64, i);
    }
    if analysis_of(b).legal.contains(m) {
        lemma_legal_move_from_own_piece(b, m);
        lemma_legal_move_keeps_king_safe(b, raw_of(b), m);
    }
}

} // verus!

verus! {

/// A legal castling move passes over empty squares only, with the right to
/// castle on that side: a legal move of a king two files towards the
/// queenside finds the three squares between the king and the rook's corner
/// empty, and one two files towards the kingside finds the two squares
/// between them empty.
pub proof fn lemma_legal_castling_over_empty_squares(b: Board, m: ChessMove)
    requires
        analysis_of(b).legal.contains(m),
        b.at(m.from.0 as int, m.from.1 as int) matches Some(p) && p.kind == PieceType::King,
        m.to.1 == m.from.1,
    ensures
        m.to.0 as int == m.from.0 - 2 ==> {
            let (f, r) = (m.from.0 as int, m.from.1 as int);
            &&& castle_right(b, b.to_move, false)
            &&& b.at(f - 1, r) is None
            &&& b.at(f - 2, r) is None
            &&& b.at(f - 3, r) is None
        },
        m.to.0 as int == m.from.0 + 2 ==> {
            let (f, r) = (m.from.0 as int, m.from.1 as int);
            &&& castle_right(b, b.to_move, true)
            &&& b.at(f + 1, r) is None
            &&& b.at(f + 2, r) is None
        },
{
    let side = side_of(raw_of(b), b.to_move);
    lemma_legal_move_from_own_piece(b, m);
    lemma_legal_move_keeps_king_safe(b, raw_of(b), m);
    assert(side == raw_side(b, b.to_move, 64));
    lemma_own_piece_listed(b, b.to_move, 64, m.from);
    let i = choose|i: int| 0 <= i < side.len() && #[trigger] side[i].0 == m.from;
    lemma_lookup_from(side, m.from, 0);
    let v = lookup(side, m.from)->0;
    let j = choose|j: int| 0 <= j < side.len() && side[j].0 == m.from && #[trigger] side[j].1 == v;
    lemma_raw_side_squares(b, b.to_move, 64, j);
    lemma_castling_needs_empty_squares(b, m.from.0 as int, m.from.1 as int, m.to);
}

} // verus!
