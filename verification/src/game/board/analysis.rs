//! The analysis of a position: the squares each piece reaches, the legal
//! moves of the side to move, the status of the game and the captures.
use crate::game::board::apply::{apply_result, apply_safe};
use crate::game::board::attack::{attack_query_safe, attackers_of, checkers_of, index_square};
use crate::game::board::movegen::{piece_squares_safe, steps_squares};
use crate::game::board::{abs_i8, on_board, spec_delta, Board, BoardStatus, ChessMove, MoveStatus, Square};
use crate::game::piece::{pattern_of, Color, Piece, PieceType};
use vstd::prelude::*;

verus! {

/// For each colour, the squares its pieces stand on, each with the squares
/// that piece reaches: `(white, black)`.
pub type RawAnal = (Vec<(Square, Vec<Square>)>, Vec<(Square, Vec<Square>)>);

/// The mathematical view of a [`RawAnal`].
pub type RawView = (Seq<(Square, Seq<Square>)>, Seq<(Square, Seq<Square>)>);

pub open spec fn entries_view(v: Seq<(Square, Vec<Square>)>) -> Seq<(Square, Seq<Square>)> {
    Seq::new(v.len(), |i: int| (v[i].0, v[i].1@))
}

pub open spec fn raw_view(raw: RawAnal) -> RawView {
    (entries_view(raw.0@), entries_view(raw.1@))
}

/// The entries of one colour.
pub open spec fn side_of(raw: RawView, c: Color) -> Seq<(Square, Seq<Square>)> {
    match c {
        Color::White => raw.0,
        Color::Black => raw.1,
    }
}

/// The squares listed for `sq` by the first entry from index `i` on whose square is `sq`.
pub open spec fn lookup_from(entries: Seq<(Square, Seq<Square>)>, sq: Square, i: int) -> Option<Seq<Square>>
    decreases entries.len() - i,
{
    if i < 0 || i >= entries.len() {
        None
    } else if entries[i].0 == sq {
        Some(entries[i].1)
    } else {
        lookup_from(entries, sq, i + 1)
    }
}

/// The squares listed for `sq`: those of the first entry whose square is `sq`.
pub open spec fn lookup(entries: Seq<(Square, Seq<Square>)>, sq: Square) -> Option<Seq<Square>> {
    lookup_from(entries, sq, 0)
}

/// The entries of colour `c` for the squares `0..n` in rank-major order.
pub open spec fn raw_side(b: Board, c: Color, n: int) -> Seq<(Square, Seq<Square>)>
    decreases n,
{
    if n <= 0 {
        Seq::empty()
    } else {
        let prev = raw_side(b, c, n - 1);
        let (f, r) = index_square(n - 1);
        match b.at(f, r) {
            Some(p) => if p.color == c {
                prev.push(((f as usize, r as usize), steps_squares(b, p, f, r, pattern_of(p.kind))))
            } else {
                prev
            },
            None => prev,
        }
    }
}

/// For each colour, the pieces in rank-major order, each with the squares it reaches.
pub open spec fn raw_of(b: Board) -> RawView {
    (raw_side(b, Color::White, 64), raw_side(b, Color::Black, 64))
}

/// The rank on which a pawn of colour `c` promotes.
pub open spec fn promotion_rank(c: Color) -> int {
    match c {
        Color::White => 7,
        Color::Black => 0,
    }
}

/// The moves tried for `piece` going from `pos` to `end`: the four promotions
/// of a pawn reaching its last rank, else the plain move.
pub open spec fn candidate_moves(piece: Piece, pos: Square, end: Square) -> Seq<ChessMove> {
    if piece.kind == PieceType::Pawn && end.1 as int == promotion_rank(piece.color) {
        seq![
            ChessMove { from: pos, to: end, promotion: Some(PieceType::Knight) },
            ChessMove { from: pos, to: end, promotion: Some(PieceType::Bishop) },
            ChessMove { from: pos, to: end, promotion: Some(PieceType::Rook) },
            ChessMove { from: pos, to: end, promotion: Some(PieceType::Queen) },
        ]
    } else {
        seq![ChessMove { from: pos, to: end, promotion: None }]
    }
}

/// The square the castling test looks at besides the king's landing square:
/// one file beyond the landing square in the direction of the move (the
/// rook's corner when castling kingside, the knight's square queenside), not
/// the square the king passes over.
pub open spec fn transit_square(mv: ChessMove) -> Square {
    ((((mv.to.0 as i8) as int + spec_delta(mv).0 / 2) as usize), mv.to.1)
}

/// The refusal for a pawn that reaches its last rank without a promotion.
pub open spec fn promotion_check(piece: Piece, mv: ChessMove) -> Result<(), MoveStatus> {
    if piece.kind == PieceType::Pawn && mv.to.1 as int == promotion_rank(piece.color) && mv.promotion is None {
        Err(MoveStatus::IllegalNoPromotionNominated)
    } else {
        Ok(())
    }
}

/// Whether `mv` is a castling move of `piece`.
pub open spec fn is_castle(piece: Piece, mv: ChessMove) -> bool {
    (spec_delta(mv).0 == 2 || spec_delta(mv).0 == -2) && piece.kind == PieceType::King
}

/// The status of `mv` on `b`, given the squares `raw` lists for each piece:
/// it must go to a listed square, must not leave its own king in check, must
/// not castle out of check, onto an attacked square, or while the square
/// [`transit_square`] names is attacked, and a pawn reaching the last rank
/// must promote.
pub open spec fn move_status_of(b: Board, raw: RawView, mv: ChessMove) -> Result<(), MoveStatus> {
    let valid = lookup(side_of(raw, b.to_move), mv.from).unwrap();
    match b.at(mv.from.0 as int, mv.from.1 as int) {
        None => Err(MoveStatus::InvalidEmptySquare),
        Some(piece) => if !valid.contains(mv.to) {
            Err(MoveStatus::Illegal)
        } else {
            match apply_result(b, mv) {
                Err(e) => Err(e),
                Ok(fwd) => if checkers_of(fwd, b.to_move).len() > 0 {
                    Err(MoveStatus::IllegalInCheck)
                } else if is_castle(piece, mv) {
                    if checkers_of(b, b.to_move).len() > 0 {
                        Err(MoveStatus::IllegalInCheck)
                    } else if attackers_of(b, (mv.to.0 as i8) as int, (mv.to.1 as i8) as int, b.to_move.other()).len()
                        > 0 || attackers_of(
                        b,
                        (transit_square(mv).0 as i8) as int,
                        (transit_square(mv).1 as i8) as int,
                        b.to_move.other(),
                    ).len() > 0 {
                        Err(MoveStatus::IllegalCastleBlocked)
                    } else {
                        promotion_check(piece, mv)
                    }
                } else {
                    promotion_check(piece, mv)
                },
            }
        },
    }
}

/// Whether computing the status of `mv` is free of faults: the square it
/// starts from must be listed, and playing it and looking at the squares it
/// passes must stay within the board and the integer types.
pub open spec fn move_status_safe(b: Board, raw: RawView, mv: ChessMove) -> bool {
    &&& lookup(side_of(raw, b.to_move), mv.from) is Some
    &&& (b.at(mv.from.0 as int, mv.from.1 as int) is Some && lookup(side_of(raw, b.to_move), mv.from).unwrap().contains(
        mv.to,
    )) ==> {
        &&& apply_safe(b, mv)
        &&& (apply_result(b, mv) matches Ok(fwd) && checkers_of(fwd, b.to_move).len() == 0) ==> {
            &&& -128 <= spec_delta(mv).0 <= 127
            &&& -128 <= spec_delta(mv).1 <= 127
            &&& spec_delta(mv).0 != -128
            &&& (is_castle(b.at(mv.from.0 as int, mv.from.1 as int).unwrap(), mv) && checkers_of(b, b.to_move).len()
                == 0) ==> {
                &&& attack_query_safe(mv.to)
                &&& -128 <= (mv.to.0 as i8) as int + spec_delta(mv).0 / 2 <= 127
                &&& attack_query_safe(transit_square(mv))
            }
        }
    }
}

/// The candidates among `cands` whose status is `Ok`, in order.
pub open spec fn passing(b: Board, raw: RawView, cands: Seq<ChessMove>) -> Seq<ChessMove>
    decreases cands.len(),
{
    if cands.len() == 0 {
        Seq::empty()
    } else {
        passing(b, raw, cands.drop_last()) + if move_status_of(b, raw, cands.last()) is Ok {
            seq![cands.last()]
        } else {
            Seq::empty()
        }
    }
}

/// The legal moves of `piece` on `pos` to the listed squares `ends`.
pub open spec fn targets_moves(b: Board, raw: RawView, piece: Piece, pos: Square, ends: Seq<Square>) -> Seq<ChessMove>
    decreases ends.len(),
{
    if ends.len() == 0 {
        Seq::empty()
    } else {
        targets_moves(b, raw, piece, pos, ends.drop_last()) + passing(b, raw, candidate_moves(piece, pos, ends.last()))
    }
}

/// The legal moves of the piece of one entry, none if its square is empty.
pub open spec fn entry_moves(b: Board, raw: RawView, e: (Square, Seq<Square>)) -> Seq<ChessMove> {
    match b.at(e.0.0 as int, e.0.1 as int) {
        None => Seq::empty(),
        Some(piece) => targets_moves(b, raw, piece, e.0, e.1),
    }
}

/// The legal moves of the pieces of the given entries, in order.
pub open spec fn entries_moves(b: Board, raw: RawView, entries: Seq<(Square, Seq<Square>)>) -> Seq<ChessMove>
    decreases entries.len(),
{
    if entries.len() == 0 {
        Seq::empty()
    } else {
        entries_moves(b, raw, entries.drop_last()) + entry_moves(b, raw, entries.last())
    }
}

/// The legal moves of the side to move of `b`, given the listed squares `raw`.
pub open spec fn legal_moves_of(b: Board, raw: RawView) -> Seq<ChessMove> {
    entries_moves(b, raw, side_of(raw, b.to_move))
}

pub open spec fn cands_safe(b: Board, raw: RawView, cands: Seq<ChessMove>) -> bool {
    forall|k: int| 0 <= k < cands.len() ==> #[trigger] move_status_safe(b, raw, cands[k])
}

pub open spec fn entry_safe(b: Board, raw: RawView, e: (Square, Seq<Square>)) -> bool {
    match b.at(e.0.0 as int, e.0.1 as int) {
        None => true,
        Some(piece) => forall|j: int|
            0 <= j < e.1.len() ==> #[trigger] cands_safe(b, raw, candidate_moves(piece, e.0, e.1[j])),
    }
}

/// Whether finding the legal moves from `raw` is free of faults.
pub open spec fn legal_moves_safe(b: Board, raw: RawView) -> bool {
    forall|i: int|
        0 <= i < side_of(raw, b.to_move).len() ==> #[trigger] entry_safe(b, raw, side_of(raw, b.to_move)[i])
}

/// Whether analysing `b` is free of faults.
pub open spec fn anal_safe(b: Board) -> bool {
    &&& forall|i: int| 0 <= i < 64 ==> #[trigger] piece_squares_safe(b, i % 8, i / 8)
    &&& legal_moves_safe(b, raw_of(b))
}

/// The first refusal of a move that starts off the board, from an empty
/// square, or with a piece of the side not to move.
pub open spec fn validate_of(b: Board, mv: ChessMove) -> Result<(), MoveStatus> {
    if mv.from.0 >= 8 || mv.from.1 >= 8 || mv.to.0 >= 8 || mv.to.1 >= 8 {
        Err(MoveStatus::InvalidOutOfBounds)
    } else {
        match b.at(mv.from.0 as int, mv.from.1 as int) {
            None => Err(MoveStatus::InvalidEmptySquare),
            Some(p) => if p.color != b.to_move {
                Err(MoveStatus::InvalidWrongTurn)
            } else {
                Ok(())
            },
        }
    }
}

pub(crate) fn raw_pieces(raw: &RawAnal, color: Color) -> (entries: &Vec<(Square, Vec<Square>)>)
    ensures
        entries_view(entries@) == side_of(raw_view(*raw), color),
{
    match color {
        Color::White => &raw.0,
        Color::Black => &raw.1,
    }
}

/// The squares listed for `square`, from the first entry whose square it is.
pub(crate) fn lookup_entry(entries: &Vec<(Square, Vec<Square>)>, square: Square) -> (found: Option<&Vec<Square>>)
    ensures
        match found {
            None => lookup(entries_view(entries@), square) is None,
            Some(v) => lookup(entries_view(entries@), square) == Some(v@),
        },
{
    let ghost es = entries_view(entries@);
    let mut i: usize = 0;
    while i < entries.len()
        invariant
            0 <= i <= entries@.len(),
            es == entries_view(entries@),
            lookup(es, square) == lookup_from(es, square, i as int),
        decreases entries@.len() - i,
    {
        let (pos, list) = &entries[i];
        if pos.0 == square.0 && pos.1 == square.1 {
            return Some(list);
        }
        i += 1;
    }
    None
}

pub(crate) fn contains_square(squares: &Vec<Square>, square: Square) -> (found: bool)
    ensures
        found == squares@.contains(square),
{
    let mut i: usize = 0;
    while i < squares.len()
        invariant
            0 <= i <= squares@.len(),
            forall|k: int| 0 <= k < i ==> squares@[k] != square,
        decreases squares@.len() - i,
    {
        if squares[i].0 == square.0 && squares[i].1 == square.1 {
            return true;
        }
        i += 1;
    }
    false
}

fn same_move(a: ChessMove, b: ChessMove) -> (same: bool)
    ensures
        same == (a == b),
{
    let same_promotion = match (a.promotion, b.promotion) {
        (None, None) => true,
        (Some(x), Some(y)) => x == y,
        _ => false,
    };
    a.from.0 == b.from.0 && a.from.1 == b.from.1 && a.to.0 == b.to.0 && a.to.1 == b.to.1 && same_promotion
}

pub(crate) fn contains_move(moves: &Vec<ChessMove>, mv: ChessMove) -> (found: bool)
    ensures
        found == moves@.contains(mv),
{
    let mut i: usize = 0;
    while i < moves.len()
        invariant
            0 <= i <= moves@.len(),
            forall|k: int| 0 <= k < i ==> moves@[k] != mv,
        decreases moves@.len() - i,
    {
        if same_move(moves[i], mv) {
            return true;
        }
        i += 1;
    }
    false
}

pub(crate) fn move_validate(board: &Board, chess_move: ChessMove) -> (status: Result<(), MoveStatus>)
    ensures
        status == validate_of(*board, chess_move),
{
    let (from_file, from_rank) = chess_move.from;
    let (to_file, to_rank) = chess_move.to;
    if from_file >= 8 || from_rank >= 8 || to_file >= 8 || to_rank >= 8 {
        return Err(MoveStatus::InvalidOutOfBounds);
    }
    let piece_option = board.squares[from_rank][from_file];
    if piece_option.is_none() {
        return Err(MoveStatus::InvalidEmptySquare);
    }
    let piece = piece_option.unwrap();
    if piece.color != board.to_move {
        return Err(MoveStatus::InvalidWrongTurn);
    }
    return Ok(());
}

fn move_status(board: &Board, anal: &RawAnal, chess_move: ChessMove) -> (status: Result<(), MoveStatus>)
    requires
        move_status_safe(*board, raw_view(*anal), chess_move),
    ensures
        status == move_status_of(*board, raw_view(*anal), chess_move),
{
    // the square is listed: a piece of the side to move stands on it
    let valid_squares = lookup_entry(raw_pieces(anal, board.to_move), chess_move.from).unwrap();
    let piece_opt = board.get(chess_move.from);
    if piece_opt.is_none() {
        return Err(MoveStatus::InvalidEmptySquare);
    }
    let piece = piece_opt.unwrap();
    if !contains_square(valid_squares, chess_move.to) {
        return Err(MoveStatus::Illegal);
    }
    let fwd = match board.lookahead(chess_move) {
        Ok(b) => b,
        Err(e) => return Err(e),
    };
    if fwd.checking_pieces(board.to_move).len() > 0 {
        return Err(MoveStatus::IllegalInCheck);
    }
    // castling may neither start in check nor cross or land on an attacked square
    if abs_i8(chess_move.delta().0) == 2 && piece.kind == PieceType::King {
        if board.checking_pieces(board.to_move).len() > 0 {
            return Err(MoveStatus::IllegalInCheck);
        }
        let delta = chess_move.delta();
        let final_attackers = board.attacking_pieces(chess_move.to, board.to_move.opposite());
        let transit_attackers = board.attacking_pieces(
            ((chess_move.to.0 as i8 + (1 * (delta.0 / 2))) as usize, chess_move.to.1),
            board.to_move.opposite(),
        );
        if final_attackers.len() > 0 || transit_attackers.len() > 0 {
            return Err(MoveStatus::IllegalCastleBlocked)
        }
    }
    // a pawn reaching its last rank must name a promotion
    if piece.kind == PieceType::Pawn && (chess_move.to.1 == match piece.color {
        Color::White => 7,
        Color::Black => 0,
    }) && chess_move.promotion.is_none() {
        return Err(MoveStatus::IllegalNoPromotionNominated);
    }
    return Ok(());
}

/// Appends the candidates among `cands` whose status is `Ok`.
fn add_passing(board: &Board, anal: &RawAnal, cands: &Vec<ChessMove>, moves: &mut Vec<ChessMove>)
    requires
        cands_safe(*board, raw_view(*anal), cands@),
    ensures
        final(moves)@ == old(moves)@ + passing(*board, raw_view(*anal), cands@),
{
    let mut k: usize = 0;
    while k < cands.len()
        invariant
            0 <= k <= cands@.len(),
            cands_safe(*board, raw_view(*anal), cands@),
            moves@ == old(moves)@ + passing(*board, raw_view(*anal), cands@.take(k as int)),
        decreases cands@.len() - k,
    {
        let mv = cands[k];
        assert(cands@.take(k as int + 1).drop_last() =~= cands@.take(k as int));
        assert(move_status_safe(*board, raw_view(*anal), cands@[k as int]));
        if move_status(board, anal, mv).is_ok() {
            moves.push(mv);
        }
        assert(moves@ =~= old(moves)@ + passing(*board, raw_view(*anal), cands@.take(k as int + 1)));
        k += 1;
    }
    assert(cands@.take(cands@.len() as int) =~= cands@);
}

pub(crate) fn candidates(piece: Piece, pos: Square, end_pos: Square) -> (cands: Vec<ChessMove>)
    ensures
        cands@ == candidate_moves(piece, pos, end_pos),
{
    let mut cands: Vec<ChessMove> = Vec::new();
    if piece.kind == PieceType::Pawn && (end_pos.1 == match piece.color {
        Color::White => 7,
        Color::Black => 0,
    }) {
        cands.push(ChessMove::new(pos, end_pos, Some(PieceType::Knight)));
        cands.push(ChessMove::new(pos, end_pos, Some(PieceType::Bishop)));
        cands.push(ChessMove::new(pos, end_pos, Some(PieceType::Rook)));
        cands.push(ChessMove::new(pos, end_pos, Some(PieceType::Queen)));
    } else {
        cands.push(ChessMove::new(pos, end_pos, None));
    }
    assert(cands@ =~= candidate_moves(piece, pos, end_pos));
    cands
}

/// The legal moves of the side to move, in the order of the listed pieces and squares.
fn legal_moves(board: &Board, anal: &RawAnal) -> (moves: Vec<ChessMove>)
    requires
        legal_moves_safe(*board, raw_view(*anal)),
    ensures
        moves@ == legal_moves_of(*board, raw_view(*anal)),
{
    let ghost raw = raw_view(*anal);
    let mut legal_moves: Vec<ChessMove> = Vec::new();
    let entries = raw_pieces(anal, board.to_move);
    let ghost side = side_of(raw, board.to_move);
    let mut i: usize = 0;
    while i < entries.len()
        invariant
            raw == raw_view(*anal),
            side == side_of(raw, board.to_move),
            entries_view(entries@) == side,
            legal_moves_safe(*board, raw),
            0 <= i <= side.len(),
            legal_moves@ == entries_moves(*board, raw, side.take(i as int)),
        decreases side.len() - i,
    {
        let (pos, move_list) = &entries[i];
        assert(side.take(i as int + 1).drop_last() =~= side.take(i as int));
        assert(entry_safe(*board, raw, side[i as int]));
        let piece_opt = board.get(*pos);
        if piece_opt.is_none() {
            assert(legal_moves@ =~= entries_moves(*board, raw, side.take(i as int + 1)));
            i += 1;
            continue;
        }
        let piece = piece_opt.unwrap();
        let ghost before = legal_moves@;
        let mut j: usize = 0;
        while j < move_list.len()
            invariant
                raw == raw_view(*anal),
                side == side_of(raw, board.to_move),
                0 <= i < side.len(),
                side[i as int] == (*pos, move_list@),
                board.at(pos.0 as int, pos.1 as int) == Some(piece),
                entry_safe(*board, raw, side[i as int]),
                0 <= j <= move_list@.len(),
                legal_moves@ == before + targets_moves(*board, raw, piece, *pos, move_list@.take(j as int)),
            decreases move_list@.len() - j,
        {
            let end_pos = move_list[j];
            assert(move_list@.take(j as int + 1).drop_last() =~= move_list@.take(j as int));
            assert(cands_safe(*board, raw, candidate_moves(piece, side[i as int].0, side[i as int].1[j as int])));
            let cands = candidates(piece, *pos, end_pos);
            add_passing(board, anal, &cands, &mut legal_moves);
            assert(legal_moves@ =~= before + targets_moves(*board, raw, piece, *pos, move_list@.take(j as int + 1)));
            j += 1;
        }
        assert(move_list@.take(move_list@.len() as int) =~= move_list@);
        assert(legal_moves@ =~= entries_moves(*board, raw, side.take(i as int + 1)));
        i += 1;
    }
    assert(side.take(side.len() as int) =~= side);
    legal_moves
}

} // verus!

verus! {

/// An analysis of a board: the squares each piece reaches, the legal moves of
/// the side to move, and the board itself.
pub struct BoardAnal {
    pub raw: RawAnal,
    pub legal_moves: Vec<ChessMove>,
    pub board: Board,
}

/// The status of a game: check when the king of the side to move is attacked,
/// mate when that side has no legal move.
pub open spec fn status_of(check: bool, mate: bool) -> BoardStatus {
    if check && mate {
        BoardStatus::Checkmate
    } else if check && !mate {
        BoardStatus::Check
    } else if !check && mate {
        BoardStatus::Stalemate
    } else {
        BoardStatus::Normal
    }
}

/// The squares of the given entries.
pub open spec fn keys(entries: Seq<(Square, Seq<Square>)>) -> Seq<Square> {
    Seq::new(entries.len(), |i: int| entries[i].0)
}

/// The mathematical view of an analysis.
pub struct AnalView {
    pub raw: RawView,
    pub legal: Seq<ChessMove>,
    pub board: Board,
}

impl View for BoardAnal {
    type V = AnalView;

    open spec fn view(&self) -> AnalView {
        AnalView { raw: raw_view(self.raw), legal: self.legal_moves@, board: self.board }
    }
}

/// The analysis of `b`, viewed.
pub open spec fn analysis_of(b: Board) -> AnalView {
    AnalView { raw: raw_of(b), legal: legal_moves_of(b, raw_of(b)), board: b }
}

impl AnalView {
    /// Whether `mv` is legal: a listed legal move, or else a move that passes
    /// validation and whose status is `Ok`.
    pub open spec fn is_legal_of(self, mv: ChessMove) -> Result<(), MoveStatus> {
        if self.legal.contains(mv) {
            Ok(())
        } else {
            match validate_of(self.board, mv) {
                Err(e) => Err(e),
                Ok(()) => move_status_of(self.board, self.raw, mv),
            }
        }
    }

    /// Whether testing the legality of `mv` is free of faults.
    pub open spec fn is_legal_safe(self, mv: ChessMove) -> bool {
        self.legal.contains(mv) || validate_of(self.board, mv) is Err || move_status_safe(
            self.board,
            self.raw,
            mv,
        )
    }

    /// Whether `sq` holds a piece of the opponent of `color`, or is the en passant target.
    pub open spec fn is_enemy_square(self, color: Color, sq: Square) -> bool {
        keys(side_of(self.raw, color.other())).contains(sq) || self.board.en_passant_target == Some(sq)
    }

    /// The captures of the piece on `start` onto `sq`: the four promotions of a
    /// pawn reaching its last rank when promoting to a queen is legal, else
    /// the plain move when it is legal.
    pub open spec fn capture_moves(self, start: Square, sq: Square) -> Seq<ChessMove> {
        match self.board.at(start.0 as int, start.1 as int) {
            None => Seq::empty(),
            Some(piece) => if piece.kind == PieceType::Pawn && sq.1 as int == promotion_rank(piece.color) {
                if self.is_legal_of(ChessMove { from: start, to: sq, promotion: Some(PieceType::Queen) }) is Ok {
                    seq![
                        ChessMove { from: start, to: sq, promotion: Some(PieceType::Queen) },
                        ChessMove { from: start, to: sq, promotion: Some(PieceType::Rook) },
                        ChessMove { from: start, to: sq, promotion: Some(PieceType::Bishop) },
                        ChessMove { from: start, to: sq, promotion: Some(PieceType::Knight) },
                    ]
                } else {
                    Seq::empty()
                }
            } else if self.is_legal_of(ChessMove { from: start, to: sq, promotion: None }) is Ok {
                seq![ChessMove { from: start, to: sq, promotion: None }]
            } else {
                Seq::empty()
            },
        }
    }

    /// Whether looking at the captures of the piece on `start` onto `sq` is free of faults.
    pub open spec fn capture_safe(self, start: Square, sq: Square) -> bool {
        match self.board.at(start.0 as int, start.1 as int) {
            None => true,
            Some(piece) => if piece.kind == PieceType::Pawn && sq.1 as int == promotion_rank(piece.color) {
                self.is_legal_safe(ChessMove { from: start, to: sq, promotion: Some(PieceType::Queen) })
            } else {
                self.is_legal_safe(ChessMove { from: start, to: sq, promotion: None })
            },
        }
    }

    /// The captures from `start` onto the listed squares, each square taken at
    /// its first occurrence only.
    pub open spec fn list_captures(self, color: Color, start: Square, list: Seq<Square>) -> Seq<ChessMove>
        decreases list.len(),
    {
        if list.len() == 0 {
            Seq::empty()
        } else {
            self.list_captures(color, start, list.drop_last()) + if !list.drop_last().contains(list.last())
                && self.is_enemy_square(color, list.last()) {
                self.capture_moves(start, list.last())
            } else {
                Seq::empty()
            }
        }
    }

    pub open spec fn entries_captures(self, color: Color, entries: Seq<(Square, Seq<Square>)>) -> Seq<ChessMove>
        decreases entries.len(),
    {
        if entries.len() == 0 {
            Seq::empty()
        } else {
            self.entries_captures(color, entries.drop_last()) + self.list_captures(
                color,
                entries.last().0,
                entries.last().1,
            )
        }
    }

    /// The legal captures of the pieces of `color`: moves onto a piece of the
    /// other colour or onto the en passant target.
    pub open spec fn captures_of(self, color: Color) -> Seq<ChessMove> {
        self.entries_captures(color, side_of(self.raw, color))
    }

    pub open spec fn captures_safe(self, color: Color) -> bool {
        forall|i: int, j: int|
            0 <= i < side_of(self.raw, color).len() && 0 <= j < side_of(
                self.raw,
                color,
            )[i].1.len() && !side_of(self.raw, color)[i].1.take(j).contains(
                side_of(self.raw, color)[i].1[j],
            ) && self.is_enemy_square(color, side_of(self.raw, color)[i].1[j]) ==> #[trigger] self.capture_safe(
                side_of(self.raw, color)[i].0,
                side_of(self.raw, color)[i].1[j],
            )
    }

}

impl BoardAnal {
    /// Whether this is the analysis of `b`.
    pub open spec fn analyses(self, b: Board) -> bool {
        self@ == analysis_of(b)
    }

    pub fn new(raw: RawAnal, legal_moves: Vec<ChessMove>, board: Board) -> (anal: BoardAnal)
        ensures
            anal == (BoardAnal { raw, legal_moves, board }),
    {
        BoardAnal { raw: raw, legal_moves: legal_moves, board: board }
    }

    /// The entries of the pieces of `color`.
    pub fn pieces(&self, color: Color) -> (entries: &Vec<(Square, Vec<Square>)>)
        ensures
            entries_view(entries@) == side_of(raw_view(self.raw), color),
    {
        raw_pieces(&self.raw, color)
    }

    pub fn is_legal(&self, chess_move: ChessMove) -> (status: Result<(), MoveStatus>)
        requires
            self@.is_legal_safe(chess_move),
        ensures
            status == self@.is_legal_of(chess_move),
    {
        let legal = contains_move(&self.legal_moves, chess_move);
        if legal {
            return Ok(());
        }
        match move_validate(&self.board, chess_move) {
            Err(e) => return Err(e),
            Ok(()) => {},
        }
        move_status(&self.board, &self.raw, chess_move)
    }

    pub fn board_status(&self) -> (status: BoardStatus)
        ensures
            status == status_of(
                checkers_of(self.board, self.board.to_move).len() > 0,
                self.legal_moves@.len() == 0,
            ),
    {
        let check = self.board.checking_pieces(self.board.to_move).len() > 0;
        let mate = self.legal_moves.len() == 0;
        if check && mate {
            return BoardStatus::Checkmate;
        }
        if check && !mate {
            return BoardStatus::Check;
        }
        if !check && mate {
            return BoardStatus::Stalemate;
        }
        return BoardStatus::Normal
    }

    /// The analysis of the board after `chess_move`.
    pub fn lookahead(&self, chess_move: ChessMove) -> (result: Result<BoardAnal, MoveStatus>)
        requires
            apply_safe(self.board, chess_move),
            apply_result(self.board, chess_move) matches Ok(b) ==> anal_safe(b),
        ensures
            match apply_result(self.board, chess_move) {
                Err(e) => result matches Err(e2) && e2 == e,
                Ok(b) => result matches Ok(a) && a.analyses(b),
            },
    {
        let board = match self.board.lookahead(chess_move) {
            Ok(b) => b,
            Err(e) => return Err(e),
        };
        return Ok(board.anal());
    }

    /// The legal captures of the pieces of `color`, including captures en passant.
    #[verifier::rlimit(40)]
    pub fn captures(&self, color: Color) -> (captures: Vec<ChessMove>)
        requires
            self@.captures_safe(color),
        ensures
            captures@ == self@.captures_of(color),
    {
        let mut captures: Vec<ChessMove> = Vec::new();
        let own = self.pieces(color);
        let enemy = self.pieces(color.opposite());
        let ghost side = side_of(raw_view(self.raw), color);
        let mut i: usize = 0;
        while i < own.len()
            invariant
                side == side_of(raw_view(self.raw), color),
                entries_view(own@) == side,
                entries_view(enemy@) == side_of(raw_view(self.raw), color.other()),
                self@.captures_safe(color),
                0 <= i <= side.len(),
                captures@ == self@.entries_captures(color, side.take(i as int)),
            decreases side.len() - i,
        {
            let (start, move_list) = &own[i];
            assert(side.take(i as int + 1).drop_last() =~= side.take(i as int));
            let ghost before = captures@;
            let mut j: usize = 0;
            while j < move_list.len()
                invariant
                    side == side_of(raw_view(self.raw), color),
                    entries_view(enemy@) == side_of(raw_view(self.raw), color.other()),
                    self@.captures_safe(color),
                    0 <= i < side.len(),
                    side[i as int] == (*start, move_list@),
                    0 <= j <= move_list@.len(),
                    captures@ == before + self@.list_captures(color, *start, move_list@.take(j as int)),
                decreases move_list@.len() - j,
            {
                let capture_square = move_list[j];
                assert(move_list@.take(j as int + 1).drop_last() =~= move_list@.take(j as int));
                let first = !contains_square_before(move_list, j, capture_square);
                let is_enemy = has_key(enemy, capture_square) || match self.board.en_passant_target {
                    Some(sq) => sq.0 == capture_square.0 && sq.1 == capture_square.1,
                    None => false,
                };
                if first && is_enemy {
                    assert(self@.capture_safe(side[i as int].0, side[i as int].1[j as int]));
                    if let Some(piece) = self.board.get(*start) {
                        if piece.kind == PieceType::Pawn && (capture_square.1 == match piece.color {
                            Color::White => 7,
                            Color::Black => 0,
                        }) {
                            // the four promotions stand or fall together
                            if self.is_legal(ChessMove::new(*start, capture_square, Some(PieceType::Queen))).is_ok() {
                                captures.push(ChessMove::new(*start, capture_square, Some(PieceType::Queen)));
                                captures.push(ChessMove::new(*start, capture_square, Some(PieceType::Rook)));
                                captures.push(ChessMove::new(*start, capture_square, Some(PieceType::Bishop)));
                                captures.push(ChessMove::new(*start, capture_square, Some(PieceType::Knight)));
                            }
                        } else {
                            let mv = ChessMove::new(*start, capture_square, None);
                            if self.is_legal(mv).is_ok() {
                                captures.push(ChessMove::new(*start, capture_square, None));
                            }
                        }
                    }
                }
                assert(captures@ =~= before + self@.list_captures(color, *start, move_list@.take(j as int + 1)));
                j += 1;
            }
            assert(move_list@.take(move_list@.len() as int) =~= move_list@);
            assert(captures@ =~= self@.entries_captures(color, side.take(i as int + 1)));
            i += 1;
        }
        assert(side.take(side.len() as int) =~= side);
        captures
    }
}

/// Whether `square` occurs in `squares` before index `j`.
pub(crate) fn contains_square_before(squares: &Vec<Square>, j: usize, square: Square) -> (found: bool)
    requires
        j <= squares@.len(),
    ensures
        found == squares@.take(j as int).contains(square),
{
    let mut i: usize = 0;
    while i < j
        invariant
            0 <= i <= j <= squares@.len(),
            forall|k: int| 0 <= k < i ==> squares@[k] != square,
        decreases j - i,
    {
        if squares[i].0 == square.0 && squares[i].1 == square.1 {
            assert(squares@.take(j as int)[i as int] == square);
            return true;
        }
        i += 1;
    }
    assert(!squares@.take(j as int).contains(square)) by {
        assert(forall|k: int| 0 <= k < j ==> squares@.take(j as int)[k] == squares@[k]);
    }
    false
}

/// Whether some entry stands on `square`.
pub(crate) fn has_key(entries: &Vec<(Square, Vec<Square>)>, square: Square) -> (found: bool)
    ensures
        found == keys(entries_view(entries@)).contains(square),
{
    let ghost ks = keys(entries_view(entries@));
    let mut i: usize = 0;
    while i < entries.len()
        invariant
            0 <= i <= entries@.len(),
            ks == keys(entries_view(entries@)),
            ks.len() == entries@.len(),
            forall|k: int| 0 <= k < i ==> ks[k] != square,
        decreases entries@.len() - i,
    {
        if entries[i].0.0 == square.0 && entries[i].0.1 == square.1 {
            assert(ks[i as int] == square);
            return true;
        }
        i += 1;
    }
    false
}

impl Board {
    /// For each colour, the pieces in rank-major order, each with the squares it reaches.
    pub(crate) fn raw_analysis(&self) -> (raw: RawAnal)
        requires
            forall|i: int| 0 <= i < 64 ==> #[trigger] piece_squares_safe(*self, i % 8, i / 8),
        ensures
            raw_view(raw) == raw_of(*self),
    {
        let mut raw: RawAnal = (Vec::new(), Vec::new());
        let mut rindex: usize = 0;
        while rindex < 8
            invariant
                0 <= rindex <= 8,
                forall|i: int| 0 <= i < 64 ==> #[trigger] piece_squares_safe(*self, i % 8, i / 8),
                raw_view(raw) == (
                    raw_side(*self, Color::White, rindex * 8),
                    raw_side(*self, Color::Black, rindex * 8),
                ),
            decreases 8 - rindex,
        {
            let mut findex: usize = 0;
            while findex < 8
                invariant
                    0 <= rindex < 8,
                    0 <= findex <= 8,
                    forall|i: int| 0 <= i < 64 ==> #[trigger] piece_squares_safe(*self, i % 8, i / 8),
                    raw_view(raw) == (
                        raw_side(*self, Color::White, rindex * 8 + findex),
                        raw_side(*self, Color::Black, rindex * 8 + findex),
                    ),
                decreases 8 - findex,
            {
                let ghost n = rindex * 8 + findex;
                assert(n % 8 == findex && n / 8 == rindex);
                assert(index_square(n) == (findex as int, rindex as int));
                assert(piece_squares_safe(*self, n % 8, n / 8));
                let ghost old_raw = raw;
                if let Some(piece) = self.get((findex, rindex)) {
                    let piece_square_result = self.get_piece_squares((findex, rindex));
                    if let Some(piece_squares) = piece_square_result {
                        match piece.color {
                            Color::White => {
                                raw.0.push(((findex, rindex), piece_squares));
                                assert(entries_view(raw.0@) =~= entries_view(old_raw.0@).push(
                                    ((findex, rindex), steps_squares(*self, piece, findex as int, rindex as int, pattern_of(piece.kind))),
                                ));
                            },
                            Color::Black => {
                                raw.1.push(((findex, rindex), piece_squares));
                                assert(entries_view(raw.1@) =~= entries_view(old_raw.1@).push(
                                    ((findex, rindex), steps_squares(*self, piece, findex as int, rindex as int, pattern_of(piece.kind))),
                                ));
                            },
                        }
                    }
                }
                findex += 1;
            }
            rindex += 1;
        }
        raw
    }

    /// The analysis of this board: for each colour the squares each piece
    /// reaches, and the legal moves of the side to move.
    pub fn anal(&self) -> (analysis: BoardAnal)
        requires
            anal_safe(*self),
        ensures
            analysis.analyses(*self),
    {
        let raw = self.raw_analysis();
        let legal = legal_moves(self, &raw);
        BoardAnal::new(raw, legal, *self)
    }

    /// Plays `chess_move` if `anal` finds it legal.
    pub fn try_move(&mut self, anal: &BoardAnal, chess_move: ChessMove) -> (result: Result<(), MoveStatus>)
        requires
            anal@.is_legal_safe(chess_move),
            anal@.is_legal_of(chess_move) is Ok ==> apply_safe(*old(self), chess_move),
        ensures
            match anal@.is_legal_of(chess_move) {
                Err(e) => result == Err::<(), MoveStatus>(e) && *final(self) == *old(self),
                Ok(()) => match apply_result(*old(self), chess_move) {
                    Ok(b) => result is Ok && *final(self) == b,
                    Err(e) => result == Err::<(), MoveStatus>(e) && *final(self) == *old(self),
                },
            },
    {
        match anal.is_legal(chess_move) {
            Err(e) => return Err(e),
            Ok(()) => {},
        }
        self.apply_move(chess_move)
    }
}

} // verus!

verus! {

proof fn lemma_passing_ok(b: Board, raw: RawView, cands: Seq<ChessMove>, m: ChessMove)
    requires
        passing(b, raw, cands).contains(m),
    ensures
        move_status_of(b, raw, m) is Ok,
    decreases cands.len(),
{
    if cands.len() > 0 {
        let prev = passing(b, raw, cands.drop_last());
        let tail = if move_status_of(b, raw, cands.last()) is Ok {
            seq![cands.last()]
        } else {
            Seq::empty()
        };
        let k = choose|k: int| 0 <= k < passing(b, raw, cands).len() && passing(b, raw, cands)[k] == m;
        if k < prev.len() {
            assert(prev[k] == m);
            lemma_passing_ok(b, raw, cands.drop_last(), m);
        } else {
            assert(tail[k - prev.len()] == m);
        }
    }
}

proof fn lemma_targets_ok(b: Board, raw: RawView, piece: Piece, pos: Square, ends: Seq<Square>, m: ChessMove)
    requires
        targets_moves(b, raw, piece, pos, ends).contains(m),
    ensures
        move_status_of(b, raw, m) is Ok,
    decreases ends.len(),
{
    if ends.len() > 0 {
        let prev = targets_moves(b, raw, piece, pos, ends.drop_last());
        let tail = passing(b, raw, candidate_moves(piece, pos, ends.last()));
        let k = choose|k: int| 0 <= k < targets_moves(b, raw, piece, pos, ends).len() && targets_moves(b, raw, piece, pos, ends)[k] == m;
        if k < prev.len() {
            assert(prev[k] == m);
            lemma_targets_ok(b, raw, piece, pos, ends.drop_last(), m);
        } else {
            assert(tail[k - prev.len()] == m);
            lemma_passing_ok(b, raw, candidate_moves(piece, pos, ends.last()), m);
        }
    }
}

proof fn lemma_entries_ok(b: Board, raw: RawView, entries: Seq<(Square, Seq<Square>)>, m: ChessMove)
    requires
        entries_moves(b, raw, entries).contains(m),
    ensures
        move_status_of(b, raw, m) is Ok,
    decreases entries.len(),
{
    if entries.len() > 0 {
        let prev = entries_moves(b, raw, entries.drop_last());
        let tail = entry_moves(b, raw, entries.last());
        let k = choose|k: int| 0 <= k < entries_moves(b, raw, entries).len() && entries_moves(b, raw, entries)[k] == m;
        if k < prev.len() {
            assert(prev[k] == m);
            lemma_entries_ok(b, raw, entries.drop_last(), m);
        } else {
            assert(tail[k - prev.len()] == m);
            let e = entries.last();
            if let Some(piece) = b.at(e.0.0 as int, e.0.1 as int) {
                lemma_targets_ok(b, raw, piece, e.0, e.1, m);
            }
        }
    }
}

/// Every move that the legal move list holds has status `Ok`: it can be
/// played, it starts from a piece, and afterwards no piece gives check to the
/// king of the side that played it.
pub proof fn lemma_legal_move_keeps_king_safe(b: Board, raw: RawView, m: ChessMove)
    requires
        legal_moves_of(b, raw).contains(m),
    ensures
        move_status_of(b, raw, m) is Ok,
        b.at(m.from.0 as int, m.from.1 as int) is Some,
        apply_result(b, m) matches Ok(after) && checkers_of(after, b.to_move).len() == 0,
{
    lemma_entries_ok(b, raw, side_of(raw, b.to_move), m);
}

/// A king may not castle out of check: while the side to move is in check,
/// a move of its king by two files has a refusing status whatever squares
/// are listed, is not among the legal moves, and the legality test refuses
/// it.
pub proof fn lemma_no_castling_out_of_check(b: Board, raw: RawView, mv: ChessMove)
    requires
        b.at(mv.from.0 as int, mv.from.1 as int) matches Some(p) && p.kind == PieceType::King,
        spec_delta(mv).0 == 2 || spec_delta(mv).0 == -2,
        checkers_of(b, b.to_move).len() > 0,
    ensures
        move_status_of(b, raw, mv) is Err,
        !analysis_of(b).legal.contains(mv),
        analysis_of(b).is_legal_of(mv) is Err,
{
    if analysis_of(b).legal.contains(mv) {
        lemma_legal_move_keeps_king_safe(b, raw_of(b), mv);
    }
}

/// The entries for colour `c` of an analysed board stand on squares that
/// hold a piece of colour `c`.
pub proof fn lemma_raw_side_keys(b: Board, c: Color, n: int, sq: Square)
    requires
        keys(raw_side(b, c, n)).contains(sq),
    ensures
        on_board(sq.0 as int, sq.1 as int),
        b.at(sq.0 as int, sq.1 as int) matches Some(p) && p.color == c,
    decreases n,
{
    if n > 0 {
        let prev = raw_side(b, c, n - 1);
        let ks = keys(raw_side(b, c, n));
        let k = choose|k: int| 0 <= k < ks.len() && ks[k] == sq;
        if k < prev.len() {
            assert(keys(prev)[k] == sq);
            lemma_raw_side_keys(b, c, n - 1, sq);
        } else {
            assert(0 <= (n - 1) % 8 < 8 && 0 <= (n - 1) / 8 < 8) by {
                if n > 64 {
                }
            }
        }
    }
}

} // verus!

verus! {

proof fn lemma_list_captures_legal(a: AnalView, color: Color, start: Square, list: Seq<Square>, m: ChessMove)
    requires
        a.list_captures(color, start, list).contains(m),
    ensures
        m.promotion is None || m.promotion == Some(PieceType::Queen) ==> a.is_legal_of(m) is Ok,
        m.from == start,
        list.contains(m.to),
        a.is_enemy_square(color, m.to),
    decreases list.len(),
{
    if list.len() > 0 {
        let prev = a.list_captures(color, start, list.drop_last());
        let whole = a.list_captures(color, start, list);
        let k = choose|k: int| 0 <= k < whole.len() && whole[k] == m;
        if k < prev.len() {
            assert(prev[k] == m);
            lemma_list_captures_legal(a, color, start, list.drop_last(), m);
            let j = choose|j: int| 0 <= j < list.drop_last().len() && list.drop_last()[j] == m.to;
            assert(list[j] == m.to);
        } else {
            let tail = a.capture_moves(start, list.last());
            assert(tail[k - prev.len()] == m);
            assert(list[list.len() - 1] == list.last());
        }
    }
}

proof fn lemma_entries_captures_legal(a: AnalView, color: Color, entries: Seq<(Square, Seq<Square>)>, m: ChessMove)
    requires
        a.entries_captures(color, entries).contains(m),
    ensures
        m.promotion is None || m.promotion == Some(PieceType::Queen) ==> a.is_legal_of(m) is Ok,
        exists|i: int| 0 <= i < entries.len() && (#[trigger] entries[i]).0 == m.from && entries[i].1.contains(m.to),
        a.is_enemy_square(color, m.to),
    decreases entries.len(),
{
    if entries.len() > 0 {
        let prev = a.entries_captures(color, entries.drop_last());
        let whole = a.entries_captures(color, entries);
        let k = choose|k: int| 0 <= k < whole.len() && whole[k] == m;
        if k < prev.len() {
            assert(prev[k] == m);
            lemma_entries_captures_legal(a, color, entries.drop_last(), m);
            let i = choose|i: int| 0 <= i < entries.drop_last().len() && (#[trigger] entries.drop_last()[i]).0 == m.from
                && entries.drop_last()[i].1.contains(m.to);
            assert(entries[i] == entries.drop_last()[i]);
        } else {
            let tail = a.list_captures(color, entries.last().0, entries.last().1);
            assert(tail[k - prev.len()] == m);
            lemma_list_captures_legal(a, color, entries.last().0, entries.last().1, m);
            assert(entries[entries.len() - 1] == entries.last());
        }
    }
}

/// What a listed capture is: it starts on a piece of `color` that has an
/// entry, ends on a square that entry lists which holds a piece of the other
/// colour or is the en passant target, and, when it promotes to nothing or
/// to a queen, passes the legality test on the analysed board (an
/// under-promotion is listed beside the queen's promotion without a test of
/// its own).
pub proof fn lemma_captures_legal(a: AnalView, color: Color, m: ChessMove)
    requires
        a.captures_of(color).contains(m),
    ensures
        m.promotion is None || m.promotion == Some(PieceType::Queen) ==> a.is_legal_of(m) is Ok,
        exists|i: int|
            0 <= i < side_of(a.raw, color).len() && (#[trigger] side_of(a.raw, color)[i]).0 == m.from
                && side_of(a.raw, color)[i].1.contains(m.to),
        keys(side_of(a.raw, color.other())).contains(m.to) || a.board.en_passant_target == Some(m.to),
{
    lemma_entries_captures_legal(a, color, side_of(a.raw, color), m);
}

} // verus!
