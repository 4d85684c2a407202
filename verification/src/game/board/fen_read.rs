//! Reading a board from FEN.
use crate::game::board::text::{file_of, is_file_letter, rank_of, str_chars};
use crate::game::board::{on_board, Board, Square};
use crate::game::piece::{Color, Piece, PieceType};
use vstd::prelude::*;

verus! {

broadcast use vstd::array::group_array_axioms;

/// The pieces of `s` separated by `sep`; there is always at least one.
pub open spec fn split(s: Seq<char>, sep: char) -> Seq<Seq<char>>
    decreases s.len(),
{
    if s.len() == 0 {
        seq![Seq::empty()]
    } else {
        let prev = split(s.drop_last(), sep);
        if s.last() == sep {
            prev.push(Seq::empty())
        } else {
            prev.update(prev.len() - 1, prev.last().push(s.last()))
        }
    }
}

/// The piece a FEN letter stands for.
pub open spec fn piece_of_letter(c: char) -> Option<Piece> {
    let kind = if c == 'p' || c == 'P' {
        Some(PieceType::Pawn)
    } else if c == 'r' || c == 'R' {
        Some(PieceType::Rook)
    } else if c == 'n' || c == 'N' {
        Some(PieceType::Knight)
    } else if c == 'b' || c == 'B' {
        Some(PieceType::Bishop)
    } else if c == 'q' || c == 'Q' {
        Some(PieceType::Queen)
    } else if c == 'k' || c == 'K' {
        Some(PieceType::King)
    } else {
        None
    };
    match kind {
        Some(k) => Some(Piece { color: if 'A' <= c <= 'Z' { Color::White } else { Color::Black }, kind: k }),
        None => None,
    }
}

pub open spec fn is_digit(c: char) -> bool {
    '0' <= c <= '9'
}

/// The squares one character of a FEN rank stands for: a run of empty
/// squares for a digit, else one piece.
pub open spec fn expand_char(c: char) -> Seq<Option<Piece>> {
    if is_digit(c) {
        Seq::new(((c as u32) - 48) as nat, |i: int| None::<Piece>)
    } else {
        seq![piece_of_letter(c)]
    }
}

/// The squares a FEN rank stands for, from the first file on.
pub open spec fn expand(row: Seq<char>) -> Seq<Option<Piece>>
    decreases row.len(),
{
    if row.len() == 0 {
        Seq::empty()
    } else {
        expand(row.drop_last()) + expand_char(row.last())
    }
}

/// The piece a FEN rank puts on file `f`.
pub open spec fn placed(row: Seq<char>, f: int) -> Option<Piece> {
    if 0 <= f < expand(row).len() {
        expand(row)[f]
    } else {
        None
    }
}

/// A FEN rank whose characters are piece letters or digits `1`..`8`, and
/// which puts every piece on one of the eight files.
pub open spec fn row_ok(row: Seq<char>) -> bool {
    forall|j: int|
        0 <= j < row.len() ==> (piece_of_letter(row[j]) is Some || ('1' <= row[j] <= '8')) && (
        piece_of_letter(#[trigger] row[j]) is Some ==> expand(row.take(j)).len() < 8)
}

/// The value of a string of decimal digits.
pub open spec fn decimal_value(d: Seq<char>) -> nat
    decreases d.len(),
{
    if d.len() == 0 {
        0
    } else {
        decimal_value(d.drop_last()) * 10 + ((d.last() as u32) - 48) as nat
    }
}

/// A non-empty string of decimal digits whose value fits a `u32`.
pub open spec fn numeral_ok(d: Seq<char>) -> bool {
    &&& d.len() > 0
    &&& forall|i: int| 0 <= i < d.len() ==> is_digit(#[trigger] d[i])
    &&& decimal_value(d) <= u32::MAX
}

/// A FEN string that the reader takes apart without a fault: six fields,
/// eight ranks that each fit the board, a side to move, an en passant field
/// that is `-` or a square on the third or sixth rank, and clocks that fit a `u32`.
pub open spec fn fen_wf(s: Seq<char>) -> bool {
    let fields = split(s, ' ');
    let rows = split(fields[0], '/');
    &&& fields.len() == 6
    &&& rows.len() == 8
    &&& forall|k: int| 0 <= k < 8 ==> #[trigger] row_ok(rows[k])
    &&& fields[1] =~= seq!['w'] || fields[1] =~= seq!['b']
    &&& fields[3] =~= seq!['-'] || (fields[3].len() == 2 && is_file_letter(fields[3][0]) && (fields[3][1] == '3'
        || fields[3][1] == '6'))
    &&& numeral_ok(fields[4])
    &&& numeral_ok(fields[5])
}

/// A character of a FEN rank: a piece letter or a digit `1`..`8`.
pub open spec fn is_rank_char(c: char) -> bool {
    piece_of_letter(c) is Some || ('1' <= c <= '8')
}

/// A string of one or more ASCII digits.
pub open spec fn is_numeral(d: Seq<char>) -> bool {
    d.len() > 0 && forall|i: int| 0 <= i < d.len() ==> is_digit(#[trigger] d[i])
}

/// A string with the shape of a FEN string: eight
/// non-empty ranks of piece letters and digits `1`..`8` separated by `/`,
/// `w` or `b`, one to four of `KQkq` or `-`, a square on the third or sixth
/// rank or `-`, and two numerals, the six fields separated by single spaces.
pub open spec fn fen_shape(s: Seq<char>) -> bool {
    let fields = split(s, ' ');
    let rows = split(fields[0], '/');
    &&& fields.len() == 6
    &&& rows.len() == 8
    &&& forall|k: int| 0 <= k < 8 ==> (#[trigger] rows[k]).len() > 0
    &&& forall|k: int, j: int| 0 <= k < 8 && 0 <= j < rows[k].len() ==> is_rank_char(#[trigger] rows[k][j])
    &&& fields[1] =~= seq!['w'] || fields[1] =~= seq!['b']
    &&& fields[2] =~= seq!['-'] || (1 <= fields[2].len() <= 4 && forall|j: int|
        0 <= j < fields[2].len() ==> {
            let c = #[trigger] fields[2][j];
            c == 'K' || c == 'Q' || c == 'k' || c == 'q'
        })
    &&& fields[3] =~= seq!['-'] || (fields[3].len() == 2 && is_file_letter(fields[3][0]) && (fields[3][1] == '3'
        || fields[3][1] == '6'))
    &&& is_numeral(fields[4])
    &&& is_numeral(fields[5])
}

/// Whether `b` is the board the FEN string `s` describes.
pub open spec fn fen_describes(b: Board, s: Seq<char>) -> bool {
    let fields = split(s, ' ');
    let rows = split(fields[0], '/');
    &&& forall|f: int, r: int| on_board(f, r) ==> #[trigger] b.at(f, r) == placed(rows[7 - r], f)
    &&& b.to_move == if fields[1][0] == 'w' {
        Color::White
    } else {
        Color::Black
    }
    &&& b.castle_rights == (
        fields[2].contains('K'),
        fields[2].contains('Q'),
        fields[2].contains('k'),
        fields[2].contains('q'),
    )
    &&& b.en_passant_target == if fields[3] =~= seq!['-'] {
        None::<Square>
    } else {
        Some((file_of(fields[3][0]), rank_of(fields[3][1])))
    }
    &&& b.halfmove_clock == decimal_value(fields[4])
    &&& b.fullmove_number == decimal_value(fields[5])
}

proof fn lemma_split_pieces_short(s: Seq<char>, sep: char)
    ensures
        split(s, sep).len() >= 1,
        forall|k: int| 0 <= k < split(s, sep).len() ==> (#[trigger] split(s, sep)[k]).len() <= s.len(),
    decreases s.len(),
{
    if s.len() > 0 {
        lemma_split_pieces_short(s.drop_last(), sep);
    }
}

pub open spec fn views(v: Seq<Vec<char>>) -> Seq<Seq<char>> {
    Seq::new(v.len(), |i: int| v[i]@)
}

/// The pieces of `chars` separated by `sep`.
fn split_chars(chars: &Vec<char>, sep: char) -> (fields: Vec<Vec<char>>)
    ensures
        views(fields@) == split(chars@, sep),
{
    let mut done: Vec<Vec<char>> = Vec::new();
    let mut current: Vec<char> = Vec::new();
    let mut i: usize = 0;
    while i < chars.len()
        invariant
            0 <= i <= chars@.len(),
            split(chars@.take(i as int), sep) == views(done@).push(current@),
        decreases chars@.len() - i,
    {
        let c = chars[i];
        assert(chars@.take(i as int + 1).drop_last() =~= chars@.take(i as int));
        if c == sep {
            let ghost before = views(done@).push(current@);
            done.push(current);
            current = Vec::new();
            assert(views(done@).push(current@) =~= before.push(Seq::empty()));
        } else {
            let ghost before = views(done@).push(current@);
            current.push(c);
            assert(views(done@).push(current@) =~= before.update(before.len() - 1, before.last().push(c)));
        }
        i += 1;
    }
    assert(chars@.take(chars@.len() as int) =~= chars@);
    let ghost before = views(done@).push(current@);
    done.push(current);
    assert(views(done@) =~= before);
    done
}

proof fn lemma_decimal_value_grows(d: Seq<char>, k: int)
    requires
        0 <= k <= d.len(),
        forall|i: int| 0 <= i < d.len() ==> is_digit(#[trigger] d[i]),
    ensures
        decimal_value(d.take(k)) <= decimal_value(d),
    decreases d.len(),
{
    if k < d.len() {
        assert(d.drop_last().take(k) =~= d.take(k));
        lemma_decimal_value_grows(d.drop_last(), k);
    } else {
        assert(d.take(k) =~= d);
    }
}

/// The value of a numeral whose value fits a `u32`; none otherwise.
fn parse_numeral(d: &Vec<char>) -> (value: Option<u32>)
    ensures
        value is Some <==> numeral_ok(d@),
        value matches Some(v) ==> v == decimal_value(d@),
{
    if d.len() == 0 {
        return None;
    }
    let mut acc: u64 = 0;
    let mut j: usize = 0;
    while j < d.len()
        invariant
            0 <= j <= d@.len(),
            acc == decimal_value(d@.take(j as int)),
            acc <= u32::MAX,
            forall|i: int| 0 <= i < j ==> is_digit(#[trigger] d@[i]),
        decreases d@.len() - j,
    {
        let c = d[j];
        assert(d@.take(j as int + 1).drop_last() =~= d@.take(j as int));
        if !(c >= '0' && c <= '9') {
            assert(!is_digit(d@[j as int]));
            return None;
        }
        acc = acc * 10 + (c as u32 - 48) as u64;
        if acc > 4294967295 {
            proof {
                if forall|i: int| 0 <= i < d@.len() ==> is_digit(#[trigger] d@[i]) {
                    lemma_decimal_value_grows(d@, j as int + 1);
                }
            }
            return None;
        }
        j += 1;
    }
    assert(d@.take(d@.len() as int) =~= d@);
    Some(acc as u32)
}

} // verus!

verus! {

/// Whether `c` is a character of a FEN rank.
fn rank_char_ok(c: char) -> (ok: bool)
    ensures
        ok == is_rank_char(c),
{
    piece_from_char(c).is_some() || ('1' <= c && c <= '8')
}

/// Whether every character of `v` satisfies the test that `kind` names: a
/// rank character (0), a castling letter (1) or a digit (2).
fn all_chars(v: &Vec<char>, kind: u8) -> (ok: bool)
    requires
        kind <= 2,
    ensures
        ok == forall|j: int| 0 <= j < v@.len() ==> #[trigger] char_kind(v@[j], kind),
{
    let mut j: usize = 0;
    while j < v.len()
        invariant
            kind <= 2,
            0 <= j <= v@.len(),
            forall|k: int| 0 <= k < j ==> #[trigger] char_kind(v@[k], kind),
        decreases v@.len() - j,
    {
        let c = v[j];
        let ok = if kind == 0 {
            rank_char_ok(c)
        } else if kind == 1 {
            c == 'K' || c == 'Q' || c == 'k' || c == 'q'
        } else {
            '0' <= c && c <= '9'
        };
        if !ok {
            assert(!char_kind(v@[j as int], kind));
            return false;
        }
        j += 1;
    }
    true
}

/// The character tests [`all_chars`] can make.
pub open spec fn char_kind(c: char, kind: u8) -> bool {
    if kind == 0 {
        is_rank_char(c)
    } else if kind == 1 {
        c == 'K' || c == 'Q' || c == 'k' || c == 'q'
    } else {
        is_digit(c)
    }
}

/// Whether `fen` has the shape of a FEN string: [`fen_shape`].
fn fen_matches(fen: &str) -> (m: bool)
    ensures
        m == fen_shape(fen@),
{
    let chars = str_chars(fen);
    let fields = split_chars(&chars, ' ');
    let ghost fs = split(fen@, ' ');
    assert(views(fields@) == fs);
    if fields.len() != 6 {
        return false;
    }
    assert(fields@[0]@ == fs[0]);
    let rows = split_chars(&fields[0], '/');
    let ghost rs = split(fs[0], '/');
    assert(views(rows@) == rs);
    if rows.len() != 8 {
        return false;
    }
    let mut k: usize = 0;
    while k < 8
        invariant
            0 <= k <= 8,
            rows@.len() == 8,
            views(rows@) == rs,
            fs == split(fen@, ' '),
            fs.len() == 6,
            rs == split(fs[0], '/'),
            forall|i: int| 0 <= i < k ==> (#[trigger] rs[i]).len() > 0,
            forall|i: int, j: int| 0 <= i < k && 0 <= j < rs[i].len() ==> is_rank_char(#[trigger] rs[i][j]),
        decreases 8 - k,
    {
        assert(rows@[k as int]@ == rs[k as int]);
        if rows[k].len() == 0 {
            assert(rs[k as int].len() == 0);
            return false;
        }
        if !all_chars(&rows[k], 0) {
            let ghost j = choose|j: int| 0 <= j < rows@[k as int]@.len() && !char_kind(rows@[k as int]@[j], 0);
            assert(!is_rank_char(rs[k as int][j]));
            return false;
        }
        assert forall|j: int| 0 <= j < rs[k as int].len() implies is_rank_char(#[trigger] rs[k as int][j]) by {
            assert(char_kind(rows@[k as int]@[j], 0));
        }
        k += 1;
    }
    assert(fields@[1]@ == fs[1] && fields@[2]@ == fs[2] && fields@[3]@ == fs[3]);
    assert(fields@[4]@ == fs[4] && fields@[5]@ == fs[5]);
    let side = &fields[1];
    let side_ok = side.len() == 1 && (side[0] == 'w' || side[0] == 'b');
    assert(side_ok == (fs[1] =~= seq!['w'] || fs[1] =~= seq!['b'])) by {
        if fs[1].len() == 1 {
            assert(seq!['w'][0] == 'w' && seq!['b'][0] == 'b');
        }
    }
    let castle = &fields[2];
    let castle_ok = (castle.len() == 1 && castle[0] == '-') || (1 <= castle.len() && castle.len() <= 4 && all_chars(
        castle,
        1,
    ));
    assert(castle_ok == (fs[2] =~= seq!['-'] || (1 <= fs[2].len() <= 4 && forall|j: int|
        0 <= j < fs[2].len() ==> {
            let c = #[trigger] fs[2][j];
            c == 'K' || c == 'Q' || c == 'k' || c == 'q'
        }))) by {
        if fs[2].len() == 1 {
            assert(seq!['-'][0] == '-');
        }
        assert(forall|j: int| 0 <= j < fs[2].len() ==> char_kind(#[trigger] fs[2][j], 1) == {
            let c = fs[2][j];
            c == 'K' || c == 'Q' || c == 'k' || c == 'q'
        });
    }
    let ep = &fields[3];
    let ep_ok = (ep.len() == 1 && ep[0] == '-') || (ep.len() == 2 && 'a' <= ep[0] && ep[0] <= 'h' && (ep[1] == '3'
        || ep[1] == '6'));
    assert(ep_ok == (fs[3] =~= seq!['-'] || (fs[3].len() == 2 && is_file_letter(fs[3][0]) && (fs[3][1] == '3'
        || fs[3][1] == '6')))) by {
        if fs[3].len() == 1 {
            assert(seq!['-'][0] == '-');
        }
    }
    let half_ok = fields[4].len() > 0 && all_chars(&fields[4], 2);
    let full_ok = fields[5].len() > 0 && all_chars(&fields[5], 2);
    assert(half_ok == is_numeral(fs[4])) by {
        assert(forall|j: int| 0 <= j < fs[4].len() ==> char_kind(#[trigger] fs[4][j], 2) == is_digit(fs[4][j]));
    }
    assert(full_ok == is_numeral(fs[5])) by {
        assert(forall|j: int| 0 <= j < fs[5].len() ==> char_kind(#[trigger] fs[5][j], 2) == is_digit(fs[5][j]));
    }
    side_ok && castle_ok && ep_ok && half_ok && full_ok
}

/// The piece a FEN letter stands for.
fn piece_from_char(c: char) -> (piece: Option<Piece>)
    ensures
        piece == piece_of_letter(c),
{
    match c {
        'p' => Some(Piece::new(Color::Black, PieceType::Pawn)),
        'r' => Some(Piece::new(Color::Black, PieceType::Rook)),
        'n' => Some(Piece::new(Color::Black, PieceType::Knight)),
        'b' => Some(Piece::new(Color::Black, PieceType::Bishop)),
        'q' => Some(Piece::new(Color::Black, PieceType::Queen)),
        'k' => Some(Piece::new(Color::Black, PieceType::King)),
        'P' => Some(Piece::new(Color::White, PieceType::Pawn)),
        'R' => Some(Piece::new(Color::White, PieceType::Rook)),
        'N' => Some(Piece::new(Color::White, PieceType::Knight)),
        'B' => Some(Piece::new(Color::White, PieceType::Bishop)),
        'Q' => Some(Piece::new(Color::White, PieceType::Queen)),
        'K' => Some(Piece::new(Color::White, PieceType::King)),
        _ => None,
    }
}

proof fn lemma_expand_step(row: Seq<char>, j: int)
    requires
        0 <= j < row.len(),
    ensures
        expand(row.take(j + 1)) == expand(row.take(j)) + expand_char(row[j]),
{
    assert(row.take(j + 1).drop_last() =~= row.take(j));
}

/// Puts the piece or skips the empty squares that `row[j]` stands for, where
/// `file` is the file the characters before it reach.
#[verifier::rlimit(40)]
fn place_char(squares: &mut [[Option<Piece>; 8]; 8], rank: usize, row: &Vec<char>, j: usize, file: usize) -> (result: Result<usize, String>)
    requires
        rank < 8,
        row_ok(row@),
        0 <= j < row@.len(),
        file == expand(row@.take(j as int)).len(),
        file + 9 <= usize::MAX,
        forall|f: int| 0 <= f < 8 ==> #[trigger] old(squares)[rank as int][f] == placed(row@.take(j as int), f),
    ensures
        result matches Ok(next) && next == expand(row@.take(j as int + 1)).len() && next <= file + 9,
        forall|f: int| 0 <= f < 8 ==> #[trigger] final(squares)[rank as int][f] == placed(row@.take(j as int + 1), f),
        forall|r: int| 0 <= r < 8 && r != rank ==> #[trigger] final(squares)[r] == old(squares)[r],
{
    let c = row[j];
    let ghost prefix = row@.take(j as int);
    let ghost next = row@.take(j as int + 1);
    proof {
        lemma_expand_step(row@, j as int);
    }
    if c >= '0' && c <= '9' {
        assert forall|f: int| 0 <= f < 8 implies #[trigger] squares[rank as int][f] == placed(next, f) by {
            if f >= expand(prefix).len() {
                assert(placed(prefix, f) is None);
            }
        }
        Ok(file + (c as u32 - 48) as usize)
    } else {
        match piece_from_char(c) {
            Some(piece) => {
                assert(piece_of_letter(row@[j as int]) is Some);
                assert(file < 8);
                let ghost before = *squares;
                squares[rank][file] = Some(piece);
                assert forall|f: int| 0 <= f < 8 implies #[trigger] squares[rank as int][f] == placed(next, f) by {
                    if f != file {
                        assert(squares[rank as int][f] == before[rank as int][f]);
                    }
                }
                assert forall|r: int| 0 <= r < 8 && r != rank implies #[trigger] squares[r] == old(squares)[r] by {
                    assert(squares[r] == before[r]);
                }
                Ok(file + 1)
            },
            None => Err("Invalid piece character".to_owned()),
        }
    }
}

/// Puts the pieces of a FEN rank on rank `rank` of `squares`, which is empty.
fn place_row(squares: &mut [[Option<Piece>; 8]; 8], rank: usize, row: &Vec<char>) -> (result: Result<(), String>)
    requires
        rank < 8,
        row_ok(row@),
        row@.len() <= usize::MAX / 16,
        forall|f: int| 0 <= f < 8 ==> #[trigger] old(squares)[rank as int][f] is None,
    ensures
        result is Ok,
        forall|f: int| 0 <= f < 8 ==> #[trigger] final(squares)[rank as int][f] == placed(row@, f),
        forall|r: int| 0 <= r < 8 && r != rank ==> #[trigger] final(squares)[r] == old(squares)[r],
{
    let mut file: usize = 0;
    let mut j: usize = 0;
    while j < row.len()
        invariant
            rank < 8,
            row_ok(row@),
            row@.len() <= usize::MAX / 16,
            0 <= j <= row@.len(),
            file == expand(row@.take(j as int)).len(),
            file <= 9 * j,
            forall|f: int| 0 <= f < 8 ==> #[trigger] squares[rank as int][f] == placed(row@.take(j as int), f),
            forall|r: int| 0 <= r < 8 && r != rank ==> #[trigger] squares[r] == old(squares)[r],
        decreases row@.len() - j,
    {
        let ghost before = *squares;
        match place_char(squares, rank, row, j, file) {
            Ok(next) => {
                file = next;
            },
            Err(e) => return Err(e),
        }
        assert forall|r: int| 0 <= r < 8 && r != rank implies #[trigger] squares[r] == old(squares)[r] by {
            assert(squares[r] == before[r]);
        }
        j += 1;
    }
    assert(row@.take(row@.len() as int) =~= row@);
    Ok(())
}

fn contains_char(chars: &Vec<char>, c: char) -> (found: bool)
    ensures
        found == chars@.contains(c),
{
    let mut i: usize = 0;
    while i < chars.len()
        invariant
            0 <= i <= chars@.len(),
            forall|k: int| 0 <= k < i ==> chars@[k] != c,
        decreases chars@.len() - i,
    {
        if chars[i] == c {
            return true;
        }
        i += 1;
    }
    false
}

fn is_single(chars: &Vec<char>, c: char) -> (single: bool)
    ensures
        single == (chars@ =~= seq![c]),
{
    chars.len() == 1 && chars[0] == c
}

impl Board {
    /// Reads a board in Forsyth-Edwards Notation; a string that does not
    /// have the shape of a FEN string ([`fen_shape`]) is refused.
    pub fn from_fen(fen: &str) -> (result: Result<Board, String>)
        requires
            fen@.len() <= usize::MAX / 16,
            fen_shape(fen@) ==> fen_wf(fen@),
        ensures
            result is Ok <==> fen_shape(fen@),
            result matches Ok(b) ==> fen_describes(b, fen@),
            result matches Err(e) ==> e@ == "Invalid FEN string"@,
    {
        if !fen_matches(fen) {
            return Err("Invalid FEN string".to_owned());
        }
        let chars = str_chars(fen);
        let fields = split_chars(&chars, ' ');
        let ghost fs = split(fen@, ' ');
        assert(views(fields@) == fs);
        assert(fields@[0]@ == fs[0] && fields@[1]@ == fs[1] && fields@[2]@ == fs[2]);
        assert(fields@[3]@ == fs[3] && fields@[4]@ == fs[4] && fields@[5]@ == fs[5]);
        let mut squares: [[Option<Piece>; 8]; 8] = [[None; 8]; 8];
        // FEN lists the ranks from the eighth down
        let rows = split_chars(&fields[0], '/');
        let ghost rs = split(fs[0], '/');
        assert(views(rows@) == rs);
        proof {
            lemma_split_pieces_short(fen@, ' ');
            lemma_split_pieces_short(fs[0], '/');
        }
        let mut rank: usize = 0;
        while rank < 8
            invariant
                0 <= rank <= 8,
                forall|k: int| 0 <= k < rs.len() ==> (#[trigger] rs[k]).len() <= usize::MAX / 16,
                rs == split(fs[0], '/'),
                views(rows@) == rs,
                rs.len() == 8,
                forall|k: int| 0 <= k < 8 ==> #[trigger] row_ok(rs[k]),
                forall|r: int, f: int| 0 <= r < rank && 0 <= f < 8 ==> #[trigger] squares[r][f] == placed(rs[7 - r], f),
                forall|r: int, f: int| rank <= r < 8 && 0 <= f < 8 ==> #[trigger] squares[r][f] is None,
            decreases 8 - rank,
        {
            assert(rows@[7 - rank as int]@ == rs[7 - rank as int]);
            assert(row_ok(rs[7 - rank as int]));
            let ghost before = squares;
            let placed_row = place_row(&mut squares, rank, &rows[7 - rank]);
            match placed_row {
                Ok(()) => {},
                Err(e) => return Err(e),
            }
            assert forall|r: int, f: int| 0 <= r < rank + 1 && 0 <= f < 8 implies #[trigger] squares[r][f] == placed(
                rs[7 - r],
                f,
            ) by {
                if r != rank {
                    assert(squares[r] == before[r]);
                }
            }
            assert forall|r: int, f: int| rank + 1 <= r < 8 && 0 <= f < 8 implies #[trigger] squares[r][f] is None by {
                assert(squares[r] == before[r]);
            }
            rank += 1;
        }
        let to_move = if is_single(&fields[1], 'w') {
            Color::White
        } else if is_single(&fields[1], 'b') {
            Color::Black
        } else {
            return Err("Invalid color to move".to_owned());
        };
        let castle_rights = (
            contains_char(&fields[2], 'K'),
            contains_char(&fields[2], 'Q'),
            contains_char(&fields[2], 'k'),
            contains_char(&fields[2], 'q'),
        );
        let en_passant_target = if is_single(&fields[3], '-') {
            None
        } else {
            let file = fields[3][0];
            let rank = fields[3][1];
            Some(((file as u8 - 97u8) as usize, (rank as u8 - 49u8) as usize))
        };
        let halfmove_clock: u32 = parse_numeral(&fields[4]).unwrap();
        let fullmove_number: u32 = parse_numeral(&fields[5]).unwrap();
        let board = Board::new(squares, to_move, en_passant_target, castle_rights, halfmove_clock, fullmove_number);
        assert forall|f: int, r: int| on_board(f, r) implies #[trigger] board.at(f, r) == placed(rs[7 - r], f) by {
            assert(squares[r][f] == placed(rs[7 - r], f));
        }
        Ok(board)
    }
}

} // verus!

verus! {

/// Whether a FEN rank is well formed: see [`row_ok`].
fn row_is_ok(row: &Vec<char>) -> (ok: bool)
    requires
        row@.len() <= usize::MAX / 16,
    ensures
        ok == row_ok(row@),
{
    let mut file: usize = 0;
    let mut j: usize = 0;
    while j < row.len()
        invariant
            row@.len() <= usize::MAX / 16,
            0 <= j <= row@.len(),
            file == expand(row@.take(j as int)).len(),
            file <= 9 * j,
            forall|k: int|
                0 <= k < j ==> (piece_of_letter(row@[k]) is Some || ('1' <= row@[k] <= '8')) && (piece_of_letter(
                    #[trigger] row@[k],
                ) is Some ==> expand(row@.take(k)).len() < 8),
        decreases row@.len() - j,
    {
        let c = row[j];
        proof {
            lemma_expand_step(row@, j as int);
        }
        if piece_from_char(c).is_some() {
            if file >= 8 {
                return false;
            }
            file += 1;
        } else if c >= '1' && c <= '8' {
            file += (c as u32 - 48) as usize;
        } else {
            return false;
        }
        j += 1;
    }
    true
}

/// Whether a FEN string is well formed: see [`fen_wf`].
fn fen_is_well_formed(fen: &str) -> (ok: bool)
    requires
        fen@.len() <= usize::MAX / 16,
    ensures
        ok == fen_wf(fen@),
{
    let chars = str_chars(fen);
    let fields = split_chars(&chars, ' ');
    let ghost fs = split(fen@, ' ');
    proof {
        lemma_split_pieces_short(fen@, ' ');
    }
    if fields.len() != 6 {
        return false;
    }
    assert(fields@[0]@ == fs[0] && fields@[1]@ == fs[1] && fields@[3]@ == fs[3]);
    assert(fields@[4]@ == fs[4] && fields@[5]@ == fs[5]);
    let rows = split_chars(&fields[0], '/');
    let ghost rs = split(fs[0], '/');
    proof {
        lemma_split_pieces_short(fs[0], '/');
    }
    if rows.len() != 8 {
        return false;
    }
    let mut k: usize = 0;
    while k < 8
        invariant
            0 <= k <= 8,
            fs == split(fen@, ' '),
            rs == split(fs[0], '/'),
            views(rows@) == rs,
            rs.len() == 8,
            forall|i: int| 0 <= i < rs.len() ==> (#[trigger] rs[i]).len() <= usize::MAX / 16,
            forall|i: int| 0 <= i < k ==> #[trigger] row_ok(rs[i]),
        decreases 8 - k,
    {
        assert(rows@[k as int]@ == rs[k as int]);
        if !row_is_ok(&rows[k]) {
            return false;
        }
        k += 1;
    }
    if !(is_single(&fields[1], 'w') || is_single(&fields[1], 'b')) {
        return false;
    }
    let ep = &fields[3];
    let ep_ok = is_single(ep, '-') || (ep.len() == 2 && ep[0] >= 'a' && ep[0] <= 'h' && (ep[1] == '3' || ep[1] == '6'));
    if !ep_ok {
        return false;
    }
    parse_numeral(&fields[4]).is_some() && parse_numeral(&fields[5]).is_some()
}

impl Board {
    /// Reads a board in Forsyth-Edwards Notation on every input: `None` where
    /// the string has the shape of a FEN string but puts a piece off the board
    /// or holds a clock that does not fit a `u32`, else the result of
    /// [`Board::from_fen`].
    pub fn from_fen_checked(fen: &str) -> (result: Option<Result<Board, String>>)
        requires
            fen@.len() <= usize::MAX / 16,
        ensures
            result is None <==> (fen_shape(fen@) && !fen_wf(fen@)),
            result matches Some(r) ==> {
                &&& r is Ok <==> fen_shape(fen@)
                &&& r matches Ok(b) ==> fen_describes(b, fen@)
                &&& r matches Err(e) ==> e@ == "Invalid FEN string"@
            },
    {
        if fen_matches(fen) && !fen_is_well_formed(fen) {
            return None;
        }
        Some(Board::from_fen(fen))
    }
}

} // verus!
