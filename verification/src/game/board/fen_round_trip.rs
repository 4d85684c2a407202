//! Reading back what the FEN writer writes gives the board written.
use crate::game::board::fen::{castle_text, fen_text, ranks_text, row_text};
use crate::game::board::fen_read::{
    decimal_value, expand, expand_char, fen_describes, fen_shape, fen_wf, is_digit, is_numeral, is_rank_char, numeral_ok,
    piece_of_letter,
    placed, row_ok, split,
};
use crate::game::board::text::{decimal, file_char, file_of, is_file_letter, piece_letter, rank_char, rank_of};
use crate::game::board::{on_board, Board};
use crate::game::piece::{Color, Piece, PieceType};
use vstd::prelude::*;

verus! {

broadcast use vstd::array::group_array_axioms;

/// A string without the separator is a single piece.
proof fn lemma_split_single(a: Seq<char>, sep: char)
    requires
        !a.contains(sep),
    ensures
        split(a, sep) == seq![a],
    decreases a.len(),
{
    if a.len() > 0 {
        assert(!a.drop_last().contains(sep)) by {
            if a.drop_last().contains(sep) {
                let i = choose|i: int| 0 <= i < a.drop_last().len() && a.drop_last()[i] == sep;
                assert(a[i] == sep);
            }
        }
        lemma_split_single(a.drop_last(), sep);
        assert(a.last() != sep) by {
            assert(a[a.len() - 1] == a.last());
        }
        assert(a.drop_last().push(a.last()) =~= a);
        assert(seq![a.drop_last()].update(0, a.drop_last().push(a.last())) =~= seq![a]);
    } else {
        assert(a =~= Seq::<char>::empty());
    }
}

/// A piece without the separator, the separator, then the rest: the piece
/// comes first, then the pieces of the rest.
proof fn lemma_split_cons(a: Seq<char>, c: Seq<char>, sep: char)
    requires
        !a.contains(sep),
    ensures
        split(a + seq![sep] + c, sep) == seq![a] + split(c, sep),
    decreases c.len(),
{
    let s = a + seq![sep] + c;
    if c.len() == 0 {
        assert(s.drop_last() =~= a);
        assert(s.last() == sep);
        lemma_split_single(a, sep);
        assert(split(c, sep) =~= seq![Seq::<char>::empty()]);
        assert(seq![a].push(Seq::<char>::empty()) =~= seq![a] + split(c, sep));
    } else {
        lemma_split_cons(a, c.drop_last(), sep);
        assert(s.drop_last() =~= a + seq![sep] + c.drop_last());
        assert(s.last() == c.last());
        lemma_split_pieces_nonempty(c.drop_last(), sep);
        let prev = split(c.drop_last(), sep);
        if c.last() == sep {
            assert((seq![a] + prev).push(Seq::<char>::empty()) =~= seq![a] + prev.push(Seq::<char>::empty()));
        } else {
            let whole = seq![a] + prev;
            assert(whole.last() == prev.last());
            assert(whole.update(whole.len() - 1, whole.last().push(c.last())) =~= seq![a] + prev.update(
                prev.len() - 1,
                prev.last().push(c.last()),
            ));
        }
    }
}

proof fn lemma_split_pieces_nonempty(s: Seq<char>, sep: char)
    ensures
        split(s, sep).len() >= 1,
    decreases s.len(),
{
    if s.len() > 0 {
        lemma_split_pieces_nonempty(s.drop_last(), sep);
    }
}

/// Expanding a concatenation expands each part.
proof fn lemma_expand_concat(x: Seq<char>, y: Seq<char>)
    ensures
        expand(x + y) == expand(x) + expand(y),
    decreases y.len(),
{
    if y.len() == 0 {
        assert(x + y =~= x);
        assert(expand(x) + expand(y) =~= expand(x));
    } else {
        lemma_expand_concat(x, y.drop_last());
        assert((x + y).drop_last() =~= x + y.drop_last());
        assert((x + y).last() == y.last());
        assert(expand(x + y) =~= expand(x) + expand(y));
    }
}

/// The decimal digits of a number are digits, at least one, and read back as the number.
proof fn lemma_decimal_reads_back(n: nat)
    ensures
        decimal(n).len() >= 1,
        forall|i: int| 0 <= i < decimal(n).len() ==> is_digit(#[trigger] decimal(n)[i]),
        decimal_value(decimal(n)) == n,
    decreases n,
{
    if n >= 10 {
        lemma_decimal_reads_back(n / 10);
        let d = decimal(n);
        assert(d.drop_last() =~= decimal(n / 10));
        assert(d.last() == ((n % 10) + 48) as char);
        assert(forall|i: int| 0 <= i < d.len() - 1 ==> d[i] == decimal(n / 10)[i]);
        assert(((((n % 10) + 48) as char) as u32) - 48 == n % 10);
        assert(decimal_value(d) == decimal_value(decimal(n / 10)) * 10 + (((d.last() as u32) - 48) as nat));
        assert((n / 10) * 10 + n % 10 == n);
    } else {
        let d = decimal(n);
        assert(d.last() == (n + 48) as char);
        assert(((((n + 48) as char) as u32) - 48) as nat == n);
        assert(d.drop_last() =~= Seq::<char>::empty());
        assert(decimal_value(d.drop_last()) == 0);
    }
}

/// The letter of a piece reads back as the piece, and is neither a digit nor
/// a separator.
proof fn lemma_piece_letter(p: Piece)
    ensures
        piece_of_letter(piece_letter(p)) == Some(p),
        !is_digit(piece_letter(p)),
        piece_letter(p) != '/',
        piece_letter(p) != ' ',
{
    let c = piece_letter(p);
    match p.kind {
        PieceType::Pawn => assert(c == 'p' || c == 'P'),
        PieceType::Rook => assert(c == 'r' || c == 'R'),
        PieceType::Knight => assert(c == 'n' || c == 'N'),
        PieceType::Bishop => assert(c == 'b' || c == 'B'),
        PieceType::Queen => assert(c == 'q' || c == 'Q'),
        PieceType::King => assert(c == 'k' || c == 'K'),
    }
    if p.color == Color::White {
        assert('A' <= c <= 'Z');
    } else {
        assert(!('A' <= c <= 'Z'));
    }
}

/// The squares of rank `rank` from file `file` on.
pub open spec fn rank_squares(b: Board, rank: int, file: int) -> Seq<Option<Piece>> {
    Seq::new((8 - file) as nat, |i: int| b.at(file + i, rank))
}

/// A run of `n` empty squares.
pub open spec fn empty_run(n: nat) -> Seq<Option<Piece>> {
    Seq::new(n, |i: int| None::<Piece>)
}

/// The FEN text of a rank from `file` on, with `empty` empty squares pending,
/// stands for those empty squares and then the squares from `file` on; it is
/// made of piece letters and digits `1`..`8`, and is empty only when it
/// stands for nothing.
#[verifier::spinoff_prover]
#[verifier::rlimit(30)]
proof fn lemma_row_text(b: Board, rank: int, file: int, empty: nat)
    requires
        0 <= rank < 8,
        0 <= file <= 8,
        empty <= file,
    ensures
        expand(row_text(b, rank, file, empty)) == empty_run(empty) + rank_squares(b, rank, file),
        forall|j: int|
            0 <= j < row_text(b, rank, file, empty).len() ==> is_rank_char(
                #[trigger] row_text(b, rank, file, empty)[j],
            ),
        empty + (8 - file) > 0 ==> row_text(b, rank, file, empty).len() > 0,
    decreases 8 - file,
{
    let t = row_text(b, rank, file, empty);
    let pending = if empty > 0 {
        decimal(empty)
    } else {
        Seq::empty()
    };
    if empty > 0 {
        let c = (empty + 48) as char;
        assert(decimal(empty) == seq![c]);
        assert(seq![c].drop_last() =~= Seq::<char>::empty());
        assert(seq![c].last() == c);
        assert(expand(Seq::<char>::empty()) =~= Seq::<Option<Piece>>::empty());
        assert(expand(seq![c]) =~= expand_char(c));
        assert(((c as u32) - 48) as nat == empty);
        assert(expand(pending) =~= empty_run(empty));
        assert(is_rank_char(c));
    } else {
        assert(expand(pending) =~= empty_run(empty));
    }
    if file >= 8 {
        assert(t == pending);
        assert(rank_squares(b, rank, file) =~= Seq::<Option<Piece>>::empty());
        assert(expand(t) =~= empty_run(empty) + rank_squares(b, rank, file));
    } else {
        match b.at(file, rank) {
            Some(p) => {
                let rest = row_text(b, rank, file + 1, 0);
                let l = piece_letter(p);
                lemma_row_text(b, rank, file + 1, 0);
                lemma_piece_letter(p);
                assert(t == pending + seq![l] + rest);
                lemma_expand_concat(pending + seq![l], rest);
                lemma_expand_concat(pending, seq![l]);
                assert(seq![l].drop_last() =~= Seq::<char>::empty());
                assert(expand(seq![l]) =~= seq![Some(p)]);
                assert(empty_run(0) + rank_squares(b, rank, file + 1) =~= rank_squares(b, rank, file + 1));
                assert(expand(t) =~= empty_run(empty) + rank_squares(b, rank, file));
                assert forall|j: int| 0 <= j < t.len() implies is_rank_char(#[trigger] t[j]) by {
                    if j < pending.len() {
                        assert(t[j] == pending[j]);
                    } else if j == pending.len() {
                        assert(t[j] == l);
                    } else {
                        assert(t[j] == rest[j - pending.len() - 1]);
                    }
                }
            },
            None => {
                lemma_row_text(b, rank, file + 1, empty + 1);
                assert(expand(t) =~= empty_run(empty) + rank_squares(b, rank, file));
            },
        }
    }
}

/// The FEN text of a rank is a well-formed rank that puts back every square.
proof fn lemma_row_reads_back(b: Board, rank: int)
    requires
        0 <= rank < 8,
    ensures
        row_ok(row_text(b, rank, 0, 0)),
        row_text(b, rank, 0, 0).len() > 0,
        forall|j: int|
            0 <= j < row_text(b, rank, 0, 0).len() ==> is_rank_char(#[trigger] row_text(b, rank, 0, 0)[j]),
        forall|f: int| 0 <= f < 8 ==> #[trigger] placed(row_text(b, rank, 0, 0), f) == b.at(f, rank),
{
    let r = row_text(b, rank, 0, 0);
    lemma_row_text(b, rank, 0, 0);
    assert(expand(r) =~= rank_squares(b, rank, 0));
    assert forall|j: int| 0 <= j < r.len() && piece_of_letter(#[trigger] r[j]) is Some implies expand(r.take(j)).len()
        < 8 by {
        assert(r =~= r.take(j) + r.skip(j));
        lemma_expand_concat(r.take(j), r.skip(j));
        assert(r.skip(j) =~= seq![r[j]] + r.skip(j + 1));
        lemma_expand_concat(seq![r[j]], r.skip(j + 1));
        assert(seq![r[j]].drop_last() =~= Seq::<char>::empty());
        assert(seq![r[j]].last() == r[j]);
        assert(expand(Seq::<char>::empty()) =~= Seq::<Option<Piece>>::empty());
        assert(!is_digit(r[j]));
        assert(expand(seq![r[j]]) =~= seq![piece_of_letter(r[j])]);
    }
}

/// The ranks from `rank` down to the first, separated by `/`, split back into
/// their FEN texts; they hold no space.
proof fn lemma_ranks_split(b: Board, rank: int)
    requires
        0 <= rank < 8,
    ensures
        split(ranks_text(b, rank), '/') == Seq::new((rank + 1) as nat, |k: int| row_text(b, rank - k, 0, 0)),
        !ranks_text(b, rank).contains(' '),
    decreases rank,
{
    let row = row_text(b, rank, 0, 0);
    let t = ranks_text(b, rank);
    lemma_row_reads_back(b, rank);
    assert(!row.contains('/') && !row.contains(' ')) by {
        if row.contains('/') || row.contains(' ') {
            let j = choose|j: int| 0 <= j < row.len() && (row[j] == '/' || row[j] == ' ');
            assert(is_rank_char(row[j]));
        }
    }
    assert(ranks_text(b, -1) =~= Seq::<char>::empty());
    if rank == 0 {
        assert(t =~= row);
        lemma_split_single(row, '/');
        assert(split(t, '/') =~= Seq::new((rank + 1) as nat, |k: int| row_text(b, rank - k, 0, 0)));
    } else {
        let rest = ranks_text(b, rank - 1);
        lemma_ranks_split(b, rank - 1);
        assert(t =~= row + seq!['/'] + rest);
        lemma_split_cons(row, rest, '/');
        assert(split(t, '/') =~= Seq::new((rank + 1) as nat, |k: int| row_text(b, rank - k, 0, 0)));
        assert(!t.contains(' ')) by {
            if t.contains(' ') {
                let j = choose|j: int| 0 <= j < t.len() && t[j] == ' ';
                if j < row.len() {
                    assert(row[j] == ' ');
                } else if j == row.len() {
                    assert(t[j] == '/');
                } else {
                    assert(rest[j - row.len() - 1] == ' ');
                }
            }
        }
    }
}

proof fn lemma_concat_contains(x: Seq<char>, y: Seq<char>, c: char)
    ensures
        (x + y).contains(c) <==> (x.contains(c) || y.contains(c)),
{
    if (x + y).contains(c) {
        let i = choose|i: int| 0 <= i < (x + y).len() && (x + y)[i] == c;
        if i < x.len() {
            assert(x[i] == c);
        } else {
            assert(y[i - x.len()] == c);
        }
    }
    if x.contains(c) {
        let i = choose|i: int| 0 <= i < x.len() && x[i] == c;
        assert((x + y)[i] == c);
    }
    if y.contains(c) {
        let i = choose|i: int| 0 <= i < y.len() && y[i] == c;
        assert((x + y)[i + x.len()] == c);
    }
}

/// The letter `l` when `present`, else nothing.
pub open spec fn opt_letter(present: bool, l: char) -> Seq<char> {
    if present {
        seq![l]
    } else {
        Seq::empty()
    }
}

proof fn lemma_opt_letter(present: bool, l: char, c: char)
    ensures
        opt_letter(present, l).contains(c) <==> (present && c == l),
        opt_letter(present, l).len() <= 1,
{
    if present {
        assert(opt_letter(present, l)[0] == l);
    }
}

/// The castling field is `-` or one to four of `KQkq`, holds no space, and
/// holds each letter exactly when the board has that right.
proof fn lemma_castle_text(cr: (bool, bool, bool, bool))
    ensures
        castle_text(cr) =~= seq!['-'] || (1 <= castle_text(cr).len() <= 4 && forall|j: int|
            0 <= j < castle_text(cr).len() ==> {
                let c = #[trigger] castle_text(cr)[j];
                c == 'K' || c == 'Q' || c == 'k' || c == 'q'
            }),
        !castle_text(cr).contains(' '),
        castle_text(cr).contains('K') == cr.0,
        castle_text(cr).contains('Q') == cr.1,
        castle_text(cr).contains('k') == cr.2,
        castle_text(cr).contains('q') == cr.3,
{
    let t = castle_text(cr);
    if !cr.0 && !cr.1 && !cr.2 && !cr.3 {
        assert(t =~= seq!['-']);
        assert forall|c: char| c != '-' implies !t.contains(c) by {
            if t.contains(c) {
                let i = choose|i: int| 0 <= i < t.len() && t[i] == c;
                assert(t[0] == '-');
            }
        }
    } else {
        let a = opt_letter(cr.0, 'K');
        let b = opt_letter(cr.1, 'Q');
        let c = opt_letter(cr.2, 'k');
        let d = opt_letter(cr.3, 'q');
        assert(t =~= a + b + c + d);
        assert forall|x: char| #[trigger] t.contains(x) <==> (cr.0 && x == 'K' || cr.1 && x == 'Q' || cr.2 && x == 'k'
            || cr.3 && x == 'q') by {
            lemma_concat_contains(a + b + c, d, x);
            lemma_concat_contains(a + b, c, x);
            lemma_concat_contains(a, b, x);
            lemma_opt_letter(cr.0, 'K', x);
            lemma_opt_letter(cr.1, 'Q', x);
            lemma_opt_letter(cr.2, 'k', x);
            lemma_opt_letter(cr.3, 'q', x);
        }
        lemma_opt_letter(cr.0, 'K', 'K');
        lemma_opt_letter(cr.1, 'Q', 'Q');
        lemma_opt_letter(cr.2, 'k', 'k');
        lemma_opt_letter(cr.3, 'q', 'q');
        assert(t.len() >= 1) by {
            if cr.0 {
                assert(a.len() == 1);
            } else if cr.1 {
                assert(b.len() == 1);
            } else if cr.2 {
                assert(c.len() == 1);
            } else {
                assert(d.len() == 1);
            }
        }
        assert forall|j: int| 0 <= j < t.len() implies {
            let x = #[trigger] t[j];
            x == 'K' || x == 'Q' || x == 'k' || x == 'q'
        } by {
            assert(t.contains(t[j]));
        }
        assert(!t.contains(' '));
    }
}

proof fn lemma_no_space_in_numeral(d: Seq<char>)
    requires
        forall|i: int| 0 <= i < d.len() ==> is_digit(#[trigger] d[i]),
    ensures
        !d.contains(' '),
{
    if d.contains(' ') {
        let i = choose|i: int| 0 <= i < d.len() && d[i] == ' ';
        assert(is_digit(d[i]));
    }
}

/// Whether the FEN text of `b` can be read back: its en passant target, if
/// any, is on one of the eight files and on the third or sixth rank, the only
/// squares the FEN shape admits.
pub open spec fn fen_readable(b: Board) -> bool {
    b.en_passant_target matches Some(sq) ==> sq.0 < 8 && (sq.1 == 2 || sq.1 == 5)
}

/// The en passant field of the FEN text of `b`.
spec fn ep_text(b: Board) -> Seq<char> {
    match b.en_passant_target {
        Some(sq) => seq![file_char(sq.0), rank_char(sq.1)],
        None => seq!['-'],
    }
}

/// The fields of the FEN text of `b` after the placement, joined by spaces.
spec fn tail_text(b: Board) -> Seq<char> {
    let side = seq![if b.to_move == Color::White { 'w' } else { 'b' }];
    let c = castle_text(b.castle_rights);
    let e = ep_text(b);
    let h = decimal(b.halfmove_clock as nat);
    let f = decimal(b.fullmove_number as nat);
    side + seq![' '] + (c + seq![' '] + (e + seq![' '] + (h + seq![' '] + f)))
}

#[verifier::spinoff_prover]
#[verifier::rlimit(30)]
proof fn lemma_fen_text_parts(b: Board)
    ensures
        fen_text(b) == ranks_text(b, 7) + seq![' '] + tail_text(b),
{
    assert(fen_text(b) =~= ranks_text(b, 7) + seq![' '] + tail_text(b));
}

/// The FEN text of a board splits into its six fields.
proof fn lemma_fen_fields(b: Board)
    requires
        fen_readable(b),
    ensures
        split(fen_text(b), ' ') == seq![
            ranks_text(b, 7),
            seq![if b.to_move == Color::White { 'w' } else { 'b' }],
            castle_text(b.castle_rights),
            ep_text(b),
            decimal(b.halfmove_clock as nat),
            decimal(b.fullmove_number as nat),
        ],
{
    let p = ranks_text(b, 7);
    let side = seq![if b.to_move == Color::White { 'w' } else { 'b' }];
    let c = castle_text(b.castle_rights);
    let e = ep_text(b);
    let h = decimal(b.halfmove_clock as nat);
    let f = decimal(b.fullmove_number as nat);
    let t4 = h + seq![' '] + f;
    let t3 = e + seq![' '] + t4;
    let t2 = c + seq![' '] + t3;
    let t1 = side + seq![' '] + t2;
    assert(split(t4, ' ') =~= seq![h, f]) by {
        lemma_decimal_reads_back(b.halfmove_clock as nat);
        lemma_decimal_reads_back(b.fullmove_number as nat);
        lemma_no_space_in_numeral(h);
        lemma_no_space_in_numeral(f);
        lemma_split_cons(h, f, ' ');
        lemma_split_single(f, ' ');
    }
    assert(split(t3, ' ') =~= seq![e, h, f]) by {
        assert(!e.contains(' ')) by {
            if e.contains(' ') {
                let i = choose|i: int| 0 <= i < e.len() && e[i] == ' ';
                match b.en_passant_target {
                    Some(sq) => {
                        assert(e[0] == file_char(sq.0) && e[1] == rank_char(sq.1));
                        assert('a' <= file_char(sq.0) <= 'h');
                    },
                    None => assert(e[0] == '-'),
                }
            }
        }
        lemma_split_cons(e, t4, ' ');
    }
    assert(split(t2, ' ') =~= seq![c, e, h, f]) by {
        lemma_castle_text(b.castle_rights);
        lemma_split_cons(c, t3, ' ');
    }
    assert(split(t1, ' ') =~= seq![side, c, e, h, f]) by {
        assert(!side.contains(' ')) by {
            if side.contains(' ') {
                assert(side[0] != ' ');
            }
        }
        lemma_split_cons(side, t2, ' ');
    }
    assert(split(fen_text(b), ' ') =~= seq![p, side, c, e, h, f]) by {
        lemma_ranks_split(b, 7);
        lemma_fen_text_parts(b);
        assert(t1 == tail_text(b));
        lemma_split_cons(p, t1, ' ');
    }
}

proof fn lemma_square_letters(f: usize, r: usize)
    requires
        f < 8,
        r == 2 || r == 5,
    ensures
        'a' <= file_char(f) <= 'h',
        rank_char(r) == '3' || rank_char(r) == '6',
        rank_char(r) == '3' <==> r == 2,
        file_of(file_char(f)) == f,
        rank_of(rank_char(r)) == r,
{
}

/// Ten to the power `k`.
spec fn pow10(k: nat) -> nat
    decreases k,
{
    if k == 0 {
        1
    } else {
        10 * pow10((k - 1) as nat)
    }
}

proof fn lemma_decimal_len(n: nat, k: nat)
    requires
        k >= 1,
        n < pow10(k),
    ensures
        decimal(n).len() <= k,
    decreases k,
{
    if n >= 10 {
        assert(k >= 2) by {
            if k == 1 {
                assert(pow10(1) == 10 * pow10(0));
            }
        }
        assert(n / 10 < pow10((k - 1) as nat)) by {
            assert(pow10(k) == 10 * pow10((k - 1) as nat));
        }
        lemma_decimal_len(n / 10, (k - 1) as nat);
    }
}

proof fn lemma_expand_covers(x: Seq<char>)
    requires
        forall|j: int| 0 <= j < x.len() ==> is_rank_char(#[trigger] x[j]),
    ensures
        expand(x).len() >= x.len(),
    decreases x.len(),
{
    if x.len() > 0 {
        assert(forall|j: int| 0 <= j < x.drop_last().len() ==> x.drop_last()[j] == x[j]);
        lemma_expand_covers(x.drop_last());
        let c = x.last();
        assert(is_rank_char(x[x.len() - 1]));
        assert(expand_char(c).len() >= 1);
    }
}

proof fn lemma_ranks_len(b: Board, rank: int)
    requires
        0 <= rank < 8,
    ensures
        ranks_text(b, rank).len() <= 9 * (rank + 1) - 1,
    decreases rank,
{
    lemma_row_reads_back(b, rank);
    lemma_row_text(b, rank, 0, 0);
    lemma_expand_covers(row_text(b, rank, 0, 0));
    assert(rank_squares(b, rank, 0).len() == 8);
    assert(empty_run(0).len() == 0);
    if rank > 0 {
        lemma_ranks_len(b, rank - 1);
    } else {
        assert(ranks_text(b, -1) =~= Seq::<char>::empty());
    }
}

/// The FEN text of a board is at most 103 characters long.
pub proof fn lemma_fen_text_len(b: Board)
    ensures
        fen_text(b).len() <= 103,
{
    lemma_ranks_len(b, 7);
    lemma_castle_text(b.castle_rights);
    reveal_with_fuel(pow10, 11);
    lemma_decimal_len(b.halfmove_clock as nat, 10);
    lemma_decimal_len(b.fullmove_number as nat, 10);
}

/// Reading back the FEN text of a board gives the board: the text has the
/// shape of a FEN string (so the reader takes it), it is well formed, and the one
/// board it describes is the board written. Boards whose en passant target
/// lies off the third and sixth ranks are left out: the FEN shape refuses such
/// a square.
pub proof fn lemma_fen_round_trip(b: Board)
    requires
        fen_readable(b),
    ensures
        fen_shape(fen_text(b)),
        fen_wf(fen_text(b)),
        fen_text(b).len() <= 103,
        forall|b2: Board| #[trigger] fen_describes(b2, fen_text(b)) ==> b2 == b,
{
    let s = fen_text(b);
    lemma_fen_text_len(b);
    let fields = split(s, ' ');
    let rows = split(fields[0], '/');
    lemma_fen_fields(b);
    lemma_ranks_split(b, 7);
    assert(rows =~= Seq::new(8, |k: int| row_text(b, 7 - k, 0, 0)));
    assert forall|k: int| 0 <= k < 8 implies #[trigger] row_ok(rows[k]) by {
        lemma_row_reads_back(b, 7 - k);
    }
    assert forall|k: int| 0 <= k < 8 implies (#[trigger] rows[k]).len() > 0 by {
        lemma_row_reads_back(b, 7 - k);
    }
    assert forall|k: int, j: int| 0 <= k < 8 && 0 <= j < rows[k].len() implies is_rank_char(#[trigger] rows[k][j]) by {
        lemma_row_reads_back(b, 7 - k);
    }
    assert forall|k: int, f: int| 0 <= k < 8 && 0 <= f < 8 implies #[trigger] placed(rows[k], f) == b.at(f, 7 - k) by {
        lemma_row_reads_back(b, 7 - k);
    }
    lemma_castle_text(b.castle_rights);
    lemma_decimal_reads_back(b.halfmove_clock as nat);
    lemma_decimal_reads_back(b.fullmove_number as nat);
    match b.en_passant_target {
        Some(sq) => {
            lemma_square_letters(sq.0, sq.1);
            assert(!(fields[3] =~= seq!['-']));
        },
        None => {},
    }
    assert(fields.len() == 6);
    assert(rows.len() == 8);
    assert(fields[1] =~= seq!['w'] || fields[1] =~= seq!['b']);
    assert(is_numeral(fields[4]));
    assert(is_numeral(fields[5]));
    assert(fields[2] =~= seq!['-'] || (1 <= fields[2].len() <= 4 && forall|j: int|
        0 <= j < fields[2].len() ==> {
            let c = #[trigger] fields[2][j];
            c == 'K' || c == 'Q' || c == 'k' || c == 'q'
        }));
    assert(fields[3] =~= seq!['-'] || (fields[3].len() == 2 && is_file_letter(fields[3][0]) && (fields[3][1] == '3'
        || fields[3][1] == '6')));
    assert(fen_shape(s));
    assert(fen_wf(s));
    assert forall|b2: Board| #[trigger] fen_describes(b2, s) implies b2 == b by {
        assert forall|r: int| 0 <= r < 8 implies b2.squares[r] =~= b.squares[r] by {
            assert forall|f: int| 0 <= f < 8 implies b2.squares[r][f] == b.squares[r][f] by {
                assert(on_board(f, r));
                assert(b2.at(f, r) == placed(rows[7 - r], f));
                assert(placed(rows[7 - r], f) == b.at(f, 7 - (7 - r)));
            }
        }
        assert(b2.squares =~= b.squares);
        assert(b2.to_move == b.to_move);
        assert(b2.castle_rights == b.castle_rights);
        assert(b2.en_passant_target == b.en_passant_target);
    }
}

} // verus!

verus! {

/// The pieces joined with `sep` between them.
pub open spec fn join(pieces: Seq<Seq<char>>, sep: char) -> Seq<char>
    decreases pieces.len(),
{
    if pieces.len() == 0 {
        Seq::empty()
    } else if pieces.len() == 1 {
        pieces[0]
    } else {
        join(pieces.drop_last(), sep) + seq![sep] + pieces.last()
    }
}

proof fn lemma_join_extend_last(p: Seq<Seq<char>>, sep: char, c: char)
    requires
        p.len() >= 1,
    ensures
        join(p.update(p.len() - 1, p.last().push(c)), sep) == join(p, sep).push(c),
{
    let q = p.update(p.len() - 1, p.last().push(c));
    if p.len() == 1 {
        assert(q[0] == p[0].push(c));
    } else {
        assert(q.drop_last() =~= p.drop_last());
        assert(q.last() == p.last().push(c));
        assert(join(q, sep) =~= join(p, sep).push(c));
    }
}

/// Splitting a string and joining the pieces gives the string back.
pub proof fn lemma_join_split(s: Seq<char>, sep: char)
    ensures
        join(split(s, sep), sep) == s,
    decreases s.len(),
{
    if s.len() == 0 {
        assert(join(split(s, sep), sep) =~= s);
    } else {
        lemma_join_split(s.drop_last(), sep);
        lemma_split_pieces_nonempty(s.drop_last(), sep);
        let prev = split(s.drop_last(), sep);
        if s.last() == sep {
            let q = prev.push(Seq::<char>::empty());
            assert(q.drop_last() =~= prev);
            assert(join(q, sep) =~= s);
        } else {
            lemma_join_extend_last(prev, sep, s.last());
            assert(s.drop_last().push(s.last()) =~= s);
        }
    }
}

/// A numeral as the writer writes one: digits, and no leading zero unless
/// it is the single digit `0`.
pub open spec fn canonical_numeral(d: Seq<char>) -> bool {
    &&& is_numeral(d)
    &&& d.len() > 1 ==> d[0] != '0'
}

proof fn lemma_numeral_positive(d: Seq<char>)
    requires
        is_numeral(d),
        d[0] != '0',
    ensures
        decimal_value(d) >= 1,
    decreases d.len(),
{
    if d.len() > 1 {
        assert(d.drop_last()[0] == d[0]);
        assert(forall|i: int| 0 <= i < d.drop_last().len() ==> d.drop_last()[i] == d[i]);
        lemma_numeral_positive(d.drop_last());
    } else {
        assert(d.drop_last() =~= Seq::<char>::empty());
        assert(is_digit(d[0]));
    }
}

/// Writing the value of a canonical numeral gives the numeral back.
pub proof fn lemma_numeral_reads_back(d: Seq<char>)
    requires
        canonical_numeral(d),
    ensures
        decimal(decimal_value(d)) == d,
    decreases d.len(),
{
    let l = d.last();
    assert(is_digit(d[d.len() - 1]));
    let digit = ((l as u32) - 48) as nat;
    assert(((digit + 48) as char) == l);
    if d.len() == 1 {
        assert(d.drop_last() =~= Seq::<char>::empty());
        assert(decimal_value(d.drop_last()) == 0);
        assert(decimal_value(d) == digit);
        assert(decimal(digit) =~= d);
    } else {
        let p = d.drop_last();
        assert(p[0] == d[0]);
        assert(forall|i: int| 0 <= i < p.len() ==> p[i] == d[i]);
        lemma_numeral_positive(p);
        lemma_numeral_reads_back(p);
        let v = decimal_value(p);
        let n = decimal_value(d);
        assert(n == v * 10 + digit);
        assert(n >= 10);
        assert(n / 10 == v && n % 10 == digit);
        assert(decimal(n) =~= d);
    }
}

/// A FEN rank as the writer writes one: piece letters and digits `1`..`8`,
/// never two digits in a row.
pub open spec fn canonical_row(t: Seq<char>) -> bool {
    &&& forall|j: int| 0 <= j < t.len() ==> is_rank_char(#[trigger] t[j])
    &&& forall|j: int| 0 < j < t.len() ==> !(is_digit(t[j - 1]) && is_digit(#[trigger] t[j]))
}

proof fn lemma_letter_piece(c: char)
    requires
        piece_of_letter(c) is Some,
    ensures
        piece_letter(piece_of_letter(c)->0) == c,
{
    let p = piece_of_letter(c)->0;
    assert(piece_letter(p) == c) by {
        if c == 'p' || c == 'r' || c == 'n' || c == 'b' || c == 'q' || c == 'k' {
        } else {
            assert(c == 'P' || c == 'R' || c == 'N' || c == 'B' || c == 'Q' || c == 'K');
        }
    }
}

proof fn lemma_expand_cons(t: Seq<char>)
    requires
        t.len() > 0,
    ensures
        expand(t) == expand_char(t[0]) + expand(t.skip(1)),
{
    assert(t =~= seq![t[0]] + t.skip(1));
    lemma_expand_concat(seq![t[0]], t.skip(1));
    assert(seq![t[0]].drop_last() =~= Seq::<char>::empty());
    assert(seq![t[0]].last() == t[0]);
    assert(expand(Seq::<char>::empty()) =~= Seq::<Option<Piece>>::empty());
    assert(expand(seq![t[0]]) =~= expand_char(t[0]));
}

proof fn lemma_row_text_empties(b: Board, rank: int, f: int, e: nat, d: nat)
    requires
        0 <= f,
        f + d <= 8,
        forall|i: int| f <= i < f + d ==> b.at(i, rank) is None,
    ensures
        row_text(b, rank, f, e) == row_text(b, rank, f + d, e + d),
    decreases d,
{
    if d > 0 {
        assert(b.at(f, rank) is None);
        lemma_row_text_empties(b, rank, f + 1, e + 1, (d - 1) as nat);
    }
}

proof fn lemma_canonical_row_suffix(t: Seq<char>, k: int)
    requires
        canonical_row(t),
        0 <= k <= t.len(),
    ensures
        canonical_row(t.skip(k)),
{
    assert forall|j: int| 0 < j < t.skip(k).len() implies !(is_digit(t.skip(k)[j - 1]) && is_digit(
        #[trigger] t.skip(k)[j],
    )) by {
        assert(t.skip(k)[j] == t[j + k] && t.skip(k)[j - 1] == t[j + k - 1]);
    }
    assert forall|j: int| 0 <= j < t.skip(k).len() implies is_rank_char(#[trigger] t.skip(k)[j]) by {
        assert(t.skip(k)[j] == t[j + k]);
    }
}

/// A canonical rank standing for the squares of `rank` from `f` on is the
/// text the writer writes for them.
proof fn lemma_row_text_of_canonical(b: Board, rank: int, f: int, t: Seq<char>)
    requires
        0 <= rank < 8,
        0 <= f <= 8,
        canonical_row(t),
        expand(t) == rank_squares(b, rank, f),
    ensures
        row_text(b, rank, f, 0) == t,
    decreases t.len(),
{
    if t.len() == 0 {
        assert(expand(t) =~= Seq::<Option<Piece>>::empty());
        assert(rank_squares(b, rank, f).len() == 8 - f);
    } else {
        lemma_expand_cons(t);
        let c = t[0];
        assert(is_rank_char(t[0]));
        lemma_canonical_row_suffix(t, 1);
        if !is_digit(c) {
            let p = piece_of_letter(c)->0;
            assert(expand_char(c) =~= seq![Some(p)]);
            assert(expand(t).len() >= 1);
            assert(f < 8);
            assert(b.at(f, rank) == Some(p)) by {
                assert(rank_squares(b, rank, f)[0] == b.at(f, rank));
            }
            assert(expand(t.skip(1)).len() == rank_squares(b, rank, f + 1).len());
            assert forall|i: int| 0 <= i < expand(t.skip(1)).len() implies expand(t.skip(1))[i] == rank_squares(
                b,
                rank,
                f + 1,
            )[i] by {
                assert(expand(t)[1 + i] == expand(t.skip(1))[i]);
                assert(rank_squares(b, rank, f)[1 + i] == b.at(f + 1 + i, rank));
            }
            assert(expand(t.skip(1)) =~= rank_squares(b, rank, f + 1));
            lemma_row_text_of_canonical(b, rank, f + 1, t.skip(1));
            lemma_letter_piece(c);
            assert(row_text(b, rank, f, 0) =~= seq![c] + t.skip(1));
            assert(t =~= seq![c] + t.skip(1));
        } else {
            let d = ((c as u32) - 48) as nat;
            assert(1 <= d <= 8);
            assert(expand_char(c).len() == d);
            assert(expand(t).len() == expand_char(c).len() + expand(t.skip(1)).len());
            assert(rank_squares(b, rank, f).len() == 8 - f);
            assert(f + d <= 8);
            assert forall|i: int| f <= i < f + d implies b.at(i, rank) is None by {
                assert(rank_squares(b, rank, f)[i - f] == b.at(i, rank));
                assert(expand(t)[i - f] == expand_char(c)[i - f]);
            }
            lemma_row_text_empties(b, rank, f, 0, d);
            assert(decimal(d) =~= seq![c]);
            if t.len() == 1 {
                assert(t.skip(1) =~= Seq::<char>::empty());
                assert(expand(t.skip(1)) =~= Seq::<Option<Piece>>::empty());
                assert(f + d == 8);
                assert(t =~= seq![c]);
            } else {
                let c1 = t[1];
                assert(!is_digit(c1));
                assert(is_rank_char(t[1]));
                let p = piece_of_letter(c1)->0;
                let rest = t.skip(1);
                assert(rest[0] == c1);
                lemma_expand_cons(rest);
                assert(expand_char(c1) =~= seq![Some(p)]);
                assert(f + d < 8);
                assert(b.at(f + d, rank) == Some(p)) by {
                    assert(rank_squares(b, rank, f)[d as int] == b.at(f + d, rank));
                    assert(expand(t)[d as int] == expand(rest)[0]);
                }
                assert(rest.skip(1) =~= t.skip(2));
                lemma_canonical_row_suffix(t, 2);
                assert(expand(t.skip(2)) =~= rank_squares(b, rank, f + d + 1)) by {
                    assert(expand(t) == expand_char(c) + (seq![Some(p)] + expand(t.skip(2))));
                    assert(expand(t).len() == d + 1 + expand(t.skip(2)).len());
                    assert(rank_squares(b, rank, f + d + 1).len() == 8 - (f + d + 1));
                    assert(expand(t.skip(2)).len() == rank_squares(b, rank, f + d + 1).len());
                    assert forall|i: int| 0 <= i < expand(t.skip(2)).len() implies expand(t.skip(2))[i]
                        == rank_squares(b, rank, f + d + 1)[i] by {
                        assert(expand(t)[d + 1 + i] == expand(t.skip(2))[i]);
                        assert(rank_squares(b, rank, f)[d + 1 + i] == b.at(f + d + 1 + i, rank));
                    }
                }
                lemma_row_text_of_canonical(b, rank, f + d + 1, t.skip(2));
                lemma_letter_piece(c1);
                assert(row_text(b, rank, f + d, d) == decimal(d) + seq![c1] + row_text(b, rank, f + d + 1, 0));
                assert(t =~= seq![c, c1] + t.skip(2));
            }
        }
    }
}

/// A castling field that names some of `K`, `Q`, `k`, `q`, in that order.
pub open spec fn castle_letters(c: Seq<char>) -> bool {
    exists|r: (bool, bool, bool, bool)|
        (r.0 || r.1 || r.2 || r.3) && c == #[trigger] castle_join(r)
}

/// The letters of the rights that `r` grants, in the order `KQkq`.
pub open spec fn castle_join(r: (bool, bool, bool, bool)) -> Seq<char> {
    opt_letter(r.0, 'K') + opt_letter(r.1, 'Q') + opt_letter(r.2, 'k') + opt_letter(r.3, 'q')
}

proof fn lemma_castle_field(c: Seq<char>)
    requires
        c =~= seq!['-'] || castle_letters(c),
    ensures
        castle_text((c.contains('K'), c.contains('Q'), c.contains('k'), c.contains('q'))) == c,
{
    if c =~= seq!['-'] {
        assert forall|x: char| x != '-' implies !c.contains(x) by {
            if c.contains(x) {
                let i = choose|i: int| 0 <= i < c.len() && c[i] == x;
                assert(c[0] == '-');
            }
        }
    } else {
        let r = choose|r: (bool, bool, bool, bool)| (r.0 || r.1 || r.2 || r.3) && c == #[trigger] castle_join(r);
        let a = opt_letter(r.0, 'K');
        let b = opt_letter(r.1, 'Q');
        let cc = opt_letter(r.2, 'k');
        let d = opt_letter(r.3, 'q');
        assert forall|x: char| #[trigger] c.contains(x) <==> (r.0 && x == 'K' || r.1 && x == 'Q' || r.2 && x == 'k'
            || r.3 && x == 'q') by {
            lemma_concat_contains(a + b + cc, d, x);
            lemma_concat_contains(a + b, cc, x);
            lemma_concat_contains(a, b, x);
            lemma_opt_letter(r.0, 'K', x);
            lemma_opt_letter(r.1, 'Q', x);
            lemma_opt_letter(r.2, 'k', x);
            lemma_opt_letter(r.3, 'q', x);
        }
        assert(c.contains('K') == r.0 && c.contains('Q') == r.1 && c.contains('k') == r.2 && c.contains('q') == r.3);
        assert(castle_text(r) =~= c);
    }
}

proof fn lemma_row_ok_of_full(r: Seq<char>)
    requires
        forall|j: int| 0 <= j < r.len() ==> is_rank_char(#[trigger] r[j]),
        expand(r).len() == 8,
    ensures
        row_ok(r),
{
    assert forall|j: int| 0 <= j < r.len() && piece_of_letter(#[trigger] r[j]) is Some implies expand(r.take(j)).len()
        < 8 by {
        assert(r =~= r.take(j) + r.skip(j));
        lemma_expand_concat(r.take(j), r.skip(j));
        assert(r.skip(j)[0] == r[j]);
        lemma_expand_cons(r.skip(j));
        assert(!is_digit(r[j]));
    }
}

/// A FEN string as the writer writes one: of the FEN shape, each rank a
/// canonical rank of exactly eight squares, the castling field `-` or some of
/// `KQkq` in order, and clocks that fit a `u32` written without leading zeros.
pub open spec fn canonical_fen(s: Seq<char>) -> bool {
    let fields = split(s, ' ');
    let rows = split(fields[0], '/');
    &&& fen_shape(s)
    &&& forall|k: int| 0 <= k < 8 ==> canonical_row(#[trigger] rows[k]) && expand(rows[k]).len() == 8
    &&& fields[2] =~= seq!['-'] || castle_letters(fields[2])
    &&& canonical_numeral(fields[4])
    &&& canonical_numeral(fields[5])
    &&& decimal_value(fields[4]) <= u32::MAX
    &&& decimal_value(fields[5]) <= u32::MAX
}

/// Reading a FEN string as the writer writes one and writing the board back
/// gives the same string: the string is well formed and short enough for the
/// reader, and the FEN text of any board it describes is the string itself.
pub proof fn lemma_fen_text_round_trip(s: Seq<char>)
    requires
        canonical_fen(s),
    ensures
        fen_wf(s),
        s.len() <= 103,
        forall|b: Board| #[trigger] fen_describes(b, s) ==> fen_readable(b) && fen_text(b) == s,
{
    lemma_canonical_fen_len(s);
    let fields = split(s, ' ');
    let rows = split(fields[0], '/');
    assert forall|k: int| 0 <= k < 8 implies #[trigger] row_ok(rows[k]) by {
        assert(canonical_row(rows[k]));
        lemma_row_ok_of_full(rows[k]);
    }
    assert(fen_wf(s));
    assert forall|b: Board| #[trigger] fen_describes(b, s) implies fen_readable(b) && fen_text(b) == s by {
        assert forall|r: int| 0 <= r < 8 implies row_text(b, r, 0, 0) == rows[7 - r] by {
            let t = rows[7 - r];
            assert(canonical_row(t));
            assert forall|f: int| 0 <= f < 8 implies expand(t)[f] == rank_squares(b, r, 0)[f] by {
                assert(on_board(f, r));
                assert(b.at(f, r) == placed(rows[7 - r], f));
            }
            assert(expand(t) =~= rank_squares(b, r, 0));
            lemma_row_text_of_canonical(b, r, 0, t);
        }
        lemma_ranks_split(b, 7);
        assert(split(ranks_text(b, 7), '/') =~= rows);
        lemma_join_split(ranks_text(b, 7), '/');
        lemma_join_split(fields[0], '/');
        match b.en_passant_target {
            Some(sq) => {
                let c0 = fields[3][0];
                let c1 = fields[3][1];
                assert(!(fields[3] =~= seq!['-'])) by {
                    if fields[3] =~= seq!['-'] {
                        assert(fields[3].len() == 1);
                    }
                }
                assert(fields[3].len() == 2 && is_file_letter(c0) && (c1 == '3' || c1 == '6'));
                assert(sq == (file_of(c0), rank_of(c1)));
                assert(file_char(file_of(c0)) == c0);
                assert(rank_char(rank_of(c1)) == c1);
                assert(ep_text(b) =~= fields[3]);
            },
            None => {
                assert(ep_text(b) =~= fields[3]);
            },
        }
        assert(fen_readable(b));
        lemma_fen_fields(b);
        lemma_castle_field(fields[2]);
        lemma_numeral_reads_back(fields[4]);
        lemma_numeral_reads_back(fields[5]);
        assert(seq![if b.to_move == Color::White { 'w' } else { 'b' }] =~= fields[1]);
        assert(split(fen_text(b), ' ') =~= fields);
        lemma_join_split(fen_text(b), ' ');
        lemma_join_split(s, ' ');
    }
}

proof fn lemma_numeral_magnitude(d: Seq<char>)
    requires
        is_numeral(d),
        d[0] != '0',
    ensures
        decimal_value(d) >= pow10((d.len() - 1) as nat),
    decreases d.len(),
{
    if d.len() == 1 {
        lemma_numeral_positive(d);
        assert(pow10(0) == 1);
    } else {
        let p = d.drop_last();
        assert(p[0] == d[0]);
        assert(forall|i: int| 0 <= i < p.len() ==> p[i] == d[i]);
        lemma_numeral_magnitude(p);
        assert(pow10((d.len() - 1) as nat) == 10 * pow10((p.len() - 1) as nat));
        assert(decimal_value(d) == decimal_value(p) * 10 + (((d.last() as u32) - 48) as nat));
    }
}

proof fn lemma_pow10_grows(a: nat, b: nat)
    requires
        a <= b,
    ensures
        pow10(a) <= pow10(b),
    decreases b,
{
    if a < b {
        lemma_pow10_grows(a, (b - 1) as nat);
    }
}

proof fn lemma_numeral_short(d: Seq<char>)
    requires
        canonical_numeral(d),
        decimal_value(d) <= u32::MAX,
    ensures
        d.len() <= 10,
{
    if d.len() > 10 {
        lemma_numeral_magnitude(d);
        lemma_pow10_grows(10, (d.len() - 1) as nat);
        reveal_with_fuel(pow10, 11);
        assert(pow10(10) == 10000000000);
    }
}

proof fn lemma_join_six(p: Seq<Seq<char>>, sep: char)
    requires
        p.len() == 6,
    ensures
        join(p, sep).len() == p[0].len() + p[1].len() + p[2].len() + p[3].len() + p[4].len() + p[5].len() + 5,
{
    assert(p.drop_last().drop_last().drop_last().drop_last().drop_last() =~= seq![p[0]]);
    reveal_with_fuel(join, 7);
    assert(p.drop_last()[4] == p[4]);
    assert(p.drop_last().drop_last()[3] == p[3]);
    assert(p.drop_last().drop_last().drop_last()[2] == p[2]);
    assert(p.drop_last().drop_last().drop_last().drop_last()[1] == p[1]);
}

proof fn lemma_join_bounded(p: Seq<Seq<char>>, sep: char, k: nat)
    requires
        p.len() >= 1,
        forall|i: int| 0 <= i < p.len() ==> (#[trigger] p[i]).len() <= k,
    ensures
        join(p, sep).len() <= (k + 1) * p.len() - 1,
    decreases p.len(),
{
    if p.len() > 1 {
        assert(forall|i: int| 0 <= i < p.drop_last().len() ==> p.drop_last()[i] == p[i]);
        lemma_join_bounded(p.drop_last(), sep, k);
        assert(p.last() == p[p.len() - 1]);
        assert((k + 1) * p.len() == (k + 1) * p.drop_last().len() + (k + 1)) by (nonlinear_arith)
            requires
                p.len() == p.drop_last().len() + 1,
        ;
    }
}

/// A FEN string as the writer writes one is at most 103 characters long.
pub proof fn lemma_canonical_fen_len(s: Seq<char>)
    requires
        canonical_fen(s),
    ensures
        s.len() <= 103,
{
    let fields = split(s, ' ');
    let rows = split(fields[0], '/');
    lemma_join_split(s, ' ');
    lemma_join_split(fields[0], '/');
    lemma_join_six(fields, ' ');
    assert forall|i: int| 0 <= i < rows.len() implies (#[trigger] rows[i]).len() <= 8 by {
        assert(canonical_row(rows[i]));
        lemma_expand_covers(rows[i]);
    }
    lemma_join_bounded(rows, '/', 8);
    lemma_numeral_short(fields[4]);
    lemma_numeral_short(fields[5]);
    if !(fields[2] =~= seq!['-']) {
        let r = choose|r: (bool, bool, bool, bool)| (r.0 || r.1 || r.2 || r.3) && fields[2] == #[trigger] castle_join(r);
        lemma_opt_letter(r.0, 'K', 'K');
        lemma_opt_letter(r.1, 'Q', 'Q');
        lemma_opt_letter(r.2, 'k', 'k');
        lemma_opt_letter(r.3, 'q', 'q');
    }
}

} // verus!
