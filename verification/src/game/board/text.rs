//! Characters and strings: UCI move notation and the helpers the text formats share.
use crate::game::board::{on_board, ChessMove, Square};
use crate::game::piece::{Color, Piece, PieceType};
use vstd::prelude::*;
use vstd::string::{StrSliceExecFns, StringSliceAdditionalSpecFns};

verus! {

/// Appends `c` to `s` (`String::push`).
#[verifier::external_body]
pub(crate) fn push_char(s: &mut String, c: char)
    ensures
        final(s)@ == old(s)@.push(c),
{
    s.push(c)
}

/// The characters of `s`.
pub(crate) fn str_chars(s: &str) -> (chars: Vec<char>)
    ensures
        chars@ == s@,
{
    let n = s.unicode_len();
    let mut chars: Vec<char> = Vec::new();
    let mut i: usize = 0;
    while i < n
        invariant
            n == s@.len(),
            0 <= i <= n,
            chars@ == s@.take(i as int),
        decreases n - i,
    {
        chars.push(s.get_char(i));
        assert(chars@ =~= s@.take(i as int + 1));
        i += 1;
    }
    assert(s@.take(n as int) =~= s@);
    chars
}

/// The decimal digits of `n`.
pub open spec fn decimal(n: nat) -> Seq<char>
    decreases n,
{
    if n < 10 {
        seq![(n + 48) as char]
    } else {
        decimal(n / 10).push(((n % 10) + 48) as char)
    }
}

/// Appends the decimal digits of `n` to `s`.
pub(crate) fn push_decimal(s: &mut String, n: u32)
    ensures
        final(s)@ == old(s)@ + decimal(n as nat),
    decreases n,
{
    if n >= 10 {
        push_decimal(s, n / 10);
    }
    push_char(s, ((n % 10) as u8 + 48u8) as char);
    assert(s@ =~= old(s)@ + decimal(n as nat));
}

/// The letter of a kind of piece in FEN and the board picture: lower case.
pub open spec fn kind_letter(kind: PieceType) -> char {
    match kind {
        PieceType::Pawn => 'p',
        PieceType::Rook => 'r',
        PieceType::Knight => 'n',
        PieceType::Bishop => 'b',
        PieceType::Queen => 'q',
        PieceType::King => 'k',
    }
}

/// The letter of a piece: upper case for white, lower case for black.
pub open spec fn piece_letter(p: Piece) -> char {
    if p.color == Color::White {
        ((kind_letter(p.kind) as u8) - 32) as char
    } else {
        kind_letter(p.kind)
    }
}

pub(crate) fn piece_char(piece: Piece) -> (c: char)
    ensures
        c == piece_letter(piece),
{
    let piece_char = match piece.kind {
        PieceType::Pawn => 'p',
        PieceType::Rook => 'r',
        PieceType::Knight => 'n',
        PieceType::Bishop => 'b',
        PieceType::Queen => 'q',
        PieceType::King => 'k',
    };
    if piece.color == Color::White {
        ((piece_char as u8) - 32u8) as char
    } else {
        piece_char
    }
}

/// The letter of a file and the digit of a rank, as the move code writes them.
pub open spec fn file_char(f: usize) -> char {
    ((f as u8) + 97) as char
}

pub open spec fn rank_char(r: usize) -> char {
    ((r as u8) + 49) as char
}

/// The coordinate of a square from its letter or digit, as the move code reads it.
pub open spec fn file_of(c: char) -> usize {
    ((c as u8) - 97) as usize
}

pub open spec fn rank_of(c: char) -> usize {
    ((c as u8) - 49) as usize
}

/// Whether the letter and the digit of a square can be written without overflow.
pub open spec fn square_writable(sq: Square) -> bool {
    (sq.0 as u8) + 97 <= 255 && (sq.1 as u8) + 49 <= 255
}

/// The promotion a UCI string names by its fifth character.
pub open spec fn promotion_of(c: char) -> Option<PieceType> {
    if c == 'q' {
        Some(PieceType::Queen)
    } else if c == 'r' {
        Some(PieceType::Rook)
    } else if c == 'b' {
        Some(PieceType::Bishop)
    } else if c == 'n' {
        Some(PieceType::Knight)
    } else {
        None
    }
}

/// Whether reading a UCI string of `bytes` bytes and characters `s` is free
/// of faults: its first four characters exist and lie at or above `a1a1`,
/// and a fifth exists when it has five bytes.
pub open spec fn uci_safe(s: Seq<char>, bytes: nat) -> bool {
    4 <= bytes <= 5 ==> {
        &&& s.len() >= 4
        &&& (s[0] as u8) >= 97
        &&& (s[1] as u8) >= 49
        &&& (s[2] as u8) >= 97
        &&& (s[3] as u8) >= 49
        &&& bytes == 5 ==> s.len() >= 5
    }
}

/// The move a UCI string of `bytes` bytes and characters `s` names.
pub open spec fn uci_move(s: Seq<char>, bytes: nat) -> Result<ChessMove, Seq<char>> {
    if bytes < 4 || bytes > 5 {
        Err("Invalid UCI string length"@)
    } else {
        let from = (file_of(s[0]), rank_of(s[1]));
        let to = (file_of(s[2]), rank_of(s[3]));
        if bytes == 5 {
            match promotion_of(s[4]) {
                Some(k) => Ok(ChessMove { from, to, promotion: Some(k) }),
                None => Err("Invalid promotion piece"@),
            }
        } else {
            Ok(ChessMove { from, to, promotion: None })
        }
    }
}

/// The UCI letter of a promotion; none for a king or a pawn.
pub open spec fn promotion_text(p: Option<PieceType>) -> Seq<char> {
    match p {
        Some(PieceType::Queen) => seq!['q'],
        Some(PieceType::Rook) => seq!['r'],
        Some(PieceType::Bishop) => seq!['b'],
        Some(PieceType::Knight) => seq!['n'],
        _ => Seq::empty(),
    }
}

/// The UCI text of a move.
pub open spec fn uci_text(mv: ChessMove) -> Seq<char> {
    seq![file_char(mv.from.0), rank_char(mv.from.1), file_char(mv.to.0), rank_char(mv.to.1)]
        + promotion_text(mv.promotion)
}

impl ChessMove {
    /// Reads a move in UCI notation, such as `e2e4` or `e7e8q`.
    pub fn from_uci(uci: &str) -> (result: Result<ChessMove, String>)
        requires
            uci.spec_bytes().len() <= usize::MAX,
            uci_safe(uci@, uci.spec_bytes().len()),
        ensures
            match uci_move(uci@, uci.spec_bytes().len()) {
                Ok(mv) => result == Ok::<ChessMove, String>(mv),
                Err(text) => result matches Err(e) && e@ == text,
            },
    {
        if uci.len() < 4 || uci.len() > 5 {
            return Err("Invalid UCI string length".to_owned());
        }
        let from_file = uci.get_char(0);
        let from_rank = uci.get_char(1);
        let to_file = uci.get_char(2);
        let to_rank = uci.get_char(3);
        let from = ((from_file as u8 - 97u8) as usize, (from_rank as u8 - 49u8) as usize);
        let to = ((to_file as u8 - 97u8) as usize, (to_rank as u8 - 49u8) as usize);
        let promotion = if uci.len() == 5 {
            match uci.get_char(4) {
                'q' => Some(PieceType::Queen),
                'r' => Some(PieceType::Rook),
                'b' => Some(PieceType::Bishop),
                'n' => Some(PieceType::Knight),
                _ => return Err("Invalid promotion piece".to_owned()),
            }
        } else {
            None
        };
        Ok(ChessMove::new(from, to, promotion))
    }

    /// Whether [`ChessMove::from_uci`] may be called with `uci`.
    pub fn can_read_uci(uci: &str) -> (ok: bool)
        requires
            uci.spec_bytes().len() <= usize::MAX,
        ensures
            ok == uci_safe(uci@, uci.spec_bytes().len()),
    {
        let bytes = uci.len();
        if bytes < 4 || bytes > 5 {
            return true;
        }
        let n = uci.unicode_len();
        if n < 4 {
            return false;
        }
        let ok = (uci.get_char(0) as u8) >= 97u8 && (uci.get_char(1) as u8) >= 49u8 && (uci.get_char(2) as u8)
            >= 97u8 && (uci.get_char(3) as u8) >= 49u8;
        ok && (bytes != 5 || n >= 5)
    }

    /// Writes the move in UCI notation.
    pub fn to_uci(&self) -> (uci: String)
        requires
            square_writable(self.from),
            square_writable(self.to),
        ensures
            uci@ == uci_text(*self),
    {
        let mut uci: String = String::new();
        push_char(&mut uci, (self.from.0 as u8 + 97u8) as char);
        push_char(&mut uci, (self.from.1 as u8 + 49u8) as char);
        push_char(&mut uci, (self.to.0 as u8 + 97u8) as char);
        push_char(&mut uci, (self.to.1 as u8 + 49u8) as char);
        if self.promotion.is_some() {
            match self.promotion.unwrap() {
                PieceType::Queen => push_char(&mut uci, 'q'),
                PieceType::Rook => push_char(&mut uci, 'r'),
                PieceType::Bishop => push_char(&mut uci, 'b'),
                PieceType::Knight => push_char(&mut uci, 'n'),
                // a king or a pawn is never a promotion
                PieceType::King => {},
                PieceType::Pawn => {},
            }
        }
        assert(uci@ =~= uci_text(*self));
        uci
    }
}

} // verus!

verus! {

/// Whether `c` is a file letter `a`..`h`.
pub open spec fn is_file_letter(c: char) -> bool {
    'a' <= c <= 'h'
}

/// Whether `c` is a rank digit `1`..`8`.
pub open spec fn is_rank_digit(c: char) -> bool {
    '1' <= c <= '8'
}

/// Whether `s` is a move in UCI notation on the board: two squares and an
/// optional promotion letter.
pub open spec fn is_uci(s: Seq<char>) -> bool {
    &&& 4 <= s.len() <= 5
    &&& is_file_letter(s[0]) && is_rank_digit(s[1]) && is_file_letter(s[2]) && is_rank_digit(s[3])
    &&& s.len() == 5 ==> (s[4] == 'q' || s[4] == 'r' || s[4] == 'b' || s[4] == 'n')
}

proof fn lemma_square_chars(f: usize, r: usize)
    requires
        f < 8,
        r < 8,
    ensures
        file_of(file_char(f)) == f,
        rank_of(rank_char(r)) == r,
        is_file_letter(file_char(f)),
        is_rank_digit(rank_char(r)),
        (file_char(f) as u8) >= 97,
        (rank_char(r) as u8) >= 49,
{
    assert((f as u8) as int == f);
    assert((r as u8) as int == r);
}

proof fn lemma_square_of_chars(a: char, d: char)
    requires
        is_file_letter(a),
        is_rank_digit(d),
    ensures
        file_char(file_of(a)) == a,
        rank_char(rank_of(d)) == d,
        file_of(a) < 8,
        rank_of(d) < 8,
{
}

/// Writing a move on the board in UCI notation and reading it back gives the
/// move again.
pub proof fn lemma_uci_roundtrip_move(mv: ChessMove)
    requires
        on_board(mv.from.0 as int, mv.from.1 as int),
        on_board(mv.to.0 as int, mv.to.1 as int),
        mv.promotion != Some(PieceType::King),
        mv.promotion != Some(PieceType::Pawn),
    ensures
        square_writable(mv.from) && square_writable(mv.to),
        is_uci(uci_text(mv)),
        uci_safe(uci_text(mv), uci_text(mv).len()),
        uci_move(uci_text(mv), uci_text(mv).len()) == Ok::<ChessMove, Seq<char>>(mv),
{
    lemma_square_chars(mv.from.0, mv.from.1);
    lemma_square_chars(mv.to.0, mv.to.1);
    assert((mv.from.0 as u8) as int == mv.from.0 && (mv.to.0 as u8) as int == mv.to.0);
    assert((mv.from.1 as u8) as int == mv.from.1 && (mv.to.1 as u8) as int == mv.to.1);
}

/// Reading a UCI string and writing the move back gives the string again.
pub proof fn lemma_uci_roundtrip_text(s: Seq<char>)
    requires
        is_uci(s),
    ensures
        uci_safe(s, s.len()),
        uci_move(s, s.len()) matches Ok(mv) && uci_text(mv) == s && square_writable(mv.from) && square_writable(
            mv.to,
        ),
{
    lemma_square_of_chars(s[0], s[1]);
    lemma_square_of_chars(s[2], s[3]);
    let mv = uci_move(s, s.len())->Ok_0;
    assert(uci_text(mv) =~= s);
}

} // verus!
