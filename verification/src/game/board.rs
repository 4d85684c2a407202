//! The board, moves and their statuses.
pub mod analysis;
pub mod apply;
pub mod attack;
pub mod fen;
pub mod fen_read;
pub mod fen_round_trip;
pub mod movegen;
pub mod safety;
pub mod text;
pub mod zobrist;

use crate::game::piece::{Color, Piece, PieceType};
use vstd::array::spec_array_update;
use vstd::prelude::*;

pub use self::analysis::{BoardAnal, RawAnal};
pub use self::zobrist::ZobristKeys;

verus! {

broadcast use vstd::array::group_array_axioms;

/// `(file, rank)`, each in `0..8` on the board.
pub type Square = (usize, usize);

/// A move given by its two squares.
pub type RawMove = (Square, Square);

/// Whether `(f, r)` lies on the board.
pub open spec fn on_board(f: int, r: int) -> bool {
    0 <= f < 8 && 0 <= r < 8
}

#[derive(Clone, Copy, Debug, PartialEq, Eq)]
pub struct ChessMove {
    pub from: Square,
    pub to: Square,
    pub promotion: Option<PieceType>,
}

#[derive(Clone, Copy, Debug, PartialEq, Eq)]
pub struct Board {
    pub squares: [[Option<Piece>; 8]; 8],
    pub to_move: Color,
    pub en_passant_target: Option<Square>,
    /// (white kingside, white queenside, black kingside, black queenside)
    pub castle_rights: (bool, bool, bool, bool),
    pub halfmove_clock: u32,
    pub fullmove_number: u32,
}

impl ChessMove {
    pub fn new(from: Square, to: Square, promotion: Option<PieceType>) -> (mv: ChessMove)
        ensures
            mv == (ChessMove { from, to, promotion }),
    {
        ChessMove { from, to, promotion }
    }

    /// The number of files and ranks the move goes, each read as `i8`.
    pub fn delta(&self) -> (d: (i8, i8))
        requires
            -128 <= spec_delta(*self).0 <= 127,
            -128 <= spec_delta(*self).1 <= 127,
        ensures
            d.0 == spec_delta(*self).0,
            d.1 == spec_delta(*self).1,
    {
        (self.to.0 as i8 - self.from.0 as i8, self.to.1 as i8 - self.from.1 as i8)
    }
}

/// The absolute value of `x`.
pub fn abs_i8(x: i8) -> (a: i8)
    requires
        x != i8::MIN,
    ensures
        a == if x < 0 { -x } else { x as int },
{
    if x < 0 {
        -x
    } else {
        x
    }
}

/// The number of files and ranks a move goes, computed on the squares read as `i8`.
pub open spec fn spec_delta(mv: ChessMove) -> (int, int) {
    (
        (mv.to.0 as i8) as int - (mv.from.0 as i8) as int,
        (mv.to.1 as i8) as int - (mv.from.1 as i8) as int,
    )
}

/// Why a move is refused.
#[derive(Clone, Copy, Debug, PartialEq, Eq, Structural)]
pub enum MoveStatus {
    Illegal,
    IllegalInCheck,
    IllegalCastleBlocked,
    IllegalNoPromotionNominated,
    Invalid,
    InvalidEmptySquare,
    InvalidWrongTurn,
    InvalidOutOfBounds,
}

/// The state of the game for the side to move.
#[derive(Clone, Copy, Debug, PartialEq, Eq, Structural)]
pub enum BoardStatus {
    /// Neither check nor the end of the game.
    Normal,
    Check,
    Checkmate,
    Stalemate,
}

impl MoveStatus {
    pub open spec fn text(self) -> Seq<char> {
        match self {
            MoveStatus::Illegal => "Illegal"@,
            MoveStatus::IllegalInCheck => "Illegal: In Check"@,
            MoveStatus::IllegalCastleBlocked => "Illegal: Castle Blocked"@,
            MoveStatus::IllegalNoPromotionNominated => "Illegal: No Promotion Nominated"@,
            MoveStatus::Invalid => "Invalid"@,
            MoveStatus::InvalidEmptySquare => "Invalid: Attempted to move from empty square"@,
            MoveStatus::InvalidWrongTurn => "Invalid: Not this piece's turn"@,
            MoveStatus::InvalidOutOfBounds => "Invalid: Attempted to move out of bounds"@,
        }
    }

    /// A description of the status.
    pub fn what(&self) -> (text: &str)
        ensures
            text@ == self.text(),
    {
        match self {
            MoveStatus::Illegal => "Illegal",
            MoveStatus::IllegalInCheck => "Illegal: In Check",
            MoveStatus::IllegalCastleBlocked => "Illegal: Castle Blocked",
            MoveStatus::IllegalNoPromotionNominated => "Illegal: No Promotion Nominated",
            MoveStatus::Invalid => "Invalid",
            MoveStatus::InvalidEmptySquare => "Invalid: Attempted to move from empty square",
            MoveStatus::InvalidWrongTurn => "Invalid: Not this piece's turn",
            MoveStatus::InvalidOutOfBounds => "Invalid: Attempted to move out of bounds",
        }
    }
}

/// Whether a refusal says the move breaks a rule of chess, rather than being
/// malformed.
pub open spec fn is_illegal_status(s: MoveStatus) -> bool {
    s == MoveStatus::Illegal || s == MoveStatus::IllegalInCheck || s == MoveStatus::IllegalCastleBlocked || s
        == MoveStatus::IllegalNoPromotionNominated
}

/// The descriptions of the refusals tell them apart, and begin with
/// `Illegal` for the moves that break a rule and with `Invalid` for the
/// others.
pub proof fn lemma_move_status_texts(s1: MoveStatus, s2: MoveStatus)
    ensures
        (s1.text() == s2.text()) == (s1 == s2),
        s1.text().len() >= 7,
        is_illegal_status(s1) <==> s1.text().take(7) == "Illegal"@,
        !is_illegal_status(s1) <==> s1.text().take(7) == "Invalid"@,
{
    reveal_strlit("Illegal");
    reveal_strlit("Illegal: In Check");
    reveal_strlit("Illegal: Castle Blocked");
    reveal_strlit("Illegal: No Promotion Nominated");
    reveal_strlit("Invalid");
    reveal_strlit("Invalid: Attempted to move from empty square");
    reveal_strlit("Invalid: Not this piece's turn");
    reveal_strlit("Invalid: Attempted to move out of bounds");
    assert(s1.text().take(7) =~= "Illegal"@ || s1.text().take(7) =~= "Invalid"@);
    assert(!("Illegal"@ =~= "Invalid"@)) by {
        assert("Illegal"@[2] != "Invalid"@[2]);
    }
    if s1 != s2 && s1.text().len() == s2.text().len() {
        assert(s1.text()[2] != s2.text()[2]);
    }
    if is_illegal_status(s1) {
        assert(s1.text().take(7) =~= "Illegal"@);
    } else {
        assert(s1.text().take(7) =~= "Invalid"@);
    }
}

impl BoardStatus {
    pub open spec fn text(self) -> Seq<char> {
        match self {
            BoardStatus::Normal => "Ok"@,
            BoardStatus::Check => "Check"@,
            BoardStatus::Checkmate => "Checkmate"@,
            BoardStatus::Stalemate => "Stalemate"@,
        }
    }

    /// A description of the status.
    pub fn what(&self) -> (text: &str)
        ensures
            text@ == self.text(),
    {
        match self {
            BoardStatus::Normal => "Ok",
            BoardStatus::Check => "Check",
            BoardStatus::Checkmate => "Checkmate",
            BoardStatus::Stalemate => "Stalemate",
        }
    }

    /// Whether the game is over: checkmate or stalemate.
    pub fn terminal(&self) -> (over: bool)
        ensures
            over == (*self == BoardStatus::Checkmate || *self == BoardStatus::Stalemate),
    {
        match self {
            BoardStatus::Normal => false,
            BoardStatus::Check => false,
            BoardStatus::Checkmate => true,
            BoardStatus::Stalemate => true,
        }
    }
}

impl Board {
    pub fn new(
        squares: [[Option<Piece>; 8]; 8],
        to_move: Color,
        en_passant_target: Option<Square>,
        castle_rights: (bool, bool, bool, bool),
        halfmove_clock: u32,
        fullmove_number: u32,
    ) -> (board: Board)
        ensures
            board == (Board {
                squares,
                to_move,
                en_passant_target,
                castle_rights,
                halfmove_clock,
                fullmove_number,
            }),
    {
        Board {
            squares: squares,
            to_move: to_move,
            en_passant_target: en_passant_target,
            castle_rights: castle_rights,
            halfmove_clock: halfmove_clock,
            fullmove_number: fullmove_number,
        }
    }

    /// The piece on `(f, r)`; none off the board.
    pub open spec fn at(self, f: int, r: int) -> Option<Piece> {
        if on_board(f, r) {
            self.squares[r][f]
        } else {
            None
        }
    }

    /// The board with `p` put on `(f, r)`.
    pub open spec fn set_sq(self, f: int, r: int, p: Option<Piece>) -> Board {
        Board {
            squares: spec_array_update(self.squares, r, spec_array_update(self.squares[r], f, p)),
            ..self
        }
    }

    pub fn get(&self, square: Square) -> (p: Option<Piece>)
        ensures
            p == self.at(square.0 as int, square.1 as int),
    {
        let (file, rank) = square;
        if file >= 8 || rank >= 8 {
            return None;
        }
        self.squares[rank][file]
    }

    pub fn edit_board(&mut self, square: Square, piece: Option<Piece>)
        requires
            on_board(square.0 as int, square.1 as int),
        ensures
            *final(self) == old(self).set_sq(square.0 as int, square.1 as int, piece),
    {
        self.squares[square.1][square.0] = piece;
        proof {
            let e = old(self).set_sq(square.0 as int, square.1 as int, piece);
            assert(self.squares[square.1 as int] =~= e.squares[square.1 as int]);
            assert(self.squares =~= e.squares);
        }
    }
}

/// Reading a square after putting a piece on a square gives the piece put
/// there when it is that square, and what stood there before otherwise.
pub proof fn lemma_set_sq_at(b: Board, f: int, r: int, p: Option<Piece>, f2: int, r2: int)
    requires
        on_board(f, r),
    ensures
        b.set_sq(f, r, p).at(f2, r2) == if f2 == f && r2 == r { p } else { b.at(f2, r2) },
{
}

} // verus!
