//! Writing a board as FEN and as a picture.
use crate::game::board::text::{
    decimal, file_char, piece_char, piece_letter, push_char, push_decimal, rank_char, square_writable,
};
use crate::game::board::Board;
use crate::game::piece::Color;
use vstd::prelude::*;
use vstd::string::StringExecFns;

verus! {

/// The FEN text of rank `rank` from file `file` on, with `empty` empty squares pending.
pub open spec fn row_text(b: Board, rank: int, file: int, empty: nat) -> Seq<char>
    decreases 8 - file,
{
    if file >= 8 {
        if empty > 0 {
            decimal(empty)
        } else {
            Seq::empty()
        }
    } else {
        match b.at(file, rank) {
            Some(p) => (if empty > 0 {
                decimal(empty)
            } else {
                Seq::empty()
            }) + seq![piece_letter(p)] + row_text(b, rank, file + 1, 0),
            None => row_text(b, rank, file + 1, empty + 1),
        }
    }
}

/// The FEN text of the ranks `rank` down to the first, separated by `/`.
pub open spec fn ranks_text(b: Board, rank: int) -> Seq<char>
    decreases rank + 1,
{
    if rank < 0 {
        Seq::empty()
    } else {
        row_text(b, rank, 0, 0) + (if rank > 0 {
            seq!['/']
        } else {
            Seq::empty()
        }) + ranks_text(b, rank - 1)
    }
}

/// The FEN castling field.
pub open spec fn castle_text(cr: (bool, bool, bool, bool)) -> Seq<char> {
    if !cr.0 && !cr.1 && !cr.2 && !cr.3 {
        seq!['-']
    } else {
        (if cr.0 {
            seq!['K']
        } else {
            Seq::empty()
        }) + (if cr.1 {
            seq!['Q']
        } else {
            Seq::empty()
        }) + (if cr.2 {
            seq!['k']
        } else {
            Seq::empty()
        }) + (if cr.3 {
            seq!['q']
        } else {
            Seq::empty()
        })
    }
}

/// The FEN text of a board.
pub open spec fn fen_text(b: Board) -> Seq<char> {
    ranks_text(b, 7) + seq![' ', if b.to_move == Color::White {
        'w'
    } else {
        'b'
    }, ' '] + castle_text(b.castle_rights) + seq![' '] + match b.en_passant_target {
        Some(sq) => seq![file_char(sq.0), rank_char(sq.1)],
        None => seq!['-'],
    } + seq![' '] + decimal(b.halfmove_clock as nat) + seq![' '] + decimal(b.fullmove_number as nat)
}

/// The picture of rank `rank` from file `file` on: a letter or `.` for each
/// square, each followed by a space.
pub open spec fn row_picture(b: Board, rank: int, file: int) -> Seq<char>
    decreases 8 - file,
{
    if file >= 8 {
        Seq::empty()
    } else {
        seq![
            match b.at(file, rank) {
                Some(p) => piece_letter(p),
                None => '.',
            },
            ' ',
        ] + row_picture(b, rank, file + 1)
    }
}

/// The picture of the ranks `rank` down to the first, each line starting with its number.
pub open spec fn ranks_picture(b: Board, rank: int) -> Seq<char>
    decreases rank + 1,
{
    if rank < 0 {
        Seq::empty()
    } else {
        decimal((rank + 1) as nat) + seq![' '] + row_picture(b, rank, 0) + seq!['\n'] + ranks_picture(b, rank - 1)
    }
}

/// The picture of a board, white at the bottom, with the file letters below.
pub open spec fn picture(b: Board) -> Seq<char> {
    ranks_picture(b, 7) + "  a b c d e f g h\n"@
}

impl Board {
    /// Appends the FEN text of one rank.
    fn push_row_fen(&self, fen: &mut String, rank: usize)
        requires
            rank < 8,
        ensures
            final(fen)@ == old(fen)@ + row_text(*self, rank as int, 0, 0),
    {
        let ghost target = old(fen)@ + row_text(*self, rank as int, 0, 0);
        let mut empty_count: u32 = 0;
        let mut file: usize = 0;
        while file < 8
            invariant
                rank < 8,
                0 <= file <= 8,
                empty_count <= file,
                fen@ + row_text(*self, rank as int, file as int, empty_count as nat) == target,
            decreases 8 - file,
        {
            match self.squares[rank][file] {
                Some(piece) => {
                    if empty_count > 0 {
                        push_decimal(fen, empty_count);
                        empty_count = 0;
                    }
                    push_char(fen, piece_char(piece));
                },
                None => empty_count += 1,
            }
            file += 1;
            assert(fen@ + row_text(*self, rank as int, file as int, empty_count as nat) =~= target);
        }
        if empty_count > 0 {
            push_decimal(fen, empty_count);
        }
        assert(fen@ =~= target);
    }

    /// Appends the placement field: the ranks from the eighth down, separated by `/`.
    fn push_placement(&self, fen: &mut String)
        ensures
            final(fen)@ == old(fen)@ + ranks_text(*self, 7),
    {
        let ghost target = old(fen)@ + ranks_text(*self, 7);
        let mut rank: usize = 8;
        while rank > 0
            invariant
                0 <= rank <= 8,
                fen@ + ranks_text(*self, rank as int - 1) == target,
            decreases rank,
        {
            rank -= 1;
            let ghost before = fen@;
            self.push_row_fen(fen, rank);
            if rank > 0 {
                push_char(fen, '/');
            }
            assert(before + ranks_text(*self, rank as int) =~= fen@ + ranks_text(*self, rank as int - 1));
        }
        assert(fen@ =~= target);
    }

    /// Appends the castling field.
    fn push_castle(&self, fen: &mut String)
        ensures
            final(fen)@ == old(fen)@ + castle_text(self.castle_rights),
    {
        if !self.castle_rights.0 && !self.castle_rights.1 && !self.castle_rights.2 && !self.castle_rights.3 {
            push_char(fen, '-');
        } else {
            if self.castle_rights.0 {
                push_char(fen, 'K');
            }
            if self.castle_rights.1 {
                push_char(fen, 'Q');
            }
            if self.castle_rights.2 {
                push_char(fen, 'k');
            }
            if self.castle_rights.3 {
                push_char(fen, 'q');
            }
        }
        assert(fen@ =~= old(fen)@ + castle_text(self.castle_rights));
    }

    /// The FEN text of the board.
    pub fn to_fen(&self) -> (fen: String)
        requires
            self.en_passant_target matches Some(sq) ==> square_writable(sq),
        ensures
            fen@ == fen_text(*self),
    {
        let mut fen = String::new();
        self.push_placement(&mut fen);
        push_char(&mut fen, ' ');
        push_char(
            &mut fen,
            if self.to_move == Color::White {
                'w'
            } else {
                'b'
            },
        );
        push_char(&mut fen, ' ');
        self.push_castle(&mut fen);
        push_char(&mut fen, ' ');
        let ghost before_ep = fen@;
        if let Some((file, rank)) = self.en_passant_target {
            push_char(&mut fen, (file as u8 + 97u8) as char);
            push_char(&mut fen, (rank as u8 + 49u8) as char);
        } else {
            push_char(&mut fen, '-');
        }
        let ghost ep = match self.en_passant_target {
            Some(sq) => seq![file_char(sq.0), rank_char(sq.1)],
            None => seq!['-'],
        };
        assert(fen@ =~= before_ep + ep);
        push_char(&mut fen, ' ');
        push_decimal(&mut fen, self.halfmove_clock);
        push_char(&mut fen, ' ');
        push_decimal(&mut fen, self.fullmove_number);
        assert(fen@ =~= fen_text(*self));
        fen
    }

    /// A picture of the board, one line per rank from the eighth down, white
    /// pieces in upper case, empty squares as `.`.
    pub fn render_ascii(&self) -> (rendered: String)
        ensures
            rendered@ == picture(*self),
    {
        let mut board_str = String::new();
        let ghost target = ranks_picture(*self, 7);
        let mut rank: usize = 8;
        while rank > 0
            invariant
                0 <= rank <= 8,
                board_str@ + ranks_picture(*self, rank as int - 1) == target,
            decreases rank,
        {
            rank -= 1;
            let ghost before = board_str@;
            push_decimal(&mut board_str, (rank + 1) as u32);
            push_char(&mut board_str, ' ');
            let mut file: usize = 0;
            while file < 8
                invariant
                    rank < 8,
                    0 <= file <= 8,
                    board_str@ + row_picture(*self, rank as int, file as int) == before + decimal(
                        (rank + 1) as nat,
                    ) + seq![' '] + row_picture(*self, rank as int, 0),
                decreases 8 - file,
            {
                match self.squares[rank][file] {
                    Some(piece) => push_char(&mut board_str, piece_char(piece)),
                    None => push_char(&mut board_str, '.'),
                }
                push_char(&mut board_str, ' ');
                file += 1;
                assert(board_str@ + row_picture(*self, rank as int, file as int) =~= before + decimal(
                    (rank + 1) as nat,
                ) + seq![' '] + row_picture(*self, rank as int, 0));
            }
            push_char(&mut board_str, '\n');
            assert(before + ranks_picture(*self, rank as int) =~= board_str@ + ranks_picture(
                *self,
                rank as int - 1,
            ));
        }
        assert(board_str@ =~= target);
        board_str.append("  a b c d e f g h\n");
        board_str
    }
}

} // verus!
