use chess_engine::game::move_patterns::{BISHOP_MOVES, KING_MOVES, KNIGHT_MOVES, PAWN_MOVES, QUEEN_MOVES, ROOK_MOVES};
use chess_engine::game::{Board, BoardStatus, ChessMove, Color, Movable, MoveStatus, Piece, PieceType};

const START: &str = "rnbqkbnr/pppppppp/8/8/8/8/PPPPPPPP/RNBQKBNR w KQkq - 0 1";

fn board(fen: &str) -> Board {
    Board::from_fen(fen).unwrap()
}

#[test]
fn start_position_is_read() {
    let b = board(START);
    assert_eq!(b.to_move, Color::White);
    assert_eq!(b.castle_rights, (true, true, true, true));
    assert_eq!(b.en_passant_target, None);
    assert_eq!(b.halfmove_clock, 0);
    assert_eq!(b.fullmove_number, 1);
    assert_eq!(b.get((4, 0)), Some(Piece::new(Color::White, PieceType::King)));
    assert_eq!(b.get((3, 7)), Some(Piece::new(Color::Black, PieceType::Queen)));
    assert_eq!(b.get((0, 6)), Some(Piece::new(Color::Black, PieceType::Pawn)));
    assert_eq!(b.get((4, 4)), None);
}

#[test]
fn start_position_fen_round_trip() {
    assert_eq!(board(START).to_fen(), START);
}

#[test]
fn fen_round_trip_with_en_passant_and_clocks() {
    let fen = "rnbqkbnr/pp1ppppp/8/2p5/4P3/5N2/PPPP1PPP/RNBQKB1R b Kq c6 13 250";
    let b = board(fen);
    assert_eq!(b.en_passant_target, Some((2, 5)));
    assert_eq!(b.castle_rights, (true, false, false, true));
    assert_eq!(b.halfmove_clock, 13);
    assert_eq!(b.fullmove_number, 250);
    assert_eq!(b.to_fen(), fen);
}

#[test]
fn fen_without_castling_rights() {
    let fen = "8/8/8/8/8/8/8/K6k w - - 0 1";
    let b = board(fen);
    assert_eq!(b.castle_rights, (false, false, false, false));
    assert_eq!(b.to_fen(), fen);
}

#[test]
fn malformed_fen_is_refused() {
    assert_eq!(Board::from_fen("not a fen"), Err("Invalid FEN string".to_string()));
    assert_eq!(
        Board::from_fen("rnbqkbnr/pppppppp/8/8/8/8/PPPPPPPP w KQkq - 0 1"),
        Err("Invalid FEN string".to_string())
    );
    assert_eq!(
        Board::from_fen("rnbqkbnr/pppppppp/8/8/8/8/PPPPPPPP/RNBQKBNR x KQkq - 0 1"),
        Err("Invalid FEN string".to_string())
    );
    assert_eq!(
        Board::from_fen("rnbqkbnr/pppppppp/8/8/8/8/PPPPPPPP/RNBQKBNR w KQkq e4 0 1"),
        Err("Invalid FEN string".to_string())
    );
}

#[test]
fn checked_reader_refuses_overfull_rank() {
    let fen = "rnbqkbnr/ppppppppp/8/8/8/8/PPPPPPPP/RNBQKBNR w KQkq - 0 1";
    assert_eq!(Board::from_fen_checked(fen), None);
    let huge = "rnbqkbnr/pppppppp/8/8/8/8/PPPPPPPP/RNBQKBNR w KQkq - 0 99999999999";
    assert_eq!(Board::from_fen_checked(huge), None);
    assert_eq!(Board::from_fen_checked(START), Some(Ok(board(START))));
    assert_eq!(Board::from_fen_checked("junk"), Some(Err("Invalid FEN string".to_string())));
}

#[test]
fn start_position_picture() {
    let expected = "8 r n b q k b n r \n\
                    7 p p p p p p p p \n\
                    6 . . . . . . . . \n\
                    5 . . . . . . . . \n\
                    4 . . . . . . . . \n\
                    3 . . . . . . . . \n\
                    2 P P P P P P P P \n\
                    1 R N B Q K B N R \n  a b c d e f g h\n";
    assert_eq!(board(START).render_ascii(), expected);
}

#[test]
fn uci_is_read() {
    assert_eq!(ChessMove::from_uci("e2e4"), Ok(ChessMove::new((4, 1), (4, 3), None)));
    assert_eq!(
        ChessMove::from_uci("a7a8q"),
        Ok(ChessMove::new((0, 6), (0, 7), Some(PieceType::Queen)))
    );
    assert_eq!(
        ChessMove::from_uci("h2h1n"),
        Ok(ChessMove::new((7, 1), (7, 0), Some(PieceType::Knight)))
    );
}

#[test]
fn uci_errors() {
    assert_eq!(ChessMove::from_uci("e2"), Err("Invalid UCI string length".to_string()));
    assert_eq!(ChessMove::from_uci("e2e4e5"), Err("Invalid UCI string length".to_string()));
    assert_eq!(ChessMove::from_uci("a7a8k"), Err("Invalid promotion piece".to_string()));
}

#[test]
fn uci_readability() {
    assert!(ChessMove::can_read_uci("e2e4"));
    assert!(ChessMove::can_read_uci("x"));
    assert!(!ChessMove::can_read_uci("1111"));
    assert!(!ChessMove::can_read_uci("E2e4"));
}

#[test]
fn uci_round_trip() {
    for text in ["e2e4", "g1f3", "a7a8q", "b2b1r", "c7c8b", "h7h8n"] {
        assert_eq!(ChessMove::from_uci(text).unwrap().to_uci(), text);
    }
}

#[test]
fn move_delta_and_abs() {
    assert_eq!(ChessMove::new((4, 1), (4, 3), None).delta(), (0, 2));
    assert_eq!(ChessMove::new((4, 0), (2, 0), None).delta(), (-2, 0));
    assert_eq!(chess_engine::game::board::abs_i8(-3), 3);
    assert_eq!(chess_engine::game::board::abs_i8(7), 7);
}

#[test]
fn names() {
    assert_eq!(Color::White.opposite(), Color::Black);
    assert_eq!(Color::Black.opposite().opposite(), Color::Black);
    assert_eq!(Color::Black.what(), "Black");
    assert_eq!(PieceType::Knight.what(), "Knight");
    assert_eq!(MoveStatus::InvalidWrongTurn.what(), "Invalid: Not this piece's turn");
    assert_eq!(MoveStatus::IllegalCastleBlocked.what(), "Illegal: Castle Blocked");
    assert_eq!(BoardStatus::Normal.what(), "Ok");
    assert_eq!(BoardStatus::Checkmate.what(), "Checkmate");
    assert!(BoardStatus::Checkmate.terminal());
    assert!(BoardStatus::Stalemate.terminal());
    assert!(!BoardStatus::Check.terminal());
    assert!(!BoardStatus::Normal.terminal());
}

#[test]
fn move_patterns() {
    assert_eq!(PieceType::Pawn.move_pattern(), &PAWN_MOVES[..]);
    assert_eq!(PieceType::Rook.move_pattern().len(), ROOK_MOVES.len());
    assert_eq!(PieceType::Knight.move_pattern(), &KNIGHT_MOVES[..]);
    assert_eq!(PieceType::Bishop.move_pattern(), &BISHOP_MOVES[..]);
    assert_eq!(PieceType::Queen.move_pattern(), &QUEEN_MOVES[..]);
    assert_eq!(PieceType::King.move_pattern(), &KING_MOVES[..]);
    assert_eq!(PAWN_MOVES.len(), 12);
    assert_eq!(KING_MOVES.len(), 10);
}

#[test]
fn board_get_and_edit() {
    let mut b = board(START);
    assert_eq!(b.get((8, 0)), None);
    assert_eq!(b.get((0, 9)), None);
    b.edit_board((4, 4), Some(Piece::new(Color::White, PieceType::Queen)));
    assert_eq!(b.get((4, 4)), Some(Piece::new(Color::White, PieceType::Queen)));
    b.edit_board((4, 0), None);
    assert_eq!(b.get((4, 0)), None);
    let rebuilt = Board::new(b.squares, b.to_move, b.en_passant_target, b.castle_rights, 0, 1);
    assert_eq!(rebuilt, b);
}

#[test]
fn board_survives_writing_and_reading() {
    let mut b = board(START);
    b.en_passant_target = Some((3, 5));
    b.castle_rights = (false, true, true, false);
    b.halfmove_clock = 4294967295;
    b.fullmove_number = 10;
    b.edit_board((0, 3), Some(Piece::new(Color::Black, PieceType::Knight)));
    b.edit_board((7, 7), None);
    assert_eq!(Board::from_fen(&b.to_fen()), Ok(b));
}

#[test]
fn piece_names() {
    assert_eq!(Piece::new(Color::White, PieceType::Pawn).what(), "White Pawn");
    assert_eq!(Piece::new(Color::Black, PieceType::Queen).what(), "Black Queen");
}
