use chess_engine::game::{Board, BoardStatus, ChessMove, Color, MoveStatus, Piece, PieceType};

const START: &str = "rnbqkbnr/pppppppp/8/8/8/8/PPPPPPPP/RNBQKBNR w KQkq - 0 1";

fn board(fen: &str) -> Board {
    Board::from_fen(fen).unwrap()
}

fn mv(text: &str) -> ChessMove {
    ChessMove::from_uci(text).unwrap()
}

fn play(b: &mut Board, text: &str) -> Result<(), MoveStatus> {
    assert!(b.can_analyse());
    let anal = b.anal();
    assert!(b.can_try(&anal, mv(text)));
    b.try_move(&anal, mv(text))
}

#[test]
fn start_position_has_twenty_moves() {
    let b = board(START);
    assert!(b.can_analyse());
    let anal = b.anal();
    assert_eq!(anal.legal_moves.len(), 20);
    assert_eq!(anal.board_status(), BoardStatus::Normal);
    assert_eq!(anal.pieces(Color::White).len(), 16);
    assert_eq!(anal.pieces(Color::Black).len(), 16);
    assert!(anal.legal_moves.contains(&mv("e2e4")));
    assert!(anal.legal_moves.contains(&mv("g1f3")));
    assert!(!anal.legal_moves.contains(&mv("e1e2")));
}

#[test]
fn fried_liver_attack() {
    let mut b = board(START);
    for text in [
        "e2e4", "e7e5", "g1f3", "b8c6", "f1c4", "g8f6", "f3g5", "d7d5", "e4d5", "f6d5", "g5f7", "e8f7", "d1f3",
    ] {
        assert_eq!(play(&mut b, text), Ok(()), "{}", text);
    }
    assert_eq!(b.anal().board_status(), BoardStatus::Check);
    assert_eq!(b.checking_pieces(Color::Black), vec![(5, 2)]);
    assert_eq!(play(&mut b, "f7e6"), Ok(()));
    assert_eq!(b.to_fen(), "r1bq1b1r/ppp3pp/2n1k3/3np3/2B5/5Q2/PPPP1PPP/RNB1K2R w KQ - 2 8");
}

#[test]
fn double_pawn_push_sets_en_passant_target() {
    let mut b = board(START);
    assert_eq!(play(&mut b, "e2e4"), Ok(()));
    assert_eq!(b.en_passant_target, Some((4, 2)));
    assert_eq!(b.to_move, Color::Black);
    assert_eq!(b.to_fen(), "rnbqkbnr/pppppppp/8/8/4P3/8/PPPP1PPP/RNBQKBNR b KQkq e3 0 1");
}

#[test]
fn evergreen_castles_kingside() {
    let mut b = board("r1bqk1nr/pppp1ppp/2n5/b7/2BpP3/2P2N2/P4PPP/RNBQK2R w KQkq - 0 7");
    assert_eq!(play(&mut b, "e1g1"), Ok(()));
    assert_eq!(b.to_fen(), "r1bqk1nr/pppp1ppp/2n5/b7/2BpP3/2P2N2/P4PPP/RNBQ1RK1 b kq - 1 7");
}

#[test]
fn en_passant_capture_removes_the_pawn() {
    let mut b = board("rnbqkbnr/ppp1p1pp/8/3pPp2/8/8/PPPP1PPP/RNBQKBNR w KQkq f6 0 3");
    assert_eq!(play(&mut b, "e5f6"), Ok(()));
    assert_eq!(b.to_fen(), "rnbqkbnr/ppp1p1pp/5P2/3p4/8/8/PPPP1PPP/RNBQKBNR b KQkq - 0 3");
}

#[test]
fn promotion_needs_a_piece() {
    let mut b = board("8/P7/8/8/8/8/8/k6K w - - 0 1");
    assert_eq!(play(&mut b, "a7a8"), Err(MoveStatus::IllegalNoPromotionNominated));
    assert_eq!(b.to_fen(), "8/P7/8/8/8/8/8/k6K w - - 0 1");
    assert_eq!(play(&mut b, "a7a8q"), Ok(()));
    assert_eq!(b.to_fen(), "Q7/8/8/8/8/8/8/k6K b - - 0 1");
    assert_eq!(b.anal().board_status(), BoardStatus::Check);
}

#[test]
fn invalid_moves() {
    let mut b = board(START);
    assert_eq!(play(&mut b, "e7e5"), Err(MoveStatus::InvalidWrongTurn));
    assert_eq!(play(&mut b, "e3e4"), Err(MoveStatus::InvalidEmptySquare));
    assert_eq!(play(&mut b, "e2e5"), Err(MoveStatus::Illegal));
    let anal = b.anal();
    let off = ChessMove::new((8, 1), (0, 0), None);
    assert!(b.can_try(&anal, off));
    assert_eq!(b.try_move(&anal, off), Err(MoveStatus::InvalidOutOfBounds));
    assert_eq!(b.to_fen(), START);
}

#[test]
fn pinned_piece_cannot_move() {
    let mut b = board("4r2k/8/8/8/8/8/4B3/4K3 w - - 0 1");
    assert_eq!(play(&mut b, "e2d3"), Err(MoveStatus::IllegalInCheck));
}

#[test]
fn castling_refused_when_the_rook_square_is_attacked() {
    let mut b = board("k6r/8/8/8/8/8/8/4K2R w K - 0 1");
    assert_eq!(play(&mut b, "e1g1"), Err(MoveStatus::IllegalCastleBlocked));
}

#[test]
fn fools_mate() {
    let b = board("rnb1kbnr/pppp1ppp/8/4p3/6Pq/5P2/PPPPP2P/RNBQKBNR w KQkq - 1 3");
    let anal = b.anal();
    assert_eq!(anal.legal_moves.len(), 0);
    assert_eq!(anal.board_status(), BoardStatus::Checkmate);
    assert_eq!(b.checking_pieces(Color::White), vec![(7, 3)]);
    assert_eq!(b.attacking_pieces((4, 0), Color::Black), vec![(7, 3)]);
}

#[test]
fn stalemate() {
    let b = board("k7/8/1Q6/8/8/8/8/7K b - - 0 1");
    assert_eq!(b.anal().board_status(), BoardStatus::Stalemate);
}

#[test]
fn captures_are_listed() {
    let mut b = board(START);
    assert_eq!(play(&mut b, "e2e4"), Ok(()));
    assert_eq!(play(&mut b, "d7d5"), Ok(()));
    let anal = b.anal();
    assert!(anal.can_list_captures(Color::White));
    assert_eq!(anal.captures(Color::White), vec![mv("e4d5")]);
    // the other side's captures are judged on a board where it is not to move
    assert!(anal.can_list_captures(Color::Black));
    assert!(anal.captures(Color::Black).is_empty());
}

#[test]
fn promotion_captures_come_in_fours() {
    let b = board("1n5k/P7/8/8/8/8/8/7K w - - 0 1");
    let anal = b.anal();
    let caps = anal.captures(Color::White);
    assert_eq!(caps.len(), 4);
    assert_eq!(caps[0], mv("a7b8q"));
    assert_eq!(caps[3], mv("a7b8n"));
}

#[test]
fn lookahead_leaves_the_board() {
    let b = board(START);
    let after = b.lookahead(mv("g1f3")).unwrap();
    assert_eq!(b.to_fen(), START);
    assert_eq!(after.to_fen(), "rnbqkbnr/pppppppp/8/8/8/5N2/PPPPPPPP/RNBQKB1R b KQkq - 1 1");
    assert_eq!(b.lookahead(mv("e3e4")), Err(MoveStatus::InvalidEmptySquare));
    let anal = b.anal();
    let next = anal.lookahead(mv("g1f3")).unwrap();
    assert_eq!(next.board, after);
    assert_eq!(next.legal_moves.len(), 20);
}

#[test]
fn apply_move_plays_without_checks() {
    let mut b = board(START);
    assert!(b.can_apply(mv("e2e5")));
    assert_eq!(b.apply_move(mv("e2e5")), Ok(()));
    assert_eq!(b.get((4, 4)), Some(Piece::new(Color::White, PieceType::Pawn)));
    assert_eq!(b.to_move, Color::Black);
    assert_eq!(b.apply_move(mv("e3e4")), Err(MoveStatus::InvalidEmptySquare));
}

#[test]
fn metadata_update() {
    let mut b = board(START);
    b.update_metadata(false, None);
    assert_eq!((b.to_move, b.halfmove_clock, b.fullmove_number), (Color::Black, 1, 1));
    b.update_metadata(true, Some((3, 5)));
    assert_eq!((b.to_move, b.halfmove_clock, b.fullmove_number), (Color::White, 0, 2));
    assert_eq!(b.en_passant_target, Some((3, 5)));
}

#[test]
fn legality_checks() {
    let b = board(START);
    let anal = b.anal();
    assert!(anal.can_check(mv("e2e4")));
    assert_eq!(anal.is_legal(mv("e2e4")), Ok(()));
    assert_eq!(anal.is_legal(mv("e1e2")), Err(MoveStatus::Illegal));
    assert_eq!(anal.is_legal(mv("a8a7")), Err(MoveStatus::InvalidWrongTurn));
}

#[test]
fn blocked_double_step_is_not_listed() {
    let b = board("4k3/8/8/8/8/4n3/4P3/4K3 w - - 0 1");
    let anal = b.anal();
    assert!(!anal.legal_moves.contains(&mv("e2e4")));
    assert!(!anal.legal_moves.contains(&mv("e2e3")));
}

#[test]
fn queenside_castling_needs_the_knight_gone() {
    let b = board("4k3/8/8/8/8/8/8/RN2K3 w Q - 0 1");
    assert!(!b.anal().legal_moves.contains(&mv("e1c1")));
    let b = board("4k3/8/8/8/8/8/8/R3K3 w Q - 0 1");
    assert!(b.anal().legal_moves.contains(&mv("e1c1")));
}

#[test]
fn rook_move_gives_up_its_right() {
    let mut b = board("4k3/8/8/8/8/8/8/R3K2R w KQ - 0 1");
    assert_eq!(play(&mut b, "h1h2"), Ok(()));
    assert_eq!(b.castle_rights, (false, true, false, false));
    assert_eq!(b.to_fen(), "4k3/8/8/8/8/8/7R/R3K3 b Q - 1 1");
}

#[test]
fn attackers_of_a_square() {
    // knight on b3, queen on d5 next to d4, rook on d8 behind the queen,
    // king on e3 next to d4, bishop on a1 (diagonal a1-d4 blocked by b2)
    let b = board("3r3k/8/8/3q4/8/1n2k3/1P6/b6K w - - 0 1");
    let attackers = b.attacking_pieces((3, 3), Color::Black);
    assert_eq!(attackers.len(), 3);
    assert!(attackers.contains(&(1, 2)));
    assert!(attackers.contains(&(3, 4)));
    assert!(attackers.contains(&(4, 2)));
    assert!(!attackers.contains(&(3, 7)));
    assert!(!attackers.contains(&(0, 0)));
    assert!(b.attacking_pieces((3, 3), Color::White).is_empty());
}
