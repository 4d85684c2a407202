use chess_engine::engine::evaluation::{Evaluator, GreedEval};
use chess_engine::engine::search::{
    better_reply, helper_depth, negamax, negamax_search, negamax_search_probed, neg_score, node_entry, node_type_for, quiescence_is_safe, root_is_safe, search_is_safe,
    tt_cutoff, NodeType, SearchResult, TTEntry, TranspositionTable,
};
use chess_engine::engine::Engine;
use chess_engine::game::{Board, ChessMove, Color, ZobristKeys};

const START: &str = "rnbqkbnr/pppppppp/8/8/8/8/PPPPPPPP/RNBQKBNR w KQkq - 0 1";
const HANGING_QUEEN: &str = "4k3/8/8/3q4/8/8/8/3RK3 w - - 0 1";

fn board(fen: &str) -> Board {
    Board::from_fen(fen).unwrap()
}

fn mv(text: &str) -> ChessMove {
    ChessMove::from_uci(text).unwrap()
}

#[test]
fn greedy_evaluation() {
    assert_eq!(GreedEval::eval(&board(START).anal()), 0);
    // white to move, a knight down and a pawn up
    let b = board("r1bq1b1r/ppp3pp/2n1k3/3np3/2B5/5Q2/PPPP1PPP/RNB1K2R w KQ - 2 8");
    assert_eq!(GreedEval::eval(&b.anal()), -200);
    let b = board("4k3/8/8/3q4/8/8/8/3RK3 b - - 0 1");
    assert_eq!(GreedEval::eval(&b.anal()), 400);
    let mated = board("rnb1kbnr/pppp1ppp/8/4p3/6Pq/5P2/PPPPP2P/RNBQKBNR w KQkq - 1 3");
    assert_eq!(GreedEval::eval(&mated.anal()), -10000);
}

#[test]
fn score_negation_wraps_at_the_minimum() {
    assert_eq!(neg_score(5), -5);
    assert_eq!(neg_score(-7), 7);
    assert_eq!(neg_score(i32::MAX), i32::MIN + 1);
    assert_eq!(neg_score(i32::MIN), i32::MIN);
}

#[test]
fn node_types() {
    assert_eq!(node_type_for(-10, -10, 10), NodeType::UpperBound);
    assert_eq!(node_type_for(10, -10, 10), NodeType::LowerBound);
    assert_eq!(node_type_for(0, -10, 10), NodeType::Exact);
}

#[test]
fn table_cutoffs() {
    let entry = |depth: usize, score: i32, node_type: NodeType| {
        Some(TTEntry { depth, score, best_move: None, node_type })
    };
    assert_eq!(tt_cutoff(None, 0, -10, 10), None);
    assert_eq!(tt_cutoff(entry(3, 5, NodeType::Exact), 3, -10, 10), Some(5));
    assert_eq!(tt_cutoff(entry(2, 5, NodeType::Exact), 3, -10, 10), None);
    assert_eq!(tt_cutoff(entry(3, 12, NodeType::LowerBound), 1, -10, 10), Some(12));
    assert_eq!(tt_cutoff(entry(3, 5, NodeType::LowerBound), 1, -10, 10), None);
    assert_eq!(tt_cutoff(entry(3, -12, NodeType::UpperBound), 1, -10, 10), Some(-12));
    assert_eq!(tt_cutoff(entry(3, 5, NodeType::UpperBound), 1, -10, 10), None);
}

#[test]
fn table_stores_entries() {
    let tt = TranspositionTable::new(ZobristKeys::new());
    let b = board(START);
    assert_eq!(tt.get(&b), None);
    let first = tt.insert(&b, 2, 30, Some(mv("e2e4")), NodeType::Exact);
    assert_eq!(first, None);
    let stored = TTEntry { depth: 2, score: 30, best_move: Some(mv("e2e4")), node_type: NodeType::Exact };
    assert_eq!(tt.get(&b), Some(stored));
    assert_eq!(tt.insert(&b, 1, 0, None, NodeType::UpperBound), Some(stored));
}

#[test]
fn zobrist_keys_are_reproducible() {
    let b = board(START);
    let k1 = ZobristKeys::new();
    let k2 = ZobristKeys::new();
    assert_eq!(b.zobrist_hash(&k1), b.zobrist_hash(&k2));
    let mut black = b;
    black.to_move = Color::Black;
    assert_ne!(b.zobrist_hash(&k1), black.zobrist_hash(&k1));
    let after = b.lookahead(mv("e2e4")).unwrap();
    assert_ne!(b.zobrist_hash(&k1), after.zobrist_hash(&k1));
}

#[test]
fn search_result_accessors() {
    let r = SearchResult::new(mv("e2e4"), 17);
    assert_eq!(r.mv(), mv("e2e4"));
    assert_eq!(r.score(), 17);
}

#[test]
fn negamax_wins_the_hanging_queen() {
    let b = board(HANGING_QUEEN);
    let anal = b.anal();
    assert!(search_is_safe(&anal, 1, 4));
    let tt = TranspositionTable::new(ZobristKeys::new());
    assert_eq!(negamax::<GreedEval>(&tt, &anal, 1, -30000, 30000).0, 500);
}

#[test]
fn quiescence_safety_is_checked() {
    let b = board(HANGING_QUEEN);
    assert!(quiescence_is_safe(&b.anal(), 3));
    assert!(!quiescence_is_safe(&b.anal(), 0));
}

#[test]
fn search_at_depth_zero_names_the_first_legal_move() {
    let b = board(START);
    let anal = b.anal();
    assert!(root_is_safe(&b, 0, 2));
    let tt = TranspositionTable::new(ZobristKeys::new());
    let found = negamax_search::<GreedEval>(&tt, b, 0).0.unwrap();
    assert_eq!(found.mv(), anal.legal_moves[0]);
    assert_eq!(found.score(), 0);
}

#[test]
fn search_wins_the_hanging_queen() {
    let b = board(HANGING_QUEEN);
    assert!(root_is_safe(&b, 1, 4));
    let tt = TranspositionTable::new(ZobristKeys::new());
    let found = negamax_search::<GreedEval>(&tt, b, 1).0.unwrap();
    assert_eq!(found.mv(), mv("d1d5"));
    assert_eq!(found.score(), 500);
    let stored = tt.get(&b).unwrap();
    assert_eq!((stored.depth, stored.score, stored.best_move, stored.node_type), (1, 500, Some(mv("d1d5")), NodeType::Exact));
}

#[test]
fn search_with_a_given_probe() {
    let b = board(HANGING_QUEEN);
    let tt = TranspositionTable::new(ZobristKeys::new());
    let settled = Some(TTEntry { depth: 3, score: 77, best_move: Some(mv("e1e2")), node_type: NodeType::Exact });
    let found = negamax_search_probed::<GreedEval>(&tt, b, 2, settled).0.unwrap();
    assert_eq!((found.mv(), found.score()), (mv("e1e2"), 77));
    let shallow = Some(TTEntry { depth: 0, score: 77, best_move: Some(mv("e1e2")), node_type: NodeType::Exact });
    let found = negamax_search_probed::<GreedEval>(&tt, b, 1, shallow).0.unwrap();
    assert_eq!(found.mv(), mv("d1d5"));
}

#[test]
fn search_pieces() {
    assert_eq!(helper_depth(0, 0), 1);
    assert_eq!(helper_depth(4, 1), 2);
    assert_eq!(helper_depth(2, 5), 5);
    assert_eq!(better_reply(3, None, mv("e2e4"), 5), (5, Some(mv("e2e4"))));
    assert_eq!(better_reply(5, Some(mv("e2e4")), mv("d2d4"), 5), (5, Some(mv("e2e4"))));
    assert_eq!(
        node_entry(2, 7, None, 0, 10),
        TTEntry { depth: 2, score: 7, best_move: None, node_type: NodeType::Exact }
    );
    assert_eq!(node_entry(2, 10, None, 0, 10).node_type, NodeType::LowerBound);
}

#[test]
fn search_settled_by_the_table() {
    let b = board(HANGING_QUEEN);
    let tt = TranspositionTable::new(ZobristKeys::new());
    tt.insert(&b, 5, 500, Some(mv("d1d5")), NodeType::Exact);
    let found = negamax_search::<GreedEval>(&tt, b, 2).0.unwrap();
    assert_eq!(found.mv(), mv("d1d5"));
    assert_eq!(found.score(), 500);
}

#[test]
fn engine_plays_moves() {
    let mut engine = Engine::<GreedEval>::new(ZobristKeys::new(), board(START));
    assert_eq!(engine.submit_move(mv("e2e4")), Ok(()));
    assert_eq!(engine.board.to_move, Color::Black);
    assert_eq!(engine.submit_move(mv("e2e4")), Err(chess_engine::game::MoveStatus::InvalidEmptySquare));
    let before = engine.board;
    let first = before.anal().legal_moves[0];
    assert_eq!(engine.next(0), Some(first));
    assert_eq!(engine.board, before.lookahead(first).unwrap());
    assert_eq!(engine.table().get(&engine.board), None);
}

#[test]
fn engine_search_requirement_is_checked() {
    let engine = Engine::<GreedEval>::new(ZobristKeys::new(), board(START));
    assert!(engine.can_search(0, 4));
    assert!(engine.can_search(1, 4));
    assert!(board(START).anal().targets_are_safe());
    let mut late = board(START);
    late.halfmove_clock = u32::MAX;
    assert!(!late.anal().targets_are_safe());
}
