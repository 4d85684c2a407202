//! A greedy evaluator that counts material only.
use crate::engine::evaluation::Evaluator;
use crate::game::board::analysis::{status_of, AnalView};
use crate::game::board::attack::checkers_of;
use crate::game::{Board, BoardAnal, BoardStatus, PieceType};
use vstd::prelude::*;

verus! {

/// The value of a kind of piece in centipawns.
pub open spec fn piece_value(kind: PieceType) -> int {
    match kind {
        PieceType::Pawn => 100,
        PieceType::Bishop => 300,
        PieceType::Knight => 300,
        PieceType::Rook => 500,
        PieceType::Queen => 900,
        PieceType::King => 10000,
    }
}

fn piece_table(piece_type: PieceType) -> (value: i32)
    ensures
        value == piece_value(piece_type),
{
    match piece_type {
        PieceType::Pawn => 100,
        PieceType::Bishop => 300,
        PieceType::Knight => 300,
        PieceType::Rook => 500,
        PieceType::Queen => 900,
        PieceType::King => 10000,
    }
}

/// The material on the squares `0..n` (rank * 8 + file): the pieces of the
/// side to move count for it, the others against it.
pub open spec fn material(b: Board, n: int) -> int
    decreases n,
{
    if n <= 0 {
        0
    } else {
        material(b, n - 1) + match b.at((n - 1) % 8, (n - 1) / 8) {
            Some(p) => if p.color == b.to_move {
                piece_value(p.kind)
            } else {
                -piece_value(p.kind)
            },
            None => 0,
        }
    }
}

/// The greedy evaluation: the material balance, or -10000 when the side to
/// move is checkmated.
pub open spec fn greed_eval(a: AnalView) -> int {
    if status_of(checkers_of(a.board, a.board.to_move).len() > 0, a.legal.len() == 0) == BoardStatus::Checkmate {
        -10000
    } else {
        material(a.board, 64)
    }
}

proof fn lemma_material_bounded(b: Board, n: int)
    ensures
        n >= 0 ==> -10000 * n <= material(b, n) <= 10000 * n,
    decreases n,
{
    if n > 0 {
        lemma_material_bounded(b, n - 1);
    }
}

/// Counts material only; it hoards it.
pub struct GreedEval {}

impl Evaluator for GreedEval {
    open spec fn value(anal: AnalView) -> int {
        greed_eval(anal)
    }

    fn eval(anal: &BoardAnal) -> (score: i32)
        ensures
            score == greed_eval(anal@),
    {
        let mut score: i32 = 0;
        let mut rank: usize = 0;
        while rank < 8
            invariant
                0 <= rank <= 8,
                score == material(anal.board, rank * 8),
            decreases 8 - rank,
        {
            let mut file: usize = 0;
            while file < 8
                invariant
                    0 <= rank < 8,
                    0 <= file <= 8,
                    score == material(anal.board, rank * 8 + file),
                decreases 8 - file,
            {
                let ghost n = rank * 8 + file;
                assert(n % 8 == file && n / 8 == rank);
                proof {
                    lemma_material_bounded(anal.board, n);
                }
                if let Some(piece) = anal.board.get((file, rank)) {
                    let value = piece_table(piece.kind);
                    let sign: i32 = if piece.color == anal.board.to_move {
                        1
                    } else {
                        -1
                    };
                    assert(-10000 <= value * sign <= 10000) by (nonlinear_arith)
                        requires
                            0 <= value <= 10000,
                            sign == 1 || sign == -1,
                    ;
                    assert(value * sign == if piece.color == anal.board.to_move {
                        value as int
                    } else {
                        -value
                    }) by (nonlinear_arith)
                        requires
                            sign == (if piece.color == anal.board.to_move {
                                1int
                            } else {
                                -1int
                            }),
                    ;
                    score += value * sign;
                }
                file += 1;
            }
            rank += 1;
        }
        // checkmate
        if anal.board_status() == BoardStatus::Checkmate {
            score = -10000
        }
        score
    }
}

} // verus!
