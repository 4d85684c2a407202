//! The engine: a board to play on, an evaluator and a search.
pub mod evaluation;
pub mod search;

use crate::engine::search::{
    lemma_root_safe_within, negamax_search, root_is_safe, root_safe, root_safe_within, rvalue, SearchTrace,
    TranspositionTable,
};
use crate::game::board::analysis::{analysis_of, anal_safe, AnalView};
use crate::game::board::apply::{apply_result, apply_safe};
use crate::game::board::safety::{lemma_listed_safe_moves, listed_safe};
use crate::game::{Board, ChessMove, MoveStatus, ZobristKeys};
use std::marker::PhantomData;
use std::sync::Arc;
use vstd::prelude::*;

pub use self::evaluation::Evaluator;

verus! {

/// Whether testing `mv` for legality on `b` and playing it if legal is free of faults.
pub open spec fn try_move_safe(b: Board, mv: ChessMove) -> bool {
    &&& analysis_of(b).is_legal_safe(mv)
    &&& analysis_of(b).is_legal_of(mv) is Ok ==> apply_safe(b, mv)
}

/// The board after trying `mv` on `b`: played if legal, else unchanged.
pub open spec fn tried(b: Board, mv: ChessMove) -> Board {
    if analysis_of(b).is_legal_of(mv) is Ok {
        match apply_result(b, mv) {
            Ok(after) => after,
            Err(_) => b,
        }
    } else {
        b
    }
}

/// The move of a move and score, if any.
pub open spec fn move_of(named: Option<(ChessMove, i32)>) -> Option<ChessMove> {
    match named {
        Some((m, _)) => Some(m),
        None => None,
    }
}

/// A game in progress, with the transposition table its searches share.
pub struct Engine<E: Evaluator> {
    tt: Arc<TranspositionTable>,
    pub board: Board,
    _marker: PhantomData<E>,
    /// The record of the table's answers in the last search.
    last_search: Ghost<SearchTrace>,
}

impl<E: Evaluator> Engine<E> {
    /// The board of the game.
    pub closed spec fn game(self) -> Board {
        self.board
    }

    /// The record of the table's answers in the last search.
    pub closed spec fn last_trace(self) -> SearchTrace {
        self.last_search@
    }

    /// The table the engine's searches share.
    pub closed spec fn shared_table(self) -> Arc<TranspositionTable> {
        self.tt
    }

    pub fn new(keys: ZobristKeys, board: Board) -> (engine: Engine<E>)
        ensures
            engine.game() == board,
            engine.shared_table().keys() == keys,
    {
        Engine::<E> {
            tt: Arc::new(TranspositionTable::new(keys)),
            board: board,
            _marker: PhantomData,
            last_search: Ghost(SearchTrace { probe: None, replies: Seq::empty() }),
        }
    }

    /// The transposition table, for threads that help to fill it.
    pub fn table(&self) -> (table: &Arc<TranspositionTable>)
        ensures
            *table == self.shared_table(),
    {
        &self.tt
    }

    /// Plays `mv` if it is legal on the board.
    pub fn submit_move(&mut self, mv: ChessMove) -> (result: Result<(), MoveStatus>)
        requires
            anal_safe(old(self).game()),
            try_move_safe(old(self).game(), mv),
        ensures
            match analysis_of(old(self).game()).is_legal_of(mv) {
                Err(e) => result == Err::<(), MoveStatus>(e),
                Ok(()) => match apply_result(old(self).game(), mv) {
                    Ok(_) => result is Ok,
                    Err(e) => result == Err::<(), MoveStatus>(e),
                },
            },
            final(self).game() == tried(old(self).game(), mv),
    {
        let anal = self.board.anal();
        self.board.try_move(&anal, mv)
    }

    /// A test of the requirement of [`Engine::next`], with the quiescence
    /// searches checked `n` captures deep.
    pub fn can_search(&self, depth: usize, n: usize) -> (ok: bool)
        ensures
            ok == (anal_safe(self.game()) && root_safe_within(analysis_of(self.game()), depth as nat, n as nat)
                && listed_safe(self.game())),
            ok ==> anal_safe(self.game()) && root_safe(analysis_of(self.game()), depth as nat) && listed_safe(
                self.game(),
            ),
    {
        if !root_is_safe(&self.board, depth, n) {
            return false;
        }
        let anal = self.board.anal();
        proof {
            lemma_root_safe_within(analysis_of(self.board), depth as nat, n as nat);
        }
        anal.targets_are_safe()
    }

    /// Searches the board `depth` plies deep and plays the move found, if it
    /// is legal; returns the move, or `None` when the search names none, which
    /// happens only when the side to move has no legal move. The move is the
    /// one [`rvalue`] names when it replays the search with the table's
    /// answers, which the engine keeps as its last trace.
    pub fn next(&mut self, depth: usize) -> (found: Option<ChessMove>)
        requires
            anal_safe(old(self).game()),
            root_safe(analysis_of(old(self).game()), depth as nat),
            listed_safe(old(self).game()),
        ensures
            match found {
                Some(mv) => final(self).game() == tried(old(self).game(), mv),
                None => final(self).game() == old(self).game(),
            },
            analysis_of(old(self).game()).legal.len() > 0 ==> found is Some,
            found == move_of(rvalue::<E>(analysis_of(old(self).game()), depth as nat, final(self).last_trace())),
            final(self).shared_table() == old(self).shared_table(),
    {
        let searched = negamax_search::<E>(&self.tt, self.board, depth);
        self.last_search = Ghost(searched.1@);
        let res = match searched.0 {
            Some(res) => res,
            None => return None,
        };
        let anal = self.board.anal();
        let best_move = res.mv();
        proof {
            lemma_listed_safe_moves(self.board, best_move);
        }
        // a move that is not legal here leaves the board as it is
        let _ = self.board.try_move(&anal, best_move);
        Some(best_move)
    }
}

} // verus!
