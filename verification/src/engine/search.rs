//! Negamax search with alpha-beta pruning, a quiescence search over captures
//! and a transposition table shared between searches.
use crate::engine::evaluation::Evaluator;
use crate::game::board::analysis::{analysis_of, anal_safe, status_of, AnalView};
use crate::game::board::apply::{apply_result, apply_safe};
use crate::game::board::attack::checkers_of;
use crate::game::board::zobrist::hash_of;
use crate::game::{Board, BoardAnal, BoardStatus, ChessMove, ZobristKeys};
use dashmap::DashMap;
use vstd::prelude::*;

verus! {

#[verifier::external_type_specification]
#[verifier::external_body]
#[verifier::reject_recursive_types(K)]
#[verifier::reject_recursive_types(V)]
#[verifier::reject_recursive_types(S)]
pub struct ExDashMap<K, V, S>(DashMap<K, V, S>);

/// What a table entry says of its score.
#[derive(Clone, Copy, Debug, PartialEq, Eq, Structural)]
pub enum NodeType {
    /// the score is the value of the position
    Exact,
    /// the score is at least this good (the search was cut off at beta)
    LowerBound,
    /// the score is at most this good (the search never raised alpha)
    UpperBound,
}

/// A result stored in the transposition table.
#[derive(Clone, Copy, Debug, PartialEq)]
pub struct TTEntry {
    /// how deep the position was searched
    pub depth: usize,
    pub score: i32,
    /// the best move found, if any
    pub best_move: Option<ChessMove>,
    pub node_type: NodeType,
}

/// A table of search results by Zobrist hash, shared between searches and threads.
pub struct TranspositionTable {
    keys: ZobristKeys,
    table: DashMap<u64, TTEntry>,
}

/// `DashMap::new`: an empty table.
#[verifier::external_body]
fn new_table() -> DashMap<u64, TTEntry> {
    DashMap::new()
}

/// `DashMap::get`, copying the entry out. The table is shared with other
/// threads, which may insert at any time, and changes behind a shared
/// reference, which Verus takes to be unchanging; so what comes back is not
/// stated.
#[verifier::external_body]
fn table_get(table: &DashMap<u64, TTEntry>, key: u64) -> Option<TTEntry> {
    table.get(&key).map(|entry| *entry)
}

/// `DashMap::insert`, which hands back the entry it replaces. The table is
/// shared with other threads and changes behind a shared reference, so
/// neither the entry handed back nor the change to the table is stated.
#[verifier::external_body]
fn table_insert(table: &DashMap<u64, TTEntry>, key: u64, entry: TTEntry) -> Option<TTEntry> {
    table.insert(key, entry)
}

/// Whether the Zobrist hash of `b` can be taken: the en passant target, if
/// any, is on one of the eight files.
pub open spec fn hashable(b: Board) -> bool {
    b.en_passant_target matches Some(sq) ==> sq.0 < 8
}

impl TranspositionTable {
    /// The keys the positions are hashed with.
    pub closed spec fn keys(self) -> ZobristKeys {
        self.keys
    }

    /// An empty table whose positions are hashed with `keys`.
    pub fn new(keys: ZobristKeys) -> (tt: TranspositionTable)
        ensures
            tt.keys() == keys,
    {
        TranspositionTable { keys, table: new_table() }
    }

    /// The entry stored under the hash of `board`, if any.
    pub fn get(&self, board: &Board) -> Option<TTEntry>
        requires
            hashable(*board),
    {
        let hash = board.zobrist_hash(&self.keys);
        table_get(&self.table, hash)
    }

    /// Stores an entry under the hash of `board`, handing back the one it replaces.
    pub fn insert(
        &self,
        board: &Board,
        depth: usize,
        score: i32,
        best_move: Option<ChessMove>,
        node_type: NodeType,
    ) -> Option<TTEntry>
        requires
            hashable(*board),
    {
        let hash = board.zobrist_hash(&self.keys);
        let entry = TTEntry { depth: depth, score: score, best_move: best_move, node_type: node_type };
        table_insert(&self.table, hash, entry)
    }
}

/// The best move found by a search and its score.
#[derive(Clone, Copy, Debug, PartialEq)]
pub struct SearchResult {
    best_move: ChessMove,
    best_score: i32,
}

impl SearchResult {
    pub fn new(best_move: ChessMove, best_score: i32) -> (result: SearchResult)
        ensures
            result.best_move() == best_move,
            result.best_score() == best_score,
    {
        SearchResult { best_move: best_move, best_score: best_score }
    }

    pub closed spec fn best_move(self) -> ChessMove {
        self.best_move
    }

    pub closed spec fn best_score(self) -> i32 {
        self.best_score
    }

    /// The best move found.
    pub fn mv(&self) -> (mv: ChessMove)
        ensures
            mv == self.best_move(),
    {
        self.best_move
    }

    /// The score of the best move.
    pub fn score(&self) -> (score: i32)
        ensures
            score == self.best_score(),
    {
        self.best_score
    }
}

/// The negation of `x` with `i32` wrapping: the negation of `i32::MIN` is itself.
pub open spec fn wrapped_neg(x: i32) -> i32 {
    if x == i32::MIN {
        x
    } else {
        (-x) as i32
    }
}

/// Negates a score; the negation of `i32::MIN` is `i32::MIN`, as wrapping
/// arithmetic gives it.
pub fn neg_score(x: i32) -> (n: i32)
    ensures
        n == wrapped_neg(x),
{
    if x == i32::MIN {
        x
    } else {
        -x
    }
}

/// The score a table entry settles for a search of `depth` in the window
/// `(alpha, beta)`: an exact score, a lower bound at or above beta, or an
/// upper bound at or below alpha, from a search at least as deep.
pub open spec fn probe_cutoff(entry: Option<TTEntry>, depth: usize, alpha: i32, beta: i32) -> Option<i32> {
    match entry {
        Some(e) => if e.depth >= depth {
            match e.node_type {
                NodeType::Exact => Some(e.score),
                NodeType::LowerBound => if e.score >= beta {
                    Some(e.score)
                } else {
                    None
                },
                NodeType::UpperBound => if e.score <= alpha {
                    Some(e.score)
                } else {
                    None
                },
            }
        } else {
            None
        },
        None => None,
    }
}

/// The score that a table entry settles, if any.
pub fn tt_cutoff(entry: Option<TTEntry>, depth: usize, alpha: i32, beta: i32) -> (score: Option<i32>)
    ensures
        score == probe_cutoff(entry, depth, alpha, beta),
{
    if let Some(entry) = entry {
        if entry.depth >= depth {
            match entry.node_type {
                NodeType::Exact => return Some(entry.score),
                NodeType::LowerBound => {
                    if entry.score >= beta {
                        return Some(entry.score);
                    }
                },
                NodeType::UpperBound => {
                    if entry.score <= alpha {
                        return Some(entry.score);
                    }
                },
            }
        }
    }
    None
}

/// The result a table entry settles at the root: it must also name a move.
pub open spec fn root_cutoff(entry: Option<TTEntry>, depth: usize, alpha: i32, beta: i32) -> Option<(ChessMove, i32)> {
    match probe_cutoff(entry, depth, alpha, beta) {
        Some(score) => match entry.unwrap().best_move {
            Some(mv) => Some((mv, score)),
            None => None,
        },
        None => None,
    }
}

/// What a search result says of its score: an upper bound when the best
/// score did not rise above the alpha it started from, a lower bound when it
/// reached beta, else exact.
pub open spec fn node_type_of(best: i32, start_alpha: i32, beta: i32) -> NodeType {
    if best <= start_alpha {
        NodeType::UpperBound
    } else if best >= beta {
        NodeType::LowerBound
    } else {
        NodeType::Exact
    }
}

pub fn node_type_for(best: i32, start_alpha: i32, beta: i32) -> (node_type: NodeType)
    ensures
        node_type == node_type_of(best, start_alpha, beta),
{
    if best <= start_alpha {
        NodeType::UpperBound
    } else if best >= beta {
        NodeType::LowerBound
    } else {
        NodeType::Exact
    }
}

/// Whether the game is over in the analysed position.
pub open spec fn is_terminal(a: AnalView) -> bool {
    let s = status_of(checkers_of(a.board, a.board.to_move).len() > 0, a.legal.len() == 0);
    s == BoardStatus::Checkmate || s == BoardStatus::Stalemate
}

/// The position after the `i`-th capture of the side to move.
pub open spec fn capture_child(a: AnalView, i: int) -> Board {
    apply_result(a.board, a.captures_of(a.board.to_move)[i])->Ok_0
}

/// Whether a quiescence search from `a` is free of faults when the captures
/// run at most `n` deep: the position can be hashed, its captures listed and
/// played, and each position after a capture analysed and searched in turn.
pub open spec fn quiescence_safe(a: AnalView, n: nat) -> bool
    decreases n,
{
    &&& n > 0
    &&& hashable(a.board)
    &&& a.captures_safe(a.board.to_move)
    &&& forall|i: int|
        0 <= i < a.captures_of(a.board.to_move).len() ==> {
            &&& apply_safe(a.board, #[trigger] a.captures_of(a.board.to_move)[i])
            &&& apply_result(a.board, a.captures_of(a.board.to_move)[i]) is Ok
            &&& anal_safe(capture_child(a, i))
            &&& quiescence_safe(analysis_of(capture_child(a, i)), (n - 1) as nat)
        }
}

/// The position after the `i`-th legal move.
pub open spec fn move_child(a: AnalView, i: int) -> Board {
    apply_result(a.board, a.legal[i])->Ok_0
}

/// Whether a negamax search of `depth` from `a` is free of faults.
pub open spec fn search_safe(a: AnalView, depth: nat) -> bool
    decreases depth,
{
    &&& hashable(a.board)
    &&& if depth == 0 || is_terminal(a) {
        exists|n: nat| quiescence_safe(a, n)
    } else {
        forall|i: int|
            0 <= i < a.legal.len() ==> {
                &&& apply_safe(a.board, #[trigger] a.legal[i])
                &&& apply_result(a.board, a.legal[i]) is Ok
                &&& anal_safe(move_child(a, i))
                &&& search_safe(analysis_of(move_child(a, i)), (depth - 1) as nat)
            }
    }
}

/// The answers the table gave a search, as a tree: the answer for the
/// position searched, then the record of each reply (or capture) searched
/// from it, in order. At a leaf of the negamax search the one reply is the
/// record of the quiescence search there.
pub struct SearchTrace {
    pub probe: Option<TTEntry>,
    pub replies: Seq<SearchTrace>,
}

/// The score of the quiescence search from `a` in the window `(alpha, beta)`,
/// replayed with the table's answers in `t`, with at most `n` captures in a
/// row: the score of an entry that settles the position; else `beta` when
/// the static score reaches it; else the captures are tried in order
/// ([`qloop`]).
pub open spec fn qvalue<E: Evaluator>(a: AnalView, alpha: i32, beta: i32, t: SearchTrace, n: nat) -> i32
    decreases n, 1int, 0int,
{
    if n == 0 {
        0
    } else {
        match probe_cutoff(t.probe, 0, alpha, beta) {
            Some(s) => s,
            None => if E::value(a) >= beta {
                beta
            } else {
                qloop::<E>(
                    a,
                    0,
                    if E::value(a) > alpha {
                        E::value(a) as i32
                    } else {
                        alpha
                    },
                    beta,
                    t.replies,
                    n,
                )
            },
        }
    }
}

/// The captures of `a` from the `i`-th on, tried in order with the window
/// `(lo, beta)` replayed with the records `ts`: the first whose negated score
/// reaches `beta` gives `beta`; otherwise `lo` rises to each higher score,
/// and is the result when all are tried.
pub open spec fn qloop<E: Evaluator>(a: AnalView, i: int, lo: i32, beta: i32, ts: Seq<SearchTrace>, n: nat) -> i32
    decreases n, 0int, a.captures_of(a.board.to_move).len() - i,
{
    if n == 0 || i < 0 || i >= a.captures_of(a.board.to_move).len() {
        lo
    } else {
        let score = wrapped_neg(
            qvalue::<E>(analysis_of(capture_child(a, i)), wrapped_neg(beta), wrapped_neg(lo), ts[i], (n - 1) as nat),
        );
        if score >= beta {
            beta
        } else {
            qloop::<E>(a, i + 1, if score > lo { score } else { lo }, beta, ts, n)
        }
    }
}

/// The score of the negamax search from `a` of `depth` in the window
/// `(alpha, beta)`, replayed with the table's answers in `t`: the score of an
/// entry that settles the position; else at a leaf the quiescence score;
/// else the replies are searched in order ([`nloop`]).
pub open spec fn nvalue<E: Evaluator>(a: AnalView, depth: nat, alpha: i32, beta: i32, t: SearchTrace) -> i32
    decreases depth, 1int, 0int,
{
    match probe_cutoff(t.probe, depth as usize, alpha, beta) {
        Some(s) => s,
        None => if depth == 0 || is_terminal(a) {
            qvalue::<E>(a, alpha, beta, t.replies[0], choose|n: nat| quiescence_safe(a, n))
        } else {
            nloop::<E>(a, depth, 0, alpha, beta, i32::MIN, t.replies)
        },
    }
}

/// The legal moves of `a` from the `i`-th on, searched in order to `depth - 1`
/// with the window `(lo, beta)` replayed with the records `ts`: `best` rises
/// to each higher negated score and `lo` likewise; the search stops once
/// `lo` reaches `beta`, or after the last move, giving `best`.
pub open spec fn nloop<E: Evaluator>(
    a: AnalView,
    depth: nat,
    i: int,
    lo: i32,
    beta: i32,
    best: i32,
    ts: Seq<SearchTrace>,
) -> i32
    decreases depth, 0int, a.legal.len() - i,
{
    if depth == 0 || i < 0 || i >= a.legal.len() {
        best
    } else {
        let score = wrapped_neg(
            nvalue::<E>(analysis_of(move_child(a, i)), (depth - 1) as nat, wrapped_neg(beta), wrapped_neg(lo), ts[i]),
        );
        let best2 = if score > best {
            score
        } else {
            best
        };
        let lo2 = if score > lo {
            score
        } else {
            lo
        };
        if lo2 >= beta {
            best2
        } else {
            nloop::<E>(a, depth, i + 1, lo2, beta, best2, ts)
        }
    }
}

/// The move and score a search of `depth` from the root `a` names, replayed
/// with the table's answers in `t`: those of an entry that settles the root
/// and names a move; else nothing without a legal move; else, with no depth
/// left or at the end of the game, the first legal move with the static
/// score; else every legal move is searched ([`rloop`]).
pub open spec fn rvalue<E: Evaluator>(a: AnalView, depth: nat, t: SearchTrace) -> Option<(ChessMove, i32)> {
    match root_cutoff(t.probe, depth as usize, full_window().0, full_window().1) {
        Some((m, s)) => Some((m, s)),
        None => if a.legal.len() == 0 {
            None
        } else if depth == 0 || is_terminal(a) {
            Some((a.legal[0], E::value(a) as i32))
        } else {
            rloop::<E>(a, depth, 0, full_window().0, i32::MIN, None, t.replies)
        },
    }
}

/// The legal moves of the root `a` from the `i`-th on, each searched to
/// `depth - 1` with the window `(alpha, i32::MAX)` replayed with the records
/// `ts`; the first move is always taken, and a later one when its negated
/// score is higher; alpha rises to each higher score.
pub open spec fn rloop<E: Evaluator>(
    a: AnalView,
    depth: nat,
    i: int,
    alpha: i32,
    best: i32,
    best_move: Option<ChessMove>,
    ts: Seq<SearchTrace>,
) -> Option<(ChessMove, i32)>
    decreases a.legal.len() - i,
{
    if depth == 0 || i < 0 || i >= a.legal.len() {
        match best_move {
            Some(m) => Some((m, best)),
            None => None,
        }
    } else {
        let score = wrapped_neg(
            nvalue::<E>(
                analysis_of(move_child(a, i)),
                (depth - 1) as nat,
                wrapped_neg(full_window().1),
                wrapped_neg(alpha),
                ts[i],
            ),
        );
        let take = best_move is None || score > best;
        rloop::<E>(
            a,
            depth,
            i + 1,
            if score > alpha {
                score
            } else {
                alpha
            },
            if take {
                score
            } else {
                best
            },
            if take {
                Some(a.legal[i])
            } else {
                best_move
            },
            ts,
        )
    }
}

proof fn lemma_qloop_step<E: Evaluator>(a: AnalView, i: int, lo: i32, beta: i32, ts: Seq<SearchTrace>, n: nat, v: i32)
    requires
        n > 0,
        0 <= i < a.captures_of(a.board.to_move).len(),
        v == qvalue::<E>(analysis_of(capture_child(a, i)), wrapped_neg(beta), wrapped_neg(lo), ts[i], (n - 1) as nat),
    ensures
        qloop::<E>(a, i, lo, beta, ts, n) == (if wrapped_neg(v) >= beta {
            beta
        } else {
            qloop::<E>(a, i + 1, if wrapped_neg(v) > lo { wrapped_neg(v) } else { lo }, beta, ts, n)
        }),
{
}

proof fn lemma_qloop_covers<E: Evaluator>(
    a: AnalView,
    i: int,
    lo: i32,
    beta: i32,
    ts: Seq<SearchTrace>,
    n: nat,
    j: int,
) -> (lam: i32)
    requires
        n > 0,
        0 <= i <= j < a.captures_of(a.board.to_move).len(),
        lo < beta,
    ensures
        lo <= lam <= qloop::<E>(a, i, lo, beta, ts, n),
        qloop::<E>(a, i, lo, beta, ts, n) >= beta || qloop::<E>(a, i, lo, beta, ts, n) >= wrapped_neg(
            qvalue::<E>(analysis_of(capture_child(a, j)), wrapped_neg(beta), wrapped_neg(lam), ts[j], (n - 1) as nat),
        ),
    decreases a.captures_of(a.board.to_move).len() - i,
{
    let v = qvalue::<E>(analysis_of(capture_child(a, i)), wrapped_neg(beta), wrapped_neg(lo), ts[i], (n - 1) as nat);
    lemma_qloop_step::<E>(a, i, lo, beta, ts, n, v);
    let score = wrapped_neg(v);
    if score >= beta || i == j {
        if score < beta {
            let lo2 = if score > lo { score } else { lo };
            lemma_qloop_floor::<E>(a, i + 1, lo2, beta, ts, n);
        }
        lo
    } else {
        let lo2 = if score > lo { score } else { lo };
        lemma_qloop_covers::<E>(a, i + 1, lo2, beta, ts, n, j)
    }
}

proof fn lemma_qloop_floor<E: Evaluator>(a: AnalView, i: int, lo: i32, beta: i32, ts: Seq<SearchTrace>, n: nat)
    requires
        lo < beta,
    ensures
        lo <= qloop::<E>(a, i, lo, beta, ts, n),
    decreases a.captures_of(a.board.to_move).len() - i,
{
    if n > 0 && 0 <= i < a.captures_of(a.board.to_move).len() {
        let v = qvalue::<E>(analysis_of(capture_child(a, i)), wrapped_neg(beta), wrapped_neg(lo), ts[i], (n - 1) as nat);
        lemma_qloop_step::<E>(a, i, lo, beta, ts, n, v);
        let score = wrapped_neg(v);
        if score < beta {
            lemma_qloop_floor::<E>(a, i + 1, if score > lo { score } else { lo }, beta, ts, n);
        }
    }
}

/// The quiescence search looks at the captures: unless the table's answer
/// settles the position or the static score already reaches beta, its score
/// is at least the static score (and alpha), and for every listed capture
/// it is at least the capture's negated quiescence score, or reaches beta,
/// where the capture is searched with a lower bound that lies between the
/// static score and the result.
pub proof fn lemma_quiescence_searches_captures<E: Evaluator>(
    a: AnalView,
    alpha: i32,
    beta: i32,
    t: SearchTrace,
    n: nat,
    j: int,
)
    requires
        n > 0,
        alpha < beta,
        probe_cutoff(t.probe, 0, alpha, beta) is None,
        E::value(a) < beta,
    ensures
        qvalue::<E>(a, alpha, beta, t, n) >= alpha,
        qvalue::<E>(a, alpha, beta, t, n) >= E::value(a),
        0 <= j < a.captures_of(a.board.to_move).len() ==> exists|lam: i32|
            #![trigger qvalue::<E>(analysis_of(capture_child(a, j)), wrapped_neg(beta), wrapped_neg(lam), t.replies[j], (n - 1) as nat)]
            alpha <= lam && E::value(a) <= lam && lam <= qvalue::<E>(a, alpha, beta, t, n) && (qvalue::<E>(
                a,
                alpha,
                beta,
                t,
                n,
            ) >= beta || qvalue::<E>(a, alpha, beta, t, n) >= wrapped_neg(
                qvalue::<E>(
                    analysis_of(capture_child(a, j)),
                    wrapped_neg(beta),
                    wrapped_neg(lam),
                    t.replies[j],
                    (n - 1) as nat,
                ),
            )),
{
    let lo: i32 = if E::value(a) > alpha { E::value(a) as i32 } else { alpha };
    let q = qvalue::<E>(a, alpha, beta, t, n);
    assert(q == qloop::<E>(a, 0, lo, beta, t.replies, n));
    lemma_qloop_floor::<E>(a, 0, lo, beta, t.replies, n);
    if 0 <= j < a.captures_of(a.board.to_move).len() {
        let lam = lemma_qloop_covers::<E>(a, 0, lo, beta, t.replies, n, j);
        let child = qvalue::<E>(analysis_of(capture_child(a, j)), wrapped_neg(beta), wrapped_neg(lam), t.replies[j], (n - 1) as nat);
        assert(alpha <= lam && E::value(a) <= lam && lam <= q && (q >= beta || q >= wrapped_neg(child)));
    }
}

proof fn lemma_nloop_step<E: Evaluator>(
    a: AnalView,
    d: nat,
    i: int,
    lo: i32,
    beta: i32,
    best: i32,
    ts: Seq<SearchTrace>,
    v: i32,
)
    requires
        d > 0,
        0 <= i < a.legal.len(),
        v == nvalue::<E>(analysis_of(move_child(a, i)), (d - 1) as nat, wrapped_neg(beta), wrapped_neg(lo), ts[i]),
    ensures
        nloop::<E>(a, d, i, lo, beta, best, ts) == ({
            let score = wrapped_neg(v);
            let best2 = if score > best {
                score
            } else {
                best
            };
            let lo2 = if score > lo {
                score
            } else {
                lo
            };
            if lo2 >= beta {
                best2
            } else {
                nloop::<E>(a, d, i + 1, lo2, beta, best2, ts)
            }
        }),
{
}

proof fn lemma_rloop_step<E: Evaluator>(
    a: AnalView,
    d: nat,
    i: int,
    alpha: i32,
    best: i32,
    best_move: Option<ChessMove>,
    ts: Seq<SearchTrace>,
    v: i32,
)
    requires
        d > 0,
        0 <= i < a.legal.len(),
        v == nvalue::<E>(analysis_of(move_child(a, i)), (d - 1) as nat, wrapped_neg(full_window().1), wrapped_neg(alpha), ts[i]),
    ensures
        rloop::<E>(a, d, i, alpha, best, best_move, ts) == ({
            let score = wrapped_neg(v);
            let take = best_move is None || score > best;
            rloop::<E>(
                a,
                d,
                i + 1,
                if score > alpha { score } else { alpha },
                if take { score } else { best },
                if take { Some(a.legal[i]) } else { best_move },
                ts,
            )
        }),
{
}

proof fn lemma_rloop_names_legal<E: Evaluator>(
    a: AnalView,
    d: nat,
    i: int,
    alpha: i32,
    best: i32,
    best_move: Option<ChessMove>,
    ts: Seq<SearchTrace>,
)
    requires
        d > 0,
        0 <= i,
        best_move matches Some(m) ==> a.legal.contains(m),
    ensures
        rloop::<E>(a, d, i, alpha, best, best_move, ts) matches Some((m, _)) ==> a.legal.contains(m),
        (i < a.legal.len() || best_move is Some) ==> rloop::<E>(a, d, i, alpha, best, best_move, ts) is Some,
    decreases a.legal.len() - i,
{
    if i < a.legal.len() {
        let score = wrapped_neg(
            nvalue::<E>(analysis_of(move_child(a, i)), (d - 1) as nat, wrapped_neg(full_window().1), wrapped_neg(alpha), ts[i]),
        );
        let take = best_move is None || score > best;
        assert(a.legal.contains(a.legal[i]));
        lemma_rloop_names_legal::<E>(
            a,
            d,
            i + 1,
            if score > alpha { score } else { alpha },
            if take { score } else { best },
            if take { Some(a.legal[i]) } else { best_move },
            ts,
        );
    }
}

/// Unless the table's answer for the root settles the search, the root
/// search names a move exactly when the position has a legal move, and the
/// move it names is one of them.
pub proof fn lemma_root_names_legal_move<E: Evaluator>(a: AnalView, depth: nat, t: SearchTrace)
    requires
        root_cutoff(t.probe, depth as usize, full_window().0, full_window().1) is None,
    ensures
        rvalue::<E>(a, depth, t) is Some <==> a.legal.len() > 0,
        rvalue::<E>(a, depth, t) matches Some((m, _)) ==> a.legal.contains(m),
{
    if a.legal.len() > 0 {
        assert(a.legal.contains(a.legal[0]));
        if depth > 0 && !is_terminal(a) {
            lemma_rloop_names_legal::<E>(a, depth, 0, full_window().0, i32::MIN, None, t.replies);
        }
    }
}

/// The move and score of a search result.
pub open spec fn result_pair(result: Option<SearchResult>) -> Option<(ChessMove, i32)> {
    match result {
        Some(r) => Some((r.best_move(), r.best_score())),
        None => None,
    }
}

/// Searches the captures from the analysed position until it is quiet,
/// in the window `(alpha, beta)`, storing what it finds in `tt`; also
/// returns the record of the table's answers, with which [`qvalue`] replays
/// the search to the score returned.
fn quiescence<E: Evaluator>(
    tt: &TranspositionTable,
    anal: &BoardAnal,
    alpha: i32,
    beta: i32,
    Ghost(n): Ghost<nat>,
) -> (r: (i32, Ghost<SearchTrace>))
    requires
        quiescence_safe(anal@, n),
    ensures
        r.0 == qvalue::<E>(anal@, alpha, beta, r.1@, n),
    decreases n, 2int,
{
    let probe = tt.get(&anal.board);
    let r = quiescence_probed::<E>(tt, anal, alpha, beta, probe, Ghost(n));
    let ghost replies = r.1@;
    (r.0, Ghost(SearchTrace { probe: probe, replies: replies }))
}

/// The quiescence search once the table has answered `probe` for the
/// position; also returns the records of the captures tried.
#[verifier::spinoff_prover]
#[verifier::rlimit(60)]
fn quiescence_probed<E: Evaluator>(
    tt: &TranspositionTable,
    anal: &BoardAnal,
    alpha: i32,
    beta: i32,
    probe: Option<TTEntry>,
    Ghost(n): Ghost<nat>,
) -> (r: (i32, Ghost<Seq<SearchTrace>>))
    requires
        quiescence_safe(anal@, n),
    ensures
        r.0 == qvalue::<E>(anal@, alpha, beta, SearchTrace { probe, replies: r.1@ }, n),
    decreases n, 1int,
{
    let mut lo = alpha;
    // any stored entry is at least as deep as a quiescence search
    if let Some(score) = tt_cutoff(probe, 0, lo, beta) {
        return (score, Ghost(Seq::empty()));
    }
    let stand_pat = E::eval(anal);
    if stand_pat >= beta {
        tt.insert(&anal.board, 0, stand_pat, None, NodeType::LowerBound);
        return (beta, Ghost(Seq::empty()));
    }
    if stand_pat > lo {
        lo = stand_pat;
    }
    let ghost lo0 = lo;
    let captures = anal.captures(anal.board.to_move);
    if captures.len() == 0 {
        tt.insert(&anal.board, 0, lo, None, NodeType::Exact);
        return (lo, Ghost(Seq::empty()));
    }
    let ghost a = anal@;
    let ghost mut reps: Seq<SearchTrace> = Seq::empty();
    let mut best_move: Option<ChessMove> = None;
    let mut i: usize = 0;
    while i < captures.len()
        invariant
            a == anal@,
            quiescence_safe(a, n),
            n > 0,
            probe_cutoff(probe, 0, alpha, beta) is None,
            E::value(a) < beta,
            lo0 == (if E::value(a) > alpha {
                E::value(a) as i32
            } else {
                alpha
            }),
            captures@ == a.captures_of(a.board.to_move),
            0 <= i <= captures@.len(),
            reps.len() == i,
            forall|ts: Seq<SearchTrace>|
                #![trigger qloop::<E>(a, 0, lo0, beta, ts, n)]
                ts.len() >= i && ts.take(i as int) == reps ==> qloop::<E>(a, 0, lo0, beta, ts, n) == qloop::<E>(
                    a,
                    i as int,
                    lo,
                    beta,
                    ts,
                    n,
                ),
        decreases captures@.len() - i,
    {
        let capture = captures[i];
        assert(apply_safe(anal.board, a.captures_of(a.board.to_move)[i as int]));
        let child = anal.lookahead(capture).unwrap();
        let r = quiescence::<E>(tt, &child, neg_score(beta), neg_score(lo), Ghost((n - 1) as nat));
        let score = neg_score(r.0);
        let ghost old_reps = reps;
        proof {
            let tc = r.1@;
            reps = reps.push(tc);
            assert(child@ == analysis_of(capture_child(a, i as int)));
            assert forall|ts: Seq<SearchTrace>|
                #![trigger qloop::<E>(a, 0, lo0, beta, ts, n)]
                ts.len() >= i + 1 && ts.take(i + 1) == reps implies qloop::<E>(a, 0, lo0, beta, ts, n) == (if score
                >= beta {
                beta
            } else {
                qloop::<E>(a, i + 1, if score > lo { score } else { lo }, beta, ts, n)
            }) by {
                assert(ts.take(i as int) =~= old_reps);
                assert(ts[i as int] == ts.take(i + 1)[i as int]);
                assert(ts[i as int] == tc);
                lemma_qloop_step::<E>(a, i as int, lo, beta, ts, n, r.0);
            }
        }
        if score >= beta {
            tt.insert(&anal.board, 0, score, Some(capture), NodeType::LowerBound);
            proof {
                assert(reps.take(i + 1) =~= reps);
                assert(qloop::<E>(a, 0, lo0, beta, reps, n) == beta);
                assert(qvalue::<E>(a, alpha, beta, SearchTrace { probe, replies: reps }, n) == qloop::<E>(a, 0, lo0, beta, reps, n));
            }
            return (beta, Ghost(reps));
        }
        if score > lo {
            lo = score;
            best_move = Some(capture);
        }
        i += 1;
    }
    let node_type = if lo <= alpha {
        NodeType::UpperBound
    } else {
        NodeType::Exact
    };
    tt.insert(&anal.board, 0, lo, best_move, node_type);
    proof {
        assert(reps.take(i as int) =~= reps);
        assert(qloop::<E>(a, 0, lo0, beta, reps, n) == lo);
        assert(qvalue::<E>(a, alpha, beta, SearchTrace { probe, replies: reps }, n) == qloop::<E>(a, 0, lo0, beta, reps, n));
    }
    (lo, Ghost(reps))
}

/// The negamax value of the analysed position searched `depth` plies deep in
/// the window `(alpha, beta)`, with a quiescence search at the leaves; what it
/// finds is stored in `tt`, and entries there may settle a position early.
/// Also returns the record of the table's answers, with which [`nvalue`]
/// replays the search to the score returned.
pub fn negamax<E: Evaluator>(
    tt: &TranspositionTable,
    anal: &BoardAnal,
    depth: usize,
    alpha: i32,
    beta: i32,
) -> (r: (i32, Ghost<SearchTrace>))
    requires
        search_safe(anal@, depth as nat),
    ensures
        r.0 == nvalue::<E>(anal@, depth as nat, alpha, beta, r.1@),
    decreases depth, 2int,
{
    let probe = tt.get(&anal.board);
    let r = negamax_probed::<E>(tt, anal, depth, alpha, beta, probe);
    let ghost replies = r.1@;
    (r.0, Ghost(SearchTrace { probe: probe, replies: replies }))
}

/// The negamax search once the table has answered `probe` for the position;
/// also returns the records of the replies searched. The best score found is
/// stored as [`node_entry`] gives it.
#[verifier::spinoff_prover]
#[verifier::rlimit(60)]
fn negamax_probed<E: Evaluator>(
    tt: &TranspositionTable,
    anal: &BoardAnal,
    depth: usize,
    alpha: i32,
    beta: i32,
    probe: Option<TTEntry>,
) -> (r: (i32, Ghost<Seq<SearchTrace>>))
    requires
        search_safe(anal@, depth as nat),
    ensures
        r.0 == nvalue::<E>(anal@, depth as nat, alpha, beta, SearchTrace { probe, replies: r.1@ }),
    decreases depth, 1int,
{
    let mut lo = alpha;
    if let Some(score) = tt_cutoff(probe, depth, lo, beta) {
        return (score, Ghost(Seq::empty()));
    }
    if depth == 0 || anal.board_status().terminal() {
        let ghost n = choose|n: nat| quiescence_safe(anal@, n);
        let r = quiescence::<E>(tt, anal, lo, beta, Ghost(n));
        let ghost tq = r.1@;
        let ghost reps = seq![tq];
        proof {
            assert(reps[0] == tq);
        }
        return (r.0, Ghost(reps));
    }
    let ghost a = anal@;
    let ghost d = depth as nat;
    let ghost mut reps: Seq<SearchTrace> = Seq::empty();
    let mut best = i32::MIN;
    let mut best_move: Option<ChessMove> = None;
    let mut stop = false;
    let mut i: usize = 0;
    while i < anal.legal_moves.len() && !stop
        invariant
            a == anal@,
            d == depth,
            depth > 0,
            !is_terminal(a),
            search_safe(a, d),
            probe_cutoff(probe, depth, alpha, beta) is None,
            0 <= i <= anal.legal_moves@.len(),
            reps.len() == i,
            forall|ts: Seq<SearchTrace>|
                #![trigger nloop::<E>(a, d, 0, alpha, beta, i32::MIN, ts)]
                ts.len() >= i && ts.take(i as int) == reps ==> nloop::<E>(a, d, 0, alpha, beta, i32::MIN, ts) == (
                if stop {
                    best
                } else {
                    nloop::<E>(a, d, i as int, lo, beta, best, ts)
                }),
        decreases anal.legal_moves@.len() - i,
    {
        let chess_move = anal.legal_moves[i];
        assert(apply_safe(anal.board, a.legal[i as int]));
        let child = anal.lookahead(chess_move).unwrap();
        let r = negamax::<E>(tt, &child, depth - 1, neg_score(beta), neg_score(lo));
        let score = neg_score(r.0);
        let ghost old_reps = reps;
        let ghost old_best = best;
        let ghost old_lo = lo;
        proof {
            let tc = r.1@;
            reps = reps.push(tc);
            assert(child@ == analysis_of(move_child(a, i as int)));
        }
        let (b, m) = better_reply(best, best_move, chess_move, score);
        best = b;
        best_move = m;
        if score > lo {
            lo = score;
        }
        if lo >= beta {
            stop = true;
        }
        proof {
            assert forall|ts: Seq<SearchTrace>|
                #![trigger nloop::<E>(a, d, 0, alpha, beta, i32::MIN, ts)]
                ts.len() >= i + 1 && ts.take(i + 1) == reps implies nloop::<E>(a, d, 0, alpha, beta, i32::MIN, ts)
                == (if stop {
                best
            } else {
                nloop::<E>(a, d, i + 1, lo, beta, best, ts)
            }) by {
                assert(ts.take(i as int) =~= old_reps);
                assert(ts[i as int] == ts.take(i + 1)[i as int]);
                assert(ts[i as int] == r.1@);
                lemma_nloop_step::<E>(a, d, i as int, old_lo, beta, old_best, ts, r.0);
                assert(nloop::<E>(a, d, 0, alpha, beta, i32::MIN, ts) == nloop::<E>(a, d, i as int, old_lo, beta, old_best, ts));
            }
        }
        i += 1;
    }
    proof {
        assert(reps.take(i as int) =~= reps);
        assert(nloop::<E>(a, d, 0, alpha, beta, i32::MIN, reps) == best);
        assert(nvalue::<E>(a, d, alpha, beta, SearchTrace { probe, replies: reps }) == nloop::<E>(a, d, 0, alpha, beta, i32::MIN, reps));
    }
    let entry = node_entry(depth, best, best_move, alpha, beta);
    tt.insert(&anal.board, entry.depth, entry.score, entry.best_move, entry.node_type);
    (best, Ghost(reps))
}

/// How deep helper thread `thread_id` searches for a search of `depth`: one
/// to three plies by the thread's number, or `depth` if that is deeper.
pub fn helper_depth(thread_id: usize, depth: usize) -> (d: usize)
    ensures
        d == if 1 + thread_id % 3 > depth {
            (1 + thread_id % 3) as int
        } else {
            depth as int
        },
{
    let start_depth = 1 + thread_id % 3;
    if start_depth > depth {
        start_depth
    } else {
        depth
    }
}

/// The best reply so far after trying `mv` with `score`: it replaces the best
/// when it scores higher.
pub open spec fn better_reply_of(best: i32, best_move: Option<ChessMove>, mv: ChessMove, score: i32) -> (
    i32,
    Option<ChessMove>,
) {
    if score > best {
        (score, Some(mv))
    } else {
        (best, best_move)
    }
}

pub fn better_reply(best: i32, best_move: Option<ChessMove>, mv: ChessMove, score: i32) -> (r: (
    i32,
    Option<ChessMove>,
))
    ensures
        r == better_reply_of(best, best_move, mv, score),
{
    if score > best {
        (score, Some(mv))
    } else {
        (best, best_move)
    }
}

/// The entry a node searched `depth` plies deep stores: its best score and
/// move, with what the score says given the window it was searched in.
pub fn node_entry(depth: usize, best: i32, best_move: Option<ChessMove>, start_alpha: i32, beta: i32) -> (entry:
    TTEntry)
    ensures
        entry == (TTEntry { depth, score: best, best_move, node_type: node_type_of(best, start_alpha, beta) }),
{
    TTEntry { depth: depth, score: best, best_move: best_move, node_type: node_type_for(best, start_alpha, beta) }
}

} // verus!

verus! {

/// Whether the root of a search of `depth` from `a` is free of faults: the
/// position can be hashed and, unless the search stops at once, every legal
/// move can be played and the position after it searched.
pub open spec fn root_safe(a: AnalView, depth: nat) -> bool {
    &&& hashable(a.board)
    &&& !(depth == 0 || is_terminal(a)) ==> forall|i: int|
        0 <= i < a.legal.len() ==> {
            &&& apply_safe(a.board, #[trigger] a.legal[i])
            &&& apply_result(a.board, a.legal[i]) is Ok
            &&& anal_safe(move_child(a, i))
            &&& search_safe(analysis_of(move_child(a, i)), (depth - 1) as nat)
        }
}

/// The window a search starts with: every score but `i32::MIN`, whose
/// negation does not fit an `i32`.
pub open spec fn full_window() -> (i32, i32) {
    (-i32::MAX as i32, i32::MAX)
}

/// Searches `board` `depth` plies deep for the best move of the side to
/// move, in the window from `-i32::MAX` to `i32::MAX`, using and filling
/// `tt`; also returns the record of the table's answers, with which
/// [`rvalue`] replays the search to the move and score named. A move is named
/// whenever the side to move has a legal move.
pub fn negamax_search<E: Evaluator>(tt: &TranspositionTable, board: Board, depth: usize) -> (r: (
    Option<SearchResult>,
    Ghost<SearchTrace>,
))
    requires
        anal_safe(board),
        root_safe(analysis_of(board), depth as nat),
    ensures
        result_pair(r.0) == rvalue::<E>(analysis_of(board), depth as nat, r.1@),
        analysis_of(board).legal.len() > 0 ==> r.0 is Some,
{
    let probe = tt.get(&board);
    let r = negamax_search_probed::<E>(tt, board, depth, probe);
    let ghost replies = r.1@;
    (r.0, Ghost(SearchTrace { probe: probe, replies: replies }))
}

/// The search of [`negamax_search`] once the table has answered `probe` for
/// the board; also returns the records of the moves searched. The move named
/// is stored in the table with its score as exact.
#[verifier::spinoff_prover]
#[verifier::rlimit(60)]
pub fn negamax_search_probed<E: Evaluator>(tt: &TranspositionTable, board: Board, depth: usize, probe: Option<
    TTEntry,
>) -> (r: (Option<SearchResult>, Ghost<Seq<SearchTrace>>))
    requires
        anal_safe(board),
        root_safe(analysis_of(board), depth as nat),
    ensures
        result_pair(r.0) == rvalue::<E>(analysis_of(board), depth as nat, SearchTrace { probe, replies: r.1@ }),
        analysis_of(board).legal.len() > 0 ==> r.0 is Some,
{
    let mut alpha: i32 = -i32::MAX;
    let beta = i32::MAX;
    let anal = &board.anal();
    if let Some(score) = tt_cutoff(probe, depth, alpha, beta) {
        if let Some(best_move) = probe.unwrap().best_move {
            return (Some(SearchResult::new(best_move, score)), Ghost(Seq::empty()));
        }
    }
    if anal.legal_moves.len() == 0 {
        return (None, Ghost(Seq::empty()));
    }
    if depth == 0 || anal.board_status().terminal() {
        let first = anal.legal_moves[0];
        return (Some(SearchResult::new(first, E::eval(anal))), Ghost(Seq::empty()));
    }
    let ghost a = anal@;
    let ghost d = depth as nat;
    let ghost mut reps: Seq<SearchTrace> = Seq::empty();
    let mut best = i32::MIN;
    let mut best_move: Option<ChessMove> = None;
    let mut i: usize = 0;
    while i < anal.legal_moves.len()
        invariant
            a == anal@,
            d == depth,
            depth > 0,
            anal.analyses(board),
            !is_terminal(a),
            root_safe(a, d),
            0 <= i <= anal.legal_moves@.len(),
            -i32::MAX <= alpha,
            beta == i32::MAX,
            root_cutoff(probe, depth, full_window().0, full_window().1) is None,
            i > 0 ==> best_move is Some,
            reps.len() == i,
            forall|ts: Seq<SearchTrace>|
                #![trigger rloop::<E>(a, d, 0, full_window().0, i32::MIN, None, ts)]
                ts.len() >= i && ts.take(i as int) == reps ==> rloop::<E>(a, d, 0, full_window().0, i32::MIN, None, ts)
                    == rloop::<E>(a, d, i as int, alpha, best, best_move, ts),
        decreases anal.legal_moves@.len() - i,
    {
        let chess_move = anal.legal_moves[i];
        assert(apply_safe(anal.board, a.legal[i as int]));
        let child = anal.lookahead(chess_move).unwrap();
        let r = negamax::<E>(tt, &child, depth - 1, neg_score(beta), neg_score(alpha));
        let score = neg_score(r.0);
        let ghost old_reps = reps;
        let ghost old_best = best;
        let ghost old_move = best_move;
        let ghost old_alpha = alpha;
        proof {
            reps = reps.push(r.1@);
            assert(child@ == analysis_of(move_child(a, i as int)));
        }
        // the first move is always taken, so a move is named whatever the scores
        if best_move.is_none() || score > best {
            best = score;
            best_move = Some(chess_move);
        }
        if score > alpha {
            alpha = score;
        }
        proof {
            assert forall|ts: Seq<SearchTrace>|
                #![trigger rloop::<E>(a, d, 0, full_window().0, i32::MIN, None, ts)]
                ts.len() >= i + 1 && ts.take(i + 1) == reps implies rloop::<E>(
                a,
                d,
                0,
                full_window().0,
                i32::MIN,
                None,
                ts,
            ) == rloop::<E>(a, d, i + 1, alpha, best, best_move, ts) by {
                assert(ts.take(i as int) =~= old_reps);
                assert(ts[i as int] == ts.take(i + 1)[i as int]);
                assert(ts[i as int] == r.1@);
                lemma_rloop_step::<E>(a, d, i as int, old_alpha, old_best, old_move, ts, r.0);
                assert(rloop::<E>(a, d, 0, full_window().0, i32::MIN, None, ts) == rloop::<E>(
                    a,
                    d,
                    i as int,
                    old_alpha,
                    old_best,
                    old_move,
                    ts,
                ));
            }
        }
        i += 1;
    }
    proof {
        assert(reps.take(i as int) =~= reps);
        assert(rloop::<E>(a, d, 0, full_window().0, i32::MIN, None, reps) == rloop::<E>(a, d, i as int, alpha, best, best_move, reps));
        assert(rvalue::<E>(a, d, SearchTrace { probe, replies: reps }) == rloop::<E>(a, d, 0, full_window().0, i32::MIN, None, reps));
    }
    tt.insert(&anal.board, depth, best, best_move, NodeType::Exact);
    match best_move {
        Some(mv) => (Some(SearchResult::new(mv, best)), Ghost(reps)),
        None => (None, Ghost(reps)),
    }
}

} // verus!

verus! {

/// Whether a quiescence search from the analysed position is free of faults
/// when the captures run at most `n` deep.
#[verifier::spinoff_prover]
#[verifier::rlimit(40)]
pub fn quiescence_is_safe(anal: &BoardAnal, n: usize) -> (ok: bool)
    ensures
        ok == quiescence_safe(anal@, n as nat),
    decreases n,
{
    if n == 0 {
        return false;
    }
    let can_hash = match anal.board.en_passant_target {
        Some(sq) => sq.0 < 8,
        None => true,
    };
    if !can_hash || !anal.can_list_captures(anal.board.to_move) {
        return false;
    }
    let captures = anal.captures(anal.board.to_move);
    let mut i: usize = 0;
    while i < captures.len()
        invariant
            n > 0,
            hashable(anal.board),
            anal@.captures_safe(anal.board.to_move),
            captures@ == anal@.captures_of(anal.board.to_move),
            0 <= i <= captures@.len(),
            forall|k: int|
                0 <= k < i ==> {
                    &&& apply_safe(anal.board, #[trigger] anal@.captures_of(anal.board.to_move)[k])
                    &&& apply_result(anal.board, anal@.captures_of(anal.board.to_move)[k]) is Ok
                    &&& anal_safe(capture_child(anal@, k))
                    &&& quiescence_safe(analysis_of(capture_child(anal@, k)), (n - 1) as nat)
                },
        decreases captures@.len() - i,
    {
        let capture = captures[i];
        assert(capture == anal@.captures_of(anal.board.to_move)[i as int]);
        if !anal.board.can_apply(capture) {
            return false;
        }
        let child = match anal.board.lookahead(capture) {
            Err(_) => return false,
            Ok(child) => child,
        };
        if !child.can_analyse() {
            return false;
        }
        let child_anal = child.anal();
        if !quiescence_is_safe(&child_anal, n - 1) {
            return false;
        }
        i += 1;
    }
    true
}

/// [`search_safe`] with the quiescence searches at the leaves checked to run
/// at most `n` captures deep.
pub open spec fn search_safe_within(a: AnalView, depth: nat, n: nat) -> bool
    decreases depth,
{
    &&& hashable(a.board)
    &&& if depth == 0 || is_terminal(a) {
        quiescence_safe(a, n)
    } else {
        forall|i: int|
            0 <= i < a.legal.len() ==> {
                &&& apply_safe(a.board, #[trigger] a.legal[i])
                &&& apply_result(a.board, a.legal[i]) is Ok
                &&& anal_safe(move_child(a, i))
                &&& search_safe_within(analysis_of(move_child(a, i)), (depth - 1) as nat, n)
            }
    }
}

/// [`root_safe`] with the quiescence searches at the leaves checked to run at
/// most `n` captures deep.
pub open spec fn root_safe_within(a: AnalView, depth: nat, n: nat) -> bool {
    &&& hashable(a.board)
    &&& !(depth == 0 || is_terminal(a)) ==> forall|i: int|
        0 <= i < a.legal.len() ==> {
            &&& apply_safe(a.board, #[trigger] a.legal[i])
            &&& apply_result(a.board, a.legal[i]) is Ok
            &&& anal_safe(move_child(a, i))
            &&& search_safe_within(analysis_of(move_child(a, i)), (depth - 1) as nat, n)
        }
}

/// A search checked with a bound on the captures is free of faults.
pub proof fn lemma_search_safe_within(a: AnalView, depth: nat, n: nat)
    requires
        search_safe_within(a, depth, n),
    ensures
        search_safe(a, depth),
    decreases depth,
{
    if !(depth == 0 || is_terminal(a)) {
        assert forall|i: int| 0 <= i < a.legal.len() implies search_safe(
            analysis_of(move_child(a, i)),
            (depth - 1) as nat,
        ) by {
            assert(apply_safe(a.board, a.legal[i]));
            lemma_search_safe_within(analysis_of(move_child(a, i)), (depth - 1) as nat, n);
        }
    }
}

/// A root checked with a bound on the captures is free of faults.
pub proof fn lemma_root_safe_within(a: AnalView, depth: nat, n: nat)
    requires
        root_safe_within(a, depth, n),
    ensures
        root_safe(a, depth),
{
    if !(depth == 0 || is_terminal(a)) {
        assert forall|i: int| 0 <= i < a.legal.len() implies search_safe(
            analysis_of(move_child(a, i)),
            (depth - 1) as nat,
        ) by {
            assert(apply_safe(a.board, a.legal[i]));
            lemma_search_safe_within(analysis_of(move_child(a, i)), (depth - 1) as nat, n);
        }
    }
}

/// Whether a negamax search of `depth` from the analysed position is free of
/// faults with the quiescence searches at the leaves checked `n` captures deep.
pub fn search_is_safe(anal: &BoardAnal, depth: usize, n: usize) -> (ok: bool)
    ensures
        ok == search_safe_within(anal@, depth as nat, n as nat),
        ok ==> search_safe(anal@, depth as nat),
    decreases depth,
{
    let ok = search_is_safe_within(anal, depth, n);
    proof {
        if ok {
            lemma_search_safe_within(anal@, depth as nat, n as nat);
        }
    }
    ok
}

fn search_is_safe_within(anal: &BoardAnal, depth: usize, n: usize) -> (ok: bool)
    ensures
        ok == search_safe_within(anal@, depth as nat, n as nat),
    decreases depth,
{
    let can_hash = match anal.board.en_passant_target {
        Some(sq) => sq.0 < 8,
        None => true,
    };
    if !can_hash {
        return false;
    }
    if depth == 0 || anal.board_status().terminal() {
        return quiescence_is_safe(anal, n);
    }
    let mut i: usize = 0;
    while i < anal.legal_moves.len()
        invariant
            depth > 0,
            hashable(anal.board),
            !is_terminal(anal@),
            0 <= i <= anal.legal_moves@.len(),
            forall|k: int|
                0 <= k < i ==> {
                    &&& apply_safe(anal.board, #[trigger] anal@.legal[k])
                    &&& apply_result(anal.board, anal@.legal[k]) is Ok
                    &&& anal_safe(move_child(anal@, k))
                    &&& search_safe_within(analysis_of(move_child(anal@, k)), (depth - 1) as nat, n as nat)
                },
        decreases anal.legal_moves@.len() - i,
    {
        let mv = anal.legal_moves[i];
        assert(mv == anal@.legal[i as int]);
        if !anal.board.can_apply(mv) {
            return false;
        }
        let child = match anal.board.lookahead(mv) {
            Err(_) => return false,
            Ok(child) => child,
        };
        if !child.can_analyse() {
            return false;
        }
        let child_anal = child.anal();
        if !search_is_safe_within(&child_anal, depth - 1, n) {
            return false;
        }
        i += 1;
    }
    true
}

/// Whether [`negamax_search`] may be called with `board` and `depth`, with the
/// quiescence searches at the leaves checked `n` captures deep.
#[verifier::spinoff_prover]
#[verifier::rlimit(60)]
pub fn root_is_safe(board: &Board, depth: usize, n: usize) -> (ok: bool)
    ensures
        ok == (anal_safe(*board) && root_safe_within(analysis_of(*board), depth as nat, n as nat)),
        ok ==> anal_safe(*board) && root_safe(analysis_of(*board), depth as nat),
{
    if !board.can_analyse() {
        return false;
    }
    let anal = board.anal();
    let can_hash = match board.en_passant_target {
        Some(sq) => sq.0 < 8,
        None => true,
    };
    if !can_hash {
        return false;
    }
    if depth == 0 || anal.board_status().terminal() {
        proof {
            lemma_root_safe_within(anal@, depth as nat, n as nat);
        }
        return true;
    }
    let mut i: usize = 0;
    while i < anal.legal_moves.len()
        invariant
            depth > 0,
            anal.analyses(*board),
            !is_terminal(anal@),
            hashable(anal.board),
            0 <= i <= anal.legal_moves@.len(),
            forall|k: int|
                0 <= k < i ==> {
                    &&& apply_safe(anal.board, #[trigger] anal@.legal[k])
                    &&& apply_result(anal.board, anal@.legal[k]) is Ok
                    &&& anal_safe(move_child(anal@, k))
                    &&& search_safe_within(analysis_of(move_child(anal@, k)), (depth - 1) as nat, n as nat)
                },
        decreases anal.legal_moves@.len() - i,
    {
        let mv = anal.legal_moves[i];
        assert(mv == anal@.legal[i as int]);
        if !anal.board.can_apply(mv) {
            return false;
        }
        let child = match anal.board.lookahead(mv) {
            Err(_) => return false,
            Ok(child) => child,
        };
        if !child.can_analyse() {
            return false;
        }
        let child_anal = child.anal();
        if !search_is_safe(&child_anal, depth - 1, n) {
            return false;
        }
        i += 1;
    }
    proof {
        lemma_root_safe_within(anal@, depth as nat, n as nat);
    }
    true
}

} // verus!
