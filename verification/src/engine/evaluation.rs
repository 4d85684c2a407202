//! Evaluating a position for the side to move.
pub mod greedeval;

use crate::game::board::analysis::AnalView;
use crate::game::BoardAnal;
use vstd::prelude::*;

pub use self::greedeval::GreedEval;

verus! {

/// A static evaluation of a position, in centipawns, from the point of view
/// of the side to move.
pub trait Evaluator {
    /// The score the evaluator gives an analysed position.
    spec fn value(anal: AnalView) -> int;

    fn eval(anal: &BoardAnal) -> (score: i32)
        ensures
            score == Self::value(anal@),
    ;
}

} // verus!
