//! The acceptance rule shared by both annealing searches.
use vstd::prelude::*;

verus! {

/// A source of decisions on worsening moves. An improvement or a tie is
/// always accepted by `accept`; a worsening move (`delta < 0`) is put to the
/// implementor, which typically accepts it with probability `exp(delta / T)`
/// at a temperature `T` set from the progress.
pub trait Acceptor {
    /// Sets the progress to `step / total`.
    fn set_progress(&mut self, step: u64, total: u64)
        requires
            0 < total,
    ;

    /// Decides whether a move that worsens the objective by `-delta` is taken.
    fn accept_worse(&mut self, delta: i64) -> bool;
}

/// An acceptor that never takes a worsening move: plain descent.
pub struct Descent;

impl Acceptor for Descent {
    fn set_progress(&mut self, _step: u64, _total: u64) {
    }

    fn accept_worse(&mut self, _delta: i64) -> bool {
        false
    }
}

/// Decides whether a move with improvement `delta` (old − new) is taken: always
/// when `delta >= 0`, otherwise as the acceptor decides.
pub fn accept<A: Acceptor>(a: &mut A, delta: i64) -> (r: bool)
    ensures
        delta >= 0 ==> r,
        delta >= 0 ==> *final(a) == *old(a),
{
    if delta >= 0 {
        true
    } else {
        a.accept_worse(delta)
    }
}

} // verus!
