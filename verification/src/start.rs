//! Where something starts: a bar and a beat within it.
use crate::arith::q_int;
use crate::rational::Rational;
use vstd::prelude::*;

verus! {

/// The start of an item: the index of its bar, and its beat in whole notes from the start of
/// that bar, as placed and as it would naturally fall.
#[derive(Debug, Clone, Copy)]
pub struct Start {
    pub bar: usize,
    pub beat: Rational,
    pub natural_beat: Rational,
}

impl Default for Start {
    /// The start of the first bar.
    fn default() -> (s: Start)
        ensures
            s.bar == 0,
            s.beat@ == q_int(0),
            s.natural_beat@ == q_int(0),
            s.beat.wf(),
            s.natural_beat.wf(),
    {
        Start { bar: 0, beat: Rational::zero(), natural_beat: Rational::zero() }
    }
}

} // verus!
