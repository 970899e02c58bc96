//! The interfaces through which the scheduler drives operators.

use vstd::prelude::*;

verus! {

/// What every operator offers: the notifications that a clock epoch starts
/// and ends.
pub trait Operator {
    /// The operator is told that a stream of inputs starts.
    fn stream_start(&mut self);

    /// The operator is told that the stream of inputs has ended.
    fn stream_end(&mut self);
}

/// A sink operator that consumes a stream of values of type `T` by
/// reference.
pub trait SinkRefOperator<T>: Operator {
    /// The operator can consume `i`.
    spec fn consumes(&self, i: &T) -> bool;

    /// Consume one input.
    fn eval(&mut self, i: &T)
        requires
            old(self).consumes(i),
    ;
}

} // verus!
