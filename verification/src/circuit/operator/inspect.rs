//! Defines a sink operator that inspects every element of its input stream
//! by applying a user-provided callback to it.

use std::marker::PhantomData;
use vstd::prelude::*;
use crate::circuit::operator_traits::{Operator, SinkRefOperator};

verus! {

/// Sink operator that consumes a stream of values of type `T` and applies a
/// user-provided callback to each input.
pub struct Inspect<T, F> where F: Fn(&T) {
    callback: F,
    phantom: PhantomData<T>,
}

impl<T, F> Inspect<T, F> where F: Fn(&T) {
    /// The callback that the operator applies.
    pub closed spec fn callback(&self) -> F {
        self.callback
    }

    /// Create a new instance of the `Inspect` operator that will apply
    /// `callback` to each value in the input stream.
    pub fn new(callback: F) -> (r: Self)
        ensures
            r.callback() == callback,
    {
        Self { callback, phantom: PhantomData }
    }
}

impl<T, F> Operator for Inspect<T, F> where F: Fn(&T) {
    fn stream_start(&mut self)
        ensures
            *final(self) == *old(self),
    {
    }

    fn stream_end(&mut self)
        ensures
            *final(self) == *old(self),
    {
    }
}

impl<T, F> SinkRefOperator<T> for Inspect<T, F> where F: Fn(&T) {
    open spec fn consumes(&self, i: &T) -> bool {
        call_requires(self.callback(), (i,))
    }

    fn eval(&mut self, i: &T)
        ensures
            *final(self) == *old(self),
            call_ensures(old(self).callback(), (i,), ()),
    {
        (self.callback)(i)
    }
}

} // verus!
