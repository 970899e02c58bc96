//! Differentiation of a stream of Z-sets.

use vstd::prelude::*;
use crate::algebra::{is_difference, ZRingValue};
use crate::trace::consolidation::{
    is_consolidated,
    is_sum,
    lemma_zero_add,
    same_weights,
    weight_of,
};
use crate::trace::ord::OrdBatch;
use crate::trace::{Batch, BatchReader, DBData, DBWeight};

verus! {

/// Emits at each step the Z-set that it takes minus the one that it took at
/// the step before.
pub struct Differentiate<K, V, R> {
    previous: OrdBatch<K, V, (), R>,
}

impl<K: DBData, V: DBData, R: ZRingValue> Differentiate<K, V, R> {
    /// The operator is in a valid state.
    pub closed spec fn wf(&self) -> bool {
        self.previous.wf()
    }

    /// The tuples of the Z-set taken at the step before.
    pub closed spec fn previous(&self) -> Seq<(((K, V), ()), R)> {
        self.previous.tuples()
    }

    /// An operator that has taken nothing: the Z-set before the first one is
    /// empty.
    pub fn new() -> (r: Self)
        ensures
            r.wf(),
            r.previous().len() == 0,
    {
        Differentiate { previous: OrdBatch::empty(()) }
    }

    /// Takes `input` and emits `input` minus the Z-set taken before.
    pub fn eval(&mut self, input: &OrdBatch<K, V, (), R>) -> (r: OrdBatch<K, V, (), R>)
        requires
            old(self).wf(),
            input.wf(),
        ensures
            final(self).wf(),
            final(self).previous() == input.tuples(),
            r.wf(),
            is_consolidated(r.tuples()),
            is_difference(r.tuples(), input.tuples(), old(self).previous()),
    {
        let minus = self.previous.neg();
        let r = input.merge(&minus);
        self.previous = input.dup();
        r
    }
}

/// Integrating what differentiation emits gives back the stream: where the
/// sum so far is the Z-set taken before, adding the difference to it gives
/// the Z-set taken now.
pub proof fn lemma_integrate_differentiate<I, R: ZRingValue>(
    input: Seq<(I, R)>,
    previous: Seq<(I, R)>,
    difference: Seq<(I, R)>,
    sum: Seq<(I, R)>,
    next_sum: Seq<(I, R)>,
)
    requires
        same_weights(sum, previous),
        is_difference(difference, input, previous),
        is_sum(next_sum, sum, difference),
    ensures
        same_weights(next_sum, input),
{
    assert forall|x: I| #[trigger] weight_of(next_sum, x) == weight_of(input, x) by {
        let a = weight_of(input, x);
        let p = weight_of(previous, x);
        assert(weight_of(sum, x) == p);
        assert(weight_of(difference, x) == a.add_spec(&p.neg_spec()));
        assert(weight_of(next_sum, x) == p.add_spec(&a.add_spec(&p.neg_spec())));
        lemma_cancel(a, p);
    }
}

/// Differentiating what integration emits gives back the stream: the sum
/// after a step minus the sum before it is the Z-set taken at the step.
pub proof fn lemma_differentiate_integrate<I, R: ZRingValue>(
    input: Seq<(I, R)>,
    sum: Seq<(I, R)>,
    next_sum: Seq<(I, R)>,
    difference: Seq<(I, R)>,
)
    requires
        is_sum(next_sum, sum, input),
        is_difference(difference, next_sum, sum),
    ensures
        same_weights(difference, input),
{
    assert forall|x: I| #[trigger] weight_of(difference, x) == weight_of(input, x) by {
        let a = weight_of(input, x);
        let p = weight_of(sum, x);
        assert(weight_of(next_sum, x) == p.add_spec(&a));
        assert(weight_of(difference, x) == p.add_spec(&a).add_spec(&p.neg_spec()));
        R::lemma_add_commutative(p, a);
        R::lemma_add_associative(a, p, p.neg_spec());
        R::lemma_neg_inverse(p);
        R::lemma_add_zero(a);
    }
}

/// `p + (a - p) == a`.
pub proof fn lemma_cancel<R: ZRingValue>(a: R, p: R)
    ensures
        p.add_spec(&a.add_spec(&p.neg_spec())) == a,
{
    let n = p.neg_spec();
    R::lemma_add_commutative(a, n);
    R::lemma_add_associative(p, n, a);
    R::lemma_neg_inverse(p);
    lemma_zero_add(a);
}

} // verus!
