//! The distinct operator: the indicator of the Z-set taken so far.

use vstd::prelude::*;
use crate::algebra::ZRingValue;
use crate::operator::differentiate::lemma_cancel;
use crate::operator::integrate::Integrate;
use crate::operator::{lemma_strip_weight, lookup};
use crate::trace::consolidation::{
    is_consolidated,
    is_sum,
    lemma_consolidated_push,
    lemma_sorted_prefix_absent,
    lemma_weight_of_absent,
    lemma_weight_of_push,
    lemma_zero_add,
    same_weights,
    weight_of,
};
use crate::trace::cursor::{collect_tuples, Cursor};
use crate::trace::ord::OrdBatch;
use crate::trace::spine_fueled::tuples_of;
use crate::trace::{at_time, Batch, BatchReader, DBData, DBWeight};

verus! {

/// The indicator of a weight: one where the weight is positive, zero
/// elsewhere.
pub open spec fn indicator<R: ZRingValue>(w: R) -> R {
    if w.positive_spec() {
        R::one_spec()
    } else {
        R::zero_spec()
    }
}

/// What the indicator of a weight changes by when `delta` is added to the
/// weight `before`.
pub open spec fn indicator_change<R: ZRingValue>(before: R, delta: R) -> R {
    indicator(before.add_spec(&delta)).add_spec(&indicator(before).neg_spec())
}

/// `d` stands for the indicator of the Z-set that `z` stands for: weight
/// one where `z` has a positive weight, nothing elsewhere.
pub open spec fn is_distinct<I, R: ZRingValue>(d: Seq<(I, R)>, z: Seq<(I, R)>) -> bool {
    forall|x: I| #[trigger] weight_of(d, x) == indicator(weight_of(z, x))
}

/// `out` stands for what the indicator of the Z-set `before` changes by when
/// `delta` is added to it.
pub open spec fn is_distinct_change<I, R: ZRingValue>(
    out: Seq<(I, R)>,
    before: Seq<(I, R)>,
    delta: Seq<(I, R)>,
) -> bool {
    forall|x: I| #[trigger]
        weight_of(out, x) == indicator_change(weight_of(before, x), weight_of(delta, x))
}

/// Adding nothing to a weight leaves its indicator as it is.
pub proof fn lemma_no_change<R: ZRingValue>(w: R)
    ensures
        indicator_change(w, R::zero_spec()) == R::zero_spec(),
{
    R::lemma_add_zero(w);
    R::lemma_neg_inverse(indicator(w));
}

/// The indicator of an indicator is the indicator: `distinct` applied twice
/// equals `distinct` applied once.
pub proof fn lemma_distinct_idempotent<I, R: ZRingValue>(
    z: Seq<(I, R)>,
    once: Seq<(I, R)>,
    twice: Seq<(I, R)>,
)
    requires
        is_distinct(once, z),
        is_distinct(twice, once),
    ensures
        same_weights(twice, once),
{
    R::lemma_positive_one();
    assert forall|x: I| #[trigger] weight_of(twice, x) == weight_of(once, x) by {
        assert(weight_of(once, x) == indicator(weight_of(z, x)));
        assert(weight_of(twice, x) == indicator(weight_of(once, x)));
    }
}

/// The changes that `distinct` emits add up to the indicator of the sum of
/// its inputs: where the outputs so far stand for the indicator of the
/// inputs so far, they still do after one more step.
pub proof fn lemma_distinct_incremental<I, R: ZRingValue>(
    before: Seq<(I, R)>,
    delta: Seq<(I, R)>,
    after: Seq<(I, R)>,
    emitted: Seq<(I, R)>,
    out: Seq<(I, R)>,
    next_emitted: Seq<(I, R)>,
)
    requires
        is_sum(after, before, delta),
        is_distinct(emitted, before),
        is_distinct_change(out, before, delta),
        is_sum(next_emitted, emitted, out),
    ensures
        is_distinct(next_emitted, after),
{
    assert forall|x: I| #[trigger] weight_of(next_emitted, x) == indicator(weight_of(after, x)) by {
        let b = weight_of(before, x);
        let d = weight_of(delta, x);
        assert(weight_of(after, x) == b.add_spec(&d));
        assert(weight_of(emitted, x) == indicator(b));
        assert(weight_of(out, x) == indicator_change(b, d));
        assert(weight_of(next_emitted, x) == indicator(b).add_spec(&indicator_change(b, d)));
        lemma_cancel(indicator(b.add_spec(&d)), indicator(b));
    }
}

/// Computes what the indicator of the Z-set that `trace` ranges over changes
/// by when the Z-set `delta` is added to it.  The result is consolidated and
/// holds its pairs in the order of `delta`.
pub fn distinct_change<'s, K: DBData, V: DBData, R: ZRingValue, C: Cursor<'s, K, V, (), R>>(
    delta: &Vec<(((K, V), ()), R)>,
    trace: &mut C,
) -> (r: Vec<(((K, V), ()), R)>)
    requires
        is_consolidated(delta@),
        old(trace).wf(),
        old(trace).clip() is None,
    ensures
        final(trace).wf(),
        final(trace).storage() == old(trace).storage(),
        final(trace).clip() == old(trace).clip(),
        is_consolidated(r@),
        is_distinct_change(r@, old(trace).storage(), delta@),
{
    let ghost s = trace.storage();
    let mut out: Vec<(((K, V), ()), R)> = Vec::new();
    let mut i: usize = 0;
    proof {
        assert forall|x: ((K, V), ())| #[trigger]
            weight_of(out@, x) == indicator_change(weight_of(s, x), weight_of(delta@.take(0), x)) by {
            lemma_no_change(weight_of(s, x));
        }
    }
    while i < delta.len()
        invariant
            i <= delta.len(),
            is_consolidated(delta@),
            trace.wf(),
            trace.storage() == s,
            trace.clip() is None,
            is_consolidated(out@),
            forall|x: ((K, V), ())| #[trigger]
                weight_of(out@, x) == indicator_change(
                    weight_of(s, x),
                    weight_of(delta@.take(i as int), x),
                ),
            forall|j: int, n: int|
                0 <= j < out@.len() && i <= n < delta@.len() ==> (#[trigger] out@[j]).0.lt_spec(
                    &(#[trigger] delta@[n]).0,
                ),
        decreases delta.len() - i,
    {
        let ghost before = out@;
        let ghost x0 = delta@[i as int].0;
        let old_weight = lookup(trace, &delta[i].0.0.0, &delta[i].0.0.1);
        let new_weight = old_weight.add_by_ref(&delta[i].1);
        let was = if old_weight.ge0() && !old_weight.is_zero() {
            R::one()
        } else {
            R::zero()
        };
        let is = if new_weight.ge0() && !new_weight.is_zero() {
            R::one()
        } else {
            R::zero()
        };
        let change = is.add_by_ref(&was.neg_by_ref());
        proof {
            R::lemma_positive_one();
            lemma_strip_weight(s, x0.0);
            assert(x0 == (x0.0, ()));
            assert(old_weight == weight_of(s, x0));
            assert(was == indicator(old_weight));
            assert(is == indicator(new_weight));
            assert(change == indicator_change(old_weight, delta@[i as int].1));
            assert(delta@.take(i + 1) =~= delta@.take(i as int).push(delta@[i as int]));
            lemma_sorted_prefix_absent(delta@, i as int);
            lemma_weight_of_absent(delta@.take(i as int), x0);
            lemma_zero_add(delta@[i as int].1);
            lemma_no_change(old_weight);
        }
        if !change.is_zero() {
            proof {
                if before.len() > 0 {
                    assert(before[before.len() - 1].0.lt_spec(&delta@[i as int].0));
                }
                lemma_consolidated_push(before, (x0, change));
            }
            out.push((((delta[i].0.0.0.dup(), delta[i].0.0.1.dup()), ()), change));
        }
        proof {
            let after = out@;
            assert forall|x: ((K, V), ())| #[trigger]
                weight_of(after, x) == indicator_change(
                    weight_of(s, x),
                    weight_of(delta@.take(i + 1), x),
                ) by {
                lemma_weight_of_push(delta@.take(i as int), delta@[i as int], x);
                assert(weight_of(before, x) == indicator_change(
                    weight_of(s, x),
                    weight_of(delta@.take(i as int), x),
                ));
                if change != R::zero_spec() {
                    lemma_weight_of_push(before, (x0, change), x);
                }
                if x == x0 {
                    lemma_zero_add(change);
                }
            }
            assert forall|j: int, n: int|
                0 <= j < after.len() && i + 1 <= n < delta@.len() implies (#[trigger] after[j]).0.lt_spec(
                &(#[trigger] delta@[n]).0,
            ) by {
                if j < before.len() {
                    assert(after[j] == before[j]);
                } else {
                    assert(delta@[i as int].0.lt_spec(&delta@[n].0));
                }
            }
        }
        i = i + 1;
    }
    proof {
        assert(delta@.take(delta.len() as int) =~= delta@);
    }
    out
}

/// Maintains the indicator of the sum of the Z-sets that it takes, and emits
/// at each step what the indicator changes by.
pub struct Distinct<K: DBData, V: DBData, R: ZRingValue> {
    input: Integrate<OrdBatch<K, V, (), R>>,
}

impl<K: DBData, V: DBData, R: ZRingValue> Distinct<K, V, R> {
    /// The operator is in a valid state.
    pub closed spec fn wf(&self) -> bool {
        self.input.wf()
    }

    /// The tuples that stand for the sum of the Z-sets taken so far.
    pub closed spec fn integral(&self) -> Seq<(((K, V), ()), R)> {
        self.input.integral()
    }

    /// The value of the dirty flag.
    pub closed spec fn dirty_spec(&self) -> bool {
        self.input.dirty_spec()
    }

    /// An operator that has taken nothing.
    pub fn new() -> (r: Self)
        ensures
            r.wf(),
            r.integral().len() == 0,
            !r.dirty_spec(),
    {
        Distinct { input: Integrate::new() }
    }

    /// Takes `delta` and emits what the indicator of the sum changes by: a
    /// pair gets the weight one where its weight becomes positive, and the
    /// inverse of one where it ceases to be positive.
    pub fn eval(&mut self, delta: OrdBatch<K, V, (), R>) -> (r: OrdBatch<K, V, (), R>)
        requires
            old(self).wf(),
            delta.wf(),
        ensures
            final(self).wf(),
            is_sum(final(self).integral(), old(self).integral(), delta.tuples()),
            final(self).dirty_spec() == (old(self).dirty_spec() || delta.tuples().len() > 0),
            r.wf(),
            is_consolidated(r.tuples()),
            is_distinct_change(r.tuples(), old(self).integral(), delta.tuples()),
    {
        let mut dc = delta.cursor();
        let rows = collect_tuples(&mut dc);
        let mut tc = self.input.trace().cursor();
        let ghost s = tc.storage();
        let out = distinct_change(&rows, &mut tc);
        let mut pairs: Vec<((K, V), R)> = Vec::new();
        let mut i: usize = 0;
        while i < out.len()
            invariant
                i <= out.len(),
                pairs@ == crate::trace::strip_time(out@.take(i as int)),
            decreases out.len() - i,
        {
            pairs.push(((out[i].0.0.0.dup(), out[i].0.0.1.dup()), out[i].1.dup()));
            proof {
                assert(pairs@ =~= crate::trace::strip_time(out@.take(i + 1)));
            }
            i = i + 1;
        }
        proof {
            assert(out@.take(out.len() as int) =~= out@);
            assert forall|j: int| 0 <= j < out@.len() implies #[trigger] out@[j] == at_time(
                pairs@,
                (),
            )[j] by {
                let t: () = out@[j].0.1;
                assert(t == ());
                assert(out@[j] == ((out@[j].0.0, t), out@[j].1));
            }
            assert(out@ =~= at_time(pairs@, ()));
            crate::trace::from_cursor::lemma_strip_consolidated(out@, ());
            delta.lemma_batch_wf();
            crate::trace::consolidation::lemma_canonical(rows@, delta.tuples());
            assert forall|x: ((K, V), ())| #[trigger]
                weight_of(out@, x) == indicator_change(
                    weight_of(self.input.integral(), x),
                    weight_of(delta.tuples(), x),
                ) by {
                assert(weight_of(s, x) == weight_of(self.input.integral(), x));
            }
        }
        self.input.add(delta);
        OrdBatch::from_consolidated((), pairs)
    }

    /// Tells whether a Z-set that holds a tuple was taken since the flag was
    /// cleared.
    pub fn dirty(&self) -> (r: bool)
        requires
            self.wf(),
        ensures
            r == self.dirty_spec(),
    {
        self.input.dirty()
    }

    /// Clears the dirty flag.
    pub fn clear_dirty_flag(&mut self)
        requires
            old(self).wf(),
        ensures
            final(self).wf(),
            !final(self).dirty_spec(),
            final(self).integral() == old(self).integral(),
    {
        self.input.clear_dirty_flag();
    }
}


/// Runs `distinct` over a stream of Z-sets, one at a time, and sums what it
/// emits: the sum is the indicator of the sum of the stream, which is what
/// `distinct` gives for the sum of the stream taken at once.
pub fn distinct_of_stream<K: DBData, V: DBData, R: ZRingValue>(
    stream: Vec<OrdBatch<K, V, (), R>>,
) -> (r: OrdBatch<K, V, (), R>)
    requires
        forall|i: int| 0 <= i < stream@.len() ==> (#[trigger] stream@[i]).wf(),
    ensures
        r.wf(),
        is_consolidated(r.tuples()),
        is_distinct(r.tuples(), tuples_of(stream@)),
{
    let ghost given = stream@;
    let mut rest = stream;
    let mut reversed: Vec<OrdBatch<K, V, (), R>> = Vec::new();
    while rest.len() > 0
        invariant
            rest@.len() + reversed@.len() == given.len(),
            rest@ == given.take(rest@.len() as int),
            forall|j: int|
                0 <= j < reversed@.len() ==> #[trigger] reversed@[j] == given[given.len() - 1 - j],
        decreases rest@.len(),
    {
        let b = rest.pop().unwrap();
        reversed.push(b);
    }
    let mut op: Distinct<K, V, R> = Distinct::new();
    let mut total: OrdBatch<K, V, (), R> = OrdBatch::empty(());
    let ghost mut n: int = 0;
    proof {
        total.lemma_batch_wf();
        R::lemma_positive_one();
        assert(given.take(0) =~= Seq::empty());
        assert(tuples_of(given.take(0)) =~= Seq::empty());
        assert(op.integral() =~= Seq::empty());
        assert(total.tuples() =~= Seq::empty());
    }
    while reversed.len() > 0
        invariant
            0 <= n,
            n + reversed@.len() == given.len(),
            forall|j: int|
                0 <= j < reversed@.len() ==> #[trigger] reversed@[j] == given[given.len() - 1 - j],
            forall|i: int| 0 <= i < given.len() ==> (#[trigger] given[i]).wf(),
            op.wf(),
            total.wf(),
            is_consolidated(total.tuples()),
            same_weights(op.integral(), tuples_of(given.take(n))),
            is_distinct(total.tuples(), op.integral()),
        decreases reversed@.len(),
    {
        let ghost before = op.integral();
        let ghost emitted = total.tuples();
        let input = reversed.pop().unwrap();
        proof {
            assert(input == given[n]);
            assert(input.wf());
        }
        let out = op.eval(input);
        total = total.merge(&out);
        proof {
            lemma_distinct_incremental(
                before,
                input.tuples(),
                op.integral(),
                emitted,
                out.tuples(),
                total.tuples(),
            );
            let done = given.take(n);
            let next = given.take(n + 1);
            assert(next.drop_last() =~= done);
            assert(next.last() == input);
            assert forall|x: ((K, V), ())| #[trigger]
                weight_of(op.integral(), x) == weight_of(
                    tuples_of(next),
                    x,
                ) by {
                crate::trace::consolidation::lemma_weight_of_concat(
                    tuples_of(done),
                    input.tuples(),
                    x,
                );
                assert(weight_of(before, x) == weight_of(
                    tuples_of(done),
                    x,
                ));
                assert(weight_of(op.integral(), x) == weight_of(before, x).add_spec(
                    &weight_of(input.tuples(), x),
                ));
            }
            n = n + 1;
        }
    }
    proof {
        assert(given.take(given.len() as int) =~= given);
        assert forall|x: ((K, V), ())| #[trigger]
            weight_of(total.tuples(), x) == indicator(
                weight_of(tuples_of(given), x),
            ) by {
            assert(weight_of(total.tuples(), x) == indicator(weight_of(op.integral(), x)));
            assert(weight_of(op.integral(), x) == weight_of(
                tuples_of(given),
                x,
            ));
        }
    }
    total
}

} // verus!
