//! Linear aggregates.
//!
//! An aggregate folds the payloads of a set of rows, each with its weight,
//! into an accumulator, and maps the accumulator to the output.
//!
//! Sums are widened: payloads and weights are 64-bit integers, and their
//! products are added up as 128-bit integers.  A sum that leaves the range
//! of 128-bit integers stays at the end of the range that it left by, and an
//! output that leaves the range of 64-bit integers stays at the end of that
//! range.

use std::marker::PhantomData;
use vstd::prelude::*;
use crate::operator::partitioned::{Partitioned, PartitionKernel};
use crate::trace::consolidation::lemma_consolidated_push;
use crate::trace::DBData;

verus! {

/// `x`, or the end of the range of 128-bit integers that it lies beyond.
pub open spec fn clamp128(x: int) -> i128 {
    if x > i128::MAX {
        i128::MAX
    } else if x < i128::MIN {
        i128::MIN
    } else {
        x as i128
    }
}

/// `x`, or the end of the range of 64-bit integers that it lies beyond.
pub open spec fn clamp64(x: int) -> i64 {
    if x > i64::MAX {
        i64::MAX
    } else if x < i64::MIN {
        i64::MIN
    } else {
        x as i64
    }
}

/// The quotient of `x` by `d`, rounded towards zero.
pub open spec fn trunc_div(x: int, d: int) -> int {
    if x == 0 {
        0
    } else if x > 0 && d > 0 {
        x / d
    } else if x < 0 && d < 0 {
        (-x) / (-d)
    } else if x < 0 {
        -((-x) / d)
    } else {
        -(x / (-d))
    }
}

/// Adds two 128-bit integers; a sum beyond the range stays at the end of the
/// range.
pub fn saturating_sum(a: i128, b: i128) -> (r: i128)
    ensures
        r == clamp128(a + b),
{
    match a.checked_add(b) {
        Some(s) => s,
        None => if b > 0 {
            i128::MAX
        } else {
            i128::MIN
        },
    }
}

/// The product of two 64-bit integers as a 128-bit integer.
pub fn wide_product(a: i64, b: i64) -> (r: i128)
    ensures
        r == a * b,
{
    proof {
        assert(-0x4000_0000_0000_0000_0000_0000_0000_0000 <= a * b
            <= 0x4000_0000_0000_0000_0000_0000_0000_0000) by (nonlinear_arith)
            requires
                -0x8000_0000_0000_0000 <= a <= 0x7fff_ffff_ffff_ffff,
                -0x8000_0000_0000_0000 <= b <= 0x7fff_ffff_ffff_ffff,
        ;
    }
    (a as i128) * (b as i128)
}

/// Narrows a 128-bit integer to a 64-bit integer; a value beyond the range
/// stays at the end of the range.
pub fn narrow(x: i128) -> (r: i64)
    ensures
        r == clamp64(x as int),
{
    if x > i64::MAX as i128 {
        i64::MAX
    } else if x < i64::MIN as i128 {
        i64::MIN
    } else {
        x as i64
    }
}

/// An aggregate over rows with payloads of type `P` and 64-bit weights.
pub trait Aggregator<P>: Sized {
    /// The accumulator.
    type Acc;

    /// The output.
    type Out: DBData;

    /// The accumulator of no rows.
    spec fn init_spec() -> Self::Acc;

    /// The accumulator after one more row.
    spec fn step_spec(acc: Self::Acc, payload: P, weight: i64) -> Self::Acc;

    /// The output for an accumulator.
    spec fn finish_spec(acc: Self::Acc) -> Self::Out;

    /// Returns the accumulator of no rows.
    fn init() -> (r: Self::Acc)
        ensures
            r == Self::init_spec(),
    ;

    /// Takes one more row into the accumulator.
    fn step(acc: Self::Acc, payload: &P, weight: i64) -> (r: Self::Acc)
        ensures
            r == Self::step_spec(acc, *payload, weight),
    ;

    /// Maps the accumulator to the output.
    fn finish(acc: &Self::Acc) -> (r: Self::Out)
        ensures
            r == Self::finish_spec(*acc),
    ;
}

/// The aggregate of `rows`: the accumulator of no rows with the rows taken
/// into it one after the other.
pub open spec fn fold_rows<P, A: Aggregator<P>>(rows: Seq<(P, i64)>) -> A::Acc
    decreases rows.len(),
{
    if rows.len() == 0 {
        A::init_spec()
    } else {
        A::step_spec(fold_rows::<P, A>(rows.drop_last()), rows.last().0, rows.last().1)
    }
}

/// The weighted average of the payloads: the sum of the products of payload
/// and weight, divided by the sum of the weights and rounded towards zero.
/// Without rows, or where the weights add up to zero, there is no average.
pub struct Avg;

impl Aggregator<i64> for Avg {
    type Acc = (i128, i128);

    type Out = Option<i64>;

    open spec fn init_spec() -> (i128, i128) {
        (0i128, 0i128)
    }

    open spec fn step_spec(acc: (i128, i128), payload: i64, weight: i64) -> (i128, i128) {
        (clamp128(acc.0 + payload * weight), clamp128(acc.1 + weight))
    }

    open spec fn finish_spec(acc: (i128, i128)) -> Option<i64> {
        if acc.1 == 0 {
            None
        } else {
            Some(clamp64(trunc_div(acc.0 as int, acc.1 as int)))
        }
    }

    fn init() -> (r: (i128, i128)) {
        (0i128, 0i128)
    }

    fn step(acc: (i128, i128), payload: &i64, weight: i64) -> (r: (i128, i128)) {
        (saturating_sum(acc.0, wide_product(*payload, weight)), saturating_sum(acc.1, weight as i128))
    }

    fn finish(acc: &(i128, i128)) -> (r: Option<i64>) {
        if acc.1 == 0 {
            None
        } else {
            match acc.0.checked_div(acc.1) {
                Some(q) => Some(narrow(q)),
                None => Some(i64::MAX),
            }
        }
    }
}

/// The number of rows, each counted as often as its weight says.  Without
/// rows the count is zero.
pub struct Count;

impl<P> Aggregator<P> for Count {
    type Acc = i128;

    type Out = i64;

    open spec fn init_spec() -> i128 {
        0i128
    }

    open spec fn step_spec(acc: i128, payload: P, weight: i64) -> i128 {
        clamp128(acc + weight)
    }

    open spec fn finish_spec(acc: i128) -> i64 {
        clamp64(acc as int)
    }

    fn init() -> (r: i128) {
        0i128
    }

    fn step(acc: i128, payload: &P, weight: i64) -> (r: i128) {
        saturating_sum(acc, weight as i128)
    }

    fn finish(acc: &i128) -> (r: i64) {
        narrow(*acc)
    }
}

/// The sum of the payloads, each taken as often as its weight says.
/// Without rows the sum is zero.
pub struct Sum;

impl Aggregator<i64> for Sum {
    type Acc = i128;

    type Out = i64;

    open spec fn init_spec() -> i128 {
        0i128
    }

    open spec fn step_spec(acc: i128, payload: i64, weight: i64) -> i128 {
        clamp128(acc + payload * weight)
    }

    open spec fn finish_spec(acc: i128) -> i64 {
        clamp64(acc as int)
    }

    fn init() -> (r: i128) {
        0i128
    }

    fn step(acc: i128, payload: &i64, weight: i64) -> (r: i128) {
        saturating_sum(acc, wide_product(*payload, weight))
    }

    fn finish(acc: &i128) -> (r: i64) {
        narrow(*acc)
    }
}


/// The kernel of the aggregate operator: one row with the aggregate of the
/// rows of a partition and the weight one; nothing for no rows.
pub struct FoldKernel<V, A> {
    phantom: PhantomData<(V, A)>,
}

impl<V: DBData, A: Aggregator<V>> FoldKernel<V, A> {
    /// The kernel.
    pub fn new() -> (r: Self) {
        FoldKernel { phantom: PhantomData }
    }
}

impl<V: DBData, A: Aggregator<V>> PartitionKernel<V, A::Out> for FoldKernel<V, A> {
    open spec fn apply_spec(&self, rows: Seq<(V, i64)>) -> Seq<(A::Out, i64)> {
        if rows.len() == 0 {
            Seq::empty()
        } else {
            seq![(A::finish_spec(fold_rows::<V, A>(rows)), 1i64)]
        }
    }

    proof fn lemma_apply(&self, rows: Seq<(V, i64)>) {
        if rows.len() > 0 {
            lemma_consolidated_push(
                Seq::<(A::Out, i64)>::empty(),
                (A::finish_spec(fold_rows::<V, A>(rows)), 1i64),
            );
            assert(Seq::<(A::Out, i64)>::empty().push(
                (A::finish_spec(fold_rows::<V, A>(rows)), 1i64),
            ) =~= self.apply_spec(rows));
        }
    }

    fn apply(&self, rows: &Vec<(V, i64)>) -> (r: Vec<(A::Out, i64)>) {
        let mut r: Vec<(A::Out, i64)> = Vec::new();
        if rows.len() > 0 {
            let mut acc = A::init();
            let mut i: usize = 0;
            proof {
                assert(rows@.take(0) =~= Seq::<(V, i64)>::empty());
            }
            while i < rows.len()
                invariant
                    i <= rows.len(),
                    acc == fold_rows::<V, A>(rows@.take(i as int)),
                decreases rows.len() - i,
            {
                proof {
                    assert(rows@.take(i + 1).drop_last() =~= rows@.take(i as int));
                    assert(rows@.take(i + 1).last() == rows@[i as int]);
                }
                acc = A::step(acc, &rows[i].0, rows[i].1);
                i = i + 1;
            }
            proof {
                assert(rows@.take(rows.len() as int) =~= rows@);
            }
            r.push((A::finish(&acc), 1i64));
            proof {
                assert(r@ =~= self.apply_spec(rows@));
            }
        }
        r
    }
}

/// The aggregate of an indexed Z-set, maintained step by step: for each key
/// that has rows, the key with the aggregate of its rows, and the weight
/// one.  When the operator takes a change, it computes the aggregate anew
/// for each key that the change holds a row of, and emits the aggregate
/// that no longer holds with the inverse of its weight, and the new one.
pub type Aggregate<K, V, A> = Partitioned<K, V, <A as Aggregator<V>>::Out, FoldKernel<V, A>>;

/// An aggregate operator that has taken nothing.
pub fn aggregate<K: DBData, V: DBData, A: Aggregator<V>>() -> (r: Aggregate<K, V, A>)
    ensures
        r.wf(),
        r.input_integral().len() == 0,
        r.output_integral().len() == 0,
        !r.dirty_spec(),
{
    Partitioned::new(FoldKernel::new())
}

} // verus!
