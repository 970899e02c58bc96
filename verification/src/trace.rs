//! Traits and data structures representing a collection trace.
//!
//! A collection trace is a set of updates of the form `(key, val, time, diff)`,
//! which determine the contents of a collection at given times by accumulating
//! updates whose time field is less or equal to the target field.

use vstd::prelude::*;
use crate::time::{Antichain, Timestamp};
use crate::trace::consolidation::{
    is_consolidated,
    is_sum,
    lemma_weight_needs_item,
    lemma_weight_of_sorted_at,
    same_weights,
    weight_of,
};
use crate::error::SchedulerError;
use crate::trace::cursor::Cursor;
use crate::trace::spine_fueled::{all_wf, chain_ok, tuples_of};

pub mod consolidation;
pub mod cursor;
pub mod data;
pub mod from_cursor;
pub mod ord;
pub mod persistent;
pub mod spine_fueled;
pub mod unordered;
pub mod zset;

verus! {

/// Data stored in batches: values with a strict total order that agrees with
/// equality, and a way to copy them.
///
/// The order is given by `lt_spec`; the three lemmas state that it is a strict
/// total order.  The executable methods decide the order and equality and
/// produce an equal copy.
pub trait DBData: Sized + 'static {
    /// The strict order on values of this type.
    spec fn lt_spec(&self, other: &Self) -> bool;

    /// No value is below itself.
    proof fn lemma_lt_irreflexive(a: Self)
        ensures
            !a.lt_spec(&a),
    ;

    /// The order is transitive.
    proof fn lemma_lt_transitive(a: Self, b: Self, c: Self)
        ensures
            a.lt_spec(&b) && b.lt_spec(&c) ==> a.lt_spec(&c),
    ;

    /// Any two values are equal or ordered one way or the other.
    proof fn lemma_lt_total(a: Self, b: Self)
        ensures
            a.lt_spec(&b) || a == b || b.lt_spec(&a),
    ;

    /// Decides the order.
    fn less(&self, other: &Self) -> (r: bool)
        ensures
            r == self.lt_spec(other),
    ;

    /// Decides equality.
    fn same(&self, other: &Self) -> (r: bool)
        ensures
            r == (*self == *other),
    ;

    /// Returns an equal copy.
    fn dup(&self) -> (r: Self)
        ensures
            r == *self,
    ;

    /// The hash of the value, by which keys are assigned to workers.  It is
    /// a function of the value alone, so that equal keys go to one worker.
    spec fn hash_spec(&self) -> u64;

    /// Computes the hash of the value.
    fn hash_code(&self) -> (h: u64)
        ensures
            h == self.hash_spec(),
    ;
}

/// Data types used as weights: a commutative monoid.
///
/// `add_spec` is associative and commutative and `zero_spec()` is its neutral
/// element.  A tuple whose weight is zero is deemed absent.
pub trait DBWeight: DBData {
    /// The neutral element.
    spec fn zero_spec() -> Self;

    /// The sum of two weights.
    spec fn add_spec(&self, other: &Self) -> Self;

    /// Addition is associative.
    proof fn lemma_add_associative(a: Self, b: Self, c: Self)
        ensures
            a.add_spec(&b).add_spec(&c) == a.add_spec(&b.add_spec(&c)),
    ;

    /// Addition is commutative.
    proof fn lemma_add_commutative(a: Self, b: Self)
        ensures
            a.add_spec(&b) == b.add_spec(&a),
    ;

    /// Zero is neutral.
    proof fn lemma_add_zero(a: Self)
        ensures
            a.add_spec(&Self::zero_spec()) == a,
    ;

    /// Returns the neutral element.
    fn zero() -> (r: Self)
        ensures
            r == Self::zero_spec(),
    ;

    /// Tells whether a weight is the neutral element.
    fn is_zero(&self) -> (r: bool)
        ensures
            r == (*self == Self::zero_spec()),
    ;

    /// Adds two weights.
    fn add_by_ref(&self, other: &Self) -> (r: Self)
        ensures
            r == self.add_spec(other),
    ;
}

/// Data types used as logical timestamps: data that also forms a lattice.
pub trait DBTimestamp: DBData + Timestamp {

}

impl<T: DBData + Timestamp> DBTimestamp for T {

}


/// The `(key_val, weight)` pairs of `s`, each given the time `t`.
pub open spec fn at_time<KV, T, R>(s: Seq<(KV, R)>, t: T) -> Seq<((KV, T), R)> {
    Seq::new(s.len(), |i: int| ((s[i].0, t), s[i].1))
}

/// The tuples of `s` without their times.
pub open spec fn strip_time<KV, T, R>(s: Seq<((KV, T), R)>) -> Seq<(KV, R)> {
    Seq::new(s.len(), |i: int| (s[i].0.0, s[i].1))
}

/// The tuples of `s` with each time `t` replaced by its meet with `frontier`.
pub open spec fn receded<KV, T: Timestamp, R>(s: Seq<((KV, T), R)>, frontier: T) -> Seq<
    ((KV, T), R),
> {
    Seq::new(s.len(), |i: int| ((s[i].0.0, s[i].0.1.meet_spec(&frontier)), s[i].1))
}

/// A consolidated sequence that stands for the tuples of `s` with their
/// times pushed back to `frontier` holds only times at or below `frontier`.
pub proof fn lemma_receded_times<KV: DBData, T: DBTimestamp, R: DBWeight>(
    c: Seq<((KV, T), R)>,
    s: Seq<((KV, T), R)>,
    frontier: T,
)
    requires
        is_consolidated(c),
        same_weights(c, receded(s, frontier)),
    ensures
        forall|i: int| 0 <= i < c.len() ==> (#[trigger] c[i]).0.1.le_spec(&frontier),
{
    let m = receded(s, frontier);
    assert forall|i: int| 0 <= i < c.len() implies (#[trigger] c[i]).0.1.le_spec(&frontier) by {
        let x = c[i].0;
        lemma_weight_of_sorted_at(c, i);
        assert(weight_of(c, x) == weight_of(m, x));
        lemma_weight_needs_item(m, x);
        let j = choose|j: int| 0 <= j < m.len() && (#[trigger] m[j]).0 == x;
        T::lemma_meet_glb(s[j].0.1, frontier, frontier);
    }
}

/// Pushing the times back to a frontier twice gives what pushing them back
/// once gives: where `once` is the consolidated form of `s` with its times
/// pushed back to `frontier`, and `twice` that of `once` with its times
/// pushed back to `frontier`, the two are the same sequence.
pub proof fn lemma_recede_idempotent<KV: DBData, T: DBTimestamp, R: DBWeight>(
    s: Seq<((KV, T), R)>,
    once: Seq<((KV, T), R)>,
    twice: Seq<((KV, T), R)>,
    frontier: T,
)
    requires
        is_consolidated(once),
        same_weights(once, receded(s, frontier)),
        is_consolidated(twice),
        same_weights(twice, receded(once, frontier)),
    ensures
        twice == once,
{
    lemma_receded_times(once, s, frontier);
    assert forall|i: int| 0 <= i < once.len() implies (#[trigger] receded(once, frontier)[i])
        == once[i] by {
        let t = once[i].0.1;
        T::lemma_meet_glb(t, frontier, t);
        T::lemma_le_reflexive(t);
        T::lemma_le_antisymmetric(t.meet_spec(&frontier), t);
    }
    assert(receded(once, frontier) =~= once);
    crate::trace::consolidation::lemma_canonical(twice, once);
}

/// Pushing the times back to a frontier that no time exceeds changes
/// nothing.
pub proof fn lemma_recede_no_op<KV: DBData, T: DBTimestamp, R: DBWeight>(
    s: Seq<((KV, T), R)>,
    once: Seq<((KV, T), R)>,
    frontier: T,
)
    requires
        is_consolidated(s),
        forall|i: int| 0 <= i < s.len() ==> (#[trigger] s[i]).0.1.le_spec(&frontier),
        is_consolidated(once),
        same_weights(once, receded(s, frontier)),
    ensures
        once == s,
{
    assert forall|i: int| 0 <= i < s.len() implies (#[trigger] receded(s, frontier)[i]) == s[i] by {
        let t = s[i].0.1;
        T::lemma_meet_glb(t, frontier, t);
        T::lemma_le_reflexive(t);
        T::lemma_le_antisymmetric(t.meet_spec(&frontier), t);
    }
    assert(receded(s, frontier) =~= s);
    crate::trace::consolidation::lemma_canonical(once, s);
}

/// Every time in `s` is at or above some element of `lower` and not at or
/// above any element of `upper`.
pub open spec fn times_within<KV, T: DBTimestamp, R>(
    s: Seq<((KV, T), R)>,
    lower: Antichain<T>,
    upper: Antichain<T>,
) -> bool {
    forall|i: int|
        0 <= i < s.len() ==> lower.less_equal_spec((#[trigger] s[i]).0.1) && !upper.less_equal_spec(
            s[i].0.1,
        )
}

/// `lower` and `upper` are antichains that bound an interval: every element
/// of `upper` is at or above some element of `lower`.
pub open spec fn bounds_ok<T: DBTimestamp>(lower: Antichain<T>, upper: Antichain<T>) -> bool {
    lower.wf() && upper.wf() && upper.dominated_by_spec(&lower)
}

/// The bounds of a batch built at `time`: from `time` up to the time that
/// closes its interval, or without an end where there is none.
pub open spec fn bounds_at<T: DBTimestamp>(lower: Antichain<T>, upper: Antichain<T>, time: T) -> bool {
    lower@ == seq![time] && upper@ == match time.advance_spec() {
        Some(n) => seq![n],
        None => Seq::<T>::empty(),
    }
}

/// `lower` is at or below the times that `l1` or `l2` is at or below;
/// `upper` is at or below the times that both `u1` and `u2` are at or below:
/// the bounds of the union of two intervals.
pub open spec fn bounds_union<T: DBTimestamp>(
    lower: Antichain<T>,
    upper: Antichain<T>,
    l1: Antichain<T>,
    u1: Antichain<T>,
    l2: Antichain<T>,
    u2: Antichain<T>,
) -> bool {
    &&& forall|t: T| #[trigger]
        lower.less_equal_spec(t) == (l1.less_equal_spec(t) || l2.less_equal_spec(t))
    &&& forall|t: T| #[trigger]
        upper.less_equal_spec(t) == (u1.less_equal_spec(t) && u2.less_equal_spec(t))
}

/// `lower` is at or below the times that the meet of `frontier` with some
/// element of `old_lower` is at or below.
pub open spec fn lower_receded<T: DBTimestamp>(
    lower: Antichain<T>,
    old_lower: Antichain<T>,
    frontier: T,
) -> bool {
    forall|t: T| #[trigger]
        lower.less_equal_spec(t) == (exists|i: int|
            0 <= i < old_lower@.len() && (#[trigger] old_lower@[i]).meet_spec(&frontier).le_spec(&t))
}

/// `n` as a `usize`, or the largest `usize` where `n` is beyond it.
pub open spec fn saturated(n: int) -> usize {
    if n <= usize::MAX {
        n as usize
    } else {
        usize::MAX
    }
}

/// The number of distinct keys of a sorted sequence of tuples: the number of
/// indices at which a key differs from the one before.
pub open spec fn distinct_keys<K, V, T, R>(s: Seq<(((K, V), T), R)>) -> nat
    decreases s.len(),
{
    if s.len() == 0 {
        0
    } else if s.len() == 1 || s[s.len() - 2].0.0.0 != s[s.len() - 1].0.0.0 {
        distinct_keys(s.drop_last()) + 1
    } else {
        distinct_keys(s.drop_last())
    }
}

/// A batch of updates whose contents may be read.
///
/// `tuples` is what the reader holds.  For a batch it is consolidated; a
/// trace holds the tuples of its batches one after the other, and its cursor
/// shows their consolidated sum.
pub trait BatchReader: Sized + 'static {
    /// Key by which updates are indexed.
    type Key: DBData;

    /// Values associated with keys.
    type Val: DBData;

    /// Timestamps associated with updates.
    type Time: DBTimestamp;

    /// Weights of updates.
    type R: DBWeight;

    /// The type used to enumerate the contents.
    type Cursor<'s>: Cursor<'s, Self::Key, Self::Val, Self::Time, Self::R> where Self: 's;

    /// The reader is in a valid state.
    spec fn wf(&self) -> bool;

    /// The tuples that the reader holds.
    spec fn tuples(&self) -> Seq<(((Self::Key, Self::Val), Self::Time), Self::R)>;

    /// The number of keys that `key_count` reports.
    spec fn key_count_spec(&self) -> nat;

    /// The lower bound of the times of the reader.
    spec fn lower_spec(&self) -> Antichain<Self::Time>;

    /// The upper bound of the times of the reader.
    spec fn upper_spec(&self) -> Antichain<Self::Time>;

    /// The bounds of a valid reader are antichains that bound an interval,
    /// and its times lie in that interval.
    proof fn lemma_reader_wf(&self)
        requires
            self.wf(),
        ensures
            bounds_ok(self.lower_spec(), self.upper_spec()),
            times_within(self.tuples(), self.lower_spec(), self.upper_spec()),
    ;

    /// Acquires a cursor over the consolidated contents, placed on the first
    /// key and its first value, that shows all times.
    fn cursor(&self) -> (c: Self::Cursor<'_>)
        requires
            self.wf(),
        ensures
            c.wf(),
            is_consolidated(c.storage()),
            same_weights(c.storage(), self.tuples()),
            c.key_pos() == 0,
            c.val_pos() == 0,
            c.clip() is None,
    ;

    /// The number of keys.
    fn key_count(&self) -> (r: usize)
        requires
            self.wf(),
        ensures
            r == saturated(self.key_count_spec() as int),
    ;

    /// The number of updates.
    fn len(&self) -> (r: usize)
        requires
            self.wf(),
        ensures
            r == saturated(self.tuples().len() as int),
    ;

    /// True if the reader holds no update.
    fn is_empty(&self) -> (r: bool)
        requires
            self.wf(),
        ensures
            r == (self.tuples().len() == 0),
    {
        self.len() == 0
    }

    /// All times are at or above an element of `lower`.
    fn lower(&self) -> (r: &Antichain<Self::Time>)
        requires
            self.wf(),
        ensures
            *r == self.lower_spec(),
    ;

    /// No time is at or above an element of `upper`.
    fn upper(&self) -> (r: &Antichain<Self::Time>)
        requires
            self.wf(),
        ensures
            *r == self.upper_spec(),
    ;
}

/// Functionality for collecting and batching updates.
///
/// A batcher takes unordered vectors of weighted items and keeps their
/// consolidated sum, `buffered`, keyed by `(key, val)`.
pub trait Batcher<I, T: DBTimestamp, R: DBWeight, Output: BatchReader<Time = T, R = R>>: Sized {
    /// The key and value that an item stands for.
    spec fn key_val_of(item: I) -> (Output::Key, Output::Val);

    /// The batcher is in a valid state.
    spec fn wf(&self) -> bool;

    /// The time that the tuples of the output batch get.
    spec fn time(&self) -> T;

    /// The consolidated sum of what was pushed.
    spec fn buffered(&self) -> Seq<((Output::Key, Output::Val), R)>;

    /// Allocates a new empty batcher.  All tuples of its output batch will
    /// have the timestamp `time`.
    fn new_batcher(time: T) -> (b: Self)
        ensures
            b.wf(),
            b.time() == time,
            b.buffered() == Seq::<((Output::Key, Output::Val), R)>::empty(),
    ;

    /// Adds an unordered vector of weighted items, and leaves the vector
    /// empty.
    fn push_batch(&mut self, batch: &mut Vec<(I, R)>)
        requires
            old(self).wf(),
        ensures
            final(self).wf(),
            final(self).time() == old(self).time(),
            final(batch)@.len() == 0,
            is_consolidated(final(self).buffered()),
            is_sum(
                final(self).buffered(),
                old(self).buffered(),
                Seq::new(
                    old(batch)@.len(),
                    |i: int| (Self::key_val_of(old(batch)@[i].0), old(batch)@[i].1),
                ),
            ),
    ;

    /// Adds a vector of weighted items that is consolidated already, and
    /// leaves the vector empty.
    fn push_consolidated_batch(&mut self, batch: &mut Vec<(I, R)>)
        requires
            old(self).wf(),
            is_consolidated(
                Seq::new(
                    old(batch)@.len(),
                    |i: int| (Self::key_val_of(old(batch)@[i].0), old(batch)@[i].1),
                ),
            ),
        ensures
            final(self).wf(),
            final(self).time() == old(self).time(),
            final(batch)@.len() == 0,
            is_consolidated(final(self).buffered()),
            is_sum(
                final(self).buffered(),
                old(self).buffered(),
                Seq::new(
                    old(batch)@.len(),
                    |i: int| (Self::key_val_of(old(batch)@[i].0), old(batch)@[i].1),
                ),
            ),
    ;

    /// The number of tuples in the batcher.
    fn tuples(&self) -> (r: usize)
        requires
            self.wf(),
        ensures
            r == self.buffered().len(),
    ;

    /// Completes the batch: its tuples are the buffered pairs at the time of
    /// the batcher.
    fn seal(self) -> (r: Output)
        requires
            self.wf(),
        ensures
            r.wf(),
            is_consolidated(self.buffered()),
            r.tuples() == at_time(self.buffered(), self.time()),
            bounds_at(r.lower_spec(), r.upper_spec(), self.time()),
    ;
}

/// Functionality for building batches from ordered update sequences.
///
/// `pushed` is what the builder holds, keyed by `(key, val)`; it is
/// consolidated, so each element pushed has a weight other than zero and a
/// key and value above those of the element before.
pub trait Builder<I, T: DBTimestamp, R: DBWeight, Output: BatchReader<Time = T, R = R>>: Sized {
    /// The key and value that an item stands for.
    spec fn key_val_of(item: I) -> (Output::Key, Output::Val);

    /// The builder is in a valid state.
    spec fn wf(&self) -> bool;

    /// The time that the tuples of the output batch get.
    spec fn time(&self) -> T;

    /// The pairs pushed so far.
    spec fn pushed(&self) -> Seq<((Output::Key, Output::Val), R)>;

    /// The pairs of a valid builder are consolidated.
    proof fn lemma_builder_wf(&self)
        requires
            self.wf(),
        ensures
            is_consolidated(self.pushed()),
    ;

    /// Allocates an empty builder.  All tuples of its output batch will have
    /// the timestamp `time`.
    fn new_builder(time: T) -> (b: Self)
        ensures
            b.wf(),
            b.time() == time,
            b.pushed() == Seq::<((Output::Key, Output::Val), R)>::empty(),
    ;

    /// Allocates an empty builder with room for `cap` elements.
    fn with_capacity(time: T, cap: usize) -> (b: Self)
        ensures
            b.wf(),
            b.time() == time,
            b.pushed() == Seq::<((Output::Key, Output::Val), R)>::empty(),
    ;

    /// Tells whether `element` may be pushed: its weight is not zero and its
    /// key and value are above those of the last element pushed.
    fn accepts(&self, element: &(I, R)) -> (r: bool)
        requires
            self.wf(),
        ensures
            r == is_consolidated(self.pushed().push((Self::key_val_of(element.0), element.1))),
    ;

    /// Adds an element to the batch.
    fn push(&mut self, element: (I, R))
        requires
            old(self).wf(),
            is_consolidated(old(self).pushed().push((Self::key_val_of(element.0), element.1))),
        ensures
            final(self).wf(),
            final(self).time() == old(self).time(),
            final(self).pushed() == old(self).pushed().push(
                (Self::key_val_of(element.0), element.1),
            ),
    ;

    /// Makes room for `additional` more elements.
    fn reserve(&mut self, additional: usize)
        requires
            old(self).wf(),
        ensures
            final(self).wf(),
            final(self).time() == old(self).time(),
            final(self).pushed() == old(self).pushed(),
    ;

    /// Adds an ordered sequence of elements to the batch, after making room
    /// for them.
    fn extend(&mut self, items: Vec<(I, R)>)
        requires
            old(self).wf(),
            is_consolidated(
                old(self).pushed() + Seq::new(
                    items@.len(),
                    |i: int| (Self::key_val_of(items@[i].0), items@[i].1),
                ),
            ),
        ensures
            final(self).wf(),
            final(self).time() == old(self).time(),
            final(self).pushed() == old(self).pushed() + Seq::new(
                items@.len(),
                |i: int| (Self::key_val_of(items@[i].0), items@[i].1),
            ),
    {
        let ghost given = items@;
        let ghost before = self.pushed();
        let ghost keyed = Seq::new(
            given.len(),
            |i: int| (Self::key_val_of(given[i].0), given[i].1),
        );
        let total = items.len();
        self.reserve(total);
        let mut rest = items;
        let mut reversed: Vec<(I, R)> = Vec::new();
        while rest.len() > 0
            invariant
                rest@.len() + reversed@.len() == given.len(),
                rest@ == given.take(rest@.len() as int),
                forall|j: int|
                    0 <= j < reversed@.len() ==> #[trigger] reversed@[j] == given[given.len() - 1
                        - j],
            decreases rest@.len(),
        {
            let e = rest.pop().unwrap();
            reversed.push(e);
        }
        let mut n: usize = 0;
        proof {
            assert(before + keyed.take(0) =~= before);
        }
        while reversed.len() > 0
            invariant
                self.wf(),
                self.time() == old(self).time(),
                given.len() == total,
                n + reversed@.len() == given.len(),
                forall|j: int|
                    0 <= j < reversed@.len() ==> #[trigger] reversed@[j] == given[given.len() - 1
                        - j],
                keyed == Seq::new(given.len(), |i: int| (Self::key_val_of(given[i].0), given[i].1)),
                is_consolidated(before + keyed),
                self.pushed() == before + keyed.take(n as int),
            decreases reversed@.len(),
        {
            let e = reversed.pop().unwrap();
            proof {
                assert(e == given[n as int]);
                let next = before + keyed.take(n + 1);
                assert(next =~= (before + keyed.take(n as int)).push(
                    (Self::key_val_of(e.0), e.1),
                ));
                assert(next =~= (before + keyed).take(before.len() + n + 1));
                consolidation::lemma_consolidated_prefix(before + keyed, before.len() + n + 1);
            }
            self.push(e);
            n = n + 1;
        }
        proof {
            assert(keyed.take(given.len() as int) =~= keyed);
        }
    }

    /// Completes building and returns the batch: its tuples are the pushed
    /// pairs at the time of the builder.
    fn done(self) -> (r: Output)
        requires
            self.wf(),
        ensures
            r.wf(),
            r.tuples() == at_time(self.pushed(), self.time()),
            bounds_at(r.lower_spec(), r.upper_spec(), self.time()),
    ;
}

/// Represents a merge in progress.
///
/// A merger remembers the two batches that it merges.  `remaining` counts the
/// source tuples that are left to merge.
pub trait Merger<K: DBData, V: DBData, T: DBTimestamp, R: DBWeight, Output: BatchReader<Key = K, Val = V, Time = T, R = R>>:
    Sized {
    /// The merger is in a valid state.
    spec fn wf(&self) -> bool;

    /// The first batch of the merge.
    spec fn source1(&self) -> Output;

    /// The second batch of the merge.
    spec fn source2(&self) -> Output;

    /// The number of source tuples left to merge.
    spec fn remaining(&self) -> nat;

    /// Creates a new merger to merge the supplied batches.
    fn new_merger(source1: &Output, source2: &Output) -> (m: Self)
        requires
            source1.wf(),
            source2.wf(),
            is_consolidated(source1.tuples()),
            is_consolidated(source2.tuples()),
        ensures
            m.wf(),
            m.source1() == *source1,
            m.source2() == *source2,
            m.remaining() == source1.tuples().len() + source2.tuples().len(),
    ;

    /// Performs merge steps while fuel is left, taking one unit of fuel for
    /// each step.  A step merges one source tuple, or two equal ones.
    ///
    /// With no fuel nothing happens.  Fuel that is left over shows that the
    /// merge is complete.
    fn work(&mut self, source1: &Output, source2: &Output, fuel: &mut isize)
        requires
            old(self).wf(),
            *source1 == old(self).source1(),
            *source2 == old(self).source2(),
        ensures
            final(self).wf(),
            final(self).source1() == old(self).source1(),
            final(self).source2() == old(self).source2(),
            *old(fuel) <= 0 ==> *final(fuel) == *old(fuel) && final(self).remaining() == old(
                self,
            ).remaining(),
            *old(fuel) > 0 ==> 0 <= *final(fuel) <= *old(fuel),
            *old(fuel) > 0 ==> final(self).remaining() <= old(self).remaining() - (*old(fuel)
                - *final(fuel)),
            *old(fuel) > 0 ==> final(self).remaining() >= old(self).remaining() - 2 * (*old(fuel)
                - *final(fuel)),
            *final(fuel) > 0 ==> final(self).remaining() == 0,
    ;

    /// Extracts the merged batch: the consolidated sum of the two sources,
    /// over the union of their intervals.
    fn done(self) -> (r: Output)
        requires
            self.wf(),
            self.remaining() == 0,
        ensures
            r.wf(),
            is_consolidated(r.tuples()),
            is_sum(r.tuples(), self.source1().tuples(), self.source2().tuples()),
            bounds_union(
                r.lower_spec(),
                r.upper_spec(),
                self.source1().lower_spec(),
                self.source1().upper_spec(),
                self.source2().lower_spec(),
                self.source2().upper_spec(),
            ),
    ;
}

/// An immutable collection of updates.
pub trait Batch: BatchReader + Clone {
    /// Items used to assemble the batch: a key, where the values are `()`,
    /// or a `(key, val)` pair.
    type Item;

    /// A type used to assemble batches from disordered updates.
    type Batcher: Batcher<Self::Item, Self::Time, Self::R, Self>;

    /// A type used to assemble batches from ordered update sequences.
    type Builder: Builder<Self::Item, Self::Time, Self::R, Self>;

    /// A type used to progressively merge batches.
    type Merger: Merger<Self::Key, Self::Val, Self::Time, Self::R, Self>;

    /// The tuples of a valid batch are consolidated.
    proof fn lemma_batch_wf(&self)
        requires
            self.wf(),
        ensures
            is_consolidated(self.tuples()),
    ;

    /// Create an item from a `(key, value)` pair.
    fn item_from(key: Self::Key, val: Self::Val) -> (r: Self::Item)
        ensures
            <Self::Batcher as Batcher<Self::Item, Self::Time, Self::R, Self>>::key_val_of(r) == (
                key,
                val,
            ),
            <Self::Builder as Builder<Self::Item, Self::Time, Self::R, Self>>::key_val_of(r) == (
                key,
                val,
            ),
    ;

    /// Assemble an unordered vector of weighted items into a batch: the
    /// consolidated sum of the items, each at the time `time`.
    fn from_tuples(time: Self::Time, tuples: Vec<(Self::Item, Self::R)>) -> (r: Self)
        ensures
            r.wf(),
            r.tuples() == at_time(strip_time(r.tuples()), time),
            is_consolidated(strip_time(r.tuples())),
            same_weights(
                strip_time(r.tuples()),
                Seq::new(
                    tuples@.len(),
                    |i: int|
                        (
                            <Self::Batcher as Batcher<
                                Self::Item,
                                Self::Time,
                                Self::R,
                                Self,
                            >>::key_val_of(tuples@[i].0),
                            tuples@[i].1,
                        ),
                ),
            ),
            bounds_at(r.lower_spec(), r.upper_spec(), time),
    {
        let mut tuples = tuples;
        let ghost items = Seq::new(
            tuples@.len(),
            |i: int|
                (
                    <Self::Batcher as Batcher<Self::Item, Self::Time, Self::R, Self>>::key_val_of(
                        tuples@[i].0,
                    ),
                    tuples@[i].1,
                ),
        );
        let mut batcher = Self::Batcher::new_batcher(time);
        batcher.push_batch(&mut tuples);
        let ghost buffered = batcher.buffered();
        let r = batcher.seal();
        proof {
            assert(strip_time(r.tuples()) =~= buffered);
            assert forall|x: (Self::Key, Self::Val)| #[trigger]
                consolidation::weight_of(buffered, x) == consolidation::weight_of(items, x) by {
                consolidation::lemma_zero_add(consolidation::weight_of(items, x));
            }
        }
        r
    }

    /// Initiates the merging of two batches.
    ///
    /// The result can be exercised to produce, in measured steps, the batch
    /// that `self.merge(other)` produces.
    fn begin_merge(&self, other: &Self) -> (m: Self::Merger)
        requires
            self.wf(),
            other.wf(),
        ensures
            m.wf(),
            m.source1() == *self,
            m.source2() == *other,
            m.remaining() == self.tuples().len() + other.tuples().len(),
    {
        proof {
            self.lemma_batch_wf();
            other.lemma_batch_wf();
        }
        Self::Merger::new_merger(self, other)
    }

    /// Merges `self` with `other` by running a merger to completion.
    fn merge(&self, other: &Self) -> (r: Self)
        requires
            self.wf(),
            other.wf(),
        ensures
            r.wf(),
            is_consolidated(r.tuples()),
            is_sum(r.tuples(), self.tuples(), other.tuples()),
            bounds_union(
                r.lower_spec(),
                r.upper_spec(),
                self.lower_spec(),
                self.upper_spec(),
                other.lower_spec(),
                other.upper_spec(),
            ),
    {
        proof {
            self.lemma_batch_wf();
            other.lemma_batch_wf();
        }
        let mut fuel = isize::MAX;
        let mut merger = Self::Merger::new_merger(self, other);
        merger.work(self, other, &mut fuel);
        while fuel == 0
            invariant
                merger.wf(),
                merger.source1() == *self,
                merger.source2() == *other,
                fuel > 0 ==> merger.remaining() == 0,
                fuel >= 0,
            decreases merger.remaining() + (if fuel == 0 { 1nat } else { 0nat }),
        {
            fuel = isize::MAX;
            merger.work(self, other, &mut fuel);
        }
        merger.done()
    }

    /// Creates an empty batch.
    fn empty(time: Self::Time) -> (r: Self)
        ensures
            r.wf(),
            r.tuples().len() == 0,
            bounds_at(r.lower_spec(), r.upper_spec(), time),
    {
        Self::Builder::new_builder(time).done()
    }

    /// Push all timestamps in the batch back to `frontier`: each time `t`
    /// becomes `t.meet(frontier)`, and tuples that then have the same key,
    /// value and time become one, unless their weights add up to zero.
    fn recede_to(&mut self, frontier: &Self::Time)
        requires
            old(self).wf(),
        ensures
            final(self).wf(),
            is_consolidated(final(self).tuples()),
            same_weights(final(self).tuples(), receded(old(self).tuples(), *frontier)),
            forall|i: int|
                0 <= i < final(self).tuples().len() ==> (#[trigger] final(self).tuples()[i]).0.1.le_spec(
                    frontier,
                ),
            final(self).upper_spec() == old(self).upper_spec(),
            lower_receded(final(self).lower_spec(), old(self).lower_spec(), *frontier),
    ;
}


/// An append-only collection of `(key, val, time, diff)` tuples, kept as a
/// sequence of batches over contiguous intervals.
///
/// The tuples of a trace are those of its resident batches, one batch after
/// the other; the trace stands for their sum.  `frontier_spec` is the lower
/// bound that the next batch must have.
pub trait Trace: BatchReader {
    /// The type of an immutable collection of updates.
    type Batch: Batch<Key = Self::Key, Val = Self::Val, Time = Self::Time, R = Self::R>;

    /// The resident batches, from the oldest to the newest.
    spec fn batches(&self) -> Seq<Self::Batch>;

    /// The lower bound that the next batch must have.
    spec fn frontier_spec(&self) -> Antichain<Self::Time>;

    /// The value of the dirty flag.
    spec fn dirty_spec(&self) -> bool;

    /// The number of source tuples that the merges in progress have left to
    /// merge.
    spec fn merge_work(&self) -> nat;

    /// The tuples of a valid trace are those of its batches, which are
    /// valid and lie over contiguous intervals that end at the frontier.
    proof fn lemma_trace_wf(&self)
        requires
            self.wf(),
        ensures
            self.tuples() == tuples_of(self.batches()),
            all_wf(self.batches()),
            chain_ok(self.batches(), self.frontier_spec()),
            self.frontier_spec()@.len() > 0,
    ;

    /// Allocates a new empty trace, whose first batch must start at the
    /// least time.
    fn new() -> (r: Self)
        ensures
            r.wf(),
            r.batches().len() == 0,
            !r.dirty_spec(),
            r.frontier_spec()@ == seq![Self::Time::minimum_spec()],
    ;

    /// Push all timestamps in the trace back to `frontier`: each time `t`
    /// becomes `t.meet(frontier)`, and the trace is consolidated into one
    /// batch, in which tuples that then have the same key, value and time
    /// are one.
    fn recede_to(&mut self, frontier: &Self::Time)
        requires
            old(self).wf(),
        ensures
            final(self).wf(),
            final(self).batches().len() <= 1,
            is_consolidated(final(self).tuples()),
            same_weights(final(self).tuples(), receded(old(self).tuples(), *frontier)),
            forall|i: int|
                0 <= i < final(self).tuples().len() ==> (#[trigger] final(self).tuples()[i]).0.1.le_spec(
                    frontier,
                ),
            final(self).upper_spec() == old(self).upper_spec(),
            final(self).frontier_spec() == old(self).frontier_spec(),
            final(self).dirty_spec() == old(self).dirty_spec(),
    ;

    /// Exert merge effort: performs merge steps while fuel is left, taking
    /// one unit of fuel for each step.  A step merges one source tuple, or
    /// two equal ones, so the work that is left goes down by at least the
    /// fuel spent and at most twice as much.  The trace stands for the same
    /// sum before and after.
    ///
    /// With no fuel nothing happens.  Fuel that is left over shows that no
    /// merge has work left.
    fn exert(&mut self, effort: &mut isize)
        requires
            old(self).wf(),
        ensures
            final(self).wf(),
            same_weights(final(self).tuples(), old(self).tuples()),
            final(self).lower_spec() == old(self).lower_spec(),
            final(self).upper_spec() == old(self).upper_spec(),
            final(self).frontier_spec() == old(self).frontier_spec(),
            final(self).dirty_spec() == old(self).dirty_spec(),
            *old(effort) <= 0 ==> *final(effort) == *old(effort) && final(self).batches() == old(
                self,
            ).batches(),
            *old(effort) > 0 ==> 0 <= *final(effort) <= *old(effort),
            *old(effort) > 0 ==> final(self).merge_work() <= old(self).merge_work() - (*old(effort)
                - *final(effort)),
            *old(effort) > 0 ==> final(self).merge_work() >= old(self).merge_work() - 2 * (*old(
                effort,
            ) - *final(effort)),
            *final(effort) > 0 ==> final(self).merge_work() == 0,
    ;

    /// Merge all updates in a trace into a single batch; `None` where the
    /// trace holds no batch.
    fn consolidate(self) -> (r: Option<Self::Batch>)
        requires
            self.wf(),
        ensures
            r is None <==> self.batches().len() == 0,
            r matches Some(b) ==> {
                &&& b.wf()
                &&& is_consolidated(b.tuples())
                &&& same_weights(b.tuples(), self.tuples())
                &&& b.lower_spec().same_spec(&self.lower_spec())
                &&& b.upper_spec().same_spec(&self.upper_spec())
            },
    ;

    /// Introduces a batch of updates to the trace.
    ///
    /// The lower bound of the batch must be the frontier of the trace:
    /// the upper bound of the newest batch that has one, or the least time.
    /// A batch that starts elsewhere is refused and the trace stays as it
    /// is.  A batch that holds a tuple sets the dirty flag.
    fn insert(&mut self, batch: Self::Batch) -> (r: Result<(), SchedulerError>)
        requires
            old(self).wf(),
            batch.wf(),
        ensures
            final(self).wf(),
            r is Ok <==> batch.lower_spec().same_spec(&old(self).frontier_spec()),
            r matches Err(e) ==> e == SchedulerError::NonContiguousBatch && final(self).batches()
                == old(self).batches() && final(self).upper_spec() == old(self).upper_spec()
                && final(self).frontier_spec() == old(self).frontier_spec() && final(self).dirty_spec() == old(self).dirty_spec(),
            r is Ok ==> {
                &&& is_sum(final(self).tuples(), old(self).tuples(), batch.tuples())
                &&& final(self).dirty_spec() == (old(self).dirty_spec() || batch.tuples().len() > 0)
                &&& forall|t: Self::Time| #[trigger]
                    final(self).upper_spec().less_equal_spec(t) == (old(
                        self,
                    ).upper_spec().less_equal_spec(t) && batch.upper_spec().less_equal_spec(t))
                &&& final(self).frontier_spec()@ == if batch.upper_spec()@.len() > 0 {
                    batch.upper_spec()@
                } else {
                    old(self).frontier_spec()@
                }
            },
    ;

    /// Clears the value of the "dirty" flag to `false`.
    ///
    /// Pushing a non-empty batch to the trace sets the flag to `true`;
    /// `dirty` tells whether that has happened since the last call of
    /// `clear_dirty_flag`.
    fn clear_dirty_flag(&mut self)
        requires
            old(self).wf(),
        ensures
            final(self).wf(),
            !final(self).dirty_spec(),
            final(self).batches() == old(self).batches(),
            final(self).tuples() == old(self).tuples(),
            final(self).lower_spec() == old(self).lower_spec(),
            final(self).upper_spec() == old(self).upper_spec(),
            final(self).frontier_spec() == old(self).frontier_spec(),
    ;

    /// Returns the value of the dirty flag.
    fn dirty(&self) -> (r: bool)
        requires
            self.wf(),
        ensures
            r == self.dirty_spec(),
    ;
}


/// A batch of updates whose contents may be read in no particular order.
///
/// `contents` is what the reader holds; it need not be sorted, and a key,
/// value and time may occur more than once in it.
pub trait UnorderedBatchReader: Sized + 'static {
    /// Key by which updates are indexed.
    type Key: DBData;

    /// Values associated with keys.
    type Val: DBData;

    /// Timestamps associated with updates.
    type Time: DBTimestamp;

    /// Weights of updates.
    type R: DBWeight;

    /// The reader is in a valid state.
    spec fn valid(&self) -> bool;

    /// The tuples that the reader holds, in the order in which it hands them
    /// out.
    spec fn contents(&self) -> Seq<(((Self::Key, Self::Val), Self::Time), Self::R)>;

    /// The lower bound of the times of the reader.
    spec fn unordered_lower(&self) -> Antichain<Self::Time>;

    /// The upper bound of the times of the reader.
    spec fn unordered_upper(&self) -> Antichain<Self::Time>;

    /// The times of a valid reader lie between its bounds.
    proof fn lemma_unordered_valid(&self)
        requires
            self.valid(),
        ensures
            bounds_ok(self.unordered_lower(), self.unordered_upper()),
            times_within(self.contents(), self.unordered_lower(), self.unordered_upper()),
    ;

    /// The tuples of the reader.
    fn unordered_tuples(&self) -> (r: Vec<(((Self::Key, Self::Val), Self::Time), Self::R)>)
        requires
            self.valid(),
        ensures
            r@ == self.contents(),
    ;

    /// Bounds on the number of keys: at least the first number, and at most
    /// the second one where there is one.
    fn key_count(&self) -> (r: (usize, Option<usize>))
        requires
            self.valid(),
        ensures
            r.0 <= cursor::keys_of(self.contents()).to_set().len(),
            r.1 matches Some(most) ==> cursor::keys_of(self.contents()).to_set().len() <= most,
    ;

    /// The number of updates.
    fn len(&self) -> (r: usize)
        requires
            self.valid(),
        ensures
            r == saturated(self.contents().len() as int),
    ;

    /// Returns `true` if the reader holds no update.
    fn is_empty(&self) -> (r: bool)
        requires
            self.valid(),
        ensures
            r == (self.contents().len() == 0),
    {
        self.len() == 0
    }

    /// All times are at or above an element of `lower`.
    fn lower(&self) -> (r: &Antichain<Self::Time>)
        requires
            self.valid(),
        ensures
            *r == self.unordered_lower(),
    ;

    /// No time is at or above an element of `upper`.
    fn upper(&self) -> (r: &Antichain<Self::Time>)
        requires
            self.valid(),
        ensures
            *r == self.unordered_upper(),
    ;
}

} // verus!
