//! A trace kept as a log-structured merge of batches, merged step by step
//! under a fuel budget.
//!
//! The spine holds its batches in levels.  Level 0 takes the batches that are
//! inserted; a level holds at most two batches, and two batches in a level
//! are being merged into one batch for the level above.  Merging proceeds as
//! fuel allows.  The two source batches of a merge stay in place until a
//! batch is carried into their level: the merge is then run to its end and
//! its result moves to the level above.  A reader sees either the two
//! sources or the merged batch, never a part of a merge.
//!
//! A cursor over the spine merges the resident batches when it is made.

use vstd::prelude::*;
use crate::error::SchedulerError;
use crate::time::{Antichain, Timestamp};
use crate::trace::consolidation::{
    is_consolidated,
    is_sum,
    lemma_weight_of_concat,
    merge_vecs,
    same_weights,
    weight_of,
};
use crate::trace::cursor::{collect_tuples, Cursor};
use crate::trace::ord::OwnedCursor;
use crate::trace::{
    bounds_union,
    lemma_receded_times,
    lower_receded,
    receded,
    saturated,
    Batch,
    BatchReader,
    DBData,
    DBTimestamp,
    DBWeight,
    Merger,
    Trace,
};

verus! {

/// One level of the spine.
pub enum Level<B: Batch> {
    /// The level holds no batch.
    Vacant,
    /// The level holds one batch.
    Single(B),
    /// The level holds two batches, the older one first, and the merge of
    /// the two.
    Merging(B, B, B::Merger),
}

/// The batches of a level, the older one first.
pub open spec fn level_batches<B: Batch>(l: Level<B>) -> Seq<B> {
    match l {
        Level::Vacant => Seq::empty(),
        Level::Single(b) => seq![b],
        Level::Merging(a, b, _) => seq![a, b],
    }
}

/// The batches of a level are valid, and its merger merges them.
pub open spec fn level_ok<B: Batch>(l: Level<B>) -> bool {
    match l {
        Level::Vacant => true,
        Level::Single(b) => b.wf(),
        Level::Merging(a, b, m) => a.wf() && b.wf() && m.wf() && m.source1() == a && m.source2()
            == b,
    }
}

/// The number of source tuples that the merge of a level has left to merge.
pub open spec fn level_work<B: Batch>(l: Level<B>) -> nat {
    match l {
        Level::Merging(_, _, m) => m.remaining(),
        _ => 0,
    }
}

/// The batches of the levels, from the oldest to the newest.  The last level
/// holds the oldest batches.
pub open spec fn batches_of<B: Batch>(levels: Seq<Level<B>>) -> Seq<B>
    decreases levels.len(),
{
    if levels.len() == 0 {
        Seq::empty()
    } else {
        level_batches(levels.last()) + batches_of(levels.drop_last())
    }
}

/// The tuples of the batches, one batch after the other.
pub open spec fn tuples_of<B: BatchReader>(bs: Seq<B>) -> Seq<
    (((B::Key, B::Val), B::Time), B::R),
>
    decreases bs.len(),
{
    if bs.len() == 0 {
        Seq::empty()
    } else {
        tuples_of(bs.drop_last()) + bs.last().tuples()
    }
}

/// The interval from `lower` to `upper` is followed by one that starts at
/// `next`: `next` is not below `lower`, and `upper` is `next` unless the
/// interval has no end.
#[verifier::opaque]
pub open spec fn follows<T: DBTimestamp>(lower: Antichain<T>, upper: Antichain<T>, next: Antichain<T>) -> bool {
    &&& forall|t: T| #[trigger] next.less_equal_spec(t) ==> lower.less_equal_spec(t)
    &&& {
        ||| forall|t: T| !#[trigger] upper.less_equal_spec(t)
        ||| forall|t: T| #[trigger] upper.less_equal_spec(t) == next.less_equal_spec(t)
    }
}

/// The lower bound of the batch after the one at `i`, or `frontier` after
/// the last one.
pub open spec fn next_lower<B: BatchReader>(bs: Seq<B>, frontier: Antichain<B::Time>, i: int) -> Antichain<
    B::Time,
> {
    if i + 1 < bs.len() {
        bs[i + 1].lower_spec()
    } else {
        frontier
    }
}

/// The intervals of the batches are contiguous: the first one starts at the
/// least time, each is followed by the next one, and the last one by
/// `frontier`.  Without batches `frontier` is the least time.
pub open spec fn chain_ok<B: BatchReader>(bs: Seq<B>, frontier: Antichain<B::Time>) -> bool {
    &&& forall|i: int|
        0 <= i < bs.len() ==> follows(
            bs[i].lower_spec(),
            bs[i].upper_spec(),
            #[trigger] next_lower(bs, frontier, i),
        )
    &&& next_lower(bs, frontier, -1).less_equal_spec(B::Time::minimum_spec())
}

/// Every batch is valid.
pub open spec fn all_wf<B: BatchReader>(bs: Seq<B>) -> bool {
    forall|i: int| 0 <= i < bs.len() ==> (#[trigger] bs[i]).wf()
}

/// The upper bound of every batch is at or below `t`.
pub open spec fn uppers_all<B: BatchReader>(bs: Seq<B>, t: B::Time) -> bool {
    forall|i: int| 0 <= i < bs.len() ==> (#[trigger] bs[i]).upper_spec().less_equal_spec(t)
}

/// The batches of the levels split at any level.
pub proof fn lemma_batches_split<B: Batch>(levels: Seq<Level<B>>, k: int)
    requires
        0 <= k < levels.len(),
    ensures
        batches_of(levels) == batches_of(levels.skip(k + 1)) + level_batches(levels[k]) + batches_of(
            levels.take(k),
        ),
    decreases levels.len(),
{
    if k == levels.len() - 1 {
        assert(levels.skip(k + 1) =~= Seq::<Level<B>>::empty());
        assert(levels.take(k) =~= levels.drop_last());
        assert(batches_of(levels.skip(k + 1)) + level_batches(levels[k]) =~= level_batches(
            levels[k],
        ));
    } else {
        let l0 = levels.drop_last();
        lemma_batches_split(l0, k);
        assert(l0.take(k) =~= levels.take(k));
        assert(levels.skip(k + 1).drop_last() =~= l0.skip(k + 1));
        assert(levels.skip(k + 1).last() == levels.last());
        assert(batches_of(levels.skip(k + 1)) == level_batches(levels.last()) + batches_of(
            l0.skip(k + 1),
        ));
        assert(batches_of(levels) =~= batches_of(levels.skip(k + 1)) + level_batches(levels[k])
            + batches_of(levels.take(k)));
    }
}

/// The batches after a level is replaced.
pub proof fn lemma_batches_update<B: Batch>(levels: Seq<Level<B>>, k: int, l: Level<B>)
    requires
        0 <= k < levels.len(),
    ensures
        batches_of(levels.update(k, l)) == batches_of(levels.skip(k + 1)) + level_batches(l)
            + batches_of(levels.take(k)),
{
    let u = levels.update(k, l);
    lemma_batches_split(u, k);
    assert(u.skip(k + 1) =~= levels.skip(k + 1));
    assert(u.take(k) =~= levels.take(k));
}

/// The batches from a level upwards are those above it and its own.
pub proof fn lemma_batches_skip<B: Batch>(levels: Seq<Level<B>>, k: int)
    requires
        0 <= k < levels.len(),
    ensures
        batches_of(levels.skip(k)) == batches_of(levels.skip(k + 1)) + level_batches(levels[k]),
{
    let s = levels.skip(k);
    lemma_batches_split(s, 0);
    assert(s.skip(1) =~= levels.skip(k + 1));
    assert(s.take(0) =~= Seq::<Level<B>>::empty());
    assert(batches_of(s.skip(1)) + level_batches(s[0]) + batches_of(s.take(0)) =~= batches_of(
        s.skip(1),
    ) + level_batches(s[0]));
}

/// The batches of valid levels are valid.
pub proof fn lemma_batches_wf<B: Batch>(levels: Seq<Level<B>>)
    requires
        forall|k: int| 0 <= k < levels.len() ==> level_ok(#[trigger] levels[k]),
    ensures
        all_wf(batches_of(levels)),
    decreases levels.len(),
{
    if levels.len() > 0 {
        let l0 = levels.drop_last();
        assert forall|k: int| 0 <= k < l0.len() implies level_ok(#[trigger] l0[k]) by {
            assert(level_ok(levels[k]));
        }
        lemma_batches_wf(l0);
        assert(level_ok(levels[levels.len() - 1]));
    }
}

/// The tuples of two sequences of batches, one after the other.
pub proof fn lemma_tuples_concat<B: BatchReader>(a: Seq<B>, b: Seq<B>)
    ensures
        tuples_of(a + b) == tuples_of(a) + tuples_of(b),
    decreases b.len(),
{
    if b.len() == 0 {
        assert(a + b =~= a);
        assert(tuples_of(a) + tuples_of(b) =~= tuples_of(a));
    } else {
        lemma_tuples_concat(a, b.drop_last());
        assert((a + b).drop_last() =~= a + b.drop_last());
        assert(tuples_of(a + b) =~= tuples_of(a) + tuples_of(b));
    }
}

/// The tuples of one batch and of two batches.
pub proof fn lemma_tuples_small<B: BatchReader>(a: B, b: B)
    ensures
        tuples_of(seq![a]) == a.tuples(),
        tuples_of(seq![a, b]) == a.tuples() + b.tuples(),
        tuples_of(Seq::<B>::empty()).len() == 0,
{
    reveal_with_fuel(tuples_of, 3);
    assert(seq![a].drop_last() =~= Seq::<B>::empty());
    assert(seq![a].last() == a);
    assert(tuples_of(seq![a]) =~= a.tuples());
    assert(seq![a, b].drop_last() =~= seq![a]);
    assert(seq![a, b].last() == b);
}

/// Every tuple of a sequence of batches is a tuple of one of them.
pub proof fn lemma_tuple_origin<B: BatchReader>(bs: Seq<B>, j: int)
    requires
        0 <= j < tuples_of(bs).len(),
    ensures
        exists|i: int, n: int|
            0 <= i < bs.len() && 0 <= n < bs[i].tuples().len() && tuples_of(bs)[j]
                == #[trigger] bs[i].tuples()[n],
    decreases bs.len(),
{
    let front = tuples_of(bs.drop_last());
    if j < front.len() {
        lemma_tuple_origin(bs.drop_last(), j);
        let (i, n) = choose|i: int, n: int|
            0 <= i < bs.drop_last().len() && 0 <= n < bs.drop_last()[i].tuples().len() && front[j]
                == #[trigger] bs.drop_last()[i].tuples()[n];
        assert(tuples_of(bs)[j] == bs[i].tuples()[n]);
    } else {
        let i = bs.len() - 1;
        let n = j - front.len();
        assert(tuples_of(bs)[j] == bs[i].tuples()[n]);
    }
}

/// The upper bound of a valid batch is not below its lower bound.
pub proof fn lemma_upper_above_lower<B: BatchReader>(b: B)
    requires
        b.wf(),
    ensures
        forall|t: B::Time| #[trigger]
            b.upper_spec().less_equal_spec(t) ==> b.lower_spec().less_equal_spec(t),
{
    b.lemma_reader_wf();
    assert forall|t: B::Time| #[trigger]
        b.upper_spec().less_equal_spec(t) implies b.lower_spec().less_equal_spec(t) by {
        Antichain::lemma_dominated(b.upper_spec(), b.lower_spec(), t);
    }
}

/// Where an interval is followed by a second one and that by `next`, their
/// union is followed by `next` and starts where the first one starts.
pub proof fn lemma_follows_union<T: DBTimestamp>(
    l1: Antichain<T>,
    u1: Antichain<T>,
    l2: Antichain<T>,
    u2: Antichain<T>,
    lower: Antichain<T>,
    upper: Antichain<T>,
    next: Antichain<T>,
)
    requires
        follows(l1, u1, l2),
        follows(l2, u2, next),
        bounds_union(lower, upper, l1, u1, l2, u2),
        forall|t: T| #[trigger] u2.less_equal_spec(t) ==> l2.less_equal_spec(t),
    ensures
        follows(lower, upper, next),
        forall|t: T| #[trigger] lower.less_equal_spec(t) == l1.less_equal_spec(t),
{
    reveal(follows);
    assert forall|t: T| #[trigger] lower.less_equal_spec(t) == l1.less_equal_spec(t) by {
        assert(lower.less_equal_spec(t) == (l1.less_equal_spec(t) || l2.less_equal_spec(t)));
    }
    assert forall|t: T| #[trigger] next.less_equal_spec(t) implies lower.less_equal_spec(t) by {
        assert(l2.less_equal_spec(t));
        assert(l1.less_equal_spec(t));
    }
    if forall|t: T| !#[trigger] u2.less_equal_spec(t) {
        assert forall|t: T| !#[trigger] upper.less_equal_spec(t) by {
            assert(!u2.less_equal_spec(t));
        }
    } else if forall|t: T| !#[trigger] u1.less_equal_spec(t) {
        assert forall|t: T| !#[trigger] upper.less_equal_spec(t) by {
            assert(!u1.less_equal_spec(t));
        }
    } else {
        assert forall|t: T| #[trigger] upper.less_equal_spec(t) == next.less_equal_spec(t) by {
            assert(u2.less_equal_spec(t) == next.less_equal_spec(t));
            assert(u1.less_equal_spec(t) == l2.less_equal_spec(t));
            assert(upper.less_equal_spec(t) == (u1.less_equal_spec(t) && u2.less_equal_spec(t)));
        }
    }
}

/// An interval that is followed by `next` is followed by whatever is at or
/// below the same times as `next`.
pub proof fn lemma_follows_same<T: DBTimestamp>(
    lower: Antichain<T>,
    upper: Antichain<T>,
    next: Antichain<T>,
    other: Antichain<T>,
)
    requires
        follows(lower, upper, next),
        forall|t: T| #[trigger] other.less_equal_spec(t) == next.less_equal_spec(t),
    ensures
        follows(lower, upper, other),
{
    reveal(follows);
    assert forall|t: T| #[trigger] other.less_equal_spec(t) implies lower.less_equal_spec(t) by {
        assert(next.less_equal_spec(t));
    }
    if !(forall|t: T| !#[trigger] upper.less_equal_spec(t)) {
        assert forall|t: T| #[trigger] upper.less_equal_spec(t) == other.less_equal_spec(t) by {
            assert(upper.less_equal_spec(t) == next.less_equal_spec(t));
        }
    }
}

/// Replacing two adjacent batches by a batch over the union of their
/// intervals keeps the intervals contiguous.
pub proof fn lemma_replace_pair_chain<B: Batch>(
    front: Seq<B>,
    a: B,
    b: B,
    m: B,
    back: Seq<B>,
    frontier: Antichain<B::Time>,
)
    requires
        b.wf(),
        chain_ok(front + seq![a, b] + back, frontier),
        bounds_union(
            m.lower_spec(),
            m.upper_spec(),
            a.lower_spec(),
            a.upper_spec(),
            b.lower_spec(),
            b.upper_spec(),
        ),
    ensures
        chain_ok(front + seq![m] + back, frontier),
{
    let before = front + seq![a, b] + back;
    let after = front + seq![m] + back;
    let n = front.len() as int;
    assert(before[n] == a);
    assert(before[n + 1] == b);
    assert(after[n] == m);
    lemma_upper_above_lower(b);
    assert(follows(a.lower_spec(), a.upper_spec(), next_lower(before, frontier, n)));
    assert(follows(b.lower_spec(), b.upper_spec(), next_lower(before, frontier, n + 1)));
    assert(next_lower(before, frontier, n) == b.lower_spec());
    assert(next_lower(before, frontier, n + 1) == next_lower(after, frontier, n)) by {
        if n + 1 < after.len() {
            assert(after[n + 1] == before[n + 2]);
        }
    }
    lemma_follows_union(
        a.lower_spec(),
        a.upper_spec(),
        b.lower_spec(),
        b.upper_spec(),
        m.lower_spec(),
        m.upper_spec(),
        next_lower(after, frontier, n),
    );
    assert forall|i: int| 0 <= i < after.len() implies follows(
        after[i].lower_spec(),
        after[i].upper_spec(),
        #[trigger] next_lower(after, frontier, i),
    ) by {
        if i < n {
            assert(after[i] == before[i]);
            assert(follows(
                before[i].lower_spec(),
                before[i].upper_spec(),
                next_lower(before, frontier, i),
            ));
            if i == n - 1 {
                assert(next_lower(before, frontier, i) == a.lower_spec());
                assert(next_lower(after, frontier, i) == m.lower_spec());
                lemma_follows_same(
                    before[i].lower_spec(),
                    before[i].upper_spec(),
                    a.lower_spec(),
                    m.lower_spec(),
                );
            } else {
                assert(after[i + 1] == before[i + 1]);
            }
        } else if i > n {
            assert(after[i] == before[i + 1]);
            assert(follows(
                before[i + 1].lower_spec(),
                before[i + 1].upper_spec(),
                next_lower(before, frontier, i + 1),
            ));
            if i + 1 < after.len() {
                assert(after[i + 1] == before[i + 2]);
            }
        }
    }
    if n == 0 {
        assert(next_lower(before, frontier, -1) == a.lower_spec());
        assert(next_lower(after, frontier, -1) == m.lower_spec());
    } else {
        assert(after[0] == before[0]);
        assert(before[0] == front[0]);
    }
}

/// Replacing two adjacent batches by a batch that holds their sum keeps the
/// weights.
pub proof fn lemma_replace_pair_weights<B: Batch>(front: Seq<B>, a: B, b: B, m: B, back: Seq<B>)
    requires
        is_sum(m.tuples(), a.tuples(), b.tuples()),
    ensures
        same_weights(tuples_of(front + seq![m] + back), tuples_of(front + seq![a, b] + back)),
{
    let before = front + seq![a, b] + back;
    let after = front + seq![m] + back;
    lemma_tuples_concat(front + seq![a, b], back);
    lemma_tuples_concat(front, seq![a, b]);
    lemma_tuples_concat(front + seq![m], back);
    lemma_tuples_concat(front, seq![m]);
    lemma_tuples_small(a, b);
    lemma_tuples_small(m, m);
    assert forall|x: ((B::Key, B::Val), B::Time)| #[trigger]
        weight_of(tuples_of(after), x) == weight_of(tuples_of(before), x) by {
        lemma_weight_of_concat(tuples_of(front) + m.tuples(), tuples_of(back), x);
        lemma_weight_of_concat(tuples_of(front), m.tuples(), x);
        lemma_weight_of_concat(tuples_of(front) + (a.tuples() + b.tuples()), tuples_of(back), x);
        lemma_weight_of_concat(tuples_of(front), a.tuples() + b.tuples(), x);
        lemma_weight_of_concat(a.tuples(), b.tuples(), x);
        assert(weight_of(m.tuples(), x) == weight_of(a.tuples(), x).add_spec(
            &weight_of(b.tuples(), x),
        ));
    }
}

/// Replacing two adjacent batches by a valid batch over the union of their
/// intervals keeps the batches valid and the times that all upper bounds are
/// at or below.
pub proof fn lemma_replace_pair_bounds<B: Batch>(front: Seq<B>, a: B, b: B, m: B, back: Seq<B>)
    requires
        all_wf(front + seq![a, b] + back),
        m.wf(),
        bounds_union(
            m.lower_spec(),
            m.upper_spec(),
            a.lower_spec(),
            a.upper_spec(),
            b.lower_spec(),
            b.upper_spec(),
        ),
    ensures
        all_wf(front + seq![m] + back),
        forall|t: B::Time|
            uppers_all(front + seq![m] + back, t) == uppers_all(front + seq![a, b] + back, t),
{
    let before = front + seq![a, b] + back;
    let after = front + seq![m] + back;
    let n = front.len() as int;
    assert(before[n] == a);
    assert(before[n + 1] == b);
    assert(after[n] == m);
    assert forall|i: int| 0 <= i < after.len() implies (#[trigger] after[i]).wf() by {
        if i < n {
            assert(after[i] == before[i]);
        } else if i > n {
            assert(after[i] == before[i + 1]);
        }
    }
    assert forall|t: B::Time| uppers_all(after, t) == uppers_all(before, t) by {
        assert(m.upper_spec().less_equal_spec(t) == (a.upper_spec().less_equal_spec(t)
            && b.upper_spec().less_equal_spec(t)));
        if uppers_all(before, t) {
            assert(before[n].upper_spec().less_equal_spec(t));
            assert(before[n + 1].upper_spec().less_equal_spec(t));
            assert forall|i: int| 0 <= i < after.len() implies (#[trigger] after[i]).upper_spec().less_equal_spec(
                t,
            ) by {
                if i < n {
                    assert(after[i] == before[i]);
                } else if i > n {
                    assert(after[i] == before[i + 1]);
                }
            }
        }
        if uppers_all(after, t) {
            assert(after[n].upper_spec().less_equal_spec(t));
            assert forall|i: int| 0 <= i < before.len() implies (#[trigger] before[i]).upper_spec().less_equal_spec(
                t,
            ) by {
                if i < n {
                    assert(before[i] == after[i]);
                } else if i > n + 1 {
                    assert(before[i] == after[i - 1]);
                }
            }
        }
    }
}


/// The batches of the levels from `k` upwards, then `carry`, then the batches
/// of the levels below `k`: the batches while `carry` waits to be placed at
/// level `k`.
pub open spec fn with_carry<B: Batch>(levels: Seq<Level<B>>, k: int, carry: B) -> Seq<B> {
    batches_of(levels.skip(k)) + seq![carry] + batches_of(levels.take(k))
}

/// Appending a batch that starts at the frontier, with the frontier that it
/// leaves, keeps the intervals contiguous.
pub proof fn lemma_chain_append<B: Batch>(
    bs: Seq<B>,
    frontier: Antichain<B::Time>,
    b: B,
    next: Antichain<B::Time>,
)
    requires
        chain_ok(bs, frontier),
        forall|t: B::Time| #[trigger] b.lower_spec().less_equal_spec(t) == frontier.less_equal_spec(t),
        follows(b.lower_spec(), b.upper_spec(), next),
    ensures
        chain_ok(bs.push(b), next),
{
    let after = bs.push(b);
    let n = bs.len() as int;
    assert forall|i: int| 0 <= i < after.len() implies follows(
        after[i].lower_spec(),
        after[i].upper_spec(),
        #[trigger] next_lower(after, next, i),
    ) by {
        if i < n {
            assert(after[i] == bs[i]);
            assert(follows(bs[i].lower_spec(), bs[i].upper_spec(), next_lower(bs, frontier, i)));
            if i == n - 1 {
                lemma_follows_same(
                    bs[i].lower_spec(),
                    bs[i].upper_spec(),
                    frontier,
                    b.lower_spec(),
                );
            } else {
                assert(after[i + 1] == bs[i + 1]);
            }
        }
    }
    if n == 0 {
        assert(next_lower(after, next, -1) == b.lower_spec());
        assert(next_lower(bs, frontier, -1) == frontier);
    } else {
        assert(after[0] == bs[0]);
    }
}

/// A valid batch is followed by its upper bound, and where it has none, by
/// whatever is at or below the same times as its lower bound.
pub proof fn lemma_follows_own_upper<B: Batch>(b: B, next: Antichain<B::Time>)
    requires
        b.wf(),
        b.upper_spec()@.len() > 0 ==> next@ == b.upper_spec()@,
        b.upper_spec()@.len() == 0 ==> forall|t: B::Time| #[trigger]
            next.less_equal_spec(t) == b.lower_spec().less_equal_spec(t),
    ensures
        follows(b.lower_spec(), b.upper_spec(), next),
{
    reveal(follows);
    lemma_upper_above_lower(b);
    if b.upper_spec()@.len() > 0 {
        assert forall|t: B::Time| #[trigger]
            b.upper_spec().less_equal_spec(t) == next.less_equal_spec(t) by {
            if b.upper_spec().less_equal_spec(t) {
                let i = choose|i: int|
                    0 <= i < b.upper_spec()@.len() && (#[trigger] b.upper_spec()@[i]).le_spec(&t);
                assert(next@[i].le_spec(&t));
            }
            if next.less_equal_spec(t) {
                let i = choose|i: int| 0 <= i < next@.len() && (#[trigger] next@[i]).le_spec(&t);
                assert(b.upper_spec()@[i].le_spec(&t));
            }
        }
        assert forall|t: B::Time| #[trigger] next.less_equal_spec(t) implies b.lower_spec().less_equal_spec(
            t,
        ) by {
            assert(b.upper_spec().less_equal_spec(t));
        }
    } else {
        assert forall|t: B::Time| !#[trigger] b.upper_spec().less_equal_spec(t) by {}
        assert forall|t: B::Time| #[trigger] next.less_equal_spec(t) implies b.lower_spec().less_equal_spec(
            t,
        ) by {}
    }
}

/// The times that the upper bounds of the batches and of one more batch are
/// all at or below.
pub proof fn lemma_uppers_push<B: Batch>(bs: Seq<B>, b: B, t: B::Time)
    ensures
        uppers_all(bs.push(b), t) == (uppers_all(bs, t) && b.upper_spec().less_equal_spec(t)),
{
    let after = bs.push(b);
    if uppers_all(after, t) {
        assert(after[bs.len() as int].upper_spec().less_equal_spec(t));
        assert forall|i: int| 0 <= i < bs.len() implies (#[trigger] bs[i]).upper_spec().less_equal_spec(
            t,
        ) by {
            assert(after[i] == bs[i]);
        }
    }
    if uppers_all(bs, t) && b.upper_spec().less_equal_spec(t) {
        assert forall|i: int| 0 <= i < after.len() implies (#[trigger] after[i]).upper_spec().less_equal_spec(
            t,
        ) by {
            if i < bs.len() {
                assert(after[i] == bs[i]);
            }
        }
    }
}

/// Runs a merger to completion and extracts the merged batch.
pub fn finish_merge<B: Batch>(a: &B, b: &B, merger: B::Merger) -> (r: B)
    requires
        merger.wf(),
        merger.source1() == *a,
        merger.source2() == *b,
    ensures
        r.wf(),
        is_consolidated(r.tuples()),
        is_sum(r.tuples(), a.tuples(), b.tuples()),
        bounds_union(
            r.lower_spec(),
            r.upper_spec(),
            a.lower_spec(),
            a.upper_spec(),
            b.lower_spec(),
            b.upper_spec(),
        ),
{
    let mut merger = merger;
    let mut fuel: isize = 0;
    while fuel == 0
        invariant
            merger.wf(),
            merger.source1() == *a,
            merger.source2() == *b,
            fuel > 0 ==> merger.remaining() == 0,
            fuel >= 0,
        decreases merger.remaining() + (if fuel == 0 { 1nat } else { 0nat }),
    {
        fuel = isize::MAX;
        merger.work(a, b, &mut fuel);
    }
    merger.done()
}

/// A trace kept as a log-structured merge of batches.
pub struct Spine<B: Batch> {
    levels: Vec<Level<B>>,
    lower: Antichain<B::Time>,
    upper: Antichain<B::Time>,
    frontier: Antichain<B::Time>,
    dirty: bool,
}

impl<B: Batch> Spine<B> {
    /// The invariant of the spine: its batches are valid, their intervals
    /// are contiguous and end at the frontier, the lower bound is the least
    /// time, and the upper bound is at or below the times that the upper
    /// bounds of all batches are at or below.
    pub closed spec fn inv(&self) -> bool {
        &&& forall|k: int| 0 <= k < self.levels@.len() ==> level_ok(#[trigger] self.levels@[k])
        &&& chain_ok(batches_of(self.levels@), self.frontier)
        &&& self.lower@ == seq![B::Time::minimum_spec()]
        &&& self.upper.wf()
        &&& forall|t: B::Time| #[trigger]
            self.upper.less_equal_spec(t) == uppers_all(batches_of(self.levels@), t)
        &&& tail_ok(self.upper, self.frontier)
        &&& self.frontier@.len() > 0
    }

    /// Places `carry`, which is newer than the batches of the levels from
    /// `0` on, in level `0`.  Where the level is merging, the merge is
    /// completed first and its result carried to the level above.
    fn cascade(&mut self, carry: B)
        requires
            forall|k: int|
                0 <= k < old(self).levels@.len() ==> level_ok(#[trigger] old(self).levels@[k]),
            carry.wf(),
            chain_ok(batches_of(old(self).levels@).push(carry), old(self).frontier),
        ensures
            final(self).lower == old(self).lower,
            final(self).upper == old(self).upper,
            final(self).frontier == old(self).frontier,
            final(self).dirty == old(self).dirty,
            forall|k: int|
                0 <= k < final(self).levels@.len() ==> level_ok(#[trigger] final(self).levels@[k]),
            chain_ok(batches_of(final(self).levels@), final(self).frontier),
            same_weights(
                tuples_of(batches_of(final(self).levels@)),
                tuples_of(batches_of(old(self).levels@).push(carry)),
            ),
            forall|t: B::Time|
                uppers_all(batches_of(final(self).levels@), t) == uppers_all(
                    batches_of(old(self).levels@).push(carry),
                    t,
                ),
    {
        let ghost start = batches_of(self.levels@).push(carry);
        let mut carry = carry;
        let mut k: usize = 0;
        proof {
            assert(self.levels@.skip(0) =~= self.levels@);
            assert(self.levels@.take(0) =~= Seq::<Level<B>>::empty());
            assert(with_carry(self.levels@, 0, carry) =~= start);
            lemma_batches_wf(self.levels@);
        }
        loop
            invariant_except_break
                k <= self.levels@.len(),
                forall|j: int| 0 <= j < self.levels@.len() ==> level_ok(#[trigger] self.levels@[j]),
                carry.wf(),
                all_wf(with_carry(self.levels@, k as int, carry)),
                chain_ok(with_carry(self.levels@, k as int, carry), self.frontier),
                same_weights(tuples_of(with_carry(self.levels@, k as int, carry)), tuples_of(start)),
                forall|t: B::Time|
                    uppers_all(with_carry(self.levels@, k as int, carry), t) == uppers_all(start, t),
            invariant
                self.lower == old(self).lower,
                self.upper == old(self).upper,
                self.frontier == old(self).frontier,
                self.dirty == old(self).dirty,
            ensures
                self.lower == old(self).lower,
                self.upper == old(self).upper,
                self.frontier == old(self).frontier,
                self.dirty == old(self).dirty,
                forall|j: int| 0 <= j < self.levels@.len() ==> level_ok(#[trigger] self.levels@[j]),
                chain_ok(batches_of(self.levels@), self.frontier),
                same_weights(tuples_of(batches_of(self.levels@)), tuples_of(start)),
                forall|t: B::Time| uppers_all(batches_of(self.levels@), t) == uppers_all(start, t),
            decreases self.levels@.len() - k,
        {
            let ghost before = self.levels@;
            let ghost seq_before = with_carry(before, k as int, carry);
            if k == self.levels.len() {
                self.levels.push(Level::Single(carry));
                proof {
                    assert(before.skip(k as int) =~= Seq::<Level<B>>::empty());
                    assert(before.take(k as int) =~= before);
                    assert(self.levels@.drop_last() =~= before);
                    assert(batches_of(self.levels@) =~= seq_before);
                }
                break ;
            }
            let level = self.levels.remove(k);
            proof {
                assert(level == before[k as int]);
                assert(level_ok(before[k as int]));
                lemma_batches_skip(before, k as int);
            }
            match level {
                Level::Vacant => {
                    self.levels.insert(k, Level::Single(carry));
                    proof {
                        assert(self.levels@ =~= before.update(k as int, Level::Single(carry)));
                        lemma_batches_update(before, k as int, Level::Single(carry));
                        assert(batches_of(self.levels@) =~= seq_before);
                        assert forall|j: int| 0 <= j < self.levels@.len() implies level_ok(
                            #[trigger] self.levels@[j],
                        ) by {
                            if j != k {
                                assert(level_ok(before[j]));
                            }
                        }
                    }
                    break ;
                },
                Level::Single(b) => {
                    proof {
                        b.lemma_batch_wf();
                        carry.lemma_batch_wf();
                    }
                    let merger = B::Merger::new_merger(&b, &carry);
                    let ghost l = Level::Merging(b, carry, merger);
                    self.levels.insert(k, Level::Merging(b, carry, merger));
                    proof {
                        assert(self.levels@ =~= before.update(k as int, l));
                        lemma_batches_update(before, k as int, l);
                        assert(batches_of(self.levels@) =~= seq_before);
                        assert forall|j: int| 0 <= j < self.levels@.len() implies level_ok(
                            #[trigger] self.levels@[j],
                        ) by {
                            if j != k {
                                assert(level_ok(before[j]));
                            }
                        }
                    }
                    break ;
                },
                Level::Merging(b1, b2, merger) => {
                    let merged = finish_merge(&b1, &b2, merger);
                    let ghost front = batches_of(before.skip(k + 1));
                    let ghost back = seq![carry] + batches_of(before.take(k as int));
                    let ghost l = Level::Single(carry);
                    proof {
                        assert(seq_before =~= front + seq![b1, b2] + back);
                        lemma_replace_pair_chain(front, b1, b2, merged, back, self.frontier);
                        lemma_replace_pair_weights(front, b1, b2, merged, back);
                        lemma_replace_pair_bounds(front, b1, b2, merged, back);
                    }
                    self.levels.insert(k, Level::Single(carry));
                    proof {
                        let after = self.levels@;
                        assert(after =~= before.update(k as int, l));
                        assert(after.skip(k + 1) =~= before.skip(k + 1));
                        assert(after.take(k + 1) =~= before.take(k as int).push(l));
                        assert(after.take(k + 1).drop_last() =~= before.take(k as int));
                        assert(batches_of(after.take(k + 1)) =~= seq![carry] + batches_of(
                            before.take(k as int),
                        ));
                        assert(with_carry(after, k + 1, merged) =~= front + seq![merged] + back);
                        assert forall|j: int| 0 <= j < after.len() implies level_ok(
                            #[trigger] after[j],
                        ) by {
                            if j != k {
                                assert(level_ok(before[j]));
                            }
                        }
                        assert forall|x: ((B::Key, B::Val), B::Time)| #[trigger]
                            weight_of(tuples_of(with_carry(after, k + 1, merged)), x) == weight_of(
                                tuples_of(start),
                                x,
                            ) by {
                            assert(weight_of(tuples_of(front + seq![merged] + back), x)
                                == weight_of(tuples_of(front + seq![b1, b2] + back), x));
                            assert(weight_of(tuples_of(seq_before), x) == weight_of(
                                tuples_of(start),
                                x,
                            ));
                        }
                    }
                    carry = merged;
                    k = k + 1;
                },
            }
        }
    }
}


/// The upper bound of a spine has no end, or it is the frontier.
pub open spec fn tail_ok<T: DBTimestamp>(upper: Antichain<T>, frontier: Antichain<T>) -> bool {
    ||| forall|t: T| !#[trigger] upper.less_equal_spec(t)
    ||| forall|t: T| #[trigger] upper.less_equal_spec(t) == frontier.less_equal_spec(t)
}

/// The number of source tuples that the merges of the levels have left to
/// merge.
pub open spec fn work_of<B: Batch>(levels: Seq<Level<B>>) -> nat
    decreases levels.len(),
{
    if levels.len() == 0 {
        0
    } else {
        work_of(levels.drop_last()) + level_work(levels.last())
    }
}

/// The work that is left after the merge of one level has changed.
pub proof fn lemma_work_update<B: Batch>(levels: Seq<Level<B>>, k: int, l: Level<B>)
    requires
        0 <= k < levels.len(),
    ensures
        work_of(levels.update(k, l)) + level_work(levels[k]) == work_of(levels) + level_work(l),
    decreases levels.len(),
{
    let u = levels.update(k, l);
    if k == levels.len() - 1 {
        assert(u.drop_last() =~= levels.drop_last());
    } else {
        lemma_work_update(levels.drop_last(), k, l);
        assert(u.drop_last() =~= levels.drop_last().update(k, l));
    }
}

/// Where no level has work left, none is left in all.
pub proof fn lemma_no_work<B: Batch>(levels: Seq<Level<B>>)
    requires
        forall|k: int| 0 <= k < levels.len() ==> level_work(#[trigger] levels[k]) == 0,
    ensures
        work_of(levels) == 0,
    decreases levels.len(),
{
    if levels.len() > 0 {
        let l0 = levels.drop_last();
        assert forall|k: int| 0 <= k < l0.len() implies level_work(#[trigger] l0[k]) == 0 by {
            assert(level_work(levels[k]) == 0);
        }
        lemma_no_work(l0);
        assert(level_work(levels[levels.len() - 1]) == 0);
    }
}

/// The sum of the numbers of keys that the batches report.
pub open spec fn key_counts<B: BatchReader>(bs: Seq<B>) -> nat
    decreases bs.len(),
{
    if bs.len() == 0 {
        0
    } else {
        key_counts(bs.drop_last()) + bs.last().key_count_spec()
    }
}

/// The numbers of keys of two sequences of batches add up.
pub proof fn lemma_key_counts_concat<B: BatchReader>(a: Seq<B>, b: Seq<B>)
    ensures
        key_counts(a + b) == key_counts(a) + key_counts(b),
    decreases b.len(),
{
    if b.len() == 0 {
        assert(a + b =~= a);
    } else {
        lemma_key_counts_concat(a, b.drop_last());
        assert((a + b).drop_last() =~= a + b.drop_last());
    }
}

/// The numbers of keys of one batch and of two batches.
pub proof fn lemma_key_counts_small<B: BatchReader>(a: B, b: B)
    ensures
        key_counts(seq![a]) == a.key_count_spec(),
        key_counts(seq![a, b]) == a.key_count_spec() + b.key_count_spec(),
{
    reveal_with_fuel(key_counts, 3);
    assert(seq![a].drop_last() =~= Seq::<B>::empty());
    assert(seq![a].last() == a);
    assert(seq![a, b].drop_last() =~= seq![a]);
    assert(seq![a, b].last() == b);
}

/// The tuples of the batches with their times pushed back are those of the
/// batches before the last one and those of the last one, pushed back.
pub proof fn lemma_receded_concat<KV, T: Timestamp, R>(a: Seq<((KV, T), R)>, b: Seq<((KV, T), R)>, f: T)
    ensures
        receded(a + b, f) == receded(a, f) + receded(b, f),
{
    assert(receded(a + b, f) =~= receded(a, f) + receded(b, f));
}

/// The state of a merge of the batches `done` into `acc`: without batches
/// there is no result; else the result is valid, holds their sum, starts at
/// or below the least time and has the upper bound that is at or below the
/// times that the upper bounds of all batches are at or below.
pub open spec fn merged_all<B: Batch>(acc: Option<B>, done: Seq<B>) -> bool {
    match acc {
        None => done.len() == 0,
        Some(a) => {
            &&& done.len() > 0
            &&& a.wf()
            &&& is_consolidated(a.tuples())
            &&& same_weights(a.tuples(), tuples_of(done))
            &&& a.lower_spec().less_equal_spec(B::Time::minimum_spec())
            &&& forall|t: B::Time| #[trigger]
                a.upper_spec().less_equal_spec(t) == uppers_all(done, t)
        },
    }
}

/// Merges one more batch into the merge of the batches before it.
fn merge_next<B: Batch>(acc: Option<B>, b: B, Ghost(done): Ghost<Seq<B>>) -> (r: Option<B>)
    requires
        merged_all(acc, done),
        b.wf(),
        done.len() == 0 ==> b.lower_spec().less_equal_spec(B::Time::minimum_spec()),
    ensures
        merged_all(r, done.push(b)),
{
    let ghost after = done.push(b);
    proof {
        assert(after.drop_last() =~= done);
        assert(after.last() == b);
        b.lemma_batch_wf();
    }
    match acc {
        None => {
            proof {
                assert(tuples_of(done) =~= Seq::empty());
                assert(tuples_of(after) =~= b.tuples());
                assert forall|t: B::Time| #[trigger]
                    b.upper_spec().less_equal_spec(t) == uppers_all(after, t) by {
                    lemma_uppers_push(done, b, t);
                }
            }
            Some(b)
        },
        Some(a) => {
            let m = a.merge(&b);
            proof {
                assert forall|x: ((B::Key, B::Val), B::Time)| #[trigger]
                    weight_of(m.tuples(), x) == weight_of(tuples_of(after), x) by {
                    lemma_weight_of_concat(tuples_of(done), b.tuples(), x);
                    assert(weight_of(a.tuples(), x) == weight_of(tuples_of(done), x));
                    assert(weight_of(m.tuples(), x) == weight_of(a.tuples(), x).add_spec(
                        &weight_of(b.tuples(), x),
                    ));
                }
                assert(m.lower_spec().less_equal_spec(B::Time::minimum_spec()) == (
                a.lower_spec().less_equal_spec(B::Time::minimum_spec())
                    || b.lower_spec().less_equal_spec(B::Time::minimum_spec())));
                assert forall|t: B::Time| #[trigger]
                    m.upper_spec().less_equal_spec(t) == uppers_all(after, t) by {
                    lemma_uppers_push(done, b, t);
                    assert(m.upper_spec().less_equal_spec(t) == (a.upper_spec().less_equal_spec(t)
                        && b.upper_spec().less_equal_spec(t)));
                    assert(a.upper_spec().less_equal_spec(t) == uppers_all(done, t));
                }
            }
            Some(m)
        },
    }
}

/// An antichain that is at or below the least time is at or below every
/// time.
pub proof fn lemma_below_minimum<T: DBTimestamp>(a: Antichain<T>, t: T)
    requires
        a.less_equal_spec(T::minimum_spec()),
    ensures
        a.less_equal_spec(t),
{
    let i = choose|i: int| 0 <= i < a@.len() && (#[trigger] a@[i]).le_spec(&T::minimum_spec());
    T::lemma_minimum_least(t);
    T::lemma_le_transitive(a@[i], T::minimum_spec(), t);
}


impl<B: Batch> Spine<B> {
    /// Reads the tuples of a batch through its cursor.
    fn read_batch(b: &B) -> (r: Vec<(((B::Key, B::Val), B::Time), B::R)>)
        requires
            b.wf(),
        ensures
            is_consolidated(r@),
            same_weights(r@, b.tuples()),
    {
        let mut c = b.cursor();
        collect_tuples(&mut c)
    }

    /// Merges the tuples of a batch into a consolidated vector.
    fn absorb(
        acc: Vec<(((B::Key, B::Val), B::Time), B::R)>,
        b: &B,
        Ghost(done): Ghost<Seq<B>>,
    ) -> (r: Vec<(((B::Key, B::Val), B::Time), B::R)>)
        requires
            b.wf(),
            is_consolidated(acc@),
            same_weights(acc@, tuples_of(done)),
        ensures
            is_consolidated(r@),
            same_weights(r@, tuples_of(done.push(*b))),
    {
        let v = Self::read_batch(b);
        let r = merge_vecs(&acc, &v);
        proof {
            let after = done.push(*b);
            assert(after.drop_last() =~= done);
            assert(after.last() == *b);
            assert forall|x: ((B::Key, B::Val), B::Time)| #[trigger]
                weight_of(r@, x) == weight_of(tuples_of(after), x) by {
                lemma_weight_of_concat(tuples_of(done), b.tuples(), x);
                assert(weight_of(acc@, x) == weight_of(tuples_of(done), x));
                assert(weight_of(v@, x) == weight_of(b.tuples(), x));
                assert(weight_of(r@, x) == weight_of(acc@, x).add_spec(&weight_of(v@, x)));
            }
        }
        r
    }
}

impl<B: Batch> BatchReader for Spine<B> {
    type Key = B::Key;

    type Val = B::Val;

    type Time = B::Time;

    type R = B::R;

    type Cursor<'s> = OwnedCursor<B::Key, B::Val, B::Time, B::R>;

    closed spec fn wf(&self) -> bool {
        self.inv()
    }

    closed spec fn tuples(&self) -> Seq<(((B::Key, B::Val), B::Time), B::R)> {
        tuples_of(batches_of(self.levels@))
    }

    closed spec fn key_count_spec(&self) -> nat {
        key_counts(batches_of(self.levels@))
    }

    closed spec fn lower_spec(&self) -> Antichain<B::Time> {
        self.lower
    }

    closed spec fn upper_spec(&self) -> Antichain<B::Time> {
        self.upper
    }

    proof fn lemma_reader_wf(&self) {
        let bs = batches_of(self.levels@);
        let ts = tuples_of(bs);
        lemma_batches_wf(self.levels@);
        assert(self.lower@[0] == B::Time::minimum_spec());
        assert forall|k: int| 0 <= k < self.upper@.len() implies self.lower.less_equal_spec(
            #[trigger] self.upper@[k],
        ) by {
            B::Time::lemma_minimum_least(self.upper@[k]);
            assert(self.lower@[0].le_spec(&self.upper@[k]));
        }
        assert forall|j: int| 0 <= j < ts.len() implies self.lower.less_equal_spec(
            (#[trigger] ts[j]).0.1,
        ) && !self.upper.less_equal_spec(ts[j].0.1) by {
            let t = ts[j].0.1;
            B::Time::lemma_minimum_least(t);
            assert(self.lower@[0].le_spec(&t));
            lemma_tuple_origin(bs, j);
            let (i, n) = choose|i: int, n: int|
                0 <= i < bs.len() && 0 <= n < bs[i].tuples().len() && ts[j]
                    == #[trigger] bs[i].tuples()[n];
            assert(bs[i].wf());
            bs[i].lemma_reader_wf();
            assert(!bs[i].upper_spec().less_equal_spec(bs[i].tuples()[n].0.1));
            assert(self.upper.less_equal_spec(t) == uppers_all(bs, t));
        }
    }

    fn cursor(&self) -> (c: Self::Cursor<'_>) {
        let mut acc: Vec<(((B::Key, B::Val), B::Time), B::R)> = Vec::new();
        let mut k = self.levels.len();
        proof {
            lemma_batches_wf(self.levels@);
            assert(self.levels@.skip(k as int) =~= Seq::<Level<B>>::empty());
        }
        while k > 0
            invariant
                k <= self.levels@.len(),
                forall|j: int| 0 <= j < self.levels@.len() ==> level_ok(#[trigger] self.levels@[j]),
                is_consolidated(acc@),
                same_weights(acc@, tuples_of(batches_of(self.levels@.skip(k as int)))),
            decreases k,
        {
            k = k - 1;
            let ghost done = batches_of(self.levels@.skip(k + 1));
            proof {
                lemma_batches_skip(self.levels@, k as int);
                assert(level_ok(self.levels@[k as int]));
            }
            match &self.levels[k] {
                Level::Vacant => {
                    proof {
                        assert(done + level_batches(self.levels@[k as int]) =~= done);
                    }
                },
                Level::Single(b) => {
                    acc = Self::absorb(acc, b, Ghost(done));
                    proof {
                        assert(done + level_batches(self.levels@[k as int]) =~= done.push(*b));
                    }
                },
                Level::Merging(a, b, _) => {
                    acc = Self::absorb(acc, a, Ghost(done));
                    acc = Self::absorb(acc, b, Ghost(done.push(*a)));
                    proof {
                        assert(done + level_batches(self.levels@[k as int]) =~= done.push(*a).push(
                            *b,
                        ));
                    }
                },
            }
        }
        proof {
            assert(self.levels@.skip(0) =~= self.levels@);
        }
        OwnedCursor::new(acc)
    }

    fn key_count(&self) -> (r: usize) {
        let mut total: usize = 0;
        let mut k: usize = 0;
        proof {
            assert(self.levels@.take(0) =~= Seq::<Level<B>>::empty());
        }
        while k < self.levels.len()
            invariant
                k <= self.levels@.len(),
                forall|j: int| 0 <= j < self.levels@.len() ==> level_ok(#[trigger] self.levels@[j]),
                total == saturated(key_counts(batches_of(self.levels@.take(k as int))) as int),
            decreases self.levels@.len() - k,
        {
            let ghost below = batches_of(self.levels@.take(k as int));
            proof {
                assert(self.levels@.take(k + 1).drop_last() =~= self.levels@.take(k as int));
                assert(self.levels@.take(k + 1).last() == self.levels@[k as int]);
                assert(level_ok(self.levels@[k as int]));
                lemma_key_counts_concat(level_batches(self.levels@[k as int]), below);
            }
            match &self.levels[k] {
                Level::Vacant => {
                    proof {
                        assert(level_batches(self.levels@[k as int]) =~= Seq::<B>::empty());
                    }
                },
                Level::Single(b) => {
                    proof {
                        lemma_key_counts_small(*b, *b);
                    }
                    total = total.saturating_add(b.key_count());
                },
                Level::Merging(a, b, _) => {
                    proof {
                        lemma_key_counts_small(*a, *b);
                    }
                    total = total.saturating_add(a.key_count());
                    total = total.saturating_add(b.key_count());
                },
            }
            k = k + 1;
        }
        proof {
            assert(self.levels@.take(self.levels@.len() as int) =~= self.levels@);
        }
        total
    }

    fn len(&self) -> (r: usize) {
        let mut total: usize = 0;
        let mut k: usize = 0;
        proof {
            assert(self.levels@.take(0) =~= Seq::<Level<B>>::empty());
        }
        while k < self.levels.len()
            invariant
                k <= self.levels@.len(),
                forall|j: int| 0 <= j < self.levels@.len() ==> level_ok(#[trigger] self.levels@[j]),
                total == saturated(
                    tuples_of(batches_of(self.levels@.take(k as int))).len() as int,
                ),
            decreases self.levels@.len() - k,
        {
            let ghost below = batches_of(self.levels@.take(k as int));
            proof {
                assert(self.levels@.take(k + 1).drop_last() =~= self.levels@.take(k as int));
                assert(self.levels@.take(k + 1).last() == self.levels@[k as int]);
                assert(level_ok(self.levels@[k as int]));
                lemma_tuples_concat(level_batches(self.levels@[k as int]), below);
            }
            match &self.levels[k] {
                Level::Vacant => {
                    proof {
                        assert(level_batches(self.levels@[k as int]) =~= Seq::<B>::empty());
                    }
                },
                Level::Single(b) => {
                    proof {
                        lemma_tuples_small(*b, *b);
                    }
                    total = total.saturating_add(b.len());
                },
                Level::Merging(a, b, _) => {
                    proof {
                        lemma_tuples_small(*a, *b);
                    }
                    total = total.saturating_add(a.len());
                    total = total.saturating_add(b.len());
                },
            }
            k = k + 1;
        }
        proof {
            assert(self.levels@.take(self.levels@.len() as int) =~= self.levels@);
        }
        total
    }

    fn lower(&self) -> (r: &Antichain<B::Time>) {
        &self.lower
    }

    fn upper(&self) -> (r: &Antichain<B::Time>) {
        &self.upper
    }
}

impl<B: Batch> Trace for Spine<B> {
    type Batch = B;

    closed spec fn batches(&self) -> Seq<B> {
        batches_of(self.levels@)
    }

    closed spec fn frontier_spec(&self) -> Antichain<B::Time> {
        self.frontier
    }

    closed spec fn dirty_spec(&self) -> bool {
        self.dirty
    }

    closed spec fn merge_work(&self) -> nat {
        work_of(self.levels@)
    }

    proof fn lemma_trace_wf(&self) {
        lemma_batches_wf(self.levels@);
    }

    fn new() -> (r: Self) {
        let lower: Antichain<B::Time> = Antichain::from_elem(B::Time::minimum());
        let upper: Antichain<B::Time> = Antichain::from_elem(B::Time::minimum());
        let frontier: Antichain<B::Time> = Antichain::from_elem(B::Time::minimum());
        let levels: Vec<Level<B>> = Vec::new();
        proof {
            let min = B::Time::minimum_spec();
            B::Time::lemma_le_reflexive(min);
            assert(frontier@[0].le_spec(&min));
            assert(batches_of(levels@) =~= Seq::<B>::empty());
            assert forall|t: B::Time| #[trigger]
                upper.less_equal_spec(t) == uppers_all(batches_of(levels@), t) by {
                B::Time::lemma_minimum_least(t);
                assert(upper@[0].le_spec(&t));
            }
            assert forall|t: B::Time| #[trigger]
                upper.less_equal_spec(t) == frontier.less_equal_spec(t) by {
                B::Time::lemma_minimum_least(t);
                assert(upper@[0].le_spec(&t));
                assert(frontier@[0].le_spec(&t));
            }
        }
        Spine { levels, lower, upper, frontier, dirty: false }
    }

    fn recede_to(&mut self, frontier: &B::Time) {
        let ghost olds = self.levels@;
        let ghost all = batches_of(olds);
        let mut acc: Option<B> = None;
        let ghost mut done: Seq<B> = Seq::empty();
        let ghost mut seen: Seq<B> = Seq::empty();
        proof {
            lemma_batches_wf(olds);
            assert(olds.skip(olds.len() as int) =~= Seq::<Level<B>>::empty());
            assert(tuples_of(seen) =~= Seq::empty());
            assert(receded(tuples_of(seen), *frontier) =~= Seq::empty());
            assert(tuples_of(done) =~= Seq::empty());
        }
        while self.levels.len() > 0
            invariant
                self.lower == old(self).lower,
                self.upper == old(self).upper,
                self.frontier == old(self).frontier,
                self.dirty == old(self).dirty,
                olds == old(self).levels@,
                all == batches_of(olds),
                forall|j: int| 0 <= j < olds.len() ==> level_ok(#[trigger] olds[j]),
                chain_ok(all, self.frontier),
                self.levels@.len() <= olds.len(),
                self.levels@ == olds.take(self.levels@.len() as int),
                seen == batches_of(olds.skip(self.levels@.len() as int)),
                merged_all(acc, done),
                done.len() == seen.len(),
                same_weights(tuples_of(done), receded(tuples_of(seen), *frontier)),
                forall|t: B::Time| uppers_all(done, t) == uppers_all(seen, t),
                forall|i: int|
                    0 <= i < tuples_of(done).len() ==> (#[trigger] tuples_of(done)[i]).0.1.le_spec(
                        frontier,
                    ),
            decreases self.levels@.len(),
        {
            let ghost n = self.levels@.len() as int;
            let level = self.levels.pop().unwrap();
            proof {
                assert(level == olds[n - 1]);
                assert(level_ok(olds[n - 1]));
                lemma_batches_skip(olds, n - 1);
                assert(self.levels@ =~= olds.take(n - 1));
                lemma_batches_split(olds, n - 1);
            }
            match level {
                Level::Vacant => {
                    proof {
                        assert(seen + level_batches(level) =~= seen);
                    }
                },
                Level::Single(b) => {
                    let ghost b0 = b;
                    let mut b = b;
                    proof {
                        Self::lemma_first_lower(all, seen, b0, self.frontier);
                    }
                    b.recede_to(frontier);
                    proof {
                        Self::lemma_recede_step(done, seen, b, b0, *frontier);
                    }
                    acc = merge_next(acc, b, Ghost(done));
                    proof {
                        done = done.push(b);
                        seen = seen.push(b0);
                        assert(batches_of(olds.skip(n)) + level_batches(level) =~= seen);
                    }
                },
                Level::Merging(a, b, _) => {
                    let ghost a0 = a;
                    let ghost b0 = b;
                    let mut a = a;
                    let mut b = b;
                    proof {
                        Self::lemma_first_lower(all, seen, a0, self.frontier);
                    }
                    a.recede_to(frontier);
                    proof {
                        Self::lemma_recede_step(done, seen, a, a0, *frontier);
                    }
                    acc = merge_next(acc, a, Ghost(done));
                    proof {
                        done = done.push(a);
                        seen = seen.push(a0);
                    }
                    b.recede_to(frontier);
                    proof {
                        Self::lemma_recede_step(done, seen, b, b0, *frontier);
                    }
                    acc = merge_next(acc, b, Ghost(done));
                    proof {
                        done = done.push(b);
                        seen = seen.push(b0);
                        assert(batches_of(olds.skip(n)) + level_batches(level) =~= seen);
                    }
                },
            }
        }
        proof {
            assert(olds.skip(0) =~= olds);
            assert(seen == all);
        }
        match acc {
            None => {
                proof {
                    assert(tuples_of(all) =~= Seq::empty());
                    assert(receded(tuples_of(all), *frontier) =~= Seq::empty());
                    assert(self.levels@ =~= Seq::<Level<B>>::empty());
                    assert(batches_of(self.levels@) =~= Seq::<B>::empty());
                    assert(all =~= Seq::<B>::empty());
                }
            },
            Some(m) => {
                let ghost l = Level::Single(m);
                self.levels.push(Level::Single(m));
                proof {
                    assert(self.levels@ =~= seq![l]);
                    assert(self.levels@.drop_last() =~= Seq::<Level<B>>::empty());
                    assert(batches_of(self.levels@.drop_last()) =~= Seq::<B>::empty());
                    assert(self.levels@.last() == l);
                    assert(batches_of(self.levels@) =~= seq![m]);
                    lemma_tuples_small(m, m);
                    let one = seq![m];
                    assert forall|x: ((B::Key, B::Val), B::Time)| #[trigger]
                        weight_of(m.tuples(), x) == weight_of(receded(tuples_of(all), *frontier), x) by {
                        assert(weight_of(m.tuples(), x) == weight_of(tuples_of(done), x));
                        assert(weight_of(tuples_of(done), x) == weight_of(
                            receded(tuples_of(seen), *frontier),
                            x,
                        ));
                    }
                    lemma_receded_times(m.tuples(), tuples_of(all), *frontier);
                    assert forall|t: B::Time| #[trigger]
                        self.upper.less_equal_spec(t) == uppers_all(one, t) by {
                        assert(one[0] == m);
                        assert(m.upper_spec().less_equal_spec(t) == uppers_all(done, t));
                        assert(uppers_all(done, t) == uppers_all(all, t));
                        assert(old(self).upper.less_equal_spec(t) == uppers_all(all, t));
                        if m.upper_spec().less_equal_spec(t) {
                            assert forall|i: int| 0 <= i < one.len() implies (#[trigger] one[i]).upper_spec().less_equal_spec(
                                t,
                            ) by {}
                        }
                    }
                    assert(chain_ok(one, self.frontier)) by {
                        reveal(follows);
                        assert(next_lower(one, self.frontier, 0) == self.frontier);
                        assert(next_lower(one, self.frontier, -1) == m.lower_spec());
                        assert forall|t: B::Time| #[trigger]
                            m.lower_spec().less_equal_spec(t) by {
                            lemma_below_minimum(m.lower_spec(), t);
                        }
                        assert forall|t: B::Time| #[trigger]
                            m.upper_spec().less_equal_spec(t) == self.upper.less_equal_spec(t) by {
                            assert(one[0] == m);
                        }
                        assert forall|i: int| 0 <= i < one.len() implies follows(
                            one[i].lower_spec(),
                            one[i].upper_spec(),
                            #[trigger] next_lower(one, self.frontier, i),
                        ) by {
                            assert(one[i] == m);
                        }
                    }
                }
            },
        }
    }

    fn exert(&mut self, effort: &mut isize) {
        if *effort <= 0 {
            return ;
        }
        let ghost olds = self.levels@;
        let mut k: usize = 0;
        while k < self.levels.len() && *effort > 0
            invariant
                self.lower == old(self).lower,
                self.upper == old(self).upper,
                self.frontier == old(self).frontier,
                self.dirty == old(self).dirty,
                olds == old(self).levels@,
                *old(effort) > 0,
                0 <= *effort <= *old(effort),
                k <= self.levels@.len(),
                self.levels@.len() == olds.len(),
                forall|j: int| 0 <= j < self.levels@.len() ==> level_ok(#[trigger] self.levels@[j]),
                forall|j: int|
                    0 <= j < self.levels@.len() ==> level_batches(#[trigger] self.levels@[j])
                        == level_batches(olds[j]),
                *effort > 0 ==> forall|j: int| 0 <= j < k ==> level_work(#[trigger] self.levels@[j]) == 0,
                work_of(self.levels@) <= work_of(olds) - (*old(effort) - *effort),
                work_of(self.levels@) >= work_of(olds) - 2 * (*old(effort) - *effort),
            decreases self.levels@.len() - k,
        {
            let ghost before = self.levels@;
            let ghost fuel_before = *effort;
            let level = self.levels.remove(k);
            proof {
                assert(level == before[k as int]);
                assert(level_ok(before[k as int]));
            }
            let next = match level {
                Level::Merging(a, b, merger) => {
                    let mut merger = merger;
                    merger.work(&a, &b, effort);
                    Level::Merging(a, b, merger)
                },
                other => other,
            };
            let ghost l = next;
            self.levels.insert(k, next);
            proof {
                assert(self.levels@ =~= before.update(k as int, l));
                assert(level_batches(l) == level_batches(before[k as int]));
                lemma_work_update(before, k as int, l);
                assert(level_work(l) <= level_work(before[k as int]) - (fuel_before - *effort));
                assert(level_work(l) >= level_work(before[k as int]) - 2 * (fuel_before - *effort));
                assert forall|j: int| 0 <= j < self.levels@.len() implies level_ok(
                    #[trigger] self.levels@[j],
                ) && level_batches(self.levels@[j]) == level_batches(olds[j]) by {
                    if j != k {
                        assert(level_ok(before[j]));
                        assert(level_batches(before[j]) == level_batches(olds[j]));
                    } else {
                        assert(level_batches(before[j]) == level_batches(olds[j]));
                    }
                }
                if *effort > 0 {
                    assert forall|j: int| 0 <= j < k + 1 implies level_work(
                        #[trigger] self.levels@[j],
                    ) == 0 by {
                        if j < k {
                            assert(level_work(before[j]) == 0);
                        }
                    }
                }
            }
            k = k + 1;
        }
        proof {
            Self::lemma_same_batches(self.levels@, olds);
            if *effort > 0 {
                lemma_no_work(self.levels@);
            }
        }
    }

    fn consolidate(self) -> (r: Option<B>) {
        let ghost olds = self.levels@;
        let ghost all = batches_of(olds);
        let mut levels = self.levels;
        let mut acc: Option<B> = None;
        let ghost mut done: Seq<B> = Seq::empty();
        proof {
            lemma_batches_wf(olds);
            assert(olds.skip(olds.len() as int) =~= Seq::<Level<B>>::empty());
        }
        while levels.len() > 0
            invariant
                forall|j: int| 0 <= j < olds.len() ==> level_ok(#[trigger] olds[j]),
                all == batches_of(olds),
                chain_ok(all, self.frontier),
                levels@.len() <= olds.len(),
                levels@ == olds.take(levels@.len() as int),
                done == batches_of(olds.skip(levels@.len() as int)),
                merged_all(acc, done),
            decreases levels@.len(),
        {
            let ghost n = levels@.len() as int;
            let level = levels.pop().unwrap();
            proof {
                assert(level == olds[n - 1]);
                assert(level_ok(olds[n - 1]));
                lemma_batches_skip(olds, n - 1);
                assert(levels@ =~= olds.take(n - 1));
                lemma_batches_split(olds, n - 1);
            }
            match level {
                Level::Vacant => {
                    proof {
                        assert(done + level_batches(level) =~= done);
                    }
                },
                Level::Single(b) => {
                    proof {
                        Self::lemma_first_lower(all, done, b, self.frontier);
                    }
                    acc = merge_next(acc, b, Ghost(done));
                    proof {
                        assert(done + level_batches(level) =~= done.push(b));
                        done = done.push(b);
                    }
                },
                Level::Merging(a, b, _) => {
                    proof {
                        Self::lemma_first_lower(all, done, a, self.frontier);
                    }
                    acc = merge_next(acc, a, Ghost(done));
                    acc = merge_next(acc, b, Ghost(done.push(a)));
                    proof {
                        assert(done + level_batches(level) =~= done.push(a).push(b));
                        done = done.push(a).push(b);
                    }
                },
            }
        }
        proof {
            assert(olds.skip(0) =~= olds);
            match &acc {
                Some(m) => {
                    assert(self.lower@[0] == B::Time::minimum_spec());
                    assert forall|t: B::Time| #[trigger]
                        m.lower_spec().less_equal_spec(t) == self.lower.less_equal_spec(t) by {
                        lemma_below_minimum(m.lower_spec(), t);
                        B::Time::lemma_minimum_least(t);
                        assert(self.lower@[0].le_spec(&t));
                    }
                },
                None => {},
            }
        }
        acc
    }

    fn insert(&mut self, batch: B) -> (r: Result<(), SchedulerError>) {
        if !batch.lower().same_as(&self.frontier) {
            return Err(SchedulerError::NonContiguousBatch);
        }
        let ghost olds = batches_of(self.levels@);
        let ghost old_upper = self.upper;
        let ghost old_frontier = self.frontier;
        let nonempty = !batch.is_empty();
        let new_upper = self.upper.join(batch.upper());
        let new_frontier = if batch.upper().len() > 0 {
            batch.upper().dup()
        } else {
            self.frontier.dup()
        };
        proof {
            lemma_upper_above_lower(batch);
            if batch.upper_spec()@.len() == 0 {
                assert forall|t: B::Time| #[trigger]
                    new_frontier.less_equal_spec(t) == batch.lower_spec().less_equal_spec(t) by {
                    if new_frontier.less_equal_spec(t) {
                        let i = choose|i: int|
                            0 <= i < new_frontier@.len() && (#[trigger] new_frontier@[i]).le_spec(&t);
                        assert(old_frontier@[i].le_spec(&t));
                    }
                    if old_frontier.less_equal_spec(t) {
                        let i = choose|i: int|
                            0 <= i < old_frontier@.len() && (#[trigger] old_frontier@[i]).le_spec(&t);
                        assert(new_frontier@[i].le_spec(&t));
                    }
                    assert(batch.lower_spec().less_equal_spec(t) == old_frontier.less_equal_spec(t));
                }
                assert forall|t: B::Time| !#[trigger] new_upper.less_equal_spec(t) by {
                    assert(!batch.upper_spec().less_equal_spec(t));
                }
            } else {
                assert forall|t: B::Time| #[trigger]
                    new_frontier.less_equal_spec(t) == batch.upper_spec().less_equal_spec(t) by {
                    if new_frontier.less_equal_spec(t) {
                        let i = choose|i: int|
                            0 <= i < new_frontier@.len() && (#[trigger] new_frontier@[i]).le_spec(&t);
                        assert(batch.upper_spec()@[i].le_spec(&t));
                    }
                    if batch.upper_spec().less_equal_spec(t) {
                        let i = choose|i: int|
                            0 <= i < batch.upper_spec()@.len() && (#[trigger] batch.upper_spec()@[i]).le_spec(
                                &t,
                            );
                        assert(new_frontier@[i].le_spec(&t));
                    }
                }
                if forall|t: B::Time| !#[trigger] old_upper.less_equal_spec(t) {
                    assert forall|t: B::Time| !#[trigger] new_upper.less_equal_spec(t) by {
                        assert(!old_upper.less_equal_spec(t));
                    }
                } else {
                    assert forall|t: B::Time| #[trigger]
                        new_upper.less_equal_spec(t) == new_frontier.less_equal_spec(t) by {
                        assert(old_upper.less_equal_spec(t) == old_frontier.less_equal_spec(t));
                        assert(batch.lower_spec().less_equal_spec(t) == old_frontier.less_equal_spec(
                            t,
                        ));
                        assert(new_upper.less_equal_spec(t) == (old_upper.less_equal_spec(t)
                            && batch.upper_spec().less_equal_spec(t)));
                    }
                }
            }
            lemma_follows_own_upper(batch, new_frontier);
            lemma_chain_append(olds, old_frontier, batch, new_frontier);
        }
        self.upper = new_upper;
        self.frontier = new_frontier;
        if nonempty {
            self.dirty = true;
        }
        self.cascade(batch);
        proof {
            let after = batches_of(self.levels@);
            assert(olds.push(batch).drop_last() =~= olds);
            assert(olds.push(batch).last() == batch);
            assert forall|x: ((B::Key, B::Val), B::Time)| #[trigger]
                weight_of(tuples_of(after), x) == weight_of(tuples_of(olds), x).add_spec(
                    &weight_of(batch.tuples(), x),
                ) by {
                lemma_weight_of_concat(tuples_of(olds), batch.tuples(), x);
                assert(weight_of(tuples_of(after), x) == weight_of(tuples_of(olds.push(batch)), x));
            }
            assert forall|t: B::Time| #[trigger]
                self.upper.less_equal_spec(t) == uppers_all(after, t) by {
                lemma_uppers_push(olds, batch, t);
                assert(old_upper.less_equal_spec(t) == uppers_all(olds, t));
                assert(self.upper.less_equal_spec(t) == (old_upper.less_equal_spec(t)
                    && batch.upper_spec().less_equal_spec(t)));
            }
        }
        Ok(())
    }

    fn clear_dirty_flag(&mut self) {
        self.dirty = false;
    }

    fn dirty(&self) -> (r: bool) {
        self.dirty
    }
}

impl<B: Batch> Spine<B> {
    /// Levels that hold the same batches, level by level, hold the same
    /// batches in all.
    proof fn lemma_same_batches(a: Seq<Level<B>>, b: Seq<Level<B>>)
        requires
            a.len() == b.len(),
            forall|j: int| 0 <= j < a.len() ==> level_batches(#[trigger] a[j]) == level_batches(b[j]),
        ensures
            batches_of(a) == batches_of(b),
        decreases a.len(),
    {
        if a.len() > 0 {
            let a0 = a.drop_last();
            let b0 = b.drop_last();
            assert forall|j: int| 0 <= j < a0.len() implies level_batches(#[trigger] a0[j])
                == level_batches(b0[j]) by {
                assert(level_batches(a[j]) == level_batches(b[j]));
            }
            Self::lemma_same_batches(a0, b0);
            assert(level_batches(a[a.len() - 1]) == level_batches(b[b.len() - 1]));
        }
    }

    /// The first batch of a chain starts at or below the least time.
    proof fn lemma_first_lower(all: Seq<B>, done: Seq<B>, b: B, frontier: Antichain<B::Time>)
        requires
            chain_ok(all, frontier),
            done.len() < all.len(),
            done.len() == 0 ==> all[0] == b,
        ensures
            done.len() == 0 ==> b.lower_spec().less_equal_spec(B::Time::minimum_spec()),
    {
        if done.len() == 0 {
            assert(next_lower(all, frontier, -1) == all[0].lower_spec());
        }
    }

    /// One step of pushing the times of the batches back: the batch `b`
    /// stands for `b0` with its times pushed back.
    proof fn lemma_recede_step(done: Seq<B>, seen: Seq<B>, b: B, b0: B, frontier: B::Time)
        requires
            done.len() == seen.len(),
            same_weights(tuples_of(done), receded(tuples_of(seen), frontier)),
            forall|t: B::Time| uppers_all(done, t) == uppers_all(seen, t),
            forall|i: int|
                0 <= i < tuples_of(done).len() ==> (#[trigger] tuples_of(done)[i]).0.1.le_spec(
                    &frontier,
                ),
            same_weights(b.tuples(), receded(b0.tuples(), frontier)),
            forall|i: int|
                0 <= i < b.tuples().len() ==> (#[trigger] b.tuples()[i]).0.1.le_spec(&frontier),
            b.upper_spec() == b0.upper_spec(),
            lower_receded(b.lower_spec(), b0.lower_spec(), frontier),
        ensures
            same_weights(
                tuples_of(done.push(b)),
                receded(tuples_of(seen.push(b0)), frontier),
            ),
            forall|t: B::Time| uppers_all(done.push(b), t) == uppers_all(seen.push(b0), t),
            forall|i: int|
                0 <= i < tuples_of(done.push(b)).len() ==> (#[trigger] tuples_of(
                    done.push(b),
                )[i]).0.1.le_spec(&frontier),
            b0.lower_spec().less_equal_spec(B::Time::minimum_spec()) ==> b.lower_spec().less_equal_spec(
                B::Time::minimum_spec(),
            ),
    {
        let d2 = done.push(b);
        let s2 = seen.push(b0);
        assert(d2.drop_last() =~= done);
        assert(s2.drop_last() =~= seen);
        assert(d2.last() == b);
        assert(s2.last() == b0);
        lemma_receded_concat(tuples_of(seen), b0.tuples(), frontier);
        assert forall|x: ((B::Key, B::Val), B::Time)| #[trigger]
            weight_of(tuples_of(d2), x) == weight_of(receded(tuples_of(s2), frontier), x) by {
            lemma_weight_of_concat(tuples_of(done), b.tuples(), x);
            lemma_weight_of_concat(
                receded(tuples_of(seen), frontier),
                receded(b0.tuples(), frontier),
                x,
            );
            assert(weight_of(tuples_of(done), x) == weight_of(
                receded(tuples_of(seen), frontier),
                x,
            ));
            assert(weight_of(b.tuples(), x) == weight_of(receded(b0.tuples(), frontier), x));
        }
        assert forall|t: B::Time| uppers_all(d2, t) == uppers_all(s2, t) by {
            lemma_uppers_push(done, b, t);
            lemma_uppers_push(seen, b0, t);
        }
        assert forall|i: int| 0 <= i < tuples_of(d2).len() implies (#[trigger] tuples_of(
            d2,
        )[i]).0.1.le_spec(&frontier) by {
            if i < tuples_of(done).len() {
                assert(tuples_of(d2)[i] == tuples_of(done)[i]);
            } else {
                assert(tuples_of(d2)[i] == b.tuples()[i - tuples_of(done).len()]);
            }
        }
        let min = B::Time::minimum_spec();
        if b0.lower_spec().less_equal_spec(min) {
            let i = choose|i: int|
                0 <= i < b0.lower_spec()@.len() && (#[trigger] b0.lower_spec()@[i]).le_spec(&min);
            let l = b0.lower_spec()@[i];
            B::Time::lemma_meet_glb(l, frontier, l);
            B::Time::lemma_le_transitive(l.meet_spec(&frontier), l, min);
            assert(l.meet_spec(&frontier).le_spec(&min));
        }
    }
}


/// The batch at `n` was refused: the trace holds the sum of what it held at
/// the start and of the batches before `n`, and the batch at `n` does not
/// start at the frontier of the trace.
pub open spec fn refused_at<B: Batch>(
    batches: Seq<B>,
    n: int,
    start: Seq<(((B::Key, B::Val), B::Time), B::R)>,
    end: Seq<(((B::Key, B::Val), B::Time), B::R)>,
    frontier: Antichain<B::Time>,
) -> bool {
    &&& same_weights(end, start + tuples_of(batches.take(n)))
    &&& !batches[n].lower_spec().same_spec(&frontier)
}

/// Inserts batches into a trace one after the other, and after each one
/// exerts merge effort with one unit of fuel for each tuple of the batch.
/// Stops at the first batch that the trace refuses.
///
/// Where all batches are taken, the trace stands for the sum of what it
/// stood for and of the batches.  Where one is refused, the trace stands
/// for the sum of what it stood for and of the batches before that one,
/// and that one does not start at the frontier that the trace is left
/// with.  The resident batches lie over contiguous intervals whatever
/// comes back.
pub fn insert_all<Tr: Trace>(trace: &mut Tr, batches: Vec<Tr::Batch>) -> (r: Result<
    (),
    SchedulerError,
>)
    requires
        old(trace).wf(),
        all_wf(batches@),
    ensures
        final(trace).wf(),
        chain_ok(final(trace).batches(), final(trace).frontier_spec()),
        r is Ok ==> same_weights(
            final(trace).tuples(),
            old(trace).tuples() + tuples_of(batches@),
        ),
        r matches Err(e) ==> e == SchedulerError::NonContiguousBatch && exists|n: int|
            0 <= n < batches@.len() && #[trigger] refused_at(
                batches@,
                n,
                old(trace).tuples(),
                final(trace).tuples(),
                final(trace).frontier_spec(),
            ),
{
    let ghost given = batches@;
    let ghost start = trace.tuples();
    let total = batches.len();
    assert(given.len() == total);
    let mut rest = batches;
    let mut reversed: Vec<Tr::Batch> = Vec::new();
    while rest.len() > 0
        invariant
            rest@.len() + reversed@.len() == given.len(),
            rest@ == given.take(rest@.len() as int),
            forall|j: int|
                0 <= j < reversed@.len() ==> #[trigger] reversed@[j] == given[given.len() - 1 - j],
        decreases rest@.len(),
    {
        let b = rest.pop().unwrap();
        reversed.push(b);
    }
    let mut n: usize = 0;
    proof {
        assert(given.take(0) =~= Seq::<Tr::Batch>::empty());
        assert(tuples_of(given.take(0)) =~= Seq::empty());
        assert(start + tuples_of(given.take(0)) =~= start);
    }
    while reversed.len() > 0
        invariant
            trace.wf(),
            all_wf(given),
            given == batches@,
            start == old(trace).tuples(),
            given.len() <= usize::MAX,
            n + reversed@.len() == given.len(),
            forall|j: int|
                0 <= j < reversed@.len() ==> #[trigger] reversed@[j] == given[given.len() - 1 - j],
            same_weights(trace.tuples(), start + tuples_of(given.take(n as int))),
        ensures
            trace.wf(),
            n == given.len(),
            same_weights(trace.tuples(), start + tuples_of(given.take(n as int))),
        decreases reversed@.len(),
    {
        let ghost before = trace.tuples();
        let b = reversed.pop().unwrap();
        proof {
            assert(b == given[n as int]);
            assert(b.wf());
        }
        let size = b.len();
        let ghost before_batches = trace.batches();
        proof {
            trace.lemma_trace_wf();
        }
        match trace.insert(b) {
            Ok(()) => {},
            Err(e) => {
                proof {
                    trace.lemma_trace_wf();
                    assert(trace.tuples() == before);
                    assert(refused_at(
                        given,
                        n as int,
                        start,
                        trace.tuples(),
                        trace.frontier_spec(),
                    ));
                }
                return Err(e);
            },
        }
        let ghost inserted = trace.tuples();
        let mut fuel: isize = if size > isize::MAX as usize {
            isize::MAX
        } else {
            size as isize
        };
        trace.exert(&mut fuel);
        proof {
            let done = given.take(n as int);
            let next = given.take(n + 1);
            assert(next.drop_last() =~= done);
            assert(next.last() == b);
            assert(start + tuples_of(next) =~= (start + tuples_of(done)) + b.tuples());
            assert forall|x: ((Tr::Key, Tr::Val), Tr::Time)| #[trigger]
                weight_of(trace.tuples(), x) == weight_of(start + tuples_of(next), x) by {
                lemma_weight_of_concat(start + tuples_of(done), b.tuples(), x);
                assert(weight_of(trace.tuples(), x) == weight_of(inserted, x));
                assert(weight_of(inserted, x) == weight_of(before, x).add_spec(
                    &weight_of(b.tuples(), x),
                ));
                assert(weight_of(before, x) == weight_of(start + tuples_of(done), x));
            }
        }
        n = n + 1;
    }
    proof {
        assert(given.take(given.len() as int) =~= given);
        trace.lemma_trace_wf();
    }
    Ok(())
}

} // verus!
