//! Rolling aggregates over partitions of rows with event times.
//!
//! The rows of a partition carry an event time and a payload.  A relative
//! range gives each event time a window of event times, and the rolling
//! aggregate gives each event time of the partition the aggregate of the
//! rows of the partition whose event times lie in its window.

use std::marker::PhantomData;
use vstd::prelude::*;
use crate::operator::aggregate::{fold_rows, Aggregator};
use crate::operator::partitioned::{
    has_key,
    kernel_weight,
    lemma_partition_sorted,
    lemma_with_key_weight,
    partition_at,
    partition_of,
    partition_rows,
    with_key,
    Partitioned,
    PartitionKernel,
};
use crate::trace::consolidation::{
    is_consolidated,
    is_sorted,
    lemma_consolidated_push,
    lemma_weight_of_concat,
    weight_of,
};
use crate::trace::cursor::{key_end, key_lower, lemma_key_end, lemma_key_lower, Cursor};
use crate::trace::{BatchReader, DBData, DBWeight};

verus! {

/// An offset from an event time.
#[derive(Clone, Copy, Debug, PartialEq, Eq, Structural)]
pub enum RelOffset {
    /// So many units before the event time.
    Before(u64),
    /// So many units after the event time.
    After(u64),
}

impl RelOffset {
    /// What the offset adds to an event time.
    pub open spec fn offset(self) -> int {
        match self {
            RelOffset::Before(x) => -(x as int),
            RelOffset::After(x) => x as int,
        }
    }

    /// The time at this offset from `t`.
    pub fn apply(&self, t: i64) -> (r: i128)
        ensures
            r == t + self.offset(),
    {
        match self {
            RelOffset::Before(x) => (t as i128) - (*x as i128),
            RelOffset::After(x) => (t as i128) + (*x as i128),
        }
    }
}

/// A range of event times relative to an event time: from the offset `from`
/// to the offset `to`, both inclusive.
#[derive(Clone, Copy, Debug, PartialEq, Eq, Structural)]
pub struct RelRange {
    /// The offset of the first time of the window.
    pub from: RelOffset,
    /// The offset of the last time of the window.
    pub to: RelOffset,
}

impl RelRange {
    /// The range from `from` to `to`.
    pub fn new(from: RelOffset, to: RelOffset) -> (r: Self)
        ensures
            r.from == from,
            r.to == to,
    {
        RelRange { from, to }
    }

    /// The window of the event time `t` holds the event time `other`.
    pub open spec fn contains(self, t: i64, other: i64) -> bool {
        t + self.from.offset() <= other <= t + self.to.offset()
    }
}

/// The payloads and weights of the rows whose event times lie in the window
/// of `t`, in the order of the rows.
pub open spec fn window_rows<P>(rows: Seq<((i64, P), i64)>, range: RelRange, t: i64) -> Seq<
    (P, i64),
>
    decreases rows.len(),
{
    if rows.len() == 0 {
        Seq::empty()
    } else if range.contains(t, rows.last().0.0) {
        window_rows(rows.drop_last(), range, t).push((rows.last().0.1, rows.last().1))
    } else {
        window_rows(rows.drop_last(), range, t)
    }
}

/// The aggregate for the event time `t`: that of the rows in its window.
pub open spec fn window_aggregate<P, A: Aggregator<P>>(
    rows: Seq<((i64, P), i64)>,
    range: RelRange,
    t: i64,
) -> A::Out {
    A::finish_spec(fold_rows::<P, A>(window_rows(rows, range, t)))
}

/// The row at `i` is the first one with its event time.
pub open spec fn starts_time<P>(rows: Seq<((i64, P), i64)>, i: int) -> bool {
    i == 0 || rows[i - 1].0.0 != rows[i].0.0
}

/// The rolling aggregate of the first `n` rows of a partition: for each
/// event time among them, in their order, the event time with the aggregate
/// of its window over all rows, and the weight one.
pub open spec fn rolling_rows<P, A: Aggregator<P>>(
    rows: Seq<((i64, P), i64)>,
    range: RelRange,
    n: int,
) -> Seq<((i64, A::Out), i64)>
    decreases n,
{
    if n <= 0 {
        Seq::empty()
    } else if starts_time(rows, n - 1) {
        rolling_rows::<P, A>(rows, range, n - 1).push(
            ((rows[n - 1].0.0, window_aggregate::<P, A>(rows, range, rows[n - 1].0.0)), 1i64),
        )
    } else {
        rolling_rows::<P, A>(rows, range, n - 1)
    }
}

/// The payloads and weights of the rows from `lo` up to `hi`.
pub open spec fn payloads_between<P>(rows: Seq<((i64, P), i64)>, lo: int, hi: int) -> Seq<(P, i64)> {
    Seq::new((hi - lo) as nat, |j: int| (rows[lo + j].0.1, rows[lo + j].1))
}

/// Where the rows in the window of `t` are those from `lo` up to `hi`, the
/// window holds their payloads and weights.
pub proof fn lemma_window_is_range<P>(
    rows: Seq<((i64, P), i64)>,
    range: RelRange,
    t: i64,
    lo: int,
    hi: int,
    n: int,
)
    requires
        0 <= lo <= hi <= rows.len(),
        0 <= n <= rows.len(),
        forall|j: int|
            0 <= j < rows.len() ==> (range.contains(t, (#[trigger] rows[j]).0.0) <==> lo <= j < hi),
    ensures
        window_rows(rows.take(n), range, t) == payloads_between(
            rows,
            lo,
            if n < lo {
                lo
            } else if n < hi {
                n
            } else {
                hi
            },
        ),
    decreases n,
{
    let part = rows.take(n);
    if n == 0 {
        assert(window_rows(part, range, t) =~= payloads_between(rows, lo, lo));
    } else {
        lemma_window_is_range(rows, range, t, lo, hi, n - 1);
        assert(part.drop_last() =~= rows.take(n - 1));
        assert(part.last() == rows[n - 1]);
        let before = if n - 1 < lo {
            lo
        } else if n - 1 < hi {
            n - 1
        } else {
            hi
        };
        let after = if n < lo {
            lo
        } else if n < hi {
            n
        } else {
            hi
        };
        if lo <= n - 1 < hi {
            assert(range.contains(t, rows[n - 1].0.0));
            assert(payloads_between(rows, lo, n - 1).push((rows[n - 1].0.1, rows[n - 1].1))
                =~= payloads_between(rows, lo, n));
        } else {
            assert(!range.contains(t, rows[n - 1].0.0));
            assert(payloads_between(rows, lo, before) =~= payloads_between(rows, lo, after));
        }
    }
}

/// Computes the rolling aggregate of the rows of a partition.
///
/// The rows are taken in the order of their event times.  The two edges of
/// the window, the first row in it and the first row after it, only move
/// forward from one event time to the next.
pub fn rolling_partition<P: DBData, A: Aggregator<P>>(rows: &Vec<((i64, P), i64)>, range: &RelRange) -> (out:
    Vec<((i64, A::Out), i64)>)
    requires
        is_sorted(rows@),
    ensures
        out@ == rolling_rows::<P, A>(rows@, *range, rows@.len() as int),
{
    let n = rows.len();
    let mut out: Vec<((i64, A::Out), i64)> = Vec::new();
    let mut lo: usize = 0;
    let mut hi: usize = 0;
    let mut i: usize = 0;
    proof {
        assert forall|a: int, b: int| 0 <= a <= b < rows@.len() implies (#[trigger] rows@[a]).0.0 <= (
        #[trigger] rows@[b]).0.0 by {
            if a < b {
                assert(rows@[a].0.lt_spec(&rows@[b].0));
            }
        }
    }
    while i < n
        invariant
            n == rows@.len(),
            i <= n,
            lo <= n,
            hi <= n,
            forall|a: int, b: int|
                0 <= a <= b < rows@.len() ==> (#[trigger] rows@[a]).0.0 <= (#[trigger] rows@[b]).0.0,
            out@ == rolling_rows::<P, A>(rows@, *range, i as int),
            i < n ==> forall|j: int|
                0 <= j < lo ==> (#[trigger] rows@[j]).0.0 < rows@[i as int].0.0 + range.from.offset(),
            i < n ==> forall|j: int|
                0 <= j < hi ==> (#[trigger] rows@[j]).0.0 <= rows@[i as int].0.0 + range.to.offset(),
        decreases n - i,
    {
        let t = rows[i].0.0;
        if i == 0 || rows[i - 1].0.0 != t {
            let low = range.from.apply(t);
            let high = range.to.apply(t);
            while lo < n && (rows[lo].0.0 as i128) < low
                invariant
                    n == rows@.len(),
                    lo <= n,
                    low == t + range.from.offset(),
                    forall|j: int| 0 <= j < lo ==> (#[trigger] rows@[j]).0.0 < low,
                decreases n - lo,
            {
                lo = lo + 1;
            }
            while hi < n && (rows[hi].0.0 as i128) <= high
                invariant
                    n == rows@.len(),
                    hi <= n,
                    high == t + range.to.offset(),
                    forall|j: int| 0 <= j < hi ==> (#[trigger] rows@[j]).0.0 <= high,
                decreases n - hi,
            {
                hi = hi + 1;
            }
            let end = if hi < lo {
                lo
            } else {
                hi
            };
            proof {
                assert forall|j: int| 0 <= j < rows@.len() implies (range.contains(
                    t,
                    (#[trigger] rows@[j]).0.0,
                ) <==> lo <= j < end) by {
                    if j >= lo {
                        assert(rows@[lo as int].0.0 <= rows@[j].0.0);
                    }
                    if j >= hi {
                        assert(rows@[hi as int].0.0 <= rows@[j].0.0);
                    }
                }
                lemma_window_is_range(rows@, *range, t, lo as int, end as int, n as int);
                assert(rows@.take(n as int) =~= rows@);
            }
            let mut acc = A::init();
            let mut j: usize = lo;
            let ghost window = payloads_between(rows@, lo as int, end as int);
            proof {
                assert(window.take(0) =~= Seq::<(P, i64)>::empty());
            }
            while j < end
                invariant
                    lo <= j <= end <= n,
                    n == rows@.len(),
                    window == payloads_between(rows@, lo as int, end as int),
                    acc == fold_rows::<P, A>(window.take(j - lo)),
                decreases end - j,
            {
                proof {
                    assert(window.take(j - lo + 1).drop_last() =~= window.take(j - lo));
                    assert(window.take(j - lo + 1).last() == (rows@[j as int].0.1, rows@[j as int].1));
                }
                acc = A::step(acc, &rows[j].0.1, rows[j].1);
                j = j + 1;
            }
            proof {
                assert(window.take(end - lo) =~= window);
            }
            out.push(((t, A::finish(&acc)), 1i64));
        }
        proof {
            if i + 1 < n {
                assert(rows@[i as int].0.0 <= rows@[i + 1].0.0);
            }
        }
        i = i + 1;
    }
    out
}

/// The tuple at `i` is the first one with its key and event time.
pub open spec fn starts_key_time<K, P, R>(s: Seq<(((K, (i64, P)), ()), R)>, i: int) -> bool {
    i == 0 || s[i - 1].0.0.0 != s[i].0.0.0 || s[i - 1].0.0.1.0 != s[i].0.0.1.0
}

/// The rolling aggregate of the first `n` tuples of a Z-set of rows with
/// event times, partitioned by their keys: for each key and event time
/// among them, in their order, the key with the event time and the
/// aggregate of its window over the rows of the key, and the weight one.
pub open spec fn rolling_output<K: DBData, P, A: Aggregator<P>>(
    s: Seq<(((K, (i64, P)), ()), i64)>,
    range: RelRange,
    n: int,
) -> Seq<((K, (i64, A::Out)), i64)>
    decreases n,
{
    if n <= 0 {
        Seq::empty()
    } else if starts_key_time(s, n - 1) {
        rolling_output::<K, P, A>(s, range, n - 1).push(
            (
                (
                    s[n - 1].0.0.0,
                    (
                        s[n - 1].0.0.1.0,
                        window_aggregate::<P, A>(
                            partition_at(s, key_lower(s, s[n - 1].0.0.0)),
                            range,
                            s[n - 1].0.0.1.0,
                        ),
                    ),
                ),
                1i64,
            ),
        )
    } else {
        rolling_output::<K, P, A>(s, range, n - 1)
    }
}

/// The rolling aggregate up to a tuple of the key that starts at `kp` is the
/// rolling aggregate up to `kp` and then that of the rows of the key, each
/// with the key.
pub proof fn lemma_rolling_key<K: DBData, P: DBData, A: Aggregator<P>>(
    s: Seq<(((K, (i64, P)), ()), i64)>,
    range: RelRange,
    kp: int,
    m: int,
)
    requires
        is_consolidated(s),
        0 <= kp < s.len(),
        kp == key_lower(s, s[kp].0.0.0),
        0 <= m <= key_end(s, kp) - kp,
    ensures
        rolling_output::<K, P, A>(s, range, kp + m) == rolling_output::<K, P, A>(s, range, kp)
            + with_key(
            s[kp].0.0.0,
            rolling_rows::<P, A>(partition_at(s, kp), range, m),
        ),
    decreases m,
{
    let k = s[kp].0.0.0;
    let part = partition_at(s, kp);
    let base = rolling_output::<K, P, A>(s, range, kp);
    lemma_key_end(s, kp);
    if m == 0 {
        assert(with_key(k, rolling_rows::<P, A>(part, range, 0)) =~= Seq::empty());
        assert(base + Seq::empty() =~= base);
    } else {
        lemma_rolling_key::<K, P, A>(s, range, kp, m - 1);
        let i = kp + m - 1;
        let before = rolling_rows::<P, A>(part, range, m - 1);
        assert(s[i].0.0.0 == k);
        assert(part[m - 1] == (s[i].0.0.1, s[i].1));
        if m - 1 > 0 {
            assert(s[i - 1].0.0.0 == k);
            assert(part[m - 2] == (s[i - 1].0.0.1, s[i - 1].1));
        } else {
            if kp > 0 {
                crate::trace::cursor::lemma_projections_ascend(s);
                crate::trace::cursor::lemma_below_count(crate::trace::cursor::keys_of(s), k);
                assert(crate::trace::cursor::keys_of(s)[kp - 1].lt_spec(&k));
                K::lemma_lt_irreflexive(k);
            }
        }
        assert(starts_key_time(s, i) == starts_time(part, m - 1));
        if starts_time(part, m - 1) {
            let e = ((part[m - 1].0.0, window_aggregate::<P, A>(part, range, part[m - 1].0.0)), 1i64);
            assert(with_key(k, before.push(e)) =~= with_key(k, before).push(((k, e.0), e.1)));
            assert((base + with_key(k, before)).push(((k, e.0), e.1)) =~= base + with_key(
                k,
                before,
            ).push(((k, e.0), e.1)));
        }
    }
}

/// Computes the rolling aggregate of a Z-set of rows with event times,
/// partitioned by their keys, that `input` ranges over.
///
/// The keys are taken one after the other; the rows of a key are read
/// through a group cursor, and their rolling aggregate is computed by
/// `rolling_partition`.
pub fn rolling_aggregate<'s, K: DBData, P: DBData, A: Aggregator<P>, C: Cursor<'s, K, (i64, P), (), i64>>(
    input: &mut C,
    range: &RelRange,
) -> (out: Vec<((K, (i64, A::Out)), i64)>)
    requires
        old(input).wf(),
        old(input).clip() is None,
    ensures
        final(input).wf(),
        final(input).storage() == old(input).storage(),
        final(input).clip() == old(input).clip(),
        out@ == rolling_output::<K, P, A>(
            old(input).storage(),
            *range,
            old(input).storage().len() as int,
        ),
{
    let ghost s = input.storage();
    input.rewind_keys();
    let mut out: Vec<((K, (i64, A::Out)), i64)> = Vec::new();
    proof {
        input.lemma_wf();
    }
    while input.key_valid()
        invariant
            input.wf(),
            input.storage() == s,
            input.clip() is None,
            is_consolidated(s),
            0 <= input.key_pos() <= s.len(),
            out@ == rolling_output::<K, P, A>(s, *range, input.key_pos()),
        decreases s.len() - input.key_pos(),
    {
        let ghost kp = input.key_pos();
        let ghost before = out@;
        proof {
            input.lemma_wf();
            lemma_key_end(s, kp);
            lemma_partition_sorted(s, kp);
        }
        let key = input.key().dup();
        let rows = partition_rows(input);
        let part = rolling_partition::<P, A>(&rows, range);
        let mut j: usize = 0;
        proof {
            assert(before + with_key(key, part@.take(0)) =~= before);
        }
        while j < part.len()
            invariant
                j <= part.len(),
                out@ == before + with_key(key, part@.take(j as int)),
            decreases part.len() - j,
        {
            out.push(((key.dup(), (part[j].0.0, part[j].0.1.dup())), part[j].1));
            proof {
                assert(part@.take(j + 1) =~= part@.take(j as int).push(part@[j as int]));
                assert(out@ =~= before + with_key(key, part@.take(j + 1)));
            }
            j = j + 1;
        }
        input.step_key();
        proof {
            assert(part@.take(part.len() as int) =~= part@);
            lemma_rolling_key::<K, P, A>(s, *range, kp, key_end(s, kp) - kp);
        }
    }
    out
}

/// The weight of a key with an event time and an aggregate in the rolling
/// aggregate up to the start of a key or the end of `s`: the weight of the
/// event time and aggregate in the rolling aggregate of the rows of the
/// key, where the tuples of the key come before; else nothing.
pub proof fn lemma_rolling_weight_upto<K: DBData, P: DBData, A: Aggregator<P>>(
    s: Seq<(((K, (i64, P)), ()), i64)>,
    range: RelRange,
    n: int,
    k: K,
    x: (i64, A::Out),
)
    requires
        is_consolidated(s),
        0 <= n <= s.len(),
        n < s.len() ==> n == key_lower(s, s[n].0.0.0),
    ensures
        weight_of(rolling_output::<K, P, A>(s, range, n), (k, x)) == if has_key(s, k) && key_lower(
            s,
            k,
        ) < n {
            weight_of(
                rolling_rows::<P, A>(
                    partition_of(s, k),
                    range,
                    partition_of(s, k).len() as int,
                ),
                x,
            )
        } else {
            0i64
        },
    decreases n,
{
    lemma_key_lower(s, k);
    if n > 0 {
        let last_key = s[n - 1].0.0.0;
        let p = key_lower(s, last_key);
        lemma_key_lower(s, last_key);
        crate::trace::cursor::lemma_projections_ascend(s);
        crate::trace::cursor::lemma_below_count(crate::trace::cursor::keys_of(s), last_key);
        K::lemma_lt_irreflexive(last_key);
        assert(!crate::trace::cursor::keys_of(s)[n - 1].lt_spec(&last_key));
        assert(p <= n - 1);
        assert(s[p].0.0.0 == last_key) by {
            assert(!crate::trace::cursor::keys_of(s)[p].lt_spec(&last_key));
            assert(!crate::trace::cursor::keys_of(s)[n - 1].lt_spec(
                &crate::trace::cursor::keys_of(s)[p],
            ));
            K::lemma_lt_total(s[p].0.0.0, last_key);
        }
        lemma_key_end(s, p);
        assert(key_end(s, p) == n) by {
            let e = key_end(s, p);
            if e < n {
                assert(s[n - 1].0.0.0 == last_key);
            }
            if e > n {
                assert(s[n].0.0.0 == last_key);
                assert(n == key_lower(s, s[n].0.0.0));
            }
        }
        lemma_rolling_weight_upto::<K, P, A>(s, range, p, k, x);
        lemma_rolling_key::<K, P, A>(s, range, p, n - p);
        let rr = rolling_rows::<P, A>(partition_at(s, p), range, n - p);
        lemma_weight_of_concat(
            rolling_output::<K, P, A>(s, range, p),
            with_key(last_key, rr),
            (k, x),
        );
        lemma_with_key_weight(last_key, rr, (k, x));
        if has_key(s, k) {
            let kl = key_lower(s, k);
            if last_key == k {
                assert(kl == p);
            } else {
                if kl >= p && kl < n {
                    assert(s[kl].0.0.0 == last_key);
                }
            }
        } else {
            if last_key == k {
                assert(false);
            }
        }
    }
}

/// The event times of the rolling aggregate of sorted rows strictly
/// increase and end at or below the event time of the last row taken.
pub proof fn lemma_rolling_rows_sorted<P: DBData, A: Aggregator<P>>(
    rows: Seq<((i64, P), i64)>,
    range: RelRange,
    n: int,
)
    requires
        is_sorted(rows),
        0 <= n <= rows.len(),
    ensures
        is_consolidated(rolling_rows::<P, A>(rows, range, n)),
        forall|j: int|
            0 <= j < rolling_rows::<P, A>(rows, range, n).len() ==> n > 0 && (
            #[trigger] rolling_rows::<P, A>(rows, range, n)[j]).0.0 <= rows[n - 1].0.0,
        n > 0 ==> rolling_rows::<P, A>(rows, range, n).len() > 0 && rolling_rows::<P, A>(
            rows,
            range,
            n,
        ).last().0.0 == rows[n - 1].0.0,
    decreases n,
{
    if n > 0 {
        lemma_rolling_rows_sorted::<P, A>(rows, range, n - 1);
        let before = rolling_rows::<P, A>(rows, range, n - 1);
        let after = rolling_rows::<P, A>(rows, range, n);
        if n - 1 > 0 {
            assert(rows[n - 2].0.lt_spec(&rows[n - 1].0));
        }
        if starts_time(rows, n - 1) {
            let e = (
                (rows[n - 1].0.0, window_aggregate::<P, A>(rows, range, rows[n - 1].0.0)),
                1i64,
            );
            if before.len() > 0 {
                assert(before[before.len() - 1].0.0 <= rows[n - 2].0.0);
            }
            lemma_consolidated_push(before, e);
            assert forall|j: int| 0 <= j < after.len() implies (#[trigger] after[j]).0.0
                <= rows[n - 1].0.0 by {
                if j < before.len() {
                    assert(after[j] == before[j]);
                }
            }
        }
    }
}


/// The kernel of the partitioned rolling aggregate: the rolling aggregate
/// of the rows of one partition.
pub struct RollingKernel<P, A> {
    range: RelRange,
    phantom: PhantomData<(P, A)>,
}

impl<P: DBData, A: Aggregator<P>> RollingKernel<P, A> {
    /// The relative range of the windows.
    pub closed spec fn range_spec(&self) -> RelRange {
        self.range
    }

    /// The kernel with the windows given by `range`.
    pub fn new(range: RelRange) -> (r: Self)
        ensures
            r.range_spec() == range,
    {
        RollingKernel { range, phantom: PhantomData }
    }
}

impl<P: DBData, A: Aggregator<P>> PartitionKernel<(i64, P), (i64, A::Out)> for RollingKernel<P, A> {
    open spec fn apply_spec(&self, rows: Seq<((i64, P), i64)>) -> Seq<((i64, A::Out), i64)> {
        rolling_rows::<P, A>(rows, self.range_spec(), rows.len() as int)
    }

    proof fn lemma_apply(&self, rows: Seq<((i64, P), i64)>) {
        lemma_rolling_rows_sorted::<P, A>(rows, self.range_spec(), rows.len() as int);
    }

    fn apply(&self, rows: &Vec<((i64, P), i64)>) -> (r: Vec<((i64, A::Out), i64)>) {
        rolling_partition::<P, A>(rows, &self.range)
    }
}

/// The partitioned rolling aggregate, maintained step by step.
///
/// The operator keeps the sum of the Z-sets of rows that it has taken, and
/// the rolling aggregate of that sum.  When it takes a change, it computes
/// the rolling aggregate anew for each key that the change holds a row of,
/// and emits what the rolling aggregate changes by: the aggregates that no
/// longer hold with the inverse of their weight, and the new ones.
pub type PartitionedRollingAggregate<K, P, A> = Partitioned<
    K,
    (i64, P),
    (i64, <A as Aggregator<P>>::Out),
    RollingKernel<P, A>,
>;

/// A partitioned rolling aggregate with the windows given by `range` that
/// has taken nothing.
pub fn partitioned_rolling_aggregate<K: DBData, P: DBData, A: Aggregator<P>>(range: RelRange) -> (r:
    PartitionedRollingAggregate<K, P, A>)
    ensures
        r.wf(),
        r.kernel_spec().range_spec() == range,
        r.input_integral().len() == 0,
        r.output_integral().len() == 0,
        !r.dirty_spec(),
{
    Partitioned::new(RollingKernel::new(range))
}

/// The weight of a key with an event time and aggregate in the rolling
/// aggregate of a Z-set is its weight in what the rolling kernel gives for
/// the rows of the key: the partitioned operator maintains the rolling
/// aggregate of what it has taken.
pub proof fn lemma_rolling_total<K: DBData, P: DBData, A: Aggregator<P>>(
    kernel: RollingKernel<P, A>,
    s: Seq<(((K, (i64, P)), ()), i64)>,
    k: K,
    x: (i64, A::Out),
)
    requires
        is_consolidated(s),
    ensures
        weight_of(rolling_output::<K, P, A>(s, kernel.range_spec(), s.len() as int), (k, x))
            == kernel_weight(kernel, s, k, x),
{
    lemma_rolling_weight_upto::<K, P, A>(s, kernel.range_spec(), s.len() as int, k, x);
    lemma_key_lower(s, k);
    if !has_key(s, k) {
        assert(rolling_rows::<P, A>(partition_of(s, k), kernel.range_spec(), 0) =~= Seq::empty());
    }
}

} // verus!
