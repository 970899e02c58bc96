//! Batches that hold their tuples in one sorted vector.

use vstd::prelude::*;
use crate::algebra::{is_negation, is_scaled, negate_vec, negated, scale_vec, HasZero, ZRingValue};
use crate::circuit::runtime::{
    all_upper,
    is_sharding,
    lemma_shards_sum,
    shard_index,
    shard_of,
    some_lower,
    total_weight,
};
use crate::time::{is_antichain, Antichain, Timestamp};
use crate::trace::consolidation::{
    check_consolidated,
    consolidate,
    is_consolidated,
    lemma_consolidated_push,
    lemma_canonical,
    lemma_weight_needs_item,
    lemma_weight_of_push,
    lemma_weight_of_sorted_at,
    lemma_zero_add,
    merge_vecs,
    weight_of,
    VecMerger,
};
use crate::trace::cursor::{collect_tuples, Cursor, Position};
use crate::trace::{
    at_time,
    bounds_at,
    bounds_ok,
    bounds_union,
    distinct_keys,
    lemma_receded_times,
    receded,
    strip_time,
    times_within,
    Batch,
    BatchReader,
    Batcher,
    Builder,
    DBData,
    DBTimestamp,
    DBWeight,
    Merger,
};

verus! {

/// An immutable batch of updates, kept as one vector of tuples sorted by key,
/// then value, then time.
pub struct OrdBatch<K, V, T, R> {
    data: Vec<(((K, V), T), R)>,
    lower: Antichain<T>,
    upper: Antichain<T>,
}

/// A batch of weighted `(key, val)` pairs without times.
pub type OrdIndexedZSet<K, V, R> = OrdBatch<K, V, (), R>;

/// A cursor over the tuples of an `OrdBatch`.
pub struct OrdCursor<'s, K, V, T, R> {
    data: &'s Vec<(((K, V), T), R)>,
    pos: Position,
}

impl<'s, K: DBData, V: DBData, T: DBTimestamp, R: DBWeight> OrdCursor<'s, K, V, T, R> {
    /// A cursor over `data`, placed on the first key and its first value.
    pub fn new(data: &'s Vec<(((K, V), T), R)>) -> (c: Self)
        requires
            is_consolidated(data@),
        ensures
            c.wf(),
            c.storage() == data@,
            c.key_pos() == 0,
            c.val_pos() == 0,
            c.clip() is None,
    {
        OrdCursor { data, pos: Position::start(data) }
    }
}

impl<'s, K: DBData, V: DBData, T: DBTimestamp, R: DBWeight> Cursor<'s, K, V, T, R> for OrdCursor<
    's,
    K,
    V,
    T,
    R,
> {
    closed spec fn wf(&self) -> bool {
        self.pos.wf(self.data@)
    }

    closed spec fn storage(&self) -> Seq<(((K, V), T), R)> {
        self.data@
    }

    closed spec fn key_pos(&self) -> int {
        self.pos.key_pos()
    }

    closed spec fn val_pos(&self) -> int {
        self.pos.val_pos()
    }

    closed spec fn clip(&self) -> Option<T> {
        None
    }

    proof fn lemma_wf(&self) {
        self.pos.lemma_wf(self.data@);
    }

    fn key_valid(&self) -> (r: bool) {
        self.pos.key_valid(self.data)
    }

    fn val_valid(&self) -> (r: bool) {
        self.pos.val_valid(self.data)
    }

    fn key(&self) -> (r: &K) {
        self.pos.key(self.data)
    }

    fn val(&self) -> (r: &V) {
        self.pos.val(self.data)
    }

    fn map_times(&self) -> (r: Vec<(T, R)>) {
        self.pos.map_times(self.data)
    }

    fn step_key(&mut self) {
        self.pos.step_key(self.data);
    }

    fn seek_key(&mut self, key: &K) {
        self.pos.seek_key(self.data, key);
    }

    fn step_val(&mut self) {
        self.pos.step_val(self.data);
    }

    fn seek_val(&mut self, val: &V) {
        self.pos.seek_val(self.data, val);
    }

    open spec fn seeks_last(&self) -> bool {
        true
    }

    fn last_key(&mut self) -> (r: Option<K>) {
        self.pos.last_key(self.data)
    }

    fn rewind_keys(&mut self) {
        self.pos.rewind_keys(self.data);
    }

    fn rewind_vals(&mut self) {
        self.pos.rewind_vals(self.data);
    }
}

/// The sum of the weights of `x` in what the cursors range over.
pub open spec fn merged_weight<'s, K: DBData, V: DBData, T: DBTimestamp, R: DBWeight, C: Cursor<'s, K, V, T, R>>(
    cursors: Seq<C>,
    x: ((K, V), T),
) -> R
    decreases cursors.len(),
{
    if cursors.len() == 0 {
        R::zero_spec()
    } else {
        merged_weight(cursors.drop_last(), x).add_spec(&weight_of(cursors.last().storage(), x))
    }
}

/// Merges what several cursors range over into one cursor: it holds each
/// key, value and time once, in strictly increasing order, with the sum of
/// the weights that the cursors hold for them, unless that sum is zero.  The
/// tuples are merged when the cursor is made.
pub fn merge_cursors<'s, K: DBData, V: DBData, T: DBTimestamp, R: DBWeight, C: Cursor<'s, K, V, T, R>>(
    cursors: Vec<C>,
) -> (r: OwnedCursor<K, V, T, R>)
    requires
        forall|i: int|
            0 <= i < cursors@.len() ==> (#[trigger] cursors@[i]).wf() && cursors@[i].clip() is None,
    ensures
        r.wf(),
        is_consolidated(r.storage()),
        forall|x: ((K, V), T)| #[trigger] weight_of(r.storage(), x) == merged_weight(cursors@, x),
        r.key_pos() == 0,
        r.val_pos() == 0,
        r.clip() is None,
{
    let ghost all = cursors@;
    let mut rest = cursors;
    let mut acc: Vec<(((K, V), T), R)> = Vec::new();
    proof {
        assert forall|x: ((K, V), T)| #[trigger]
            merged_weight(rest@, x).add_spec(&weight_of(acc@, x)) == merged_weight(all, x) by {
            R::lemma_add_zero(merged_weight(all, x));
        }
    }
    while rest.len() > 0
        invariant
            forall|i: int|
                0 <= i < rest@.len() ==> (#[trigger] rest@[i]).wf() && rest@[i].clip() is None,
            is_consolidated(acc@),
            forall|x: ((K, V), T)| #[trigger]
                merged_weight(rest@, x).add_spec(&weight_of(acc@, x)) == merged_weight(all, x),
        decreases rest@.len(),
    {
        let ghost before = rest@;
        let ghost sofar = acc@;
        let mut c = rest.pop().unwrap();
        proof {
            assert(c == before.last());
            assert(rest@ =~= before.drop_last());
            c.lemma_wf();
        }
        let ghost s = c.storage();
        let tuples = collect_tuples(&mut c);
        acc = merge_vecs(&acc, &tuples);
        proof {
            assert forall|x: ((K, V), T)| #[trigger]
                merged_weight(rest@, x).add_spec(&weight_of(acc@, x)) == merged_weight(all, x) by {
                let m = merged_weight(rest@, x);
                let w = weight_of(s, x);
                let a = weight_of(sofar, x);
                assert(merged_weight(before, x) == m.add_spec(&w));
                assert(weight_of(acc@, x) == a.add_spec(&w));
                assert(merged_weight(before, x).add_spec(&a) == merged_weight(all, x));
                crate::trace::consolidation::lemma_add_swap_right(m, w, a);
                R::lemma_add_associative(m, a, w);
            }
            assert forall|i: int| 0 <= i < rest@.len() implies (#[trigger] rest@[i]).wf()
                && rest@[i].clip() is None by {
                assert(rest@[i] == before[i]);
            }
        }
    }
    proof {
        assert forall|x: ((K, V), T)| #[trigger] weight_of(acc@, x) == merged_weight(all, x) by {
            lemma_zero_add(weight_of(acc@, x));
            assert(merged_weight(rest@, x) == R::zero_spec());
            assert(merged_weight(rest@, x).add_spec(&weight_of(acc@, x)) == merged_weight(all, x));
        }
    }
    OwnedCursor::new(acc)
}

/// A cursor that owns the consolidated tuples that it ranges over.
pub struct OwnedCursor<K, V, T, R> {
    data: Vec<(((K, V), T), R)>,
    pos: Position,
}

impl<K: DBData, V: DBData, T: DBTimestamp, R: DBWeight> OwnedCursor<K, V, T, R> {
    /// A cursor over `data`, placed on the first key and its first value.
    pub fn new(data: Vec<(((K, V), T), R)>) -> (c: Self)
        requires
            is_consolidated(data@),
        ensures
            c.wf(),
            c.storage() == data@,
            c.key_pos() == 0,
            c.val_pos() == 0,
            c.clip() is None,
    {
        let pos = Position::start(&data);
        OwnedCursor { data, pos }
    }
}

impl<'s, K: DBData, V: DBData, T: DBTimestamp, R: DBWeight> Cursor<'s, K, V, T, R> for OwnedCursor<
    K,
    V,
    T,
    R,
> {
    closed spec fn wf(&self) -> bool {
        self.pos.wf(self.data@)
    }

    closed spec fn storage(&self) -> Seq<(((K, V), T), R)> {
        self.data@
    }

    closed spec fn key_pos(&self) -> int {
        self.pos.key_pos()
    }

    closed spec fn val_pos(&self) -> int {
        self.pos.val_pos()
    }

    closed spec fn clip(&self) -> Option<T> {
        None
    }

    proof fn lemma_wf(&self) {
        self.pos.lemma_wf(self.data@);
    }

    fn key_valid(&self) -> (r: bool) {
        self.pos.key_valid(&self.data)
    }

    fn val_valid(&self) -> (r: bool) {
        self.pos.val_valid(&self.data)
    }

    fn key(&self) -> (r: &K) {
        self.pos.key(&self.data)
    }

    fn val(&self) -> (r: &V) {
        self.pos.val(&self.data)
    }

    fn map_times(&self) -> (r: Vec<(T, R)>) {
        self.pos.map_times(&self.data)
    }

    fn step_key(&mut self) {
        self.pos.step_key(&self.data);
    }

    fn seek_key(&mut self, key: &K) {
        self.pos.seek_key(&self.data, key);
    }

    fn step_val(&mut self) {
        self.pos.step_val(&self.data);
    }

    fn seek_val(&mut self, val: &V) {
        self.pos.seek_val(&self.data, val);
    }

    open spec fn seeks_last(&self) -> bool {
        true
    }

    fn last_key(&mut self) -> (r: Option<K>) {
        self.pos.last_key(&self.data)
    }

    fn rewind_keys(&mut self) {
        self.pos.rewind_keys(&self.data);
    }

    fn rewind_vals(&mut self) {
        self.pos.rewind_vals(&self.data);
    }
}

/// Pairs that are consolidated by `(key, val)` and all stand at one time are
/// consolidated as tuples.
pub proof fn lemma_at_time_consolidated<KV: DBData, T: DBData, R: DBWeight>(s: Seq<(KV, R)>, t: T)
    requires
        is_consolidated(s),
    ensures
        is_consolidated(at_time(s, t)),
        strip_time(at_time(s, t)) == s,
{
    let a = at_time(s, t);
    assert forall|i: int, j: int| 0 <= i < j < a.len() implies (#[trigger] a[i]).0.lt_spec(
        &(#[trigger] a[j]).0,
    ) by {
        assert(s[i].0.lt_spec(&s[j].0));
    }
    assert forall|i: int| 0 <= i < a.len() implies (#[trigger] a[i]).1 != R::zero_spec() by {
        assert(s[i].1 != R::zero_spec());
    }
    assert(strip_time(a) =~= s);
}

/// Some element of `s` is at or below `t`.
pub open spec fn some_at_or_below<T: Timestamp>(s: Seq<T>, t: T) -> bool {
    exists|l: int| 0 <= l < s.len() && (#[trigger] s[l]).le_spec(&t)
}

/// The tuples `rows` with the bounds `lower` and `upper` make a valid batch:
/// the tuples are consolidated, the bounds are antichains, every element of
/// `upper` is at or above one of `lower`, and every time is at or above an
/// element of `lower` and not at or above any element of `upper`.
pub open spec fn valid_parts<KV: DBData, T: DBTimestamp, R: DBWeight>(
    rows: Seq<((KV, T), R)>,
    lower: Seq<T>,
    upper: Seq<T>,
) -> bool {
    &&& is_consolidated(rows)
    &&& is_antichain(lower)
    &&& is_antichain(upper)
    &&& forall|k: int| 0 <= k < upper.len() ==> some_at_or_below(lower, #[trigger] upper[k])
    &&& forall|i: int|
        0 <= i < rows.len() ==> some_at_or_below(lower, (#[trigger] rows[i]).0.1)
            && !some_at_or_below(upper, rows[i].0.1)
}

impl<K: DBData, V: DBData, T: DBTimestamp, R: DBWeight> OrdBatch<K, V, T, R> {
    /// The batch of the tuples `rows` with the bounds `lower` and `upper`,
    /// where they make a valid batch; else nothing.
    pub fn from_parts(rows: Vec<(((K, V), T), R)>, lower: Vec<T>, upper: Vec<T>) -> (r: Option<Self>)
        ensures
            r is Some <==> valid_parts(rows@, lower@, upper@),
            r matches Some(b) ==> b.wf() && b.tuples() == rows@ && b.lower_spec()@ == lower@
                && b.upper_spec()@ == upper@,
    {
        if !check_consolidated(&rows) {
            return None;
        }
        let ghost lower_view = lower@;
        let ghost upper_view = upper@;
        let low = match Antichain::from_vec(lower) {
            Some(a) => a,
            None => {
                return None;
            },
        };
        let up = match Antichain::from_vec(upper) {
            Some(a) => a,
            None => {
                return None;
            },
        };
        proof {
            assert forall|t: T| #[trigger]
                low.less_equal_spec(t) == some_at_or_below(lower_view, t) by {}
            assert forall|t: T| #[trigger]
                up.less_equal_spec(t) == some_at_or_below(upper_view, t) by {}
        }
        if !up.dominated_by(&low) {
            proof {
                if valid_parts(rows@, lower_view, upper_view) {
                    assert forall|k: int| 0 <= k < up@.len() implies low.less_equal_spec(
                        #[trigger] up@[k],
                    ) by {
                        assert(some_at_or_below(lower_view, upper_view[k]));
                    }
                }
            }
            return None;
        }
        let mut i: usize = 0;
        while i < rows.len()
            invariant
                i <= rows.len(),
                low@ == lower_view,
                lower_view == lower@,
                upper_view == upper@,
                up@ == upper_view,
                forall|t: T| #[trigger] low.less_equal_spec(t) == some_at_or_below(lower_view, t),
                forall|t: T| #[trigger] up.less_equal_spec(t) == some_at_or_below(upper_view, t),
                forall|j: int|
                    0 <= j < i ==> low.less_equal_spec((#[trigger] rows@[j]).0.1)
                        && !up.less_equal_spec(rows@[j].0.1),
            decreases rows.len() - i,
        {
            if !low.less_equal(&rows[i].0.1) || up.less_equal(&rows[i].0.1) {
                proof {
                    let t = rows@[i as int].0.1;
                    assert(low.less_equal_spec(t) == some_at_or_below(lower_view, t));
                    assert(up.less_equal_spec(t) == some_at_or_below(upper_view, t));
                    if valid_parts(rows@, lower_view, upper_view) {
                        assert(some_at_or_below(lower_view, rows@[i as int].0.1)
                            && !some_at_or_below(upper_view, rows@[i as int].0.1));
                    }
                }
                return None;
            }
            i = i + 1;
        }
        proof {
            assert forall|k: int| 0 <= k < upper_view.len() implies some_at_or_below(
                lower_view,
                #[trigger] upper_view[k],
            ) by {
                assert(low.less_equal_spec(up@[k]));
            }
            assert forall|j: int| 0 <= j < rows@.len() implies some_at_or_below(
                lower_view,
                (#[trigger] rows@[j]).0.1,
            ) && !some_at_or_below(upper_view, rows@[j].0.1) by {
                assert(low.less_equal_spec(rows@[j].0.1));
                assert(!up.less_equal_spec(rows@[j].0.1));
            }
        }
        Some(OrdBatch { data: rows, lower: low, upper: up })
    }

    /// The batch of the consolidated pairs `items`, each at the time `time`.
    pub fn from_consolidated(time: T, items: Vec<((K, V), R)>) -> (r: Self)
        requires
            is_consolidated(items@),
        ensures
            r.wf(),
            r.tuples() == at_time(items@, time),
            bounds_at(r.lower_spec(), r.upper_spec(), time),
    {
        let mut data: Vec<(((K, V), T), R)> = Vec::new();
        let mut items = items;
        let ghost given = items@;
        let mut i: usize = 0;
        while i < items.len()
            invariant
                i <= items.len(),
                items@ == given,
                data@ == at_time(given.take(i as int), time),
            decreases items.len() - i,
        {
            let e = &items[i];
            data.push((((e.0.0.dup(), e.0.1.dup()), time.dup()), e.1.dup()));
            proof {
                assert(data@ =~= at_time(given.take(i + 1), time));
            }
            i = i + 1;
        }
        proof {
            assert(given.take(given.len() as int) =~= given);
            lemma_at_time_consolidated(given, time);
        }
        OrdBuilder::finish(time, data)
    }

    /// The tuple at an index.
    pub fn get(&self, i: usize) -> (r: &(((K, V), T), R))
        requires
            self.wf(),
            i < self.tuples().len(),
        ensures
            *r == self.tuples()[i as int],
    {
        &self.data[i]
    }

    /// Returns an equal batch.
    pub fn dup(&self) -> (r: Self)
        requires
            self.wf(),
        ensures
            r.wf(),
            r.tuples() == self.tuples(),
            r.lower_spec()@ == self.lower_spec()@,
            r.upper_spec()@ == self.upper_spec()@,
    {
        let mut data: Vec<(((K, V), T), R)> = Vec::new();
        let mut i: usize = 0;
        while i < self.data.len()
            invariant
                i <= self.data.len(),
                data@ == self.data@.take(i as int),
            decreases self.data.len() - i,
        {
            let e = &self.data[i];
            data.push((((e.0.0.0.dup(), e.0.0.1.dup()), e.0.1.dup()), e.1.dup()));
            proof {
                assert(data@ =~= self.data@.take(i + 1));
            }
            i = i + 1;
        }
        proof {
            assert(self.data@.take(self.data.len() as int) =~= self.data@);
        }
        let lower = self.lower.dup();
        let upper = self.upper.dup();
        proof {
            assert forall|k: int| 0 <= k < upper@.len() implies lower.less_equal_spec(
                #[trigger] upper@[k],
            ) by {
                assert(self.lower.less_equal_spec(self.upper@[k]));
                let j = choose|j: int|
                    0 <= j < self.lower@.len() && (#[trigger] self.lower@[j]).le_spec(&self.upper@[k]);
                assert(lower@[j].le_spec(&upper@[k]));
            }
            assert forall|i: int| 0 <= i < data@.len() implies lower.less_equal_spec(
                (#[trigger] data@[i]).0.1,
            ) && !upper.less_equal_spec(data@[i].0.1) by {
                let t = data@[i].0.1;
                assert(self.lower.less_equal_spec(self.data@[i].0.1));
                let j = choose|j: int|
                    0 <= j < self.lower@.len() && (#[trigger] self.lower@[j]).le_spec(&t);
                assert(lower@[j].le_spec(&t));
                if upper.less_equal_spec(t) {
                    let j2 = choose|j: int| 0 <= j < upper@.len() && (#[trigger] upper@[j]).le_spec(&t);
                    assert(self.upper@[j2].le_spec(&t));
                }
            }
        }
        OrdBatch { data, lower, upper }
    }
}

impl<K: DBData, V: DBData, T: DBTimestamp, R: DBWeight> Clone for OrdBatch<K, V, T, R> {
    fn clone(&self) -> (r: Self)
        ensures
            self.wf() ==> r.wf() && r.tuples() == self.tuples() && r.lower_spec()@
                == self.lower_spec()@ && r.upper_spec()@ == self.upper_spec()@,
    {
        let mut data: Vec<(((K, V), T), R)> = Vec::new();
        let mut i: usize = 0;
        while i < self.data.len()
            invariant
                i <= self.data.len(),
                data@ == self.data@.take(i as int),
            decreases self.data.len() - i,
        {
            let e = &self.data[i];
            data.push((((e.0.0.0.dup(), e.0.0.1.dup()), e.0.1.dup()), e.1.dup()));
            proof {
                assert(data@ =~= self.data@.take(i + 1));
            }
            i = i + 1;
        }
        proof {
            assert(self.data@.take(self.data.len() as int) =~= self.data@);
        }
        let lower = self.lower.dup();
        let upper = self.upper.dup();
        proof {
            if self.wf() {
                assert forall|k: int| 0 <= k < upper@.len() implies lower.less_equal_spec(
                    #[trigger] upper@[k],
                ) by {
                    assert(self.lower.less_equal_spec(self.upper@[k]));
                    let j = choose|j: int|
                        0 <= j < self.lower@.len() && (#[trigger] self.lower@[j]).le_spec(
                            &self.upper@[k],
                        );
                    assert(lower@[j].le_spec(&upper@[k]));
                }
                assert forall|i: int| 0 <= i < data@.len() implies lower.less_equal_spec(
                    (#[trigger] data@[i]).0.1,
                ) && !upper.less_equal_spec(data@[i].0.1) by {
                    let t = data@[i].0.1;
                    assert(self.lower.less_equal_spec(self.data@[i].0.1));
                    let j = choose|j: int|
                        0 <= j < self.lower@.len() && (#[trigger] self.lower@[j]).le_spec(&t);
                    assert(lower@[j].le_spec(&t));
                    if upper.less_equal_spec(t) {
                        let j2 = choose|j: int|
                            0 <= j < upper@.len() && (#[trigger] upper@[j]).le_spec(&t);
                        assert(self.upper@[j2].le_spec(&t));
                    }
                }
            }
        }
        OrdBatch { data, lower, upper }
    }
}

impl<K: DBData, V: DBData, T: DBTimestamp, R: DBWeight> BatchReader for OrdBatch<K, V, T, R> {
    type Key = K;

    type Val = V;

    type Time = T;

    type R = R;

    type Cursor<'s> = OrdCursor<'s, K, V, T, R>;

    closed spec fn wf(&self) -> bool {
        &&& is_consolidated(self.data@)
        &&& bounds_ok(self.lower, self.upper)
        &&& times_within(self.data@, self.lower, self.upper)
    }

    closed spec fn tuples(&self) -> Seq<(((K, V), T), R)> {
        self.data@
    }

    closed spec fn key_count_spec(&self) -> nat {
        distinct_keys(self.data@)
    }

    closed spec fn lower_spec(&self) -> Antichain<T> {
        self.lower
    }

    closed spec fn upper_spec(&self) -> Antichain<T> {
        self.upper
    }

    proof fn lemma_reader_wf(&self) {
    }

    fn cursor(&self) -> (c: Self::Cursor<'_>) {
        OrdCursor::new(&self.data)
    }

    fn key_count(&self) -> (r: usize) {
        let mut n: usize = 0;
        let mut i: usize = 0;
        while i < self.data.len()
            invariant
                i <= self.data.len(),
                n == distinct_keys(self.data@.take(i as int)),
                n <= i,
            decreases self.data.len() - i,
        {
            proof {
                assert(self.data@.take(i + 1).drop_last() =~= self.data@.take(i as int));
            }
            if i == 0 || !self.data[i - 1].0.0.0.same(&self.data[i].0.0.0) {
                n = n + 1;
            }
            i = i + 1;
        }
        proof {
            assert(self.data@.take(self.data.len() as int) =~= self.data@);
        }
        n
    }

    fn len(&self) -> (r: usize)
        ensures
            r == self.tuples().len(),
    {
        self.data.len()
    }

    fn lower(&self) -> (r: &Antichain<T>) {
        &self.lower
    }

    fn upper(&self) -> (r: &Antichain<T>) {
        &self.upper
    }
}

/// Builds an `OrdBatch` from pairs pushed in order.
pub struct OrdBuilder<K, V, T, R> {
    time: T,
    data: Vec<(((K, V), T), R)>,
}

impl<K: DBData, V: DBData, T: DBTimestamp, R: DBWeight> OrdBuilder<K, V, T, R> {
    fn finish(time: T, data: Vec<(((K, V), T), R)>) -> (r: OrdBatch<K, V, T, R>)
        requires
            data@ == at_time(strip_time(data@), time),
            is_consolidated(strip_time(data@)),
        ensures
            r.wf(),
            r.tuples() == data@,
            bounds_at(r.lower_spec(), r.upper_spec(), time),
    {
        let upper = match time.advance() {
            Some(n) => Antichain::from_elem(n),
            None => Antichain::new(),
        };
        let lower = Antichain::from_elem(time);
        proof {
            lemma_at_time_consolidated(strip_time(data@), time);
            T::lemma_advance(time);
            T::lemma_le_reflexive(time);
            assert(lower@[0] == time);
            assert forall|k: int| 0 <= k < upper@.len() implies lower.less_equal_spec(
                #[trigger] upper@[k],
            ) by {
                assert(lower@[0].le_spec(&upper@[k]));
            }
            assert forall|i: int| 0 <= i < data@.len() implies lower.less_equal_spec(
                (#[trigger] data@[i]).0.1,
            ) && !upper.less_equal_spec(data@[i].0.1) by {
                assert(data@[i] == at_time(strip_time(data@), time)[i]);
                assert(lower@[0].le_spec(&time));
            }
        }
        OrdBatch { data, lower, upper }
    }
}

impl<K: DBData, V: DBData, T: DBTimestamp, R: DBWeight> Builder<(K, V), T, R, OrdBatch<K, V, T, R>>
    for OrdBuilder<K, V, T, R> {
    open spec fn key_val_of(item: (K, V)) -> (K, V) {
        item
    }

    closed spec fn wf(&self) -> bool {
        &&& self.data@ == at_time(strip_time(self.data@), self.time)
        &&& is_consolidated(strip_time(self.data@))
    }

    closed spec fn time(&self) -> T {
        self.time
    }

    closed spec fn pushed(&self) -> Seq<((K, V), R)> {
        strip_time(self.data@)
    }

    proof fn lemma_builder_wf(&self) {
    }

    fn new_builder(time: T) -> (b: Self) {
        let b = OrdBuilder { time, data: Vec::new() };
        proof {
            assert(b.data@ =~= at_time(strip_time(b.data@), b.time));
            assert(strip_time(b.data@) =~= Seq::<((K, V), R)>::empty());
        }
        b
    }

    fn with_capacity(time: T, cap: usize) -> (b: Self) {
        let b = OrdBuilder { time, data: Vec::with_capacity(cap) };
        proof {
            assert(b.data@ =~= at_time(strip_time(b.data@), b.time));
            assert(strip_time(b.data@) =~= Seq::<((K, V), R)>::empty());
        }
        b
    }

    fn accepts(&self, element: &((K, V), R)) -> (r: bool) {
        let ghost p = strip_time(self.data@);
        let ghost e = (element.0, element.1);
        let ghost q = p.push(e);
        if element.1.is_zero() {
            proof {
                assert(q[q.len() - 1].1 == R::zero_spec());
            }
            false
        } else if self.data.len() == 0 {
            proof {
                lemma_consolidated_push(p, e);
            }
            true
        } else {
            let last = &self.data[self.data.len() - 1];
            let r = last.0.0.less(&element.0);
            proof {
                assert(p.last() == (last.0.0, last.1));
                if r {
                    lemma_consolidated_push(p, e);
                } else {
                    assert(q[p.len() - 1] == p.last());
                    assert(q[p.len() as int] == e);
                }
            }
            r
        }
    }

    fn push(&mut self, element: ((K, V), R)) {
        let ghost p = strip_time(self.data@);
        let ghost e = (element.0, element.1);
        self.data.push(((element.0, self.time.dup()), element.1));
        proof {
            assert(strip_time(self.data@) =~= p.push(e));
            assert(self.data@ =~= at_time(strip_time(self.data@), self.time));
        }
    }

    fn reserve(&mut self, additional: usize) {
        self.data.reserve(additional);
    }

    fn done(self) -> (r: OrdBatch<K, V, T, R>) {
        Self::finish(self.time, self.data)
    }
}

/// Collects unordered pairs and keeps their consolidated sum.
pub struct OrdBatcher<K, V, T, R> {
    time: T,
    buffer: Vec<((K, V), R)>,
}

impl<K: DBData, V: DBData, T: DBTimestamp, R: DBWeight> Batcher<(K, V), T, R, OrdBatch<K, V, T, R>>
    for OrdBatcher<K, V, T, R> {
    open spec fn key_val_of(item: (K, V)) -> (K, V) {
        item
    }

    closed spec fn wf(&self) -> bool {
        is_consolidated(self.buffer@)
    }

    closed spec fn time(&self) -> T {
        self.time
    }

    closed spec fn buffered(&self) -> Seq<((K, V), R)> {
        self.buffer@
    }

    fn new_batcher(time: T) -> (b: Self) {
        OrdBatcher { time, buffer: Vec::new() }
    }

    fn push_batch(&mut self, batch: &mut Vec<((K, V), R)>) {
        let ghost given = batch@;
        let ghost items = Seq::new(
            given.len(),
            |i: int| (Self::key_val_of(given[i].0), given[i].1),
        );
        proof {
            assert(items =~= batch@);
        }
        let c = consolidate(batch);
        let merged = merge_vecs(&self.buffer, &c);
        proof {
            assert forall|x: (K, V)| #[trigger]
                weight_of(merged@, x) == weight_of(self.buffer@, x).add_spec(&weight_of(items, x)) by {
                assert(weight_of(c@, x) == weight_of(batch@, x));
            }
        }
        self.buffer = merged;
        batch.clear();
    }

    fn push_consolidated_batch(&mut self, batch: &mut Vec<((K, V), R)>) {
        let ghost given = batch@;
        let ghost items = Seq::new(
            given.len(),
            |i: int| (Self::key_val_of(given[i].0), given[i].1),
        );
        proof {
            assert(items =~= batch@);
        }
        let merged = merge_vecs(&self.buffer, batch);
        self.buffer = merged;
        batch.clear();
    }

    fn tuples(&self) -> (r: usize) {
        self.buffer.len()
    }

    fn seal(self) -> (r: OrdBatch<K, V, T, R>) {
        let mut data: Vec<(((K, V), T), R)> = Vec::new();
        let mut i: usize = 0;
        while i < self.buffer.len()
            invariant
                i <= self.buffer.len(),
                data@ == at_time(self.buffer@.take(i as int), self.time),
            decreases self.buffer.len() - i,
        {
            let e = &self.buffer[i];
            data.push((((e.0.0.dup(), e.0.1.dup()), self.time.dup()), e.1.dup()));
            proof {
                assert(data@ =~= at_time(self.buffer@.take(i + 1), self.time));
            }
            i = i + 1;
        }
        proof {
            assert(self.buffer@.take(self.buffer.len() as int) =~= self.buffer@);
            lemma_at_time_consolidated(self.buffer@, self.time);
        }
        OrdBuilder::finish(self.time, data)
    }
}


/// A merge of two `OrdBatch`es in progress.
pub struct OrdMerger<K, V, T, R> {
    merger: VecMerger<((K, V), T), R>,
    lower: Antichain<T>,
    upper: Antichain<T>,
    source1: Ghost<OrdBatch<K, V, T, R>>,
    source2: Ghost<OrdBatch<K, V, T, R>>,
}

impl<K: DBData, V: DBData, T: DBTimestamp, R: DBWeight> Merger<K, V, T, R, OrdBatch<K, V, T, R>>
    for OrdMerger<K, V, T, R> {
    closed spec fn wf(&self) -> bool {
        &&& self.source1@.wf()
        &&& self.source2@.wf()
        &&& self.merger.wf(self.source1@.data@, self.source2@.data@)
        &&& self.lower.wf()
        &&& self.upper.wf()
        &&& bounds_union(
            self.lower,
            self.upper,
            self.source1@.lower,
            self.source1@.upper,
            self.source2@.lower,
            self.source2@.upper,
        )
    }

    closed spec fn source1(&self) -> OrdBatch<K, V, T, R> {
        self.source1@
    }

    closed spec fn source2(&self) -> OrdBatch<K, V, T, R> {
        self.source2@
    }

    closed spec fn remaining(&self) -> nat {
        self.merger.remaining(self.source1@.data@, self.source2@.data@) as nat
    }

    fn new_merger(source1: &OrdBatch<K, V, T, R>, source2: &OrdBatch<K, V, T, R>) -> (m: Self) {
        let merger = VecMerger::new(&source1.data, &source2.data);
        let lower = source1.lower.meet(&source2.lower);
        let upper = source1.upper.join(&source2.upper);
        OrdMerger { merger, lower, upper, source1: Ghost(*source1), source2: Ghost(*source2) }
    }

    fn work(
        &mut self,
        source1: &OrdBatch<K, V, T, R>,
        source2: &OrdBatch<K, V, T, R>,
        fuel: &mut isize,
    ) {
        self.merger.work(&source1.data, &source2.data, fuel);
    }

    fn done(self) -> (r: OrdBatch<K, V, T, R>) {
        let ghost a = self.source1@.data@;
        let ghost b = self.source2@.data@;
        proof {
            self.merger.lemma_complete(a, b);
        }
        let data = self.merger.done();
        let lower = self.lower;
        let upper = self.upper;
        proof {
            assert forall|i: int| 0 <= i < data@.len() implies lower.less_equal_spec(
                (#[trigger] data@[i]).0.1,
            ) && !upper.less_equal_spec(data@[i].0.1) by {
                let x = data@[i].0;
                lemma_weight_of_sorted_at(data@, i);
                assert(weight_of(data@, x) == weight_of(a, x).add_spec(&weight_of(b, x)));
                if weight_of(a, x) != R::zero_spec() {
                    lemma_weight_needs_item(a, x);
                    let j = choose|j: int| 0 <= j < a.len() && (#[trigger] a[j]).0 == x;
                    assert(self.source1@.lower.less_equal_spec(a[j].0.1));
                    assert(lower.less_equal_spec(x.1) == (self.source1@.lower.less_equal_spec(x.1)
                        || self.source2@.lower.less_equal_spec(x.1)));
                    assert(upper.less_equal_spec(x.1) == (self.source1@.upper.less_equal_spec(x.1)
                        && self.source2@.upper.less_equal_spec(x.1)));
                } else {
                    lemma_zero_add(weight_of(b, x));
                    lemma_weight_needs_item(b, x);
                    let j = choose|j: int| 0 <= j < b.len() && (#[trigger] b[j]).0 == x;
                    assert(self.source2@.lower.less_equal_spec(b[j].0.1));
                    assert(lower.less_equal_spec(x.1) == (self.source1@.lower.less_equal_spec(x.1)
                        || self.source2@.lower.less_equal_spec(x.1)));
                    assert(upper.less_equal_spec(x.1) == (self.source1@.upper.less_equal_spec(x.1)
                        && self.source2@.upper.less_equal_spec(x.1)));
                }
            }
            assert forall|k: int| 0 <= k < upper@.len() implies lower.less_equal_spec(
                #[trigger] upper@[k],
            ) by {
                let u = upper@[k];
                T::lemma_le_reflexive(u);
                assert(upper.less_equal_spec(u));
                assert(upper.less_equal_spec(u) == (self.source1@.upper.less_equal_spec(u)
                    && self.source2@.upper.less_equal_spec(u)));
                Antichain::lemma_dominated(self.source1@.upper, self.source1@.lower, u);
                assert(lower.less_equal_spec(u) == (self.source1@.lower.less_equal_spec(u)
                    || self.source2@.lower.less_equal_spec(u)));
            }
        }
        OrdBatch { data, lower, upper }
    }
}

impl<K: DBData, V: DBData, T: DBTimestamp, R: DBWeight> Batch for OrdBatch<K, V, T, R> {
    type Item = (K, V);

    type Batcher = OrdBatcher<K, V, T, R>;

    type Builder = OrdBuilder<K, V, T, R>;

    type Merger = OrdMerger<K, V, T, R>;

    proof fn lemma_batch_wf(&self) {
    }

    fn item_from(key: K, val: V) -> (r: (K, V)) {
        let r = (key, val);
        assert(<OrdBatcher<K, V, T, R> as Batcher<(K, V), T, R, OrdBatch<K, V, T, R>>>::key_val_of(r)
            == r);
        assert(<OrdBuilder<K, V, T, R> as Builder<(K, V), T, R, OrdBatch<K, V, T, R>>>::key_val_of(r)
            == r);
        r
    }

    fn recede_to(&mut self, frontier: &T) {
        let mut mapped: Vec<(((K, V), T), R)> = Vec::new();
        let mut i: usize = 0;
        while i < self.data.len()
            invariant
                i <= self.data.len(),
                mapped@ == receded(self.data@.take(i as int), *frontier),
            decreases self.data.len() - i,
        {
            let e = &self.data[i];
            mapped.push((((e.0.0.0.dup(), e.0.0.1.dup()), e.0.1.meet(frontier)), e.1.dup()));
            proof {
                assert(mapped@ =~= receded(self.data@.take(i + 1), *frontier));
            }
            i = i + 1;
        }
        proof {
            assert(self.data@.take(self.data.len() as int) =~= self.data@);
        }
        let data = consolidate(&mapped);
        let lower = self.lower.recede_to(frontier);
        proof {
            let olds = self.data@;
            lemma_receded_times(data@, olds, *frontier);
            assert forall|i: int| 0 <= i < data@.len() implies lower.less_equal_spec(
                (#[trigger] data@[i]).0.1,
            ) && !self.upper.less_equal_spec(data@[i].0.1) by {
                let x = data@[i].0;
                lemma_weight_of_sorted_at(data@, i);
                assert(weight_of(data@, x) == weight_of(mapped@, x));
                lemma_weight_needs_item(mapped@, x);
                let j = choose|j: int| 0 <= j < mapped@.len() && (#[trigger] mapped@[j]).0 == x;
                let t0 = olds[j].0.1;
                assert(x.1 == t0.meet_spec(frontier));
                assert(self.lower.less_equal_spec(olds[j].0.1));
                let l = choose|l: int|
                    0 <= l < self.lower@.len() && (#[trigger] self.lower@[l]).le_spec(&t0);
                let le = self.lower@[l];
                T::lemma_meet_glb(le, *frontier, le);
                T::lemma_meet_glb(t0, *frontier, le.meet_spec(frontier));
                T::lemma_le_transitive(le.meet_spec(frontier), le, t0);
                assert(le.meet_spec(frontier).le_spec(&x.1));
                assert(lower.less_equal_spec(x.1));
                if self.upper.less_equal_spec(x.1) {
                    let u = choose|u: int|
                        0 <= u < self.upper@.len() && (#[trigger] self.upper@[u]).le_spec(&x.1);
                    T::lemma_le_transitive(self.upper@[u], x.1, t0);
                    assert(self.upper.less_equal_spec(t0));
                }
            }
            assert forall|k: int| 0 <= k < self.upper@.len() implies lower.less_equal_spec(
                #[trigger] self.upper@[k],
            ) by {
                let u = self.upper@[k];
                assert(self.lower.less_equal_spec(u));
                let l = choose|l: int|
                    0 <= l < self.lower@.len() && (#[trigger] self.lower@[l]).le_spec(&u);
                let le = self.lower@[l];
                T::lemma_meet_glb(le, *frontier, le);
                T::lemma_le_transitive(le.meet_spec(frontier), le, u);
                assert(le.meet_spec(frontier).le_spec(&u));
            }
        }
        self.data = data;
        self.lower = lower;
    }
}


impl<K: DBData, V: DBData, T: DBTimestamp, R: DBWeight> OrdBatch<K, V, T, R> {
    /// The share of the worker `worker`, of `workers` many, in the batch:
    /// the tuples whose keys go to that worker, over the interval of the
    /// batch.
    pub fn select(&self, workers: usize, worker: usize) -> (r: Self)
        requires
            self.wf(),
            workers > 0,
        ensures
            r.wf(),
            r.lower_spec()@ == self.lower_spec()@,
            r.upper_spec()@ == self.upper_spec()@,
            forall|x: ((K, V), T)| #[trigger]
                weight_of(r.tuples(), x) == if shard_of(x.0.0.hash_spec(), workers) == worker {
                    weight_of(self.tuples(), x)
                } else {
                    R::zero_spec()
                },
    {
        let mut data: Vec<(((K, V), T), R)> = Vec::new();
        let mut i: usize = 0;
        while i < self.data.len()
            invariant
                i <= self.data.len(),
                workers > 0,
                is_consolidated(self.data@),
                is_consolidated(data@),
                forall|j: int, n: int|
                    0 <= j < data@.len() && i <= n < self.data@.len() ==> (#[trigger] data@[j]).0.lt_spec(
                        &(#[trigger] self.data@[n]).0,
                    ),
                forall|x: ((K, V), T)| #[trigger]
                    weight_of(data@, x) == if shard_of(x.0.0.hash_spec(), workers) == worker {
                        weight_of(self.data@.take(i as int), x)
                    } else {
                        R::zero_spec()
                    },
            decreases self.data.len() - i,
        {
            let ghost before = data@;
            let e = &self.data[i];
            let ghost ev = self.data@[i as int];
            proof {
                assert(self.data@.take(i + 1) =~= self.data@.take(i as int).push(ev));
            }
            let mine = shard_index(e.0.0.0.hash_code(), workers) == worker;
            if mine {
                proof {
                    if before.len() > 0 {
                        assert(before[before.len() - 1].0.lt_spec(&ev.0));
                    }
                    lemma_consolidated_push(before, ev);
                }
                data.push((((e.0.0.0.dup(), e.0.0.1.dup()), e.0.1.dup()), e.1.dup()));
            }
            proof {
                let after = data@;
                assert forall|x: ((K, V), T)| #[trigger]
                    weight_of(after, x) == if shard_of(x.0.0.hash_spec(), workers) == worker {
                        weight_of(self.data@.take(i + 1), x)
                    } else {
                        R::zero_spec()
                    } by {
                    lemma_weight_of_push(self.data@.take(i as int), ev, x);
                    if mine {
                        lemma_weight_of_push(before, ev, x);
                        lemma_zero_add(ev.1);
                    }
                }
                assert forall|j: int, n: int|
                    0 <= j < after.len() && i + 1 <= n < self.data@.len() implies (#[trigger] after[j]).0.lt_spec(
                    &(#[trigger] self.data@[n]).0,
                ) by {
                    if j < before.len() {
                        assert(after[j] == before[j]);
                    } else {
                        assert(self.data@[i as int].0.lt_spec(&self.data@[n].0));
                    }
                }
            }
            i = i + 1;
        }
        proof {
            assert(self.data@.take(self.data.len() as int) =~= self.data@);
        }
        let copy = self.dup();
        proof {
            assert forall|j: int| 0 <= j < data@.len() implies copy.lower.less_equal_spec(
                (#[trigger] data@[j]).0.1,
            ) && !copy.upper.less_equal_spec(data@[j].0.1) by {
                let x = data@[j].0;
                lemma_weight_of_sorted_at(data@, j);
                lemma_weight_needs_item(self.data@, x);
                let n = choose|n: int| 0 <= n < self.data@.len() && (#[trigger] self.data@[n]).0 == x;
                assert(copy.data@[n].0 == x);
                assert(copy.lower.less_equal_spec(copy.data@[n].0.1));
            }
        }
        OrdBatch { data, lower: copy.lower, upper: copy.upper }
    }

    /// Splits the batch into the shares of `workers` workers.
    pub fn shard(&self, workers: usize) -> (r: Vec<Self>)
        requires
            self.wf(),
            workers > 0,
        ensures
            r@.len() == workers,
            forall|i: int|
                0 <= i < r@.len() ==> (#[trigger] r@[i]).wf() && r@[i].lower_spec()@
                    == self.lower_spec()@ && r@[i].upper_spec()@ == self.upper_spec()@,
            is_sharding(r@, self.tuples()),
    {
        let mut shards: Vec<Self> = Vec::new();
        let mut w: usize = 0;
        while w < workers
            invariant
                w <= workers,
                workers > 0,
                self.wf(),
                shards@.len() == w,
                forall|i: int|
                    0 <= i < shards@.len() ==> (#[trigger] shards@[i]).wf() && shards@[i].lower_spec()@
                        == self.lower_spec()@ && shards@[i].upper_spec()@ == self.upper_spec()@,
                forall|i: int, x: ((K, V), T)|
                    0 <= i < shards@.len() ==> #[trigger] weight_of(shards@[i].tuples(), x)
                        == if shard_of(x.0.0.hash_spec(), workers) == i {
                        weight_of(self.tuples(), x)
                    } else {
                        R::zero_spec()
                    },
            decreases workers - w,
        {
            let part = self.select(workers, w);
            shards.push(part);
            w = w + 1;
        }
        shards
    }

    /// Merges the batches, the first one first, over the union of their
    /// intervals.
    pub fn gather(batches: &Vec<Self>) -> (r: Self)
        requires
            batches@.len() > 0,
            forall|i: int| 0 <= i < batches@.len() ==> (#[trigger] batches@[i]).wf(),
        ensures
            r.wf(),
            forall|x: ((K, V), T)| #[trigger]
                weight_of(r.tuples(), x) == total_weight(batches@, batches@.len() as int, x),
            forall|t: T| #[trigger]
                r.lower_spec().less_equal_spec(t) == some_lower(batches@, batches@.len() as int, t),
            forall|t: T| #[trigger]
                r.upper_spec().less_equal_spec(t) == all_upper(batches@, batches@.len() as int, t),
    {
        let mut acc = batches[0].dup();
        let mut i: usize = 1;
        proof {
            assert forall|x: ((K, V), T)| #[trigger]
                weight_of(acc.tuples(), x) == total_weight(batches@, 1, x) by {
                reveal_with_fuel(total_weight, 2);
                lemma_zero_add(weight_of(batches@[0].tuples(), x));
            }
            assert forall|t: T| #[trigger]
                acc.lower_spec().less_equal_spec(t) == some_lower(batches@, 1, t) by {
                assert(acc.lower_spec().less_equal_spec(t) == batches@[0].lower_spec().less_equal_spec(
                    t,
                ));
            }
            assert forall|t: T| #[trigger]
                acc.upper_spec().less_equal_spec(t) == all_upper(batches@, 1, t) by {
                assert(acc.upper_spec().less_equal_spec(t) == batches@[0].upper_spec().less_equal_spec(
                    t,
                ));
            }
        }
        while i < batches.len()
            invariant
                1 <= i <= batches@.len(),
                forall|n: int| 0 <= n < batches@.len() ==> (#[trigger] batches@[n]).wf(),
                acc.wf(),
                forall|x: ((K, V), T)| #[trigger]
                    weight_of(acc.tuples(), x) == total_weight(batches@, i as int, x),
                forall|t: T| #[trigger]
                    acc.lower_spec().less_equal_spec(t) == some_lower(batches@, i as int, t),
                forall|t: T| #[trigger]
                    acc.upper_spec().less_equal_spec(t) == all_upper(batches@, i as int, t),
            decreases batches@.len() - i,
        {
            let ghost before = acc;
            assert(batches@[i as int].wf());
            acc = acc.merge(&batches[i]);
            proof {
                assert forall|x: ((K, V), T)| #[trigger]
                    weight_of(acc.tuples(), x) == total_weight(batches@, i + 1, x) by {
                    assert(weight_of(before.tuples(), x) == total_weight(batches@, i as int, x));
                    assert(weight_of(acc.tuples(), x) == weight_of(before.tuples(), x).add_spec(
                        &weight_of(batches@[i as int].tuples(), x),
                    ));
                }
                assert forall|t: T| #[trigger]
                    acc.lower_spec().less_equal_spec(t) == some_lower(batches@, i + 1, t) by {
                    assert(acc.lower_spec().less_equal_spec(t) == (
                    before.lower_spec().less_equal_spec(t) || batches@[i as int].lower_spec().less_equal_spec(
                        t,
                    )));
                    assert(before.lower_spec().less_equal_spec(t) == some_lower(
                        batches@,
                        i as int,
                        t,
                    ));
                    if some_lower(batches@, i + 1, t) {
                        let n = choose|n: int|
                            0 <= n < i + 1 && (#[trigger] batches@[n]).lower_spec().less_equal_spec(t);
                        if n < i {
                            assert(some_lower(batches@, i as int, t));
                        }
                    }
                }
                assert forall|t: T| #[trigger]
                    acc.upper_spec().less_equal_spec(t) == all_upper(batches@, i + 1, t) by {
                    assert(acc.upper_spec().less_equal_spec(t) == (
                    before.upper_spec().less_equal_spec(t) && batches@[i as int].upper_spec().less_equal_spec(
                        t,
                    )));
                    assert(before.upper_spec().less_equal_spec(t) == all_upper(batches@, i as int, t));
                    if all_upper(batches@, i + 1, t) {
                        assert(batches@[i as int].upper_spec().less_equal_spec(t));
                    }
                }
            }
            i = i + 1;
        }
        acc
    }

    /// Splits the batch into the shares of `workers` workers and merges the
    /// shares again: the tuples of the batch.
    pub fn exchange(&self, workers: usize) -> (r: Self)
        requires
            self.wf(),
            workers > 0,
        ensures
            r.wf(),
            r.tuples() == self.tuples(),
            r.lower_spec().same_spec(&self.lower_spec()),
            r.upper_spec().same_spec(&self.upper_spec()),
    {
        let shards = self.shard(workers);
        let r = Self::gather(&shards);
        proof {
            assert forall|x: ((K, V), T)| #[trigger]
                weight_of(r.tuples(), x) == weight_of(self.tuples(), x) by {
                lemma_shards_sum(shards@, self.tuples(), shards@.len() as int, x);
                assert(shard_of(x.0.0.hash_spec(), workers) < workers);
            }
            lemma_canonical(r.tuples(), self.tuples());
            assert forall|t: T| #[trigger]
                r.lower_spec().less_equal_spec(t) == self.lower_spec().less_equal_spec(t) by {
                assert(shards@[0].lower_spec().less_equal_spec(t) == self.lower_spec().less_equal_spec(
                    t,
                ));
                if some_lower(shards@, shards@.len() as int, t) {
                    let n = choose|n: int|
                        0 <= n < shards@.len() && (#[trigger] shards@[n]).lower_spec().less_equal_spec(
                            t,
                        );
                    assert(shards@[n].lower_spec()@ == self.lower_spec()@);
                }
            }
            assert forall|t: T| #[trigger]
                r.upper_spec().less_equal_spec(t) == self.upper_spec().less_equal_spec(t) by {
                assert(shards@[0].upper_spec().less_equal_spec(t) == self.upper_spec().less_equal_spec(
                    t,
                ));
                if self.upper_spec().less_equal_spec(t) {
                    assert forall|n: int| 0 <= n < shards@.len() implies (#[trigger] shards@[n]).upper_spec().less_equal_spec(
                        t,
                    ) by {
                        assert(shards@[n].upper_spec()@ == self.upper_spec()@);
                    }
                }
            }
        }
        r
    }
}

impl<K: DBData, V: DBData, T: DBTimestamp, R: ZRingValue> OrdBatch<K, V, T, R> {
    /// The batch with each weight replaced by its inverse, over the same
    /// interval.
    pub fn neg(&self) -> (r: Self)
        requires
            self.wf(),
        ensures
            r.wf(),
            r.tuples() == negated(self.tuples()),
            is_negation(r.tuples(), self.tuples()),
            r.lower_spec()@ == self.lower_spec()@,
            r.upper_spec()@ == self.upper_spec()@,
    {
        let data = negate_vec(&self.data);
        let copy = self.dup();
        proof {
            assert forall|i: int| 0 <= i < data@.len() implies copy.lower.less_equal_spec(
                (#[trigger] data@[i]).0.1,
            ) && !copy.upper.less_equal_spec(data@[i].0.1) by {
                assert(data@[i].0 == copy.data@[i].0);
                assert(copy.lower.less_equal_spec(copy.data@[i].0.1));
            }
        }
        OrdBatch { data, lower: copy.lower, upper: copy.upper }
    }
}

impl<K: DBData, V: DBData, T: DBTimestamp, R: ZRingValue> OrdBatch<K, V, T, R> {
    /// The batch with each weight multiplied by `w`, over the same interval;
    /// tuples whose weight becomes zero are left out.
    pub fn scale(&self, w: &R) -> (r: Self)
        requires
            self.wf(),
        ensures
            r.wf(),
            is_scaled(r.tuples(), self.tuples(), *w),
            r.lower_spec()@ == self.lower_spec()@,
            r.upper_spec()@ == self.upper_spec()@,
    {
        let data = scale_vec(&self.data, w);
        let copy = self.dup();
        proof {
            assert forall|i: int| 0 <= i < data@.len() implies copy.lower.less_equal_spec(
                (#[trigger] data@[i]).0.1,
            ) && !copy.upper.less_equal_spec(data@[i].0.1) by {
                let x = data@[i].0;
                lemma_weight_of_sorted_at(data@, i);
                assert(weight_of(data@, x) == weight_of(self.data@, x).mul_spec(w));
                if weight_of(self.data@, x) == R::zero_spec() {
                    crate::algebra::lemma_mul_zero(*w);
                }
                lemma_weight_needs_item(self.data@, x);
                let n = choose|n: int| 0 <= n < self.data@.len() && (#[trigger] self.data@[n]).0 == x;
                assert(copy.data@[n].0 == x);
                assert(copy.lower.less_equal_spec(copy.data@[n].0.1));
            }
        }
        OrdBatch { data, lower: copy.lower, upper: copy.upper }
    }
}

/// A batch without times is zero when it holds no tuple.
impl<B: Batch<Time = ()>> HasZero for B {
    open spec fn is_zero_spec(&self) -> bool {
        self.tuples().len() == 0
    }

    open spec fn zero_checkable(&self) -> bool {
        self.wf()
    }

    fn zero() -> (r: Self) {
        Self::empty(())
    }

    fn is_zero(&self) -> (r: bool) {
        self.is_empty()
    }
}


} // verus!
