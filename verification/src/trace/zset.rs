//! Z-sets of bare keys.
//!
//! An `OrdZSet` is a batch without values and without times.  Its items are
//! its keys: what is pushed into its builder or batcher is a key with a
//! weight.

use vstd::prelude::*;
use crate::time::Antichain;
use crate::trace::consolidation::{is_consolidated, is_sum, same_weights};
use crate::trace::ord::{OrdBatch, OrdBatcher, OrdBuilder, OrdCursor, OrdMerger};
use crate::trace::{
    at_time,
    bounds_at,
    strip_time,
    Batch,
    BatchReader,
    Batcher,
    Builder,
    DBData,
    DBWeight,
    Merger,
};

verus! {

/// A batch of weighted keys.
pub struct OrdZSet<K, R> {
    inner: OrdBatch<K, (), (), R>,
}

/// The keys of `items`, each with the value `()`.
pub open spec fn with_unit<K, R>(items: Seq<(K, R)>) -> Seq<((K, ()), R)> {
    Seq::new(items.len(), |i: int| ((items[i].0, ()), items[i].1))
}

/// Gives each key the value `()`.
fn pair_with_unit<K: DBData, R: DBWeight>(items: &Vec<(K, R)>) -> (r: Vec<((K, ()), R)>)
    ensures
        r@ == with_unit(items@),
{
    let mut r: Vec<((K, ()), R)> = Vec::new();
    let mut i: usize = 0;
    while i < items.len()
        invariant
            i <= items.len(),
            r@ == with_unit(items@.take(i as int)),
        decreases items.len() - i,
    {
        r.push(((items[i].0.dup(), ()), items[i].1.dup()));
        proof {
            assert(r@ =~= with_unit(items@.take(i + 1)));
        }
        i = i + 1;
    }
    proof {
        assert(items@.take(items.len() as int) =~= items@);
    }
    r
}

impl<K: DBData, R: DBWeight> OrdZSet<K, R> {
    /// The batch of keys and values `()` that holds the keys.
    pub closed spec fn indexed(&self) -> OrdBatch<K, (), (), R> {
        self.inner
    }

    /// Assemble an unordered vector of weighted keys into a batch.
    pub fn from_keys(time: (), keys: Vec<(K, R)>) -> (r: Self)
        ensures
            r.wf(),
            is_consolidated(strip_time(r.tuples())),
            same_weights(strip_time(r.tuples()), with_unit(keys@)),
    {
        let pairs = pair_with_unit(&keys);
        let inner = OrdBatch::from_tuples(time, pairs);
        proof {
            let items = Seq::new(
                pairs@.len(),
                |i: int|
                    (
                        <OrdBatcher<K, (), (), R> as Batcher<
                            (K, ()),
                            (),
                            R,
                            OrdBatch<K, (), (), R>,
                        >>::key_val_of(pairs@[i].0),
                        pairs@[i].1,
                    ),
            );
            assert(items =~= with_unit(keys@));
        }
        OrdZSet { inner }
    }

    /// The key and weight at an index.
    pub fn get(&self, i: usize) -> (r: (&K, &R))
        requires
            self.wf(),
            i < self.tuples().len(),
        ensures
            *r.0 == self.tuples()[i as int].0.0.0,
            *r.1 == self.tuples()[i as int].1,
    {
        let e = self.inner.get(i);
        (&e.0.0.0, &e.1)
    }
}

impl<K: DBData, R: DBWeight> Clone for OrdZSet<K, R> {
    fn clone(&self) -> (r: Self)
        ensures
            self.wf() ==> r.wf() && r.tuples() == self.tuples(),
    {
        OrdZSet { inner: self.inner.clone() }
    }
}

impl<K: DBData, R: DBWeight> BatchReader for OrdZSet<K, R> {
    type Key = K;

    type Val = ();

    type Time = ();

    type R = R;

    type Cursor<'s> = OrdCursor<'s, K, (), (), R>;

    closed spec fn wf(&self) -> bool {
        self.inner.wf()
    }

    closed spec fn tuples(&self) -> Seq<(((K, ()), ()), R)> {
        self.inner.tuples()
    }

    closed spec fn key_count_spec(&self) -> nat {
        self.inner.key_count_spec()
    }

    closed spec fn lower_spec(&self) -> Antichain<()> {
        self.inner.lower_spec()
    }

    closed spec fn upper_spec(&self) -> Antichain<()> {
        self.inner.upper_spec()
    }

    proof fn lemma_reader_wf(&self) {
        self.inner.lemma_reader_wf();
    }

    fn cursor(&self) -> (c: Self::Cursor<'_>) {
        self.inner.cursor()
    }

    fn key_count(&self) -> (r: usize) {
        self.inner.key_count()
    }

    fn len(&self) -> (r: usize)
        ensures
            r == self.tuples().len(),
    {
        self.inner.len()
    }

    fn lower(&self) -> (r: &Antichain<()>) {
        self.inner.lower()
    }

    fn upper(&self) -> (r: &Antichain<()>) {
        self.inner.upper()
    }
}

/// Builds an `OrdZSet` from keys pushed in order.
pub struct OrdZSetBuilder<K, R> {
    inner: OrdBuilder<K, (), (), R>,
}

impl<K: DBData, R: DBWeight> Builder<K, (), R, OrdZSet<K, R>> for OrdZSetBuilder<K, R> {
    open spec fn key_val_of(item: K) -> (K, ()) {
        (item, ())
    }

    closed spec fn wf(&self) -> bool {
        self.inner.wf()
    }

    closed spec fn time(&self) -> () {
        self.inner.time()
    }

    closed spec fn pushed(&self) -> Seq<((K, ()), R)> {
        self.inner.pushed()
    }

    proof fn lemma_builder_wf(&self) {
        self.inner.lemma_builder_wf();
    }

    fn new_builder(time: ()) -> (b: Self) {
        OrdZSetBuilder { inner: OrdBuilder::new_builder(time) }
    }

    fn with_capacity(time: (), cap: usize) -> (b: Self) {
        OrdZSetBuilder { inner: OrdBuilder::with_capacity(time, cap) }
    }

    fn accepts(&self, element: &(K, R)) -> (r: bool) {
        let pair = ((element.0.dup(), ()), element.1.dup());
        proof {
            assert(<OrdBuilder<K, (), (), R> as Builder<
                (K, ()),
                (),
                R,
                OrdBatch<K, (), (), R>,
            >>::key_val_of(pair.0) == (element.0, ()));
        }
        self.inner.accepts(&pair)
    }

    fn push(&mut self, element: (K, R)) {
        proof {
            assert(<OrdBuilder<K, (), (), R> as Builder<
                (K, ()),
                (),
                R,
                OrdBatch<K, (), (), R>,
            >>::key_val_of((element.0, ())) == (element.0, ()));
        }
        self.inner.push(((element.0, ()), element.1));
    }

    fn reserve(&mut self, additional: usize) {
        self.inner.reserve(additional);
    }

    fn done(self) -> (r: OrdZSet<K, R>) {
        OrdZSet { inner: self.inner.done() }
    }
}

/// Collects unordered keys and keeps their consolidated sum.
pub struct OrdZSetBatcher<K, R> {
    inner: OrdBatcher<K, (), (), R>,
}

impl<K: DBData, R: DBWeight> Batcher<K, (), R, OrdZSet<K, R>> for OrdZSetBatcher<K, R> {
    open spec fn key_val_of(item: K) -> (K, ()) {
        (item, ())
    }

    closed spec fn wf(&self) -> bool {
        self.inner.wf()
    }

    closed spec fn time(&self) -> () {
        self.inner.time()
    }

    closed spec fn buffered(&self) -> Seq<((K, ()), R)> {
        self.inner.buffered()
    }

    fn new_batcher(time: ()) -> (b: Self) {
        OrdZSetBatcher { inner: OrdBatcher::new_batcher(time) }
    }

    fn push_batch(&mut self, batch: &mut Vec<(K, R)>) {
        let ghost given = batch@;
        let mut pairs = pair_with_unit(batch);
        proof {
            let inner_items = Seq::new(
                pairs@.len(),
                |i: int|
                    (
                        <OrdBatcher<K, (), (), R> as Batcher<
                            (K, ()),
                            (),
                            R,
                            OrdBatch<K, (), (), R>,
                        >>::key_val_of(pairs@[i].0),
                        pairs@[i].1,
                    ),
            );
            let items = Seq::new(
                given.len(),
                |i: int| (Self::key_val_of(given[i].0), given[i].1),
            );
            assert(inner_items =~= items);
        }
        self.inner.push_batch(&mut pairs);
        batch.clear();
    }

    fn push_consolidated_batch(&mut self, batch: &mut Vec<(K, R)>) {
        let ghost given = batch@;
        let mut pairs = pair_with_unit(batch);
        proof {
            let inner_items = Seq::new(
                pairs@.len(),
                |i: int|
                    (
                        <OrdBatcher<K, (), (), R> as Batcher<
                            (K, ()),
                            (),
                            R,
                            OrdBatch<K, (), (), R>,
                        >>::key_val_of(pairs@[i].0),
                        pairs@[i].1,
                    ),
            );
            let items = Seq::new(
                given.len(),
                |i: int| (Self::key_val_of(given[i].0), given[i].1),
            );
            assert(inner_items =~= items);
        }
        self.inner.push_consolidated_batch(&mut pairs);
        batch.clear();
    }

    fn tuples(&self) -> (r: usize) {
        self.inner.tuples()
    }

    fn seal(self) -> (r: OrdZSet<K, R>) {
        OrdZSet { inner: self.inner.seal() }
    }
}

/// A merge of two `OrdZSet`s in progress.
pub struct OrdZSetMerger<K, R> {
    inner: OrdMerger<K, (), (), R>,
}

impl<K: DBData, R: DBWeight> Merger<K, (), (), R, OrdZSet<K, R>> for OrdZSetMerger<K, R> {
    closed spec fn wf(&self) -> bool {
        self.inner.wf()
    }

    closed spec fn source1(&self) -> OrdZSet<K, R> {
        OrdZSet { inner: self.inner.source1() }
    }

    closed spec fn source2(&self) -> OrdZSet<K, R> {
        OrdZSet { inner: self.inner.source2() }
    }

    closed spec fn remaining(&self) -> nat {
        self.inner.remaining()
    }

    fn new_merger(source1: &OrdZSet<K, R>, source2: &OrdZSet<K, R>) -> (m: Self) {
        OrdZSetMerger { inner: OrdMerger::new_merger(&source1.inner, &source2.inner) }
    }

    fn work(&mut self, source1: &OrdZSet<K, R>, source2: &OrdZSet<K, R>, fuel: &mut isize) {
        self.inner.work(&source1.inner, &source2.inner, fuel);
    }

    fn done(self) -> (r: OrdZSet<K, R>) {
        OrdZSet { inner: self.inner.done() }
    }
}

impl<K: DBData, R: DBWeight> Batch for OrdZSet<K, R> {
    type Item = K;

    type Batcher = OrdZSetBatcher<K, R>;

    type Builder = OrdZSetBuilder<K, R>;

    type Merger = OrdZSetMerger<K, R>;

    proof fn lemma_batch_wf(&self) {
        self.inner.lemma_batch_wf();
    }

    fn item_from(key: K, val: ()) -> (r: K) {
        assert(<OrdZSetBatcher<K, R> as Batcher<K, (), R, OrdZSet<K, R>>>::key_val_of(key) == (
            key,
            val,
        ));
        assert(<OrdZSetBuilder<K, R> as Builder<K, (), R, OrdZSet<K, R>>>::key_val_of(key) == (
            key,
            val,
        ));
        key
    }

    fn recede_to(&mut self, frontier: &()) {
        self.inner.recede_to(frontier);
    }
}

} // verus!
