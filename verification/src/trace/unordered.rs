//! Batches that hold their tuples in the order in which they came.
//!
//! An unordered batch takes the weighted records that are pushed into it for
//! one time, and gives them to a sorted batch when it is sealed.  It is the
//! accumulator behind an input: records are pushed between two steps, and the
//! step seals what has come.

use vstd::prelude::*;
use crate::time::{Antichain, Timestamp};
use crate::trace::consolidation::{is_consolidated, same_weights};
use crate::trace::ord::OrdBatch;
use crate::trace::{
    at_time,
    bounds_at,
    bounds_ok,
    strip_time,
    Batch,
    BatchReader,
    Batcher,
    DBData,
    DBTimestamp,
    DBWeight,
    UnorderedBatchReader,
};

verus! {

/// A batch of weighted `(key, val)` pairs at one time, in the order in which
/// they were pushed.
pub struct UnorderedBatch<K, V, T, R> {
    time: T,
    rows: Vec<((K, V), R)>,
    tuples: Vec<(((K, V), T), R)>,
    lower: Antichain<T>,
    upper: Antichain<T>,
}

impl<K: DBData, V: DBData, T: DBTimestamp, R: DBWeight> UnorderedBatch<K, V, T, R> {
    /// The time of the tuples.
    pub closed spec fn time(&self) -> T {
        self.time
    }

    /// The pairs pushed, in the order in which they were pushed.
    pub closed spec fn pushed(&self) -> Seq<((K, V), R)> {
        self.rows@
    }

    /// An empty batch for the time `time`.
    pub fn new(time: T) -> (r: Self)
        ensures
            r.valid(),
            r.time() == time,
            r.pushed().len() == 0,
    {
        let upper = match time.advance() {
            Some(n) => Antichain::from_elem(n),
            None => Antichain::new(),
        };
        let lower = Antichain::from_elem(time.dup());
        proof {
            T::lemma_advance(time);
            assert(lower@[0] == time);
            assert forall|k: int| 0 <= k < upper@.len() implies lower.less_equal_spec(
                #[trigger] upper@[k],
            ) by {
                assert(lower@[0].le_spec(&upper@[k]));
            }
        }
        let r = UnorderedBatch { time, rows: Vec::new(), tuples: Vec::new(), lower, upper };
        proof {
            assert(r.tuples@ =~= at_time(r.rows@, r.time));
        }
        r
    }

    /// Adds the pair of `key` and `val` with the weight `weight`.
    pub fn push(&mut self, key: K, val: V, weight: R)
        requires
            old(self).valid(),
        ensures
            final(self).valid(),
            final(self).time() == old(self).time(),
            final(self).pushed() == old(self).pushed().push(((key, val), weight)),
    {
        self.tuples.push((((key.dup(), val.dup()), self.time.dup()), weight.dup()));
        self.rows.push(((key, val), weight));
        proof {
            assert(self.tuples@ =~= at_time(self.rows@, self.time));
            T::lemma_le_reflexive(self.time);
            assert(self.lower@[0].le_spec(&self.time));
            T::lemma_advance(self.time);
        }
    }

    /// Adds the pairs of `rows`, in their order, and leaves `rows` empty.
    pub fn append(&mut self, rows: &mut Vec<((K, V), R)>)
        requires
            old(self).valid(),
        ensures
            final(self).valid(),
            final(self).time() == old(self).time(),
            final(self).pushed() == old(self).pushed() + old(rows)@,
            final(rows)@.len() == 0,
    {
        let ghost given = rows@;
        let ghost before = self.rows@;
        let mut i: usize = 0;
        proof {
            assert(before + given.take(0) =~= before);
        }
        while i < rows.len()
            invariant
                i <= rows.len(),
                rows@ == given,
                self.valid(),
                self.time() == old(self).time(),
                self.rows@ == before + given.take(i as int),
            decreases rows.len() - i,
        {
            let e = &rows[i];
            self.push(e.0.0.dup(), e.0.1.dup(), e.1.dup());
            proof {
                assert(self.rows@ =~= before + given.take(i + 1));
            }
            i = i + 1;
        }
        proof {
            assert(given.take(given.len() as int) =~= given);
        }
        rows.clear();
    }

    /// Drops the pairs pushed.
    pub fn clear(&mut self)
        requires
            old(self).valid(),
        ensures
            final(self).valid(),
            final(self).time() == old(self).time(),
            final(self).pushed().len() == 0,
    {
        self.rows.clear();
        self.tuples.clear();
        proof {
            assert(self.tuples@ =~= at_time(self.rows@, self.time));
        }
    }

    /// Gives the pairs pushed to a sorted batch at the time of this batch:
    /// equal pairs become one, with the sum of their weights, unless the sum
    /// is zero.
    pub fn seal(self) -> (r: OrdBatch<K, V, T, R>)
        requires
            self.valid(),
        ensures
            r.wf(),
            r.tuples() == at_time(strip_time(r.tuples()), self.time()),
            is_consolidated(strip_time(r.tuples())),
            same_weights(strip_time(r.tuples()), self.pushed()),
            bounds_at(r.lower_spec(), r.upper_spec(), self.time()),
    {
        let ghost rows = self.rows@;
        let r = OrdBatch::from_tuples(self.time, self.rows);
        proof {
            let items = Seq::new(
                rows.len(),
                |i: int|
                    (
                        <<OrdBatch<K, V, T, R> as Batch>::Batcher as Batcher<
                            (K, V),
                            T,
                            R,
                            OrdBatch<K, V, T, R>,
                        >>::key_val_of(rows[i].0),
                        rows[i].1,
                    ),
            );
            assert(items =~= rows);
        }
        r
    }
}

impl<K: DBData, V: DBData, T: DBTimestamp, R: DBWeight> UnorderedBatchReader for UnorderedBatch<
    K,
    V,
    T,
    R,
> {
    type Key = K;

    type Val = V;

    type Time = T;

    type R = R;

    closed spec fn valid(&self) -> bool {
        &&& self.tuples@ == at_time(self.rows@, self.time)
        &&& bounds_ok(self.lower, self.upper)
        &&& bounds_at(self.lower, self.upper, self.time)
    }

    closed spec fn contents(&self) -> Seq<(((K, V), T), R)> {
        self.tuples@
    }

    closed spec fn unordered_lower(&self) -> Antichain<T> {
        self.lower
    }

    closed spec fn unordered_upper(&self) -> Antichain<T> {
        self.upper
    }

    proof fn lemma_unordered_valid(&self) {
        T::lemma_le_reflexive(self.time);
        T::lemma_advance(self.time);
        assert forall|i: int| 0 <= i < self.tuples@.len() implies self.lower.less_equal_spec(
            (#[trigger] self.tuples@[i]).0.1,
        ) && !self.upper.less_equal_spec(self.tuples@[i].0.1) by {
            assert(self.tuples@[i].0.1 == self.time);
            assert(self.lower@[0].le_spec(&self.time));
        }
    }

    fn unordered_tuples(&self) -> (r: Vec<(((K, V), T), R)>) {
        let mut r: Vec<(((K, V), T), R)> = Vec::new();
        let mut i: usize = 0;
        while i < self.tuples.len()
            invariant
                i <= self.tuples.len(),
                r@ == self.tuples@.take(i as int),
            decreases self.tuples.len() - i,
        {
            let e = &self.tuples[i];
            r.push((((e.0.0.0.dup(), e.0.0.1.dup()), e.0.1.dup()), e.1.dup()));
            proof {
                assert(r@ =~= self.tuples@.take(i + 1));
            }
            i = i + 1;
        }
        proof {
            assert(self.tuples@.take(self.tuples.len() as int) =~= self.tuples@);
        }
        r
    }

    /// An unordered batch does not count its keys: it reports at least one
    /// key where it holds a tuple, none where it holds none, and at most as
    /// many keys as it holds tuples.
    fn key_count(&self) -> (r: (usize, Option<usize>))
        ensures
            r.0 == (if self.contents().len() == 0 {
                0usize
            } else {
                1usize
            }),
            r.1 == Some(self.contents().len() as usize),
    {
        let ghost keys = crate::trace::cursor::keys_of(self.tuples@);
        proof {
            keys.lemma_cardinality_of_set();
            vstd::seq_lib::seq_to_set_is_finite(keys);
        }
        if self.tuples.len() == 0 {
            (0, Some(0))
        } else {
            proof {
                assert(keys.to_set().contains(keys[0]));
                if keys.to_set().len() == 0 {
                    assert(keys.to_set() =~= Set::<K>::empty());
                }
            }
            (1, Some(self.tuples.len()))
        }
    }

    fn len(&self) -> (r: usize) {
        self.tuples.len()
    }

    fn lower(&self) -> (r: &Antichain<T>) {
        &self.lower
    }

    fn upper(&self) -> (r: &Antichain<T>) {
        &self.upper
    }
}

} // verus!
