//! The assignment of keys to workers.
//!
//! Several workers run copies of one circuit, each on its share of the
//! input.  A tuple goes to the worker given by the hash of its key, so that
//! all tuples of one key are on one worker.  An exchange hands each worker
//! the tuples of its keys from all workers.

use vstd::prelude::*;
use crate::trace::consolidation::{lemma_zero_add, weight_of};
use crate::trace::ord::OrdBatch;
use crate::trace::{BatchReader, DBData, DBTimestamp, DBWeight};

verus! {

/// The worker, of `workers` many, that takes the keys with the hash `hash`.
pub open spec fn shard_of(hash: u64, workers: usize) -> int {
    hash as int % workers as int
}

/// Computes the worker that takes the keys with the hash `hash`.
pub fn shard_index(hash: u64, workers: usize) -> (r: usize)
    requires
        workers > 0,
    ensures
        r == shard_of(hash, workers),
        r < workers,
{
    (hash % (workers as u64)) as usize
}

/// The sum of the weights of `x` in the first `n` of the batches.
pub open spec fn total_weight<K: DBData, V: DBData, T: DBTimestamp, R: DBWeight>(
    batches: Seq<OrdBatch<K, V, T, R>>,
    n: int,
    x: ((K, V), T),
) -> R
    decreases n,
{
    if n <= 0 {
        R::zero_spec()
    } else {
        total_weight(batches, n - 1, x).add_spec(&weight_of(batches[n - 1].tuples(), x))
    }
}

/// The lower bound of one of the first `n` batches is at or below `t`.
pub open spec fn some_lower<K: DBData, V: DBData, T: DBTimestamp, R: DBWeight>(
    batches: Seq<OrdBatch<K, V, T, R>>,
    n: int,
    t: T,
) -> bool {
    exists|i: int| 0 <= i < n && (#[trigger] batches[i]).lower_spec().less_equal_spec(t)
}

/// The upper bounds of the first `n` batches are all at or below `t`.
pub open spec fn all_upper<K: DBData, V: DBData, T: DBTimestamp, R: DBWeight>(
    batches: Seq<OrdBatch<K, V, T, R>>,
    n: int,
    t: T,
) -> bool {
    forall|i: int| 0 <= i < n ==> (#[trigger] batches[i]).upper_spec().less_equal_spec(t)
}

/// The batches are the shares of the workers in `whole`: each holds the
/// tuples of `whole` whose keys go to its worker, and nothing else.
pub open spec fn is_sharding<K: DBData, V: DBData, T: DBTimestamp, R: DBWeight>(
    shards: Seq<OrdBatch<K, V, T, R>>,
    whole: Seq<(((K, V), T), R)>,
) -> bool {
    forall|i: int, x: ((K, V), T)|
        0 <= i < shards.len() ==> #[trigger] weight_of(shards[i].tuples(), x) == if shard_of(
            x.0.0.hash_spec(),
            shards.len() as usize,
        ) == i {
            weight_of(whole, x)
        } else {
            R::zero_spec()
        }
}

/// The shares of the workers add up to the whole: each tuple has its
/// weight in the share of one worker and no weight in the others.
pub proof fn lemma_shards_sum<K: DBData, V: DBData, T: DBTimestamp, R: DBWeight>(
    shards: Seq<OrdBatch<K, V, T, R>>,
    whole: Seq<(((K, V), T), R)>,
    n: int,
    x: ((K, V), T),
)
    requires
        0 < shards.len() <= usize::MAX,
        is_sharding(shards, whole),
        0 <= n <= shards.len(),
    ensures
        total_weight(shards, n, x) == if shard_of(x.0.0.hash_spec(), shards.len() as usize) < n {
            weight_of(whole, x)
        } else {
            R::zero_spec()
        },
    decreases n,
{
    if n > 0 {
        lemma_shards_sum(shards, whole, n - 1, x);
        let w = weight_of(shards[n - 1].tuples(), x);
        R::lemma_add_zero(total_weight(shards, n - 1, x));
        lemma_zero_add(w);
        assert(0 <= shard_of(x.0.0.hash_spec(), shards.len() as usize));
    }
}

} // verus!
