//! The operator kernels: integration and differentiation of streams of
//! Z-sets, join, distinct, aggregation and rolling aggregates.
//!
//! The kernels work on Z-sets without times: batches and traces whose
//! timestamp is `()`.  The Z-set of such a batch is the sequence of its
//! `((key, val), weight)` pairs.

use vstd::prelude::*;
use crate::trace::consolidation::{
    has_item,
    is_sorted,
    lemma_weight_of_absent,
    lemma_weight_of_sorted_at,
    lemma_zero_add,
    weight_of,
};
use crate::trace::cursor::{
    key_end,
    key_lower,
    key_vals_of,
    keys_of,
    lemma_below_count,
    lemma_key_end,
    lemma_key_lower,
    lemma_projections_ascend,
    lemma_val_end,
    lemma_val_lower,
    times_between,
    val_end,
    val_lower,
    weight_sum,
    Cursor,
};
use crate::trace::{strip_time, DBData, DBWeight};

pub mod aggregate;
pub mod differentiate;
pub mod distinct;
pub mod filter_map;
pub mod integrate;
pub mod join;
pub mod partitioned;
pub mod time_series;

pub use differentiate::Differentiate;
pub use distinct::Distinct;
pub use integrate::Integrate;
pub use join::Join;

verus! {

/// Without times each key and value has one tuple: the tuples of the value
/// at `p` end right after `p`, and what a cursor shows there is the weight
/// of that tuple.
pub proof fn lemma_unit_val_end<K: DBData, V: DBData, R: DBWeight>(s: Seq<(((K, V), ()), R)>, p: int)
    requires
        is_sorted(s),
        0 <= p < s.len(),
    ensures
        val_end(s, p) == p + 1,
        weight_sum(times_between(s, p, val_end(s, p))) == s[p].1,
{
    lemma_val_end(s, p);
    let e = val_end(s, p);
    if e > p + 1 {
        assert(s[p + 1].0.0 == s[p].0.0);
        assert(s[p].0.lt_spec(&s[p + 1].0));
        <(K, V)>::lemma_lt_irreflexive(s[p].0.0);
    }
    let h = times_between(s, p, p + 1);
    assert(h.drop_last() =~= Seq::<((), R)>::empty());
    assert(h.last() == ((), s[p].1));
    reveal_with_fuel(weight_sum, 2);
    lemma_zero_add(s[p].1);
}

/// The weight of a key and value in tuples without times is the weight of
/// the tuple in the tuples with the times stripped.
pub proof fn lemma_strip_weight<KV, R: DBWeight>(s: Seq<((KV, ()), R)>, x: KV)
    ensures
        weight_of(strip_time(s), x) == weight_of(s, (x, ())),
    decreases s.len(),
{
    if s.len() > 0 {
        lemma_strip_weight(s.drop_last(), x);
        assert(strip_time(s).drop_last() =~= strip_time(s.drop_last()));
        assert(strip_time(s).last() == (s.last().0.0, s.last().1));
        assert(s.last().0 == (s.last().0.0, ()));
    } else {
        assert(strip_time(s) =~= Seq::<(KV, R)>::empty());
    }
}

/// Where the first tuple whose key is at or above `k` has another key, or
/// there is none, no tuple has the key `k`.
pub proof fn lemma_absent_key<K: DBData, V: DBData, T: DBData, R: DBWeight>(
    s: Seq<(((K, V), T), R)>,
    k: K,
)
    requires
        is_sorted(s),
        key_lower(s, k) < s.len() ==> s[key_lower(s, k)].0.0.0 != k,
    ensures
        forall|i: int| 0 <= i < s.len() ==> (#[trigger] s[i]).0.0.0 != k,
{
    let ks = keys_of(s);
    let c = key_lower(s, k);
    lemma_projections_ascend(s);
    lemma_below_count(ks, k);
    K::lemma_lt_irreflexive(k);
    assert forall|i: int| 0 <= i < s.len() implies (#[trigger] s[i]).0.0.0 != k by {
        if s[i].0.0.0 == k {
            assert(ks[i] == k);
            if i < c {
                assert(ks[i].lt_spec(&k));
            } else {
                assert(!ks[c].lt_spec(&k));
                assert(!ks[i].lt_spec(&ks[c]));
                K::lemma_lt_total(ks[c], k);
            }
        }
    }
}

/// Where the first tuple whose key and value are at or above `kv` has
/// another key or value, or there is none, no tuple has the key and value
/// `kv`.
pub proof fn lemma_absent_val<K: DBData, V: DBData, T: DBData, R: DBWeight>(
    s: Seq<(((K, V), T), R)>,
    kv: (K, V),
)
    requires
        is_sorted(s),
        val_lower(s, kv) < s.len() ==> s[val_lower(s, kv)].0.0 != kv,
    ensures
        forall|i: int| 0 <= i < s.len() ==> (#[trigger] s[i]).0.0 != kv,
{
    let kvs = key_vals_of(s);
    let c = val_lower(s, kv);
    lemma_projections_ascend(s);
    lemma_below_count(kvs, kv);
    <(K, V)>::lemma_lt_irreflexive(kv);
    assert forall|i: int| 0 <= i < s.len() implies (#[trigger] s[i]).0.0 != kv by {
        if s[i].0.0 == kv {
            assert(kvs[i] == kv);
            if i < c {
                assert(kvs[i].lt_spec(&kv));
            } else {
                assert(!kvs[c].lt_spec(&kv));
                assert(!kvs[i].lt_spec(&kvs[c]));
                <(K, V)>::lemma_lt_total(kvs[c], kv);
            }
        }
    }
}

/// Looks up the weight of a key and value in what a cursor over tuples
/// without times ranges over, and leaves the cursor on the first key at or
/// above `key`.
pub fn lookup<'s, K: DBData, V: DBData, R: DBWeight, C: Cursor<'s, K, V, (), R>>(
    c: &mut C,
    key: &K,
    val: &V,
) -> (r: R)
    requires
        old(c).wf(),
        old(c).clip() is None,
    ensures
        final(c).wf(),
        final(c).storage() == old(c).storage(),
        final(c).clip() == old(c).clip(),
        r == weight_of(strip_time(old(c).storage()), (*key, *val)),
{
    let ghost s = c.storage();
    let ghost x = (*key, *val);
    proof {
        c.lemma_wf();
        lemma_strip_weight(s, x);
        lemma_key_lower(s, *key);
    }
    c.rewind_keys();
    c.seek_key(key);
    proof {
        c.lemma_wf();
    }
    if c.key_valid() && c.key().same(key) {
        let ghost kp = c.key_pos();
        proof {
            lemma_key_end(s, kp);
            lemma_val_lower(s, kp, *val);
        }
        c.seek_val(val);
        proof {
            c.lemma_wf();
            assert(c.val_pos() == val_lower(s, x));
        }
        if c.val_valid() && c.val().same(val) {
            let ghost vp = c.val_pos();
            proof {
                assert(s[vp].0.0.0 == *key);
                assert(s[vp].0 == (x, ()));
                lemma_unit_val_end(s, vp);
                lemma_weight_of_sorted_at(s, vp);
            }
            return c.weight();
        }
        proof {
            let c0 = val_lower(s, x);
            if c0 < s.len() && s[c0].0.0 == x {
                assert(c0 < key_end(s, kp));
            }
            lemma_absent_val(s, x);
            assert(!has_item(s, (x, ())));
            lemma_weight_of_absent(s, (x, ()));
        }
        return R::zero();
    }
    proof {
        lemma_absent_key(s, *key);
        assert(!has_item(s, (x, ())));
        lemma_weight_of_absent(s, (x, ()));
    }
    R::zero()
}

} // verus!
