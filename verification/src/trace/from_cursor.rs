//! Building a batch from what a cursor shows.

use vstd::prelude::*;
use crate::trace::consolidation::{
    is_consolidated,
    lemma_canonical,
    lemma_consolidated_push,
    lemma_weight_of_concat,
    lemma_weight_of_push,
    same_weights,
    weight_of,
};
use crate::trace::cursor::{
    key_end,
    lemma_key_end,
    lemma_val_end,
    times_between,
    val_end,
    weight_sum,
    Cursor,
};
use crate::trace::{
    at_time,
    bounds_at,
    strip_time,
    Batch,
    BatchReader,
    Builder,
    DBData,
    DBTimestamp,
    DBWeight,
};

verus! {

/// The weight of `x` in the tuples of `s` from `from` up to `to`, without
/// their times, where all of them have the key and value `kv`: the sum of
/// their weights for `kv`, zero for anything else.
pub proof fn lemma_run_weight<KV, T, R: DBWeight>(s: Seq<((KV, T), R)>, from: int, to: int, kv: KV, x: KV)
    requires
        0 <= from <= to <= s.len(),
        forall|i: int| from <= i < to ==> (#[trigger] s[i]).0.0 == kv,
    ensures
        weight_of(strip_time(s.subrange(from, to)), x) == if x == kv {
            weight_sum(Seq::new((to - from) as nat, |i: int| (s[from + i].0.1, s[from + i].1)))
        } else {
            R::zero_spec()
        },
    decreases to - from,
{
    let run = strip_time(s.subrange(from, to));
    let h = Seq::new((to - from) as nat, |i: int| (s[from + i].0.1, s[from + i].1));
    if from < to {
        lemma_run_weight(s, from, to - 1, kv, x);
        let run0 = strip_time(s.subrange(from, to - 1));
        let h0 = Seq::new((to - 1 - from) as nat, |i: int| (s[from + i].0.1, s[from + i].1));
        assert(run.drop_last() =~= run0);
        assert(h.drop_last() =~= h0);
        assert(run.last() == (s[to - 1].0.0, s[to - 1].1));
        assert(s[to - 1].0.0 == kv);
        assert(h.last() == (s[to - 1].0.1, s[to - 1].1));
    }
}

/// A sequence of tuples that all stand at one time is consolidated exactly
/// if the sequence without the times is.
pub proof fn lemma_strip_consolidated<KV: DBData, T: DBData, R: DBWeight>(s: Seq<((KV, T), R)>, t: T)
    requires
        is_consolidated(s),
        s == at_time(strip_time(s), t),
    ensures
        is_consolidated(strip_time(s)),
{
    let p = strip_time(s);
    T::lemma_lt_irreflexive(t);
    assert forall|i: int, j: int| 0 <= i < j < p.len() implies (#[trigger] p[i]).0.lt_spec(
        &(#[trigger] p[j]).0,
    ) by {
        assert(s[i].0.lt_spec(&s[j].0));
        assert(s[i] == at_time(p, t)[i]);
        assert(s[j] == at_time(p, t)[j]);
    }
    assert forall|i: int| 0 <= i < p.len() implies (#[trigger] p[i]).1 != R::zero_spec() by {
        assert(s[i].1 != R::zero_spec());
    }
}

/// Builds a batch at `time` from what a cursor ranges over: for each key and
/// value the batch holds the sum of the weights that the cursor holds for
/// them at any time, unless that sum is zero.
pub fn batch_from_cursor<'s, B: Batch, C: Cursor<'s, B::Key, B::Val, B::Time, B::R>>(
    time: B::Time,
    c: &mut C,
) -> (r: B)
    requires
        old(c).wf(),
        old(c).clip() is None,
    ensures
        final(c).wf(),
        final(c).storage() == old(c).storage(),
        final(c).clip() == old(c).clip(),
        r.wf(),
        r.tuples() == at_time(strip_time(r.tuples()), time),
        is_consolidated(strip_time(r.tuples())),
        same_weights(strip_time(r.tuples()), strip_time(old(c).storage())),
        bounds_at(r.lower_spec(), r.upper_spec(), time),
{
    let ghost s = c.storage();
    c.rewind_keys();
    let mut builder = B::Builder::new_builder(time);
    proof {
        c.lemma_wf();
        assert(strip_time(s.take(0)) =~= Seq::empty());
    }
    while c.key_valid()
        invariant
            c.wf(),
            c.storage() == s,
            c.clip() is None,
            c.val_pos() == c.key_pos(),
            0 <= c.key_pos() <= s.len(),
            builder.wf(),
            builder.time() == time,
            is_consolidated(builder.pushed()),
            same_weights(builder.pushed(), strip_time(s.take(c.key_pos()))),
            forall|i: int, j: int|
                0 <= i < builder.pushed().len() && c.key_pos() <= j < s.len() ==> (
                #[trigger] builder.pushed()[i]).0.lt_spec(&(#[trigger] s[j]).0.0),
        decreases s.len() - c.key_pos(),
    {
        let ghost kp = c.key_pos();
        proof {
            c.lemma_wf();
            lemma_key_end(s, kp);
        }
        while c.val_valid()
            invariant
                c.wf(),
                c.storage() == s,
                c.clip() is None,
                c.key_pos() == kp,
                0 <= kp < s.len(),
                kp <= c.val_pos() <= key_end(s, kp) <= s.len(),
                builder.wf(),
                builder.time() == time,
                is_consolidated(builder.pushed()),
                same_weights(builder.pushed(), strip_time(s.take(c.val_pos()))),
                forall|i: int, j: int|
                    0 <= i < builder.pushed().len() && c.val_pos() <= j < s.len() ==> (
                    #[trigger] builder.pushed()[i]).0.lt_spec(&(#[trigger] s[j]).0.0),
            decreases s.len() - c.val_pos(),
        {
            let ghost vp = c.val_pos();
            let ghost e = val_end(s, vp);
            let ghost before = builder.pushed();
            proof {
                c.lemma_wf();
                lemma_val_end(s, vp);
                lemma_key_end(s, vp);
                lemma_key_end(s, kp);
            }
            let w = c.weight();
            let ghost kv = s[vp].0.0;
            proof {
                assert(w == weight_sum(times_between(s, vp, e)));
                assert(s.take(e) =~= s.take(vp) + s.subrange(vp, e));
                assert(strip_time(s.take(e)) =~= strip_time(s.take(vp)) + strip_time(
                    s.subrange(vp, e),
                ));
                assert(times_between(s, vp, e) =~= Seq::new(
                    (e - vp) as nat,
                    |i: int| (s[vp + i].0.1, s[vp + i].1),
                ));
            }
            if !w.is_zero() {
                let item = B::item_from(c.key().dup(), c.val().dup());
                proof {
                    assert(<B::Builder as Builder<B::Item, B::Time, B::R, B>>::key_val_of(item)
                        == kv);
                    if before.len() > 0 {
                        assert(before[before.len() - 1].0.lt_spec(&s[vp].0.0));
                    }
                    lemma_consolidated_push(before, (kv, w));
                }
                builder.push((item, w));
            }
            proof {
                let after = builder.pushed();
                assert forall|x: (B::Key, B::Val)| #[trigger]
                    weight_of(after, x) == weight_of(strip_time(s.take(e)), x) by {
                    lemma_weight_of_concat(
                        strip_time(s.take(vp)),
                        strip_time(s.subrange(vp, e)),
                        x,
                    );
                    lemma_run_weight(s, vp, e, kv, x);
                    assert(weight_of(before, x) == weight_of(strip_time(s.take(vp)), x));
                    if w != B::R::zero_spec() {
                        lemma_weight_of_push(before, (kv, w), x);
                    }
                    B::R::lemma_add_zero(weight_of(before, x));
                }
                assert forall|i: int, j: int|
                    0 <= i < after.len() && e <= j < s.len() implies (#[trigger] after[i]).0.lt_spec(
                    &(#[trigger] s[j]).0.0,
                ) by {
                    if i < before.len() {
                        assert(after[i] == before[i]);
                    } else {
                        assert(after[i].0 == kv);
                        assert(s[vp].0.lt_spec(&s[j].0));
                        assert(s[j].0.0 != kv);
                        <(B::Key, B::Val)>::lemma_lt_irreflexive(kv);
                        if s[j].0.0.lt_spec(&kv) {
                            <(B::Key, B::Val)>::lemma_lt_transitive(kv, s[j].0.0, kv);
                        }
                    }
                }
            }
            c.step_val();
        }
        c.step_key();
    }
    proof {
        assert(s.take(s.len() as int) =~= s);
    }
    let r = builder.done();
    proof {
        assert(strip_time(r.tuples()) =~= builder.pushed());
    }
    r
}

/// Builds a batch anew from what its own cursor shows.  For a batch whose
/// tuples all stand at `time`, the batch built is the batch itself.
pub fn rebuild<B: Batch>(b: &B, time: B::Time) -> (r: B)
    requires
        b.wf(),
        b.tuples() == at_time(strip_time(b.tuples()), time),
    ensures
        r.wf(),
        r.tuples() == b.tuples(),
        bounds_at(r.lower_spec(), r.upper_spec(), time),
{
    let mut c = b.cursor();
    let ghost s = c.storage();
    let r = batch_from_cursor::<B, B::Cursor<'_>>(time, &mut c);
    proof {
        b.lemma_batch_wf();
        lemma_canonical(s, b.tuples());
        lemma_strip_consolidated(b.tuples(), time);
        lemma_canonical(strip_time(r.tuples()), strip_time(b.tuples()));
    }
    r
}

} // verus!
