//! The operators without state: filter and map.
//!
//! Each transforms the batch that it takes into a new batch, tuple by tuple.

use vstd::prelude::*;
use crate::trace::consolidation::{
    consolidate,
    is_consolidated,
    lemma_consolidated_push,
    same_weights,
};
use crate::trace::ord::{lemma_at_time_consolidated, OrdBatch};
use crate::trace::{strip_time, BatchReader, DBData, DBWeight};

verus! {

/// The pairs of `s` that `keep` marks, in their order.
pub open spec fn selected<I, R>(s: Seq<(I, R)>, keep: Seq<bool>) -> Seq<(I, R)>
    decreases s.len(),
{
    if s.len() == 0 || keep.len() != s.len() {
        Seq::empty()
    } else if keep.last() {
        selected(s.drop_last(), keep.drop_last()).push(s.last())
    } else {
        selected(s.drop_last(), keep.drop_last())
    }
}

/// `keep` holds, pair by pair, what the predicate `pred` gave for the key
/// and value of the pair.
pub open spec fn decided<K, V, R, P: Fn(&K, &V) -> bool>(
    pred: P,
    s: Seq<((K, V), R)>,
    keep: Seq<bool>,
) -> bool {
    &&& keep.len() == s.len()
    &&& forall|i: int|
        0 <= i < s.len() ==> call_ensures(pred, (&s[i].0.0, &s[i].0.1), #[trigger] keep[i])
}

/// `mapped` holds, pair by pair, what the function `f` gave for the key and
/// value of the pair, with the weight of the pair.
pub open spec fn transformed<K, V, K2, V2, R, F: Fn(&K, &V) -> (K2, V2)>(
    f: F,
    s: Seq<((K, V), R)>,
    mapped: Seq<((K2, V2), R)>,
) -> bool {
    &&& mapped.len() == s.len()
    &&& forall|i: int|
        0 <= i < s.len() ==> call_ensures(f, (&s[i].0.0, &s[i].0.1), (#[trigger] mapped[i]).0)
            && mapped[i].1 == s[i].1
}

/// The pairs that are selected from a consolidated sequence are
/// consolidated, and lie below whatever the whole sequence lies below.
pub proof fn lemma_selected_consolidated<I: DBData, R: DBWeight>(s: Seq<(I, R)>, keep: Seq<bool>)
    requires
        is_consolidated(s),
        keep.len() == s.len(),
    ensures
        is_consolidated(selected(s, keep)),
        forall|j: int|
            0 <= j < selected(s, keep).len() ==> exists|i: int|
                0 <= i < s.len() && s[i] == #[trigger] selected(s, keep)[j],
    decreases s.len(),
{
    if s.len() > 0 {
        let s0 = s.drop_last();
        let k0 = keep.drop_last();
        assert forall|i: int, j: int| 0 <= i < j < s0.len() implies (#[trigger] s0[i]).0.lt_spec(
            &(#[trigger] s0[j]).0,
        ) by {
            assert(s[i].0.lt_spec(&s[j].0));
        }
        assert forall|i: int| 0 <= i < s0.len() implies (#[trigger] s0[i]).1 != R::zero_spec() by {
            assert(s[i].1 != R::zero_spec());
        }
        lemma_selected_consolidated(s0, k0);
        let before = selected(s0, k0);
        if keep.last() {
            assert(s[s.len() - 1].1 != R::zero_spec());
            if before.len() > 0 {
                let i = choose|i: int| 0 <= i < s0.len() && s0[i] == before[before.len() - 1];
                assert(s[i].0.lt_spec(&s[s.len() - 1].0));
            }
            lemma_consolidated_push(before, s.last());
        }
        let after = selected(s, keep);
        assert forall|j: int| 0 <= j < after.len() implies exists|i: int|
            0 <= i < s.len() && s[i] == #[trigger] after[j] by {
            if j < before.len() {
                let i = choose|i: int| 0 <= i < s0.len() && s0[i] == before[j];
                assert(s[i] == after[j]);
            } else {
                assert(s[s.len() - 1] == after[j]);
            }
        }
    }
}

/// Keeps the tuples for whose key and value `pred` gives `true`.
pub fn filter<K: DBData, V: DBData, R: DBWeight, P: Fn(&K, &V) -> bool>(
    batch: &OrdBatch<K, V, (), R>,
    pred: P,
) -> (r: OrdBatch<K, V, (), R>)
    requires
        batch.wf(),
        forall|k: &K, v: &V| #[trigger] call_requires(pred, (k, v)),
    ensures
        r.wf(),
        exists|keep: Seq<bool>|
            #[trigger] decided(pred, strip_time(batch.tuples()), keep) && strip_time(r.tuples())
                == selected(strip_time(batch.tuples()), keep),
{
    let ghost s = strip_time(batch.tuples());
    let mut out: Vec<((K, V), R)> = Vec::new();
    let ghost mut keep: Seq<bool> = Seq::empty();
    let n = batch.len();
    let mut i: usize = 0;
    proof {
        assert(s.take(0) =~= Seq::empty());
    }
    while i < n
        invariant
            batch.wf(),
            s == strip_time(batch.tuples()),
            n == s.len(),
            i <= n,
            forall|k: &K, v: &V| #[trigger] call_requires(pred, (k, v)),
            decided(pred, s.take(i as int), keep),
            out@ == selected(s.take(i as int), keep),
        decreases n - i,
    {
        let e = batch.get(i);
        let yes = pred(&e.0.0.0, &e.0.0.1);
        proof {
            let next = s.take(i + 1);
            let marks = keep.push(yes);
            assert(next.drop_last() =~= s.take(i as int));
            assert(marks.drop_last() =~= keep);
            assert(next.last() == s[i as int]);
            assert forall|j: int| 0 <= j < next.len() implies call_ensures(
                pred,
                (&next[j].0.0, &next[j].0.1),
                #[trigger] marks[j],
            ) by {
                if j < i {
                    assert(call_ensures(
                        pred,
                        (&s.take(i as int)[j].0.0, &s.take(i as int)[j].0.1),
                        keep[j],
                    ));
                }
            }
            keep = marks;
        }
        if yes {
            out.push(((e.0.0.0.dup(), e.0.0.1.dup()), e.1.dup()));
        }
        i = i + 1;
    }
    proof {
        assert(s.take(n as int) =~= s);
        batch.lemma_reader_wf();
        assert(is_consolidated(batch.tuples())) by {
            crate::trace::Batch::lemma_batch_wf(batch);
        }
        assert(batch.tuples() =~= crate::trace::at_time(s, ())) by {
            assert forall|j: int| 0 <= j < batch.tuples().len() implies #[trigger] batch.tuples()[j]
                == crate::trace::at_time(s, ())[j] by {
                let t: () = batch.tuples()[j].0.1;
                assert(t == ());
                assert(batch.tuples()[j] == ((batch.tuples()[j].0.0, t), batch.tuples()[j].1));
            }
        }
        crate::trace::from_cursor::lemma_strip_consolidated(batch.tuples(), ());
        lemma_selected_consolidated(s, keep);
        lemma_at_time_consolidated(out@, ());
    }
    let r = OrdBatch::from_consolidated((), out);
    proof {
        assert(decided(pred, s, keep) && strip_time(r.tuples()) == selected(s, keep));
    }
    r
}

/// Gives each tuple the key and value that `f` gives for its key and value,
/// and consolidates the result.
pub fn map_index<K: DBData, V: DBData, K2: DBData, V2: DBData, R: DBWeight, F: Fn(&K, &V) -> (K2, V2)>(
    batch: &OrdBatch<K, V, (), R>,
    f: F,
) -> (r: OrdBatch<K2, V2, (), R>)
    requires
        batch.wf(),
        forall|k: &K, v: &V| #[trigger] call_requires(f, (k, v)),
    ensures
        r.wf(),
        is_consolidated(strip_time(r.tuples())),
        exists|mapped: Seq<((K2, V2), R)>|
            #[trigger] transformed(f, strip_time(batch.tuples()), mapped) && same_weights(
                strip_time(r.tuples()),
                mapped,
            ),
{
    let ghost s = strip_time(batch.tuples());
    let mut out: Vec<((K2, V2), R)> = Vec::new();
    let n = batch.len();
    let mut i: usize = 0;
    proof {
        assert(s.take(0) =~= Seq::empty());
    }
    while i < n
        invariant
            batch.wf(),
            s == strip_time(batch.tuples()),
            n == s.len(),
            i <= n,
            forall|k: &K, v: &V| #[trigger] call_requires(f, (k, v)),
            transformed(f, s.take(i as int), out@),
        decreases n - i,
    {
        let ghost before = out@;
        let e = batch.get(i);
        let kv = f(&e.0.0.0, &e.0.0.1);
        out.push((kv, e.1.dup()));
        proof {
            let next = s.take(i + 1);
            assert(next.last() == s[i as int]);
            assert forall|j: int| 0 <= j < next.len() implies call_ensures(
                f,
                (&next[j].0.0, &next[j].0.1),
                (#[trigger] out@[j]).0,
            ) && out@[j].1 == next[j].1 by {
                if j < i {
                    assert(out@[j] == before[j]);
                    assert(call_ensures(
                        f,
                        (&s.take(i as int)[j].0.0, &s.take(i as int)[j].0.1),
                        before[j].0,
                    ));
                }
            }
        }
        i = i + 1;
    }
    proof {
        assert(s.take(n as int) =~= s);
    }
    let ghost mapped = out@;
    let sorted = consolidate(&out);
    proof {
        lemma_at_time_consolidated(sorted@, ());
    }
    let r = OrdBatch::from_consolidated((), sorted);
    proof {
        assert(transformed(f, s, mapped) && same_weights(strip_time(r.tuples()), mapped));
    }
    r
}

} // verus!
