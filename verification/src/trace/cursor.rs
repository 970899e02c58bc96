//! Cursors: ordered navigation over the tuples of a batch or a trace.
//!
//! A cursor ranges over a consolidated sequence of `(((key, val), time),
//! weight)` tuples.  It iterates over the keys, and under each key over its
//! values; at a value it can hand out the times and weights stored for that
//! key and value.  Its position is the index at which the tuples of the
//! current key start and the index at which those of the current value start.

use vstd::prelude::*;
use crate::time::Timestamp;
use crate::trace::consolidation::{is_consolidated, is_sorted};
use crate::trace::{DBData, DBTimestamp, DBWeight};

pub mod cursor_group;

verus! {

/// No element of `a` is below an earlier one.
pub open spec fn is_ascending<A: DBData>(a: Seq<A>) -> bool {
    forall|i: int, j: int| #![trigger a[i], a[j]] 0 <= i < j < a.len() ==> !a[j].lt_spec(&a[i])
}

/// The number of elements of an ascending sequence that are below `x`: the
/// first index at which the element is at or above `x`.
pub open spec fn below_count<A: DBData>(a: Seq<A>, x: A) -> int
    decreases a.len(),
{
    if a.len() == 0 {
        0
    } else if a.last().lt_spec(&x) {
        a.len() as int
    } else {
        below_count(a.drop_last(), x)
    }
}

/// The number of elements of an ascending sequence that are at or below `x`:
/// the first index at which the element is above `x`.
pub open spec fn not_above_count<A: DBData>(a: Seq<A>, x: A) -> int
    decreases a.len(),
{
    if a.len() == 0 {
        0
    } else if !x.lt_spec(&a.last()) {
        a.len() as int
    } else {
        not_above_count(a.drop_last(), x)
    }
}

/// `below_count` splits an ascending sequence into the elements below `x`
/// and those at or above it.
pub proof fn lemma_below_count<A: DBData>(a: Seq<A>, x: A)
    requires
        is_ascending(a),
    ensures
        0 <= below_count(a, x) <= a.len(),
        forall|i: int| 0 <= i < below_count(a, x) ==> (#[trigger] a[i]).lt_spec(&x),
        forall|i: int| below_count(a, x) <= i < a.len() ==> !(#[trigger] a[i]).lt_spec(&x),
    decreases a.len(),
{
    if a.len() == 0 {
    } else if a.last().lt_spec(&x) {
        assert forall|i: int| 0 <= i < a.len() implies (#[trigger] a[i]).lt_spec(&x) by {
            if i < a.len() - 1 {
                assert(!a[a.len() - 1].lt_spec(&a[i]));
                A::lemma_lt_total(a[i], a.last());
                if a[i].lt_spec(&a.last()) {
                    A::lemma_lt_transitive(a[i], a.last(), x);
                }
            }
        }
    } else {
        let a0 = a.drop_last();
        assert forall|i: int, j: int| #![trigger a0[i], a0[j]] 0 <= i < j < a0.len() implies !a0[j].lt_spec(
            &a0[i],
        ) by {
            assert(!a[j].lt_spec(&a[i]));
        }
        lemma_below_count(a0, x);
        assert forall|i: int| below_count(a, x) <= i < a.len() implies !(#[trigger] a[i]).lt_spec(
            &x,
        ) by {
            if i < a.len() - 1 {
                assert(!a0[i].lt_spec(&x));
            }
        }
        assert forall|i: int| 0 <= i < below_count(a, x) implies (#[trigger] a[i]).lt_spec(&x) by {
            assert(a0[i].lt_spec(&x));
        }
    }
}

/// `not_above_count` splits an ascending sequence into the elements at or
/// below `x` and those above it.
pub proof fn lemma_not_above_count<A: DBData>(a: Seq<A>, x: A)
    requires
        is_ascending(a),
    ensures
        0 <= not_above_count(a, x) <= a.len(),
        forall|i: int| 0 <= i < not_above_count(a, x) ==> !x.lt_spec(&(#[trigger] a[i])),
        forall|i: int| not_above_count(a, x) <= i < a.len() ==> x.lt_spec(&(#[trigger] a[i])),
    decreases a.len(),
{
    if a.len() == 0 {
    } else if !x.lt_spec(&a.last()) {
        assert forall|i: int| 0 <= i < a.len() implies !x.lt_spec(&(#[trigger] a[i])) by {
            if i < a.len() - 1 {
                assert(!a[a.len() - 1].lt_spec(&a[i]));
                if x.lt_spec(&a[i]) {
                    A::lemma_lt_total(a[i], a.last());
                    if a[i].lt_spec(&a.last()) {
                        A::lemma_lt_transitive(x, a[i], a.last());
                    }
                }
            }
        }
    } else {
        let a0 = a.drop_last();
        assert forall|i: int, j: int| #![trigger a0[i], a0[j]] 0 <= i < j < a0.len() implies !a0[j].lt_spec(
            &a0[i],
        ) by {
            assert(!a[j].lt_spec(&a[i]));
        }
        lemma_not_above_count(a0, x);
        assert forall|i: int| not_above_count(a, x) <= i < a.len() implies x.lt_spec(
            &(#[trigger] a[i]),
        ) by {
            if i < a.len() - 1 {
                assert(x.lt_spec(&a0[i]));
            }
        }
        assert forall|i: int| 0 <= i < not_above_count(a, x) implies !x.lt_spec(
            &(#[trigger] a[i]),
        ) by {
            assert(!x.lt_spec(&a0[i]));
        }
    }
}

/// An index that splits an ascending sequence into the elements below `x`
/// and those at or above it is `below_count`.
pub proof fn lemma_below_count_unique<A: DBData>(a: Seq<A>, x: A, r: int)
    requires
        is_ascending(a),
        0 <= r <= a.len(),
        forall|i: int| 0 <= i < r ==> (#[trigger] a[i]).lt_spec(&x),
        forall|i: int| r <= i < a.len() ==> !(#[trigger] a[i]).lt_spec(&x),
    ensures
        r == below_count(a, x),
{
    lemma_below_count(a, x);
    let c = below_count(a, x);
    if r < c {
        assert(a[r].lt_spec(&x));
    } else if c < r {
        assert(a[c].lt_spec(&x));
    }
}

/// An index that splits an ascending sequence into the elements at or below
/// `x` and those above it is `not_above_count`.
pub proof fn lemma_not_above_count_unique<A: DBData>(a: Seq<A>, x: A, r: int)
    requires
        is_ascending(a),
        0 <= r <= a.len(),
        forall|i: int| 0 <= i < r ==> !x.lt_spec(&(#[trigger] a[i])),
        forall|i: int| r <= i < a.len() ==> x.lt_spec(&(#[trigger] a[i])),
    ensures
        r == not_above_count(a, x),
{
    lemma_not_above_count(a, x);
    let c = not_above_count(a, x);
    if r < c {
        assert(x.lt_spec(&a[r]));
    } else if c < r {
        assert(x.lt_spec(&a[c]));
    }
}

/// The keys of the tuples of `s`, index by index.
pub open spec fn keys_of<K, V, T, R>(s: Seq<(((K, V), T), R)>) -> Seq<K> {
    Seq::new(s.len(), |i: int| s[i].0.0.0)
}

/// The `(key, val)` pairs of the tuples of `s`, index by index.
pub open spec fn key_vals_of<K, V, T, R>(s: Seq<(((K, V), T), R)>) -> Seq<(K, V)> {
    Seq::new(s.len(), |i: int| s[i].0.0)
}

/// The keys and the `(key, val)` pairs of a sorted sequence of tuples ascend.
pub proof fn lemma_projections_ascend<K: DBData, V: DBData, T: DBData, R>(s: Seq<(((K, V), T), R)>)
    requires
        is_sorted(s),
    ensures
        is_ascending(keys_of(s)),
        is_ascending(key_vals_of(s)),
{
    let ks = keys_of(s);
    let kvs = key_vals_of(s);
    assert forall|i: int, j: int| #![trigger ks[i], ks[j]] 0 <= i < j < ks.len() implies !ks[j].lt_spec(
        &ks[i],
    ) by {
        assert(s[i].0.lt_spec(&s[j].0));
        K::lemma_lt_irreflexive(ks[i]);
        if ks[j].lt_spec(&ks[i]) {
            if ks[i].lt_spec(&ks[j]) {
                K::lemma_lt_transitive(ks[i], ks[j], ks[i]);
            }
        }
    }
    assert forall|i: int, j: int| #![trigger kvs[i], kvs[j]] 0 <= i < j < kvs.len() implies !kvs[j].lt_spec(
        &kvs[i],
    ) by {
        assert(s[i].0.lt_spec(&s[j].0));
        <(K, V)>::lemma_lt_irreflexive(kvs[i]);
        if kvs[j].lt_spec(&kvs[i]) {
            if kvs[i].lt_spec(&kvs[j]) {
                <(K, V)>::lemma_lt_transitive(kvs[i], kvs[j], kvs[i]);
            }
        }
    }
}

/// The index after the last tuple that has the key of the tuple at `p`.
pub open spec fn key_end<K: DBData, V, T, R>(s: Seq<(((K, V), T), R)>, p: int) -> int {
    not_above_count(keys_of(s), s[p].0.0.0)
}

/// The index after the last tuple that has the key and value of the tuple at
/// `p`.
pub open spec fn val_end<K: DBData, V: DBData, T, R>(s: Seq<(((K, V), T), R)>, p: int) -> int {
    not_above_count(key_vals_of(s), s[p].0.0)
}

/// The first index at which the key is at or above `k`.
pub open spec fn key_lower<K: DBData, V, T, R>(s: Seq<(((K, V), T), R)>, k: K) -> int {
    below_count(keys_of(s), k)
}

/// The first index at which the `(key, val)` pair is at or above `kv`.
pub open spec fn val_lower<K: DBData, V: DBData, T, R>(s: Seq<(((K, V), T), R)>, kv: (K, V)) -> int {
    below_count(key_vals_of(s), kv)
}

/// The times and weights stored in `s` from index `from` up to `to`.
pub open spec fn times_between<K, V, T, R>(s: Seq<(((K, V), T), R)>, from: int, to: int) -> Seq<
    (T, R),
> {
    Seq::new((to - from) as nat, |i: int| (s[from + i].0.1, s[from + i].1))
}

/// The entries of `h` whose time is at or below `upper`, in their order.
pub open spec fn through<T: Timestamp, R>(h: Seq<(T, R)>, upper: T) -> Seq<(T, R)>
    decreases h.len(),
{
    if h.len() == 0 {
        h
    } else if h.last().0.le_spec(&upper) {
        through(h.drop_last(), upper).push(h.last())
    } else {
        through(h.drop_last(), upper)
    }
}

/// The entries of `h` that a cursor with the bound `clip` shows.
pub open spec fn shown<T: Timestamp, R>(h: Seq<(T, R)>, clip: Option<T>) -> Seq<(T, R)> {
    match clip {
        Some(upper) => through(h, upper),
        None => h,
    }
}

/// The sum of the weights of `h`.
pub open spec fn weight_sum<T, R: DBWeight>(h: Seq<(T, R)>) -> R
    decreases h.len(),
{
    if h.len() == 0 {
        R::zero_spec()
    } else {
        weight_sum(h.drop_last()).add_spec(&h.last().1)
    }
}

/// `r` is a result of folding `f` over `h` from `init`, entry by entry.
pub open spec fn is_fold<T, R, U, F: Fn(U, &T, &R) -> U>(f: F, init: U, h: Seq<(T, R)>, r: U) -> bool
    decreases h.len(),
{
    if h.len() == 0 {
        r == init
    } else {
        exists|mid: U|
            is_fold(f, init, h.drop_last(), mid) && #[trigger] call_ensures(
                f,
                (mid, &h.last().0, &h.last().1),
                r,
            )
    }
}

/// The position `(key_pos, val_pos)` is a valid cursor position in `s`: the
/// tuples of a key start at `key_pos`, or it is the length of `s`; the tuples
/// of a value of that key start at `val_pos`, or it is the index at which the
/// key ends.
pub open spec fn position_ok<K: DBData, V: DBData, T: DBData, R: DBWeight>(
    s: Seq<(((K, V), T), R)>,
    key_pos: int,
    val_pos: int,
) -> bool {
    &&& is_consolidated(s)
    &&& 0 <= key_pos <= val_pos <= s.len()
    &&& key_pos < s.len() ==> {
        &&& key_pos == key_lower(s, s[key_pos].0.0.0)
        &&& val_pos <= key_end(s, key_pos)
        &&& val_pos < key_end(s, key_pos) ==> val_pos == val_lower(s, s[val_pos].0.0)
    }
}

/// A cursor at `(key_pos, val_pos)` in `s` is on a value: it is on a key, and
/// the values of that key are not used up.
pub open spec fn has_val<K: DBData, V, T, R>(s: Seq<(((K, V), T), R)>, key_pos: int, val_pos: int) -> bool {
    key_pos < s.len() && val_pos < key_end(s, key_pos)
}

/// The times and weights that a cursor at `(key_pos, val_pos)` in `s` shows
/// under the bound `clip`.
pub open spec fn history<K: DBData, V: DBData, T: Timestamp, R>(
    s: Seq<(((K, V), T), R)>,
    key_pos: int,
    val_pos: int,
    clip: Option<T>,
) -> Seq<(T, R)> {
    if has_val(s, key_pos, val_pos) {
        shown(times_between(s, val_pos, val_end(s, val_pos)), clip)
    } else {
        Seq::empty()
    }
}

/// The cursor protocol.
///
/// `storage` is the consolidated sequence of tuples that the cursor ranges
/// over; no operation changes it.  `key_pos` and `val_pos` are the position.
/// `clip`, where it is set, restricts the times that the cursor shows to
/// those at or below it.
pub trait Cursor<'s, K: DBData, V: DBData, T: DBTimestamp, R: DBWeight>: Sized {
    /// The cursor is in a valid state.
    spec fn wf(&self) -> bool;

    /// The tuples that the cursor ranges over.
    spec fn storage(&self) -> Seq<(((K, V), T), R)>;

    /// The index at which the tuples of the current key start; the length of
    /// the storage when the keys are used up.
    spec fn key_pos(&self) -> int;

    /// The index at which the tuples of the current value start; the index
    /// at which the current key ends when its values are used up.
    spec fn val_pos(&self) -> int;

    /// The bound on the times that the cursor shows, if it has one.
    spec fn clip(&self) -> Option<T>;

    /// A valid cursor is at a valid position of a consolidated storage.
    proof fn lemma_wf(&self)
        requires
            self.wf(),
        ensures
            position_ok(self.storage(), self.key_pos(), self.val_pos()),
    ;

    /// Tells whether the cursor is on a key.
    fn key_valid(&self) -> (r: bool)
        requires
            self.wf(),
        ensures
            r == (self.key_pos() < self.storage().len()),
    ;

    /// Tells whether the cursor is on a value.
    fn val_valid(&self) -> (r: bool)
        requires
            self.wf(),
        ensures
            r == has_val(self.storage(), self.key_pos(), self.val_pos()),
    ;

    /// The current key.
    fn key(&self) -> (r: &K)
        requires
            self.wf(),
            self.key_pos() < self.storage().len(),
        ensures
            *r == self.storage()[self.key_pos()].0.0.0,
    ;

    /// The current value.
    fn val(&self) -> (r: &V)
        requires
            self.wf(),
            has_val(self.storage(), self.key_pos(), self.val_pos()),
        ensures
            *r == self.storage()[self.val_pos()].0.0.1,
    ;

    /// The times and weights at the current key and value that the cursor
    /// shows, in the order of the times; nothing when it is on no value.
    fn map_times(&self) -> (r: Vec<(T, R)>)
        requires
            self.wf(),
        ensures
            r@ == history(self.storage(), self.key_pos(), self.val_pos(), self.clip()),
    ;

    /// Advances to the next key and to its first value; does nothing when
    /// the keys are used up.
    fn step_key(&mut self)
        requires
            old(self).wf(),
        ensures
            final(self).wf(),
            final(self).storage() == old(self).storage(),
            final(self).clip() == old(self).clip(),
            final(self).key_pos() == if old(self).key_pos() < old(self).storage().len() {
                key_end(old(self).storage(), old(self).key_pos())
            } else {
                old(self).key_pos()
            },
            final(self).val_pos() == final(self).key_pos(),
    ;

    /// Advances to the first key at or above `key`, unless the current key is
    /// there already, and to the first value of the key reached.
    fn seek_key(&mut self, key: &K)
        requires
            old(self).wf(),
        ensures
            final(self).wf(),
            final(self).storage() == old(self).storage(),
            final(self).clip() == old(self).clip(),
            final(self).key_pos() == if old(self).key_pos() < key_lower(old(self).storage(), *key) {
                key_lower(old(self).storage(), *key)
            } else {
                old(self).key_pos()
            },
            final(self).val_pos() == final(self).key_pos(),
    ;

    /// Advances to the next value of the current key; does nothing when the
    /// cursor is on no value.
    fn step_val(&mut self)
        requires
            old(self).wf(),
        ensures
            final(self).wf(),
            final(self).storage() == old(self).storage(),
            final(self).clip() == old(self).clip(),
            final(self).key_pos() == old(self).key_pos(),
            final(self).val_pos() == if has_val(old(self).storage(), old(self).key_pos(), old(self).val_pos()) {
                val_end(old(self).storage(), old(self).val_pos())
            } else {
                old(self).val_pos()
            },
    ;

    /// Advances to the first value of the current key that is at or above
    /// `val`, unless the current value is there already; does nothing when
    /// the cursor is on no value.
    fn seek_val(&mut self, val: &V)
        requires
            old(self).wf(),
        ensures
            final(self).wf(),
            final(self).storage() == old(self).storage(),
            final(self).clip() == old(self).clip(),
            final(self).key_pos() == old(self).key_pos(),
            final(self).val_pos() == if has_val(old(self).storage(), old(self).key_pos(), old(self).val_pos()) && old(self).val_pos() < val_lower(
                old(self).storage(),
                (old(self).storage()[old(self).key_pos()].0.0.0, *val),
            ) {
                val_lower(
                    old(self).storage(),
                    (old(self).storage()[old(self).key_pos()].0.0.0, *val),
                )
            } else {
                old(self).val_pos()
            },
    ;

    /// Goes back to the first key and its first value.
    fn rewind_keys(&mut self)
        requires
            old(self).wf(),
        ensures
            final(self).wf(),
            final(self).storage() == old(self).storage(),
            final(self).clip() == old(self).clip(),
            final(self).key_pos() == 0,
            final(self).val_pos() == 0,
    ;

    /// Goes back to the first value of the current key.
    fn rewind_vals(&mut self)
        requires
            old(self).wf(),
        ensures
            final(self).wf(),
            final(self).storage() == old(self).storage(),
            final(self).clip() == old(self).clip(),
            final(self).key_pos() == old(self).key_pos(),
            final(self).val_pos() == old(self).key_pos(),
    ;

    /// The cursor can go to its last key.
    spec fn seeks_last(&self) -> bool;

    /// Goes to the last key and to its first value, and returns the key,
    /// where the cursor can do so and has a key; else it stays where it is
    /// and returns nothing.
    fn last_key(&mut self) -> (r: Option<K>)
        requires
            old(self).wf(),
        ensures
            final(self).wf(),
            final(self).storage() == old(self).storage(),
            final(self).clip() == old(self).clip(),
            r is Some <==> old(self).seeks_last() && old(self).storage().len() > 0,
            r matches Some(k) ==> k == old(self).storage().last().0.0.0 && final(self).key_pos()
                == key_lower(old(self).storage(), k) && final(self).val_pos() == final(self).key_pos(),
            r is None ==> final(self).key_pos() == old(self).key_pos() && final(self).val_pos()
                == old(self).val_pos(),
    ;

    /// Advances over the values of the current key for which `predicate`
    /// gives `false`, up to the first one for which it gives `true`.
    fn seek_val_with<P: Fn(&V) -> bool>(&mut self, predicate: P)
        requires
            old(self).wf(),
            forall|v: &V| #[trigger] call_requires(predicate, (v,)),
        ensures
            final(self).wf(),
            final(self).storage() == old(self).storage(),
            final(self).clip() == old(self).clip(),
            final(self).key_pos() == old(self).key_pos(),
            old(self).val_pos() <= final(self).val_pos(),
            forall|j: int|
                old(self).val_pos() <= j < final(self).val_pos() ==> call_ensures(
                    predicate,
                    (&(#[trigger] old(self).storage()[j]).0.0.1,),
                    false,
                ),
            has_val(final(self).storage(), final(self).key_pos(), final(self).val_pos())
                ==> call_ensures(
                predicate,
                (&final(self).storage()[final(self).val_pos()].0.0.1,),
                true,
            ),
    {
        let ghost s = self.storage();
        let ghost kp = self.key_pos();
        let ghost start = self.val_pos();
        proof {
            self.lemma_wf();
        }
        loop
            invariant_except_break
                self.wf(),
                self.storage() == s,
                self.clip() == old(self).clip(),
                self.key_pos() == kp,
                start <= self.val_pos() <= s.len(),
                forall|v: &V| #[trigger] call_requires(predicate, (v,)),
                forall|j: int|
                    start <= j < self.val_pos() ==> call_ensures(
                        predicate,
                        (&(#[trigger] s[j]).0.0.1,),
                        false,
                    ),
            ensures
                self.wf(),
                self.storage() == s,
                self.clip() == old(self).clip(),
                self.key_pos() == kp,
                start <= self.val_pos(),
                forall|j: int|
                    start <= j < self.val_pos() ==> call_ensures(
                        predicate,
                        (&(#[trigger] s[j]).0.0.1,),
                        false,
                    ),
                has_val(s, kp, self.val_pos()) ==> call_ensures(
                    predicate,
                    (&s[self.val_pos()].0.0.1,),
                    true,
                ),
            decreases s.len() - self.val_pos(),
        {
            if !self.val_valid() {
                break ;
            }
            let ghost vp = self.val_pos();
            proof {
                self.lemma_wf();
                lemma_key_end(s, kp);
                lemma_val_end(s, vp);
            }
            let found = predicate(self.val());
            if found {
                break ;
            }
            self.step_val();
            proof {
                assert forall|j: int| start <= j < self.val_pos() implies call_ensures(
                    predicate,
                    (&(#[trigger] s[j]).0.0.1,),
                    false,
                ) by {
                    if j >= vp {
                        assert(s[j].0.0 == s[vp].0.0);
                    }
                }
            }
        }
    }

    /// The times and weights at the current key and value that the cursor
    /// shows and that are at or below `upper`.
    fn map_times_through(&self, upper: &T) -> (r: Vec<(T, R)>)
        requires
            self.wf(),
        ensures
            r@ == through(
                history(self.storage(), self.key_pos(), self.val_pos(), self.clip()),
                *upper,
            ),
    {
        let h = self.map_times();
        keep_through(&h, upper)
    }

    /// Folds `fold` over the times and weights that the cursor shows at the
    /// current key and value, from `init`.
    fn fold_times<U, F: Fn(U, &T, &R) -> U>(&self, init: U, fold: F) -> (r: U)
        requires
            self.wf(),
            forall|u: U, t: &T, w: &R| #[trigger] call_requires(fold, (u, t, w)),
        ensures
            is_fold(
                fold,
                init,
                history(self.storage(), self.key_pos(), self.val_pos(), self.clip()),
                r,
            ),
    {
        let h = self.map_times();
        fold_entries(&h, init, fold)
    }

    /// Folds `fold` over the times and weights that the cursor shows at the
    /// current key and value and that are at or below `upper`, from `init`.
    fn fold_times_through<U, F: Fn(U, &T, &R) -> U>(&self, upper: &T, init: U, fold: F) -> (r: U)
        requires
            self.wf(),
            forall|u: U, t: &T, w: &R| #[trigger] call_requires(fold, (u, t, w)),
        ensures
            is_fold(
                fold,
                init,
                through(
                    history(self.storage(), self.key_pos(), self.val_pos(), self.clip()),
                    *upper,
                ),
                r,
            ),
    {
        let h = self.map_times_through(upper);
        fold_entries(&h, init, fold)
    }

    /// The sum of the weights that the cursor shows at the current key and
    /// value.  Where the time is `()` this is the weight of the key and
    /// value.
    fn weight(&self) -> (r: R)
        requires
            self.wf(),
        ensures
            r == weight_sum(history(self.storage(), self.key_pos(), self.val_pos(), self.clip())),
    {
        let h = self.map_times();
        sum_weights(&h)
    }
}


/// In an ascending sequence the elements before one that is below `x` are
/// below `x`.
pub proof fn lemma_ascending_below<A: DBData>(a: Seq<A>, i: int, j: int, x: A)
    requires
        is_ascending(a),
        0 <= i <= j < a.len(),
        a[j].lt_spec(&x),
    ensures
        a[i].lt_spec(&x),
{
    if i < j {
        assert(!a[j].lt_spec(&a[i]));
        A::lemma_lt_total(a[i], a[j]);
        if a[i].lt_spec(&a[j]) {
            A::lemma_lt_transitive(a[i], a[j], x);
        }
    }
}

/// In an ascending sequence the elements after one that is above `x` are
/// above `x`.
pub proof fn lemma_ascending_above<A: DBData>(a: Seq<A>, i: int, j: int, x: A)
    requires
        is_ascending(a),
        0 <= i <= j < a.len(),
        x.lt_spec(&a[i]),
    ensures
        x.lt_spec(&a[j]),
{
    if i < j {
        assert(!a[j].lt_spec(&a[i]));
        A::lemma_lt_total(a[i], a[j]);
        if a[i].lt_spec(&a[j]) {
            A::lemma_lt_transitive(x, a[i], a[j]);
        }
    }
}

/// In an ascending sequence the elements after one that is not below `x` are
/// not below `x`.
pub proof fn lemma_ascending_not_below<A: DBData>(a: Seq<A>, i: int, j: int, x: A)
    requires
        is_ascending(a),
        0 <= i <= j < a.len(),
        !a[i].lt_spec(&x),
    ensures
        !a[j].lt_spec(&x),
{
    if a[j].lt_spec(&x) {
        lemma_ascending_below(a, i, j, x);
    }
}

/// In an ascending sequence the elements before one that is not above `x`
/// are not above `x`.
pub proof fn lemma_ascending_not_above<A: DBData>(a: Seq<A>, i: int, j: int, x: A)
    requires
        is_ascending(a),
        0 <= i <= j < a.len(),
        !x.lt_spec(&a[j]),
    ensures
        !x.lt_spec(&a[i]),
{
    if x.lt_spec(&a[i]) {
        lemma_ascending_above(a, i, j, x);
    }
}

/// Finds the first index from `from` on at which an ascending sequence of
/// keys is at or above `key`, by bisection.
pub fn seek_key_from<K: DBData, V: DBData, T: DBData, R: DBWeight>(
    v: &Vec<(((K, V), T), R)>,
    from: usize,
    key: &K,
) -> (r: usize)
    requires
        is_sorted(v@),
        from <= v.len(),
    ensures
        r == if from < key_lower(v@, *key) {
            key_lower(v@, *key)
        } else {
            from as int
        },
        from <= r <= v.len(),
{
    let ghost ks = keys_of(v@);
    proof {
        lemma_projections_ascend(v@);
        lemma_below_count(ks, *key);
    }
    let mut lo = from;
    let mut hi = v.len();
    while lo < hi
        invariant
            from <= lo <= hi <= v.len(),
            ks == keys_of(v@),
            is_ascending(ks),
            forall|i: int| from <= i < lo ==> (#[trigger] ks[i]).lt_spec(key),
            forall|i: int| hi <= i < v.len() ==> !(#[trigger] ks[i]).lt_spec(key),
        decreases hi - lo,
    {
        let mid = lo + (hi - lo) / 2;
        if v[mid].0.0.0.less(key) {
            proof {
                assert(ks[mid as int].lt_spec(key));
                assert forall|i: int| from <= i < mid + 1 implies (#[trigger] ks[i]).lt_spec(key) by {
                    lemma_ascending_below(ks, i, mid as int, *key);
                }
            }
            lo = mid + 1;
        } else {
            proof {
                assert(!ks[mid as int].lt_spec(key));
                assert forall|i: int| mid <= i < v.len() implies !(#[trigger] ks[i]).lt_spec(key) by {
                    lemma_ascending_not_below(ks, mid as int, i, *key);
                }
            }
            hi = mid;
        }
    }
    proof {
        let c = key_lower(v@, *key);
        if from < c {
            if lo < c {
                assert(ks[lo as int].lt_spec(key));
            }
            if c < lo {
                assert(ks[c].lt_spec(key));
            }
        } else {
            if from < lo {
                assert(ks[from as int].lt_spec(key));
            }
        }
    }
    lo
}

/// Finds the first index from `from` on at which an ascending sequence of
/// `(key, val)` pairs is at or above `(key, val)`, by bisection.
pub fn seek_val_from<K: DBData, V: DBData, T: DBData, R: DBWeight>(
    v: &Vec<(((K, V), T), R)>,
    from: usize,
    key: &K,
    val: &V,
) -> (r: usize)
    requires
        is_sorted(v@),
        from <= v.len(),
    ensures
        r == if from < val_lower(v@, (*key, *val)) {
            val_lower(v@, (*key, *val))
        } else {
            from as int
        },
        from <= r <= v.len(),
{
    let ghost kvs = key_vals_of(v@);
    let ghost x = (*key, *val);
    proof {
        lemma_projections_ascend(v@);
        lemma_below_count(kvs, x);
    }
    let mut lo = from;
    let mut hi = v.len();
    while lo < hi
        invariant
            from <= lo <= hi <= v.len(),
            kvs == key_vals_of(v@),
            x == (*key, *val),
            is_ascending(kvs),
            forall|i: int| from <= i < lo ==> (#[trigger] kvs[i]).lt_spec(&x),
            forall|i: int| hi <= i < v.len() ==> !(#[trigger] kvs[i]).lt_spec(&x),
        decreases hi - lo,
    {
        let mid = lo + (hi - lo) / 2;
        let below = if v[mid].0.0.0.less(key) {
            true
        } else if v[mid].0.0.0.same(key) {
            v[mid].0.0.1.less(val)
        } else {
            false
        };
        if below {
            proof {
                assert(kvs[mid as int].lt_spec(&x));
                assert forall|i: int| from <= i < mid + 1 implies (#[trigger] kvs[i]).lt_spec(&x) by {
                    lemma_ascending_below(kvs, i, mid as int, x);
                }
            }
            lo = mid + 1;
        } else {
            proof {
                assert(!kvs[mid as int].lt_spec(&x));
                assert forall|i: int| mid <= i < v.len() implies !(#[trigger] kvs[i]).lt_spec(&x) by {
                    lemma_ascending_not_below(kvs, mid as int, i, x);
                }
            }
            hi = mid;
        }
    }
    proof {
        let c = val_lower(v@, x);
        if from < c {
            if lo < c {
                assert(kvs[lo as int].lt_spec(&x));
            }
            if c < lo {
                assert(kvs[c].lt_spec(&x));
            }
        } else {
            if from < lo {
                assert(kvs[from as int].lt_spec(&x));
            }
        }
    }
    lo
}

/// Finds the index after the last tuple that has the key of the tuple at
/// `p`.
pub fn key_run_end<K: DBData, V: DBData, T: DBData, R: DBWeight>(
    v: &Vec<(((K, V), T), R)>,
    p: usize,
) -> (r: usize)
    requires
        is_sorted(v@),
        p < v.len(),
    ensures
        r == key_end(v@, p as int),
        p < r <= v.len(),
        forall|i: int| p <= i < r ==> (#[trigger] v@[i]).0.0.0 == v@[p as int].0.0.0,
{
    let ghost ks = keys_of(v@);
    let ghost x = v@[p as int].0.0.0;
    proof {
        lemma_projections_ascend(v@);
        K::lemma_lt_irreflexive(x);
    }
    let mut r = p + 1;
    while r < v.len() && v[r].0.0.0.same(&v[p].0.0.0)
        invariant
            p < r <= v.len(),
            ks == keys_of(v@),
            x == v@[p as int].0.0.0,
            forall|i: int| p <= i < r ==> (#[trigger] v@[i]).0.0.0 == x,
        decreases v.len() - r,
    {
        r = r + 1;
    }
    proof {
        assert forall|i: int| 0 <= i < r implies !x.lt_spec(&(#[trigger] ks[i])) by {
            if i < p {
                assert(ks[p as int] == x);
                lemma_ascending_not_above(ks, i, p as int, x);
            } else {
                assert(v@[i].0.0.0 == x);
            }
        }
        assert forall|i: int| r <= i < ks.len() implies x.lt_spec(&(#[trigger] ks[i])) by {
            assert(ks[r as int] != x);
            assert(!ks[r as int].lt_spec(&ks[p as int]));
            K::lemma_lt_total(x, ks[r as int]);
            lemma_ascending_above(ks, r as int, i, x);
        }
        lemma_not_above_count_unique(ks, x, r as int);
    }
    r
}

/// Finds the index after the last tuple that has the key and value of the
/// tuple at `p`.
pub fn val_run_end<K: DBData, V: DBData, T: DBData, R: DBWeight>(
    v: &Vec<(((K, V), T), R)>,
    p: usize,
) -> (r: usize)
    requires
        is_sorted(v@),
        p < v.len(),
    ensures
        r == val_end(v@, p as int),
        p < r <= v.len(),
        forall|i: int| p <= i < r ==> (#[trigger] v@[i]).0.0 == v@[p as int].0.0,
{
    let ghost kvs = key_vals_of(v@);
    let ghost x = v@[p as int].0.0;
    proof {
        lemma_projections_ascend(v@);
        <(K, V)>::lemma_lt_irreflexive(x);
    }
    let mut r = p + 1;
    while r < v.len() && v[r].0.0.0.same(&v[p].0.0.0) && v[r].0.0.1.same(&v[p].0.0.1)
        invariant
            p < r <= v.len(),
            kvs == key_vals_of(v@),
            x == v@[p as int].0.0,
            forall|i: int| p <= i < r ==> (#[trigger] v@[i]).0.0 == x,
        decreases v.len() - r,
    {
        r = r + 1;
    }
    proof {
        assert forall|i: int| 0 <= i < r implies !x.lt_spec(&(#[trigger] kvs[i])) by {
            if i < p {
                assert(kvs[p as int] == x);
                lemma_ascending_not_above(kvs, i, p as int, x);
            } else {
                assert(v@[i].0.0 == x);
            }
        }
        assert forall|i: int| r <= i < kvs.len() implies x.lt_spec(&(#[trigger] kvs[i])) by {
            assert(kvs[r as int] != x);
            assert(!kvs[r as int].lt_spec(&kvs[p as int]));
            <(K, V)>::lemma_lt_total(x, kvs[r as int]);
            lemma_ascending_above(kvs, r as int, i, x);
        }
        lemma_not_above_count_unique(kvs, x, r as int);
    }
    r
}

/// Copies the times and weights stored from index `from` up to `to`.
pub fn copy_times<K: DBData, V: DBData, T: DBData, R: DBWeight>(
    v: &Vec<(((K, V), T), R)>,
    from: usize,
    to: usize,
) -> (r: Vec<(T, R)>)
    requires
        from <= to <= v.len(),
    ensures
        r@ == times_between(v@, from as int, to as int),
{
    let mut r: Vec<(T, R)> = Vec::new();
    let mut i = from;
    while i < to
        invariant
            from <= i <= to <= v.len(),
            r@ == times_between(v@, from as int, i as int),
        decreases to - i,
    {
        r.push((v[i].0.1.dup(), v[i].1.dup()));
        proof {
            assert(r@ =~= times_between(v@, from as int, i + 1));
        }
        i = i + 1;
    }
    r
}

/// Keeps the entries whose time is at or below `upper`.
pub fn keep_through<T: DBTimestamp, R: DBWeight>(h: &Vec<(T, R)>, upper: &T) -> (r: Vec<(T, R)>)
    ensures
        r@ == through(h@, *upper),
{
    let mut r: Vec<(T, R)> = Vec::new();
    let mut i: usize = 0;
    while i < h.len()
        invariant
            i <= h.len(),
            r@ == through(h@.take(i as int), *upper),
        decreases h.len() - i,
    {
        proof {
            assert(h@.take(i + 1).drop_last() =~= h@.take(i as int));
        }
        if h[i].0.less_equal(upper) {
            r.push((h[i].0.dup(), h[i].1.dup()));
        }
        i = i + 1;
    }
    proof {
        assert(h@.take(h.len() as int) =~= h@);
    }
    r
}


/// The first index at which an ascending sequence is at or above `x` is the
/// first index at which it is at or above the element found there.
pub proof fn lemma_below_count_is_start<A: DBData>(a: Seq<A>, x: A)
    requires
        is_ascending(a),
    ensures
        0 <= below_count(a, x) <= a.len(),
        below_count(a, x) < a.len() ==> below_count(a, a[below_count(a, x)]) == below_count(a, x),
{
    lemma_below_count(a, x);
    let c = below_count(a, x);
    if c < a.len() {
        assert forall|i: int| 0 <= i < c implies (#[trigger] a[i]).lt_spec(&a[c]) by {
            A::lemma_lt_total(a[i], a[c]);
            if a[c].lt_spec(&a[i]) {
                A::lemma_lt_transitive(a[c], a[i], x);
            }
        }
        assert forall|i: int| c <= i < a.len() implies !(#[trigger] a[i]).lt_spec(&a[c]) by {
            A::lemma_lt_irreflexive(a[c]);
        }
        lemma_below_count_unique(a, a[c], c);
    }
}

/// The first index at which an ascending sequence is above `x` is the first
/// index at which it is at or above the element found there.
pub proof fn lemma_not_above_count_is_start<A: DBData>(a: Seq<A>, x: A)
    requires
        is_ascending(a),
    ensures
        0 <= not_above_count(a, x) <= a.len(),
        not_above_count(a, x) < a.len() ==> below_count(a, a[not_above_count(a, x)])
            == not_above_count(a, x),
{
    lemma_not_above_count(a, x);
    let e = not_above_count(a, x);
    if e < a.len() {
        assert forall|i: int| 0 <= i < e implies (#[trigger] a[i]).lt_spec(&a[e]) by {
            A::lemma_lt_total(a[i], x);
            if a[i].lt_spec(&x) {
                A::lemma_lt_transitive(a[i], x, a[e]);
            }
        }
        assert forall|i: int| e <= i < a.len() implies !(#[trigger] a[i]).lt_spec(&a[e]) by {
            A::lemma_lt_irreflexive(a[e]);
        }
        lemma_below_count_unique(a, a[e], e);
    }
}

/// The tuples of the key at `p` reach from the start of that key up to
/// `key_end`, which is past `p`; and `key_end` is the start of a key or the
/// length of the sequence.
pub proof fn lemma_key_end<K: DBData, V: DBData, T: DBData, R: DBWeight>(
    s: Seq<(((K, V), T), R)>,
    p: int,
)
    requires
        is_sorted(s),
        0 <= p < s.len(),
    ensures
        p < key_end(s, p) <= s.len(),
        key_lower(s, s[p].0.0.0) <= p,
        forall|i: int| key_lower(s, s[p].0.0.0) <= i < key_end(s, p) ==> (#[trigger] s[i]).0.0.0 == s[p].0.0.0,
        forall|i: int| 0 <= i < s.len() && (#[trigger] s[i]).0.0.0 == s[p].0.0.0 ==> key_lower(s, s[p].0.0.0) <= i < key_end(s, p),
        key_end(s, p) < s.len() ==> key_end(s, p) == key_lower(s, s[key_end(s, p)].0.0.0),
{
    let ks = keys_of(s);
    let x = ks[p];
    lemma_projections_ascend(s);
    lemma_not_above_count(ks, x);
    lemma_below_count(ks, x);
    lemma_not_above_count_is_start(ks, x);
    K::lemma_lt_irreflexive(x);
    let e = key_end(s, p);
    let c = key_lower(s, x);
    if e <= p {
        assert(x.lt_spec(&ks[p]));
    }
    if p < c {
        assert(ks[p].lt_spec(&x));
    }
    assert forall|i: int| c <= i < e implies (#[trigger] s[i]).0.0.0 == x by {
        assert(!ks[i].lt_spec(&x));
        assert(!x.lt_spec(&ks[i]));
        K::lemma_lt_total(ks[i], x);
    }
    assert forall|i: int| 0 <= i < s.len() && (#[trigger] s[i]).0.0.0 == x implies c <= i < e by {
        if i < c {
            assert(ks[i].lt_spec(&x));
        }
        if i >= e {
            assert(x.lt_spec(&ks[i]));
        }
    }
}

/// The tuples of the key and value at `p` reach from the start of that value
/// up to `val_end`, which is past `p` and within the key; and `val_end` is
/// the start of a value or the length of the sequence.
pub proof fn lemma_val_end<K: DBData, V: DBData, T: DBData, R: DBWeight>(
    s: Seq<(((K, V), T), R)>,
    p: int,
)
    requires
        is_sorted(s),
        0 <= p < s.len(),
    ensures
        p < val_end(s, p) <= key_end(s, p),
        key_lower(s, s[p].0.0.0) <= val_lower(s, s[p].0.0) <= p,
        forall|i: int| val_lower(s, s[p].0.0) <= i < val_end(s, p) ==> (#[trigger] s[i]).0.0 == s[p].0.0,
        forall|i: int| 0 <= i < s.len() && (#[trigger] s[i]).0.0 == s[p].0.0 ==> val_lower(s, s[p].0.0) <= i < val_end(s, p),
        val_end(s, p) < s.len() ==> val_end(s, p) == val_lower(s, s[val_end(s, p)].0.0),
{
    let kvs = key_vals_of(s);
    let ks = keys_of(s);
    let x = kvs[p];
    lemma_projections_ascend(s);
    lemma_not_above_count(kvs, x);
    lemma_below_count(kvs, x);
    lemma_not_above_count_is_start(kvs, x);
    <(K, V)>::lemma_lt_irreflexive(x);
    K::lemma_lt_irreflexive(x.0);
    lemma_key_end(s, p);
    lemma_not_above_count(ks, x.0);
    lemma_below_count(ks, x.0);
    let e = val_end(s, p);
    let c = val_lower(s, x);
    if e <= p {
        assert(x.lt_spec(&kvs[p]));
    }
    if p < c {
        assert(kvs[p].lt_spec(&x));
    }
    if e > key_end(s, p) {
        let q = key_end(s, p);
        assert(x.0.lt_spec(&ks[q]));
        assert(!x.lt_spec(&kvs[q]));
    }
    if c < key_lower(s, x.0) {
        assert(ks[c].lt_spec(&x.0));
        assert(!kvs[c].lt_spec(&x));
    }
    assert forall|i: int| c <= i < e implies (#[trigger] s[i]).0.0 == x by {
        assert(!kvs[i].lt_spec(&x));
        assert(!x.lt_spec(&kvs[i]));
        <(K, V)>::lemma_lt_total(kvs[i], x);
    }
    assert forall|i: int| 0 <= i < s.len() && (#[trigger] s[i]).0.0 == x implies c <= i < e by {
        if i < c {
            assert(kvs[i].lt_spec(&x));
        }
        if i >= e {
            assert(x.lt_spec(&kvs[i]));
        }
    }
}

/// The first index at which the key is at or above `k` is the start of a key
/// or the length of the sequence.
pub proof fn lemma_key_lower<K: DBData, V: DBData, T: DBData, R: DBWeight>(
    s: Seq<(((K, V), T), R)>,
    k: K,
)
    requires
        is_sorted(s),
    ensures
        0 <= key_lower(s, k) <= s.len(),
        key_lower(s, k) < s.len() ==> key_lower(s, k) == key_lower(s, s[key_lower(s, k)].0.0.0),
{
    lemma_projections_ascend(s);
    lemma_below_count_is_start(keys_of(s), k);
}

/// The start of a key is the start of its first value.
pub proof fn lemma_key_start_is_val_start<K: DBData, V: DBData, T: DBData, R: DBWeight>(
    s: Seq<(((K, V), T), R)>,
    p: int,
)
    requires
        is_sorted(s),
        0 <= p < s.len(),
        p == key_lower(s, s[p].0.0.0),
    ensures
        p == val_lower(s, s[p].0.0),
{
    let kvs = key_vals_of(s);
    let ks = keys_of(s);
    lemma_projections_ascend(s);
    lemma_below_count(ks, ks[p]);
    assert forall|i: int| 0 <= i < p implies (#[trigger] kvs[i]).lt_spec(&kvs[p]) by {
        assert(ks[i].lt_spec(&ks[p]));
    }
    assert forall|i: int| p <= i < kvs.len() implies !(#[trigger] kvs[i]).lt_spec(&kvs[p]) by {
        <(K, V)>::lemma_lt_irreflexive(kvs[p]);
    }
    lemma_below_count_unique(kvs, kvs[p], p);
}

/// Within the key that starts at `kp`, the first index at which the value is
/// at or above `v` lies between the start and the end of the key, and is the
/// start of a value or the end of the key.
pub proof fn lemma_val_lower<K: DBData, V: DBData, T: DBData, R: DBWeight>(
    s: Seq<(((K, V), T), R)>,
    kp: int,
    v: V,
)
    requires
        is_sorted(s),
        0 <= kp < s.len(),
        kp == key_lower(s, s[kp].0.0.0),
    ensures
        kp <= val_lower(s, (s[kp].0.0.0, v)) <= key_end(s, kp),
        val_lower(s, (s[kp].0.0.0, v)) < s.len() ==> val_lower(s, (s[kp].0.0.0, v)) == val_lower(
            s,
            s[val_lower(s, (s[kp].0.0.0, v))].0.0,
        ),
{
    let kvs = key_vals_of(s);
    let ks = keys_of(s);
    let x = (s[kp].0.0.0, v);
    lemma_projections_ascend(s);
    lemma_below_count_is_start(kvs, x);
    lemma_below_count(kvs, x);
    lemma_below_count(ks, x.0);
    lemma_not_above_count(ks, x.0);
    lemma_key_end(s, kp);
    K::lemma_lt_irreflexive(x.0);
    let c = val_lower(s, x);
    if c < kp {
        assert(ks[c].lt_spec(&x.0));
        assert(!kvs[c].lt_spec(&x));
    }
    if c > key_end(s, kp) {
        let q = key_end(s, kp);
        assert(x.0.lt_spec(&ks[q]));
        assert(kvs[q].lt_spec(&x));
        if ks[q].lt_spec(&x.0) {
            K::lemma_lt_transitive(x.0, ks[q], x.0);
        }
    }
}

/// The first tuple starts the first key and its first value.
pub proof fn lemma_position_start<K: DBData, V: DBData, T: DBData, R: DBWeight>(
    s: Seq<(((K, V), T), R)>,
)
    requires
        is_consolidated(s),
    ensures
        position_ok(s, 0, 0),
{
    if s.len() > 0 {
        let ks = keys_of(s);
        lemma_projections_ascend(s);
        assert forall|i: int| 0 <= i < ks.len() implies !(#[trigger] ks[i]).lt_spec(&ks[0]) by {
            K::lemma_lt_irreflexive(ks[0]);
        }
        lemma_below_count_unique(ks, ks[0], 0);
        lemma_key_start_is_val_start(s, 0);
        lemma_key_end(s, 0);
    }
}


/// Folds `fold` over the entries of `h` from `init`.
pub fn fold_entries<T, R, U, F: Fn(U, &T, &R) -> U>(h: &Vec<(T, R)>, init: U, fold: F) -> (r: U)
    requires
        forall|u: U, t: &T, w: &R| #[trigger] call_requires(fold, (u, t, w)),
    ensures
        is_fold(fold, init, h@, r),
{
    let mut acc = init;
    let mut i: usize = 0;
    while i < h.len()
        invariant
            i <= h.len(),
            forall|u: U, t: &T, w: &R| #[trigger] call_requires(fold, (u, t, w)),
            is_fold(fold, init, h@.take(i as int), acc),
        decreases h.len() - i,
    {
        let ghost before = acc;
        acc = fold(acc, &h[i].0, &h[i].1);
        proof {
            let next = h@.take(i + 1);
            assert(next.drop_last() =~= h@.take(i as int));
            assert(next.last() == h@[i as int]);
            assert(is_fold(fold, init, next.drop_last(), before) && call_ensures(
                fold,
                (before, &next.last().0, &next.last().1),
                acc,
            ));
        }
        i = i + 1;
    }
    proof {
        assert(h@.take(h.len() as int) =~= h@);
    }
    acc
}

/// Adds up the weights of `h`.
pub fn sum_weights<T, R: DBWeight>(h: &Vec<(T, R)>) -> (r: R)
    ensures
        r == weight_sum(h@),
{
    let mut acc = R::zero();
    let mut i: usize = 0;
    while i < h.len()
        invariant
            i <= h.len(),
            acc == weight_sum(h@.take(i as int)),
        decreases h.len() - i,
    {
        proof {
            assert(h@.take(i + 1).drop_last() =~= h@.take(i as int));
        }
        acc = acc.add_by_ref(&h[i].1);
        i = i + 1;
    }
    proof {
        assert(h@.take(h.len() as int) =~= h@);
    }
    acc
}


/// The position of a cursor in a vector of tuples, which each operation
/// takes as an argument.
pub struct Position {
    key_pos: usize,
    key_end: usize,
    val_pos: usize,
}

impl Position {
    /// The index at which the tuples of the current key start.
    pub closed spec fn key_pos(&self) -> int {
        self.key_pos as int
    }

    /// The index at which the tuples of the current value start.
    pub closed spec fn val_pos(&self) -> int {
        self.val_pos as int
    }

    /// The position is a valid cursor position in `s`.
    pub closed spec fn wf<K: DBData, V: DBData, T: DBData, R: DBWeight>(
        &self,
        s: Seq<(((K, V), T), R)>,
    ) -> bool {
        &&& position_ok(s, self.key_pos as int, self.val_pos as int)
        &&& self.key_end == if self.key_pos < s.len() {
            key_end(s, self.key_pos as int)
        } else {
            s.len() as int
        }
    }

    /// A valid position is a valid cursor position.
    pub proof fn lemma_wf<K: DBData, V: DBData, T: DBData, R: DBWeight>(
        &self,
        s: Seq<(((K, V), T), R)>,
    )
        requires
            self.wf(s),
        ensures
            position_ok(s, self.key_pos(), self.val_pos()),
    {
    }

    fn find_key_end<K: DBData, V: DBData, T: DBData, R: DBWeight>(
        data: &Vec<(((K, V), T), R)>,
        p: usize,
    ) -> (r: usize)
        requires
            is_sorted(data@),
            p <= data@.len(),
        ensures
            r == if p < data@.len() {
                key_end(data@, p as int)
            } else {
                data@.len() as int
            },
    {
        if p < data.len() {
            key_run_end(data, p)
        } else {
            data.len()
        }
    }

    /// The position on the first key and its first value.
    pub fn start<K: DBData, V: DBData, T: DBData, R: DBWeight>(data: &Vec<(((K, V), T), R)>) -> (p:
        Self)
        requires
            is_consolidated(data@),
        ensures
            p.wf(data@),
            p.key_pos() == 0,
            p.val_pos() == 0,
    {
        proof {
            lemma_position_start(data@);
        }
        Position { key_pos: 0, key_end: Self::find_key_end(data, 0), val_pos: 0 }
    }

    /// Tells whether the position is on a key.
    pub fn key_valid<K: DBData, V: DBData, T: DBData, R: DBWeight>(
        &self,
        data: &Vec<(((K, V), T), R)>,
    ) -> (r: bool)
        requires
            self.wf(data@),
        ensures
            r == (self.key_pos() < data@.len()),
    {
        self.key_pos < data.len()
    }

    /// Tells whether the position is on a value.
    pub fn val_valid<K: DBData, V: DBData, T: DBData, R: DBWeight>(
        &self,
        data: &Vec<(((K, V), T), R)>,
    ) -> (r: bool)
        requires
            self.wf(data@),
        ensures
            r == has_val(data@, self.key_pos(), self.val_pos()),
    {
        self.key_pos < data.len() && self.val_pos < self.key_end
    }

    /// The current key.
    pub fn key<'a, K: DBData, V: DBData, T: DBData, R: DBWeight>(
        &self,
        data: &'a Vec<(((K, V), T), R)>,
    ) -> (r: &'a K)
        requires
            self.wf(data@),
            self.key_pos() < data@.len(),
        ensures
            *r == data@[self.key_pos()].0.0.0,
    {
        &data[self.key_pos].0.0.0
    }

    /// The current value.
    pub fn val<'a, K: DBData, V: DBData, T: DBData, R: DBWeight>(
        &self,
        data: &'a Vec<(((K, V), T), R)>,
    ) -> (r: &'a V)
        requires
            self.wf(data@),
            has_val(data@, self.key_pos(), self.val_pos()),
        ensures
            *r == data@[self.val_pos()].0.0.1,
    {
        proof {
            lemma_key_end(data@, self.key_pos as int);
        }
        &data[self.val_pos].0.0.1
    }

    /// The times and weights at the current key and value.
    pub fn map_times<K: DBData, V: DBData, T: DBTimestamp, R: DBWeight>(
        &self,
        data: &Vec<(((K, V), T), R)>,
    ) -> (r: Vec<(T, R)>)
        requires
            self.wf(data@),
        ensures
            r@ == history(data@, self.key_pos(), self.val_pos(), None),
    {
        if self.key_pos < data.len() && self.val_pos < self.key_end {
            proof {
                lemma_key_end(data@, self.key_pos as int);
            }
            let e = val_run_end(data, self.val_pos);
            copy_times(data, self.val_pos, e)
        } else {
            Vec::new()
        }
    }

    /// Advances to the next key and to its first value.
    pub fn step_key<K: DBData, V: DBData, T: DBData, R: DBWeight>(
        &mut self,
        data: &Vec<(((K, V), T), R)>,
    )
        requires
            old(self).wf(data@),
        ensures
            final(self).wf(data@),
            final(self).key_pos() == if old(self).key_pos() < data@.len() {
                key_end(data@, old(self).key_pos())
            } else {
                old(self).key_pos()
            },
            final(self).val_pos() == final(self).key_pos(),
    {
        if self.key_pos < data.len() {
            proof {
                lemma_key_end(data@, self.key_pos as int);
            }
            let p = self.key_end;
            let e = Self::find_key_end(data, p);
            proof {
                if p < data@.len() {
                    lemma_key_end(data@, p as int);
                    lemma_key_start_is_val_start(data@, p as int);
                }
            }
            self.key_pos = p;
            self.val_pos = p;
            self.key_end = e;
        }
    }

    /// Advances to the first key at or above `key`.
    pub fn seek_key<K: DBData, V: DBData, T: DBData, R: DBWeight>(
        &mut self,
        data: &Vec<(((K, V), T), R)>,
        key: &K,
    )
        requires
            old(self).wf(data@),
        ensures
            final(self).wf(data@),
            final(self).key_pos() == if old(self).key_pos() < key_lower(data@, *key) {
                key_lower(data@, *key)
            } else {
                old(self).key_pos()
            },
            final(self).val_pos() == final(self).key_pos(),
    {
        let p = seek_key_from(data, self.key_pos, key);
        let e = Self::find_key_end(data, p);
        proof {
            lemma_key_lower(data@, *key);
            if p < data@.len() {
                lemma_key_end(data@, p as int);
                lemma_key_start_is_val_start(data@, p as int);
            }
        }
        self.key_pos = p;
        self.val_pos = p;
        self.key_end = e;
    }

    /// Advances to the next value of the current key.
    pub fn step_val<K: DBData, V: DBData, T: DBData, R: DBWeight>(
        &mut self,
        data: &Vec<(((K, V), T), R)>,
    )
        requires
            old(self).wf(data@),
        ensures
            final(self).wf(data@),
            final(self).key_pos() == old(self).key_pos(),
            final(self).val_pos() == if has_val(data@, old(self).key_pos(), old(self).val_pos()) {
                val_end(data@, old(self).val_pos())
            } else {
                old(self).val_pos()
            },
    {
        if self.key_pos < data.len() && self.val_pos < self.key_end {
            proof {
                lemma_key_end(data@, self.key_pos as int);
                lemma_val_end(data@, self.val_pos as int);
            }
            let e = val_run_end(data, self.val_pos);
            self.val_pos = e;
        }
    }

    /// Advances to the first value of the current key at or above `val`.
    pub fn seek_val<K: DBData, V: DBData, T: DBData, R: DBWeight>(
        &mut self,
        data: &Vec<(((K, V), T), R)>,
        val: &V,
    )
        requires
            old(self).wf(data@),
        ensures
            final(self).wf(data@),
            final(self).key_pos() == old(self).key_pos(),
            final(self).val_pos() == if has_val(data@, old(self).key_pos(), old(self).val_pos())
                && old(self).val_pos() < val_lower(data@, (data@[old(self).key_pos()].0.0.0, *val)) {
                val_lower(data@, (data@[old(self).key_pos()].0.0.0, *val))
            } else {
                old(self).val_pos()
            },
    {
        if self.key_pos < data.len() && self.val_pos < self.key_end {
            proof {
                lemma_key_end(data@, self.key_pos as int);
                lemma_val_lower(data@, self.key_pos as int, *val);
            }
            let p = seek_val_from(data, self.val_pos, &data[self.key_pos].0.0.0, val);
            self.val_pos = p;
        }
    }

    /// Goes to the last key and to its first value, and returns the key;
    /// stays and returns nothing where there is no key.
    pub fn last_key<K: DBData, V: DBData, T: DBData, R: DBWeight>(
        &mut self,
        data: &Vec<(((K, V), T), R)>,
    ) -> (r: Option<K>)
        requires
            old(self).wf(data@),
        ensures
            final(self).wf(data@),
            r is Some <==> data@.len() > 0,
            r matches Some(k) ==> k == data@.last().0.0.0 && final(self).key_pos() == key_lower(
                data@,
                k,
            ) && final(self).val_pos() == final(self).key_pos(),
            r is None ==> final(self).key_pos() == old(self).key_pos() && final(self).val_pos()
                == old(self).val_pos(),
    {
        if data.len() == 0 {
            return None;
        }
        let key = data[data.len() - 1].0.0.0.dup();
        let p = seek_key_from(data, 0, &key);
        proof {
            let ks = keys_of(data@);
            lemma_projections_ascend(data@);
            lemma_below_count(ks, key);
            K::lemma_lt_irreflexive(key);
            assert(ks[data@.len() - 1] == key);
            assert(p < data@.len());
            lemma_key_lower(data@, key);
            lemma_key_end(data@, p as int);
            lemma_key_start_is_val_start(data@, p as int);
        }
        let e = Self::find_key_end(data, p);
        self.key_pos = p;
        self.val_pos = p;
        self.key_end = e;
        Some(key)
    }

    /// Goes back to the first key and its first value.
    pub fn rewind_keys<K: DBData, V: DBData, T: DBData, R: DBWeight>(
        &mut self,
        data: &Vec<(((K, V), T), R)>,
    )
        requires
            old(self).wf(data@),
        ensures
            final(self).wf(data@),
            final(self).key_pos() == 0,
            final(self).val_pos() == 0,
    {
        let e = Self::find_key_end(data, 0);
        proof {
            lemma_position_start(data@);
        }
        self.key_pos = 0;
        self.val_pos = 0;
        self.key_end = e;
    }

    /// Goes back to the first value of the current key.
    pub fn rewind_vals<K: DBData, V: DBData, T: DBData, R: DBWeight>(
        &mut self,
        data: &Vec<(((K, V), T), R)>,
    )
        requires
            old(self).wf(data@),
        ensures
            final(self).wf(data@),
            final(self).key_pos() == old(self).key_pos(),
            final(self).val_pos() == old(self).key_pos(),
    {
        proof {
            if self.key_pos < data@.len() {
                lemma_key_end(data@, self.key_pos as int);
                lemma_key_start_is_val_start(data@, self.key_pos as int);
            }
        }
        self.val_pos = self.key_pos;
    }
}


/// Reads all tuples that a cursor ranges over, by walking its keys, their
/// values and the times of each, and leaves the cursor past its last key.
pub fn collect_tuples<'s, K: DBData, V: DBData, T: DBTimestamp, R: DBWeight, C: Cursor<'s, K, V, T, R>>(
    c: &mut C,
) -> (r: Vec<(((K, V), T), R)>)
    requires
        old(c).wf(),
        old(c).clip() is None,
    ensures
        final(c).wf(),
        final(c).storage() == old(c).storage(),
        final(c).clip() == old(c).clip(),
        final(c).key_pos() == old(c).storage().len(),
        r@ == old(c).storage(),
{
    let ghost s = c.storage();
    c.rewind_keys();
    let mut out: Vec<(((K, V), T), R)> = Vec::new();
    proof {
        c.lemma_wf();
        assert(out@ =~= s.take(0));
    }
    while c.key_valid()
        invariant
            c.wf(),
            c.storage() == s,
            c.clip() is None,
            c.val_pos() == c.key_pos(),
            0 <= c.key_pos() <= s.len(),
            out@ == s.take(c.key_pos()),
        decreases s.len() - c.key_pos(),
    {
        let ghost kp = c.key_pos();
        proof {
            c.lemma_wf();
            lemma_key_end(s, kp);
        }
        while c.val_valid()
            invariant
                c.wf(),
                c.storage() == s,
                c.clip() is None,
                c.key_pos() == kp,
                0 <= kp < s.len(),
                kp <= c.val_pos() <= key_end(s, kp) <= s.len(),
                out@ == s.take(c.val_pos()),
            decreases s.len() - c.val_pos(),
        {
            let ghost vp = c.val_pos();
            proof {
                c.lemma_wf();
                lemma_val_end(s, vp);
                lemma_key_end(s, vp);
                lemma_key_end(s, kp);
            }
            let h = c.map_times();
            let mut i: usize = 0;
            while i < h.len()
                invariant
                    c.wf(),
                    c.storage() == s,
                    c.key_pos() == kp,
                    c.val_pos() == vp,
                    0 <= kp <= vp < key_end(s, kp) <= s.len(),
                    vp < val_end(s, vp) <= s.len(),
                    forall|j: int| vp <= j < val_end(s, vp) ==> (#[trigger] s[j]).0.0 == s[vp].0.0,
                    s[vp].0.0.0 == s[kp].0.0.0,
                    i <= h.len(),
                    h@ == times_between(s, vp, val_end(s, vp)),
                    out@ == s.take(vp + i),
                decreases h.len() - i,
            {
                let k = c.key().dup();
                let v = c.val().dup();
                out.push((((k, v), h[i].0.dup()), h[i].1.dup()));
                proof {
                    assert(s[vp + i].0.0 == s[vp].0.0);
                    assert(h@[i as int] == (s[vp + i].0.1, s[vp + i].1));
                    assert(out@ =~= s.take(vp + i + 1));
                }
                i = i + 1;
            }
            c.step_val();
        }
        c.step_key();
    }
    proof {
        assert(s.take(s.len() as int) =~= s);
    }
    out
}


/// Restricting entries that are all at or below `upper` to the times at or
/// below `upper` keeps them all.
pub proof fn lemma_through_all<T: Timestamp, R>(h: Seq<(T, R)>, upper: T)
    requires
        forall|i: int| 0 <= i < h.len() ==> (#[trigger] h[i]).0.le_spec(&upper),
    ensures
        through(h, upper) == h,
    decreases h.len(),
{
    if h.len() > 0 {
        let h0 = h.drop_last();
        assert forall|i: int| 0 <= i < h0.len() implies (#[trigger] h0[i]).0.le_spec(&upper) by {
            assert(h[i].0.le_spec(&upper));
        }
        lemma_through_all(h0, upper);
        assert(h[h.len() - 1].0.le_spec(&upper));
        assert(h0.push(h.last()) =~= h);
    }
}

/// After the times of a reader were pushed back to `frontier`, a cursor over
/// it shows only times at or below `frontier` at every position, and
/// restricting what it shows to the times at or below `frontier` changes
/// nothing.
///
/// `tuples` is what the reader holds after its times were pushed back: it
/// is consolidated and its times are at or below `frontier`.  `storage` is
/// what a cursor over the reader ranges over.
pub proof fn lemma_receded_history<K: DBData, V: DBData, T: DBTimestamp, R: DBWeight>(
    tuples: Seq<(((K, V), T), R)>,
    storage: Seq<(((K, V), T), R)>,
    frontier: T,
    key_pos: int,
    val_pos: int,
)
    requires
        is_consolidated(tuples),
        forall|i: int| 0 <= i < tuples.len() ==> (#[trigger] tuples[i]).0.1.le_spec(&frontier),
        is_consolidated(storage),
        crate::trace::consolidation::same_weights(storage, tuples),
        position_ok(storage, key_pos, val_pos),
    ensures
        forall|j: int|
            0 <= j < history(storage, key_pos, val_pos, None).len() ==> (#[trigger] history(
                storage,
                key_pos,
                val_pos,
                None,
            )[j]).0.le_spec(&frontier),
        through(history(storage, key_pos, val_pos, None), frontier) == history(
            storage,
            key_pos,
            val_pos,
            None,
        ),
{
    crate::trace::consolidation::lemma_canonical(storage, tuples);
    let h = history(storage, key_pos, val_pos, None);
    if has_val(storage, key_pos, val_pos) {
        lemma_key_end(storage, key_pos);
        lemma_val_end(storage, val_pos);
        assert forall|j: int| 0 <= j < h.len() implies (#[trigger] h[j]).0.le_spec(&frontier) by {
            assert(h[j].0 == storage[val_pos + j].0.1);
        }
    }
    lemma_through_all(h, frontier);
}

} // verus!
