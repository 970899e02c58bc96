//! A cursor over the values of one key of a base cursor.

use std::marker::PhantomData;
use vstd::prelude::*;
use crate::time::Timestamp;
use crate::trace::consolidation::is_consolidated;
use crate::trace::cursor::{
    history,
    key_end,
    key_lower,
    key_vals_of,
    keys_of,
    lemma_below_count,
    lemma_below_count_unique,
    lemma_key_end,
    lemma_key_start_is_val_start,
    lemma_not_above_count,
    lemma_not_above_count_unique,
    lemma_projections_ascend,
    lemma_val_end,
    lemma_val_lower,
    position_ok,
    shown,
    sum_weights,
    through,
    times_between,
    val_end,
    val_lower,
    Cursor,
};
use crate::trace::{DBData, DBTimestamp, DBWeight};

verus! {

/// The tuples of the key that starts at `kp` in `s`, with the value in the
/// place of the key and `()` in the place of the value.
pub open spec fn group_storage<K: DBData, V, T, R>(s: Seq<(((K, V), T), R)>, kp: int) -> Seq<
    (((V, ()), T), R),
> {
    Seq::new(
        (key_end(s, kp) - kp) as nat,
        |i: int| (((s[kp + i].0.0.1, ()), s[kp + i].0.1), s[kp + i].1),
    )
}

/// The bound of a group cursor: `upper`, met with the bound of the base
/// cursor where it has one.
pub open spec fn group_clip<T: Timestamp>(base_clip: Option<T>, upper: T) -> Option<T> {
    match base_clip {
        Some(c) => Some(c.meet_spec(&upper)),
        None => Some(upper),
    }
}

/// Restricting to the times at or below `a` and then to those at or below
/// `b` restricts to the times at or below the meet of `a` and `b`.
pub proof fn lemma_through_twice<T: Timestamp, R>(h: Seq<(T, R)>, a: T, b: T)
    ensures
        through(through(h, a), b) == through(h, a.meet_spec(&b)),
    decreases h.len(),
{
    if h.len() > 0 {
        let e = h.last();
        let h0 = h.drop_last();
        lemma_through_twice(h0, a, b);
        T::lemma_meet_glb(a, b, e.0);
        if e.0.le_spec(&a.meet_spec(&b)) {
            T::lemma_le_transitive(e.0, a.meet_spec(&b), a);
            T::lemma_le_transitive(e.0, a.meet_spec(&b), b);
        }
        if e.0.le_spec(&a) {
            assert(through(h0, a).push(e).drop_last() =~= through(h0, a));
        }
    }
}

/// What a group cursor with the bound `upper` shows of what its base shows.
pub proof fn lemma_group_shown<T: Timestamp, R>(h: Seq<(T, R)>, base_clip: Option<T>, upper: T)
    ensures
        through(shown(h, base_clip), upper) == shown(h, group_clip(base_clip, upper)),
{
    match base_clip {
        Some(c) => {
            lemma_through_twice(h, c, upper);
        },
        None => {},
    }
}

/// The tuples of one key, seen as a group, are consolidated.
pub proof fn lemma_group_consolidated<K: DBData, V: DBData, T: DBData, R: DBWeight>(
    s: Seq<(((K, V), T), R)>,
    kp: int,
)
    requires
        is_consolidated(s),
        0 <= kp < s.len(),
        kp == key_lower(s, s[kp].0.0.0),
    ensures
        is_consolidated(group_storage(s, kp)),
        group_storage(s, kp).len() == key_end(s, kp) - kp,
        group_storage(s, kp).len() > 0,
{
    let g = group_storage(s, kp);
    lemma_key_end(s, kp);
    K::lemma_lt_irreflexive(s[kp].0.0.0);
    assert forall|i: int, j: int| 0 <= i < j < g.len() implies (#[trigger] g[i]).0.lt_spec(
        &(#[trigger] g[j]).0,
    ) by {
        assert(s[kp + i].0.lt_spec(&s[kp + j].0));
        assert(s[kp + i].0.0.0 == s[kp].0.0.0);
        assert(s[kp + j].0.0.0 == s[kp].0.0.0);
    }
    assert forall|i: int| 0 <= i < g.len() implies (#[trigger] g[i]).1 != R::zero_spec() by {
        assert(s[kp + i].1 != R::zero_spec());
    }
}

/// The first index of a group at which the value is at or above `v` is the
/// first index of the base at which the key and value are at or above the
/// key of the group and `v`, counted from the start of the key.
pub proof fn lemma_group_key_lower<K: DBData, V: DBData, T: DBData, R: DBWeight>(
    s: Seq<(((K, V), T), R)>,
    kp: int,
    v: V,
)
    requires
        is_consolidated(s),
        0 <= kp < s.len(),
        kp == key_lower(s, s[kp].0.0.0),
    ensures
        key_lower(group_storage(s, kp), v) == val_lower(s, (s[kp].0.0.0, v)) - kp,
{
    let g = group_storage(s, kp);
    let k = s[kp].0.0.0;
    lemma_group_consolidated(s, kp);
    lemma_projections_ascend(g);
    lemma_projections_ascend(s);
    lemma_key_end(s, kp);
    lemma_val_lower(s, kp, v);
    lemma_below_count(key_vals_of(s), (k, v));
    K::lemma_lt_irreflexive(k);
    let c = val_lower(s, (k, v));
    let ks = keys_of(g);
    let kvs = key_vals_of(s);
    assert forall|i: int| 0 <= i < c - kp implies (#[trigger] ks[i]).lt_spec(&v) by {
        assert(kvs[kp + i].lt_spec(&(k, v)));
        assert(s[kp + i].0.0.0 == k);
    }
    assert forall|i: int| c - kp <= i < ks.len() implies !(#[trigger] ks[i]).lt_spec(&v) by {
        assert(!kvs[kp + i].lt_spec(&(k, v)));
        assert(s[kp + i].0.0.0 == k);
    }
    lemma_below_count_unique(ks, v, c - kp);
}

/// The tuples of the value at `p` in a group end where the tuples of that
/// key and value end in the base, counted from the start of the key; and in
/// a group the tuples of a key are those of its one value `()`.
pub proof fn lemma_group_key_end<K: DBData, V: DBData, T: DBData, R: DBWeight>(
    s: Seq<(((K, V), T), R)>,
    kp: int,
    p: int,
)
    requires
        is_consolidated(s),
        0 <= kp < s.len(),
        kp == key_lower(s, s[kp].0.0.0),
        0 <= p < key_end(s, kp) - kp,
    ensures
        key_end(group_storage(s, kp), p) == val_end(s, kp + p) - kp,
        val_end(group_storage(s, kp), p) == val_end(s, kp + p) - kp,
        p < val_end(s, kp + p) - kp <= group_storage(s, kp).len(),
{
    let g = group_storage(s, kp);
    let k = s[kp].0.0.0;
    lemma_group_consolidated(s, kp);
    lemma_projections_ascend(g);
    lemma_projections_ascend(s);
    lemma_key_end(s, kp);
    lemma_val_end(s, kp + p);
    assert(s[kp + p].0.0.0 == k);
    let x = s[kp + p].0.0;
    lemma_not_above_count(key_vals_of(s), x);
    K::lemma_lt_irreflexive(k);
    let e = val_end(s, kp + p);
    let ks = keys_of(g);
    let gkvs = key_vals_of(g);
    let kvs = key_vals_of(s);
    assert(key_end(s, kp + p) == key_end(s, kp));
    assert forall|i: int| 0 <= i < e - kp implies !x.1.lt_spec(&(#[trigger] ks[i])) by {
        assert(!x.lt_spec(&kvs[kp + i]));
        assert(s[kp + i].0.0.0 == k);
    }
    assert forall|i: int| e - kp <= i < ks.len() implies x.1.lt_spec(&(#[trigger] ks[i])) by {
        assert(x.lt_spec(&kvs[kp + i]));
        assert(s[kp + i].0.0.0 == k);
    }
    lemma_not_above_count_unique(ks, x.1, e - kp);
    assert forall|i: int| 0 <= i < e - kp implies !(x.1, ()).lt_spec(&(#[trigger] gkvs[i])) by {
        assert(!x.1.lt_spec(&ks[i]));
    }
    assert forall|i: int| e - kp <= i < gkvs.len() implies (x.1, ()).lt_spec(
        &(#[trigger] gkvs[i]),
    ) by {
        assert(x.1.lt_spec(&ks[i]));
    }
    lemma_not_above_count_unique(gkvs, (x.1, ()), e - kp);
}

/// A position of the base cursor on a key gives a valid position of the
/// group of that key.
pub proof fn lemma_group_position<K: DBData, V: DBData, T: DBData, R: DBWeight>(
    s: Seq<(((K, V), T), R)>,
    kp: int,
    vp: int,
    val_valid: bool,
)
    requires
        position_ok(s, kp, vp),
        kp < s.len(),
    ensures
        position_ok(group_storage(s, kp), vp - kp, group_val_pos(s, kp, vp, val_valid)),
        vp - kp < group_storage(s, kp).len() ==> vp - kp == key_lower(
            group_storage(s, kp),
            s[vp].0.0.1,
        ),
{
    let g = group_storage(s, kp);
    lemma_group_consolidated(s, kp);
    lemma_key_end(s, kp);
    let p = vp - kp;
    if p < g.len() {
        lemma_group_key_lower(s, kp, s[vp].0.0.1);
        assert(s[vp].0.0.0 == s[kp].0.0.0);
        lemma_group_key_end(s, kp, p);
        lemma_key_start_is_val_start(g, p);
    }
}

/// The index at which the tuples of the current value of a group cursor
/// start: that of its key while the cursor is on the value, the end of the
/// key after it has stepped past the value.
pub open spec fn group_val_pos<K: DBData, V: DBData, T, R>(
    s: Seq<(((K, V), T), R)>,
    kp: int,
    vp: int,
    val_valid: bool,
) -> int {
    if val_valid || vp - kp >= group_storage(s, kp).len() {
        vp - kp
    } else {
        key_end(group_storage(s, kp), vp - kp)
    }
}

/// A `CursorGroup` iterates over the values associated with a single key of
/// a base cursor: the values are its keys, and each has the one value `()`.
/// It shows the times at or below `upper`.
pub struct CursorGroup<'c, K, T, C> {
    /// Base cursor.
    pub base: &'c mut C,
    /// The cursor filters out times that are not `<= upper`.
    pub upper: T,
    /// The cursor has not stepped past the value `()` of its current key.
    pub val_valid: bool,
    /// The key type of the base cursor.
    pub phantom: PhantomData<K>,
}

impl<'c, K, T, C> CursorGroup<'c, K, T, C> {
    /// Creates a cursor over the values associated with the current key of
    /// the `base` cursor, restricted to times `<= upper`.  The base cursor
    /// must be on a key.
    pub fn new<'s, V: DBData, R: DBWeight>(base: &'c mut C, upper: T) -> (g: Self) where
        K: DBData,
        T: DBTimestamp,
        C: Cursor<'s, K, V, T, R>,

        requires
            old(base).wf(),
            old(base).key_pos() < old(base).storage().len(),
        ensures
            *g.base == *old(base),
            *final(g.base) == *final(base),
            g.upper == upper,
            g.val_valid,
    {
        Self { base, upper, val_valid: true, phantom: PhantomData }
    }
}

impl<'c, 's, K: DBData, V: DBData, T: DBTimestamp, R: DBWeight, C: Cursor<'s, K, V, T, R>> Cursor<
    's,
    V,
    (),
    T,
    R,
> for CursorGroup<'c, K, T, C> {
    open spec fn wf(&self) -> bool {
        self.base.wf() && self.base.key_pos() < self.base.storage().len()
    }

    open spec fn storage(&self) -> Seq<(((V, ()), T), R)> {
        group_storage(self.base.storage(), self.base.key_pos())
    }

    open spec fn key_pos(&self) -> int {
        self.base.val_pos() - self.base.key_pos()
    }

    open spec fn val_pos(&self) -> int {
        group_val_pos(
            self.base.storage(),
            self.base.key_pos(),
            self.base.val_pos(),
            self.val_valid,
        )
    }

    open spec fn clip(&self) -> Option<T> {
        group_clip(self.base.clip(), self.upper)
    }

    proof fn lemma_wf(&self) {
        self.base.lemma_wf();
        lemma_group_position(
            self.base.storage(),
            self.base.key_pos(),
            self.base.val_pos(),
            self.val_valid,
        );
    }

    fn key_valid(&self) -> (r: bool) {
        proof {
            self.base.lemma_wf();
            lemma_group_consolidated(self.base.storage(), self.base.key_pos());
        }
        self.base.val_valid()
    }

    fn val_valid(&self) -> (r: bool) {
        proof {
            self.base.lemma_wf();
            lemma_group_consolidated(self.base.storage(), self.base.key_pos());
            if self.base.val_pos() < key_end(self.base.storage(), self.base.key_pos()) {
                lemma_group_key_end(
                    self.base.storage(),
                    self.base.key_pos(),
                    self.base.val_pos() - self.base.key_pos(),
                );
            }
        }
        self.val_valid && self.base.val_valid()
    }

    fn key(&self) -> (r: &V) {
        proof {
            self.base.lemma_wf();
            lemma_group_consolidated(self.base.storage(), self.base.key_pos());
        }
        self.base.val()
    }

    fn val(&self) -> (r: &()) {
        &()
    }

    fn map_times(&self) -> (r: Vec<(T, R)>) {
        proof {
            self.base.lemma_wf();
            lemma_group_history(
                self.base.storage(),
                self.base.key_pos(),
                self.base.val_pos(),
                self.val_valid,
                self.base.clip(),
                self.upper,
            );
        }
        if self.val_valid {
            self.base.map_times_through(&self.upper)
        } else {
            Vec::new()
        }
    }

    fn map_times_through(&self, upper: &T) -> (r: Vec<(T, R)>) {
        proof {
            self.base.lemma_wf();
            lemma_group_history(
                self.base.storage(),
                self.base.key_pos(),
                self.base.val_pos(),
                self.val_valid,
                self.base.clip(),
                self.upper,
            );
            lemma_through_twice(
                history(
                    self.base.storage(),
                    self.base.key_pos(),
                    self.base.val_pos(),
                    self.base.clip(),
                ),
                self.upper,
                *upper,
            );
        }
        if self.val_valid {
            self.base.map_times_through(&self.upper.meet(upper))
        } else {
            Vec::new()
        }
    }

    fn fold_times<U, F: Fn(U, &T, &R) -> U>(&self, init: U, fold: F) -> (r: U) {
        proof {
            self.base.lemma_wf();
            lemma_group_history(
                self.base.storage(),
                self.base.key_pos(),
                self.base.val_pos(),
                self.val_valid,
                self.base.clip(),
                self.upper,
            );
        }
        if self.val_valid {
            self.base.fold_times_through(&self.upper, init, fold)
        } else {
            init
        }
    }

    fn fold_times_through<U, F: Fn(U, &T, &R) -> U>(&self, upper: &T, init: U, fold: F) -> (r: U) {
        proof {
            self.base.lemma_wf();
            lemma_group_history(
                self.base.storage(),
                self.base.key_pos(),
                self.base.val_pos(),
                self.val_valid,
                self.base.clip(),
                self.upper,
            );
            lemma_through_twice(
                history(
                    self.base.storage(),
                    self.base.key_pos(),
                    self.base.val_pos(),
                    self.base.clip(),
                ),
                self.upper,
                *upper,
            );
        }
        if self.val_valid {
            self.base.fold_times_through(&self.upper.meet(upper), init, fold)
        } else {
            init
        }
    }

    fn weight(&self) -> (r: R) {
        let h = self.map_times();
        sum_weights(&h)
    }

    fn step_key(&mut self)
        ensures
            *final(final(self).base) == *final(old(self).base),
            final(self).upper == old(self).upper,
            final(self).val_valid,
            final(self).base.wf(),
            final(self).base.storage() == old(self).base.storage(),
            final(self).base.key_pos() == old(self).base.key_pos(),
            final(self).base.clip() == old(self).base.clip(),
    {
        proof {
            self.base.lemma_wf();
            lemma_group_consolidated(self.base.storage(), self.base.key_pos());
            if self.base.val_pos() < key_end(self.base.storage(), self.base.key_pos()) {
                lemma_group_key_end(
                    self.base.storage(),
                    self.base.key_pos(),
                    self.base.val_pos() - self.base.key_pos(),
                );
            }
        }
        self.base.step_val();
        self.val_valid = true;
    }

    fn seek_key(&mut self, val: &V)
        ensures
            *final(final(self).base) == *final(old(self).base),
            final(self).upper == old(self).upper,
            final(self).val_valid,
            final(self).base.wf(),
            final(self).base.storage() == old(self).base.storage(),
            final(self).base.key_pos() == old(self).base.key_pos(),
            final(self).base.clip() == old(self).base.clip(),
    {
        proof {
            self.base.lemma_wf();
            lemma_group_consolidated(self.base.storage(), self.base.key_pos());
            lemma_group_key_lower(self.base.storage(), self.base.key_pos(), *val);
            lemma_val_lower(self.base.storage(), self.base.key_pos(), *val);
        }
        self.base.seek_val(val);
        self.val_valid = true;
    }

    fn step_val(&mut self)
        ensures
            *final(final(self).base) == *final(old(self).base),
            final(self).upper == old(self).upper,
            *final(self).base == *old(self).base,
            !final(self).val_valid,
    {
        proof {
            self.base.lemma_wf();
            lemma_group_position(
                self.base.storage(),
                self.base.key_pos(),
                self.base.val_pos(),
                self.val_valid,
            );
            lemma_group_consolidated(self.base.storage(), self.base.key_pos());
            if self.base.val_pos() < key_end(self.base.storage(), self.base.key_pos()) {
                lemma_group_key_end(
                    self.base.storage(),
                    self.base.key_pos(),
                    self.base.val_pos() - self.base.key_pos(),
                );
            }
        }
        self.val_valid = false;
    }

    fn seek_val(&mut self, _val: &())
        ensures
            *final(final(self).base) == *final(old(self).base),
            final(self).upper == old(self).upper,
            *final(self).base == *old(self).base,
            final(self).val_valid == old(self).val_valid,
    {
        proof {
            self.base.lemma_wf();
            lemma_group_position(
                self.base.storage(),
                self.base.key_pos(),
                self.base.val_pos(),
                self.val_valid,
            );
            lemma_group_consolidated(self.base.storage(), self.base.key_pos());
            let g = self.storage();
            let p = self.key_pos();
            if p < g.len() {
                lemma_key_start_is_val_start(g, p);
            }
        }
    }

    open spec fn seeks_last(&self) -> bool {
        false
    }

    fn last_key(&mut self) -> (r: Option<V>)
        ensures
            *final(final(self).base) == *final(old(self).base),
            *final(self) == *old(self),
    {
        None
    }

    fn seek_val_with<P: Fn(&()) -> bool>(&mut self, predicate: P)
        ensures
            *final(final(self).base) == *final(old(self).base),
            final(self).upper == old(self).upper,
            *final(self).base == *old(self).base,
    {
        proof {
            self.base.lemma_wf();
            lemma_group_position(
                self.base.storage(),
                self.base.key_pos(),
                self.base.val_pos(),
                self.val_valid,
            );
            lemma_group_consolidated(self.base.storage(), self.base.key_pos());
            if self.base.val_pos() < key_end(self.base.storage(), self.base.key_pos()) {
                lemma_group_key_end(
                    self.base.storage(),
                    self.base.key_pos(),
                    self.base.val_pos() - self.base.key_pos(),
                );
            }
        }
        if self.val_valid && self.base.val_valid() {
            if !predicate(&()) {
                self.val_valid = false;
            }
        }
    }

    fn rewind_keys(&mut self)
        ensures
            *final(final(self).base) == *final(old(self).base),
            final(self).upper == old(self).upper,
            final(self).val_valid,
            final(self).base.wf(),
            final(self).base.storage() == old(self).base.storage(),
            final(self).base.key_pos() == old(self).base.key_pos(),
            final(self).base.clip() == old(self).base.clip(),
    {
        self.base.rewind_vals();
        self.val_valid = true;
    }

    fn rewind_vals(&mut self)
        ensures
            *final(final(self).base) == *final(old(self).base),
            final(self).upper == old(self).upper,
            *final(self).base == *old(self).base,
            final(self).val_valid,
    {
        self.val_valid = true;
    }
}

/// What a group cursor shows at its position is what its base shows at its
/// own, restricted to the times at or below `upper`; nothing once it has
/// stepped past the value.
pub proof fn lemma_group_history<K: DBData, V: DBData, T: DBTimestamp, R: DBWeight>(
    s: Seq<(((K, V), T), R)>,
    kp: int,
    vp: int,
    val_valid: bool,
    base_clip: Option<T>,
    upper: T,
)
    requires
        position_ok(s, kp, vp),
        kp < s.len(),
    ensures
        history(
            group_storage(s, kp),
            vp - kp,
            group_val_pos(s, kp, vp, val_valid),
            group_clip(base_clip, upper),
        ) == if val_valid {
            through(history(s, kp, vp, base_clip), upper)
        } else {
            Seq::<(T, R)>::empty()
        },
{
    let g = group_storage(s, kp);
    lemma_group_consolidated(s, kp);
    lemma_key_end(s, kp);
    if vp < key_end(s, kp) {
        let p = vp - kp;
        lemma_group_key_end(s, kp, p);
        if val_valid {
            let e = val_end(s, vp);
            assert(times_between(g, p, e - kp) =~= times_between(s, vp, e));
            lemma_group_shown(times_between(s, vp, e), base_clip, upper);
        }
    } else {
        assert(through(Seq::<(T, R)>::empty(), upper) =~= Seq::<(T, R)>::empty());
    }
}

} // verus!
