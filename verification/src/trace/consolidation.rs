//! Sorted, consolidated vectors of weighted items.
//!
//! A sequence of `(item, weight)` pairs denotes a Z-set: the weight of an item
//! is the sum of the weights of its occurrences.  A sequence is consolidated
//! when its items strictly increase and no weight is zero; a Z-set has exactly
//! one consolidated sequence, so consolidated sequences are a canonical form.

use vstd::prelude::*;
use crate::trace::{DBData, DBWeight};

verus! {

/// The weight of `x` in `s`: the sum of the weights of its occurrences.
pub open spec fn weight_of<I, R: DBWeight>(s: Seq<(I, R)>, x: I) -> R
    decreases s.len(),
{
    if s.len() == 0 {
        R::zero_spec()
    } else {
        let rest = weight_of(s.drop_last(), x);
        if s.last().0 == x {
            rest.add_spec(&s.last().1)
        } else {
            rest
        }
    }
}

/// The items of `s` strictly increase.
pub open spec fn is_sorted<I: DBData, R>(s: Seq<(I, R)>) -> bool {
    forall|i: int, j: int| 0 <= i < j < s.len() ==> (#[trigger] s[i]).0.lt_spec(&(#[trigger] s[j]).0)
}

/// No weight in `s` is zero.
pub open spec fn no_zero<I, R: DBWeight>(s: Seq<(I, R)>) -> bool {
    forall|i: int| 0 <= i < s.len() ==> (#[trigger] s[i]).1 != R::zero_spec()
}

/// `s` is in canonical form: strictly increasing items, no zero weight.
pub open spec fn is_consolidated<I: DBData, R: DBWeight>(s: Seq<(I, R)>) -> bool {
    is_sorted(s) && no_zero(s)
}

/// `a` and `b` denote the same Z-set.
pub open spec fn same_weights<I, R: DBWeight>(a: Seq<(I, R)>, b: Seq<(I, R)>) -> bool {
    forall|x: I| #[trigger] weight_of(a, x) == weight_of(b, x)
}

/// `c` denotes the sum of the Z-sets that `a` and `b` denote.
pub open spec fn is_sum<I, R: DBWeight>(c: Seq<(I, R)>, a: Seq<(I, R)>, b: Seq<(I, R)>) -> bool {
    forall|x: I| #[trigger] weight_of(c, x) == weight_of(a, x).add_spec(&weight_of(b, x))
}

/// `x` occurs in `s` as an item.
pub open spec fn has_item<I, R>(s: Seq<(I, R)>, x: I) -> bool {
    exists|i: int| 0 <= i < s.len() && (#[trigger] s[i]).0 == x
}

/// Zero is neutral on the left too.
pub proof fn lemma_zero_add<R: DBWeight>(a: R)
    ensures
        R::zero_spec().add_spec(&a) == a,
{
    R::lemma_add_commutative(R::zero_spec(), a);
    R::lemma_add_zero(a);
}

/// `(a + b) + (c + d) == (a + c) + (b + d)`.
pub proof fn lemma_add_interchange<R: DBWeight>(a: R, b: R, c: R, d: R)
    ensures
        a.add_spec(&b).add_spec(&c.add_spec(&d)) == a.add_spec(&c).add_spec(&b.add_spec(&d)),
{
    R::lemma_add_associative(a, b, c.add_spec(&d));
    R::lemma_add_associative(b, c, d);
    R::lemma_add_commutative(b, c);
    R::lemma_add_associative(c, b, d);
    R::lemma_add_associative(a, c, b.add_spec(&d));
}

/// `(a + b) + c == (a + c) + b`.
pub proof fn lemma_add_swap_right<R: DBWeight>(a: R, b: R, c: R)
    ensures
        a.add_spec(&b).add_spec(&c) == a.add_spec(&c).add_spec(&b),
{
    R::lemma_add_associative(a, b, c);
    R::lemma_add_commutative(b, c);
    R::lemma_add_associative(a, c, b);
}

/// The weight function after appending one pair.
pub proof fn lemma_weight_of_push<I, R: DBWeight>(s: Seq<(I, R)>, e: (I, R), x: I)
    ensures
        weight_of(s.push(e), x) == if e.0 == x {
            weight_of(s, x).add_spec(&e.1)
        } else {
            weight_of(s, x)
        },
{
    assert(s.push(e).drop_last() =~= s);
}

/// The weight function of a concatenation is the sum of the weight functions.
pub proof fn lemma_weight_of_concat<I, R: DBWeight>(a: Seq<(I, R)>, b: Seq<(I, R)>, x: I)
    ensures
        weight_of(a + b, x) == weight_of(a, x).add_spec(&weight_of(b, x)),
    decreases b.len(),
{
    if b.len() == 0 {
        assert(a + b =~= a);
        R::lemma_add_zero(weight_of(a, x));
    } else {
        let b0 = b.drop_last();
        assert((a + b).drop_last() =~= a + b0);
        lemma_weight_of_concat(a, b0, x);
        if b.last().0 == x {
            R::lemma_add_associative(weight_of(a, x), weight_of(b0, x), b.last().1);
        }
    }
}

/// An item that does not occur has weight zero.
pub proof fn lemma_weight_of_absent<I, R: DBWeight>(s: Seq<(I, R)>, x: I)
    requires
        !has_item(s, x),
    ensures
        weight_of(s, x) == R::zero_spec(),
    decreases s.len(),
{
    if s.len() > 0 {
        assert(s[s.len() - 1].0 != x);
        assert forall|i: int| 0 <= i < s.drop_last().len() implies (#[trigger] s.drop_last()[i]).0
            != x by {
            assert(s[i].0 != x);
        }
        lemma_weight_of_absent(s.drop_last(), x);
    }
}

/// In a sorted sequence every item is below the items after it, so an item
/// below the first one, or above the last one, does not occur.
pub proof fn lemma_sorted_above_absent<I: DBData, R: DBWeight>(s: Seq<(I, R)>, x: I)
    requires
        is_sorted(s),
        s.len() > 0 ==> s.last().0.lt_spec(&x),
    ensures
        !has_item(s, x),
{
    if has_item(s, x) {
        let i = choose|i: int| 0 <= i < s.len() && (#[trigger] s[i]).0 == x;
        I::lemma_lt_irreflexive(x);
        if i < s.len() - 1 {
            assert(s[i].0.lt_spec(&s[s.len() - 1].0));
            I::lemma_lt_transitive(x, s.last().0, x);
        }
    }
}

/// A prefix of a sorted sequence is sorted and holds only items below those
/// that follow it.
pub proof fn lemma_sorted_prefix_absent<I: DBData, R: DBWeight>(s: Seq<(I, R)>, n: int)
    requires
        is_sorted(s),
        0 <= n < s.len(),
    ensures
        is_sorted(s.take(n)),
        !has_item(s.take(n), s[n].0),
{
    let p = s.take(n);
    assert forall|i: int, j: int| 0 <= i < j < p.len() implies (#[trigger] p[i]).0.lt_spec(
        &(#[trigger] p[j]).0,
    ) by {
        assert(s[i].0.lt_spec(&s[j].0));
    }
    if n > 0 {
        assert(p.last() == s[n - 1]);
        assert(s[n - 1].0.lt_spec(&s[n].0));
    }
    lemma_sorted_above_absent(p, s[n].0);
}

/// In a sorted sequence the weight of the item at an index is the weight
/// stored there.
pub proof fn lemma_weight_of_sorted_at<I: DBData, R: DBWeight>(s: Seq<(I, R)>, n: int)
    requires
        is_sorted(s),
        0 <= n < s.len(),
    ensures
        weight_of(s, s[n].0) == s[n].1,
    decreases s.len(),
{
    let x = s[n].0;
    let s0 = s.drop_last();
    assert forall|i: int, j: int| 0 <= i < j < s0.len() implies (#[trigger] s0[i]).0.lt_spec(
        &(#[trigger] s0[j]).0,
    ) by {
        assert(s[i].0.lt_spec(&s[j].0));
    }
    if n == s.len() - 1 {
        assert(s0 =~= s.take(n));
        lemma_sorted_prefix_absent(s, n);
        lemma_weight_of_absent(s0, x);
        lemma_zero_add(s[n].1);
    } else {
        assert(s[n].0.lt_spec(&s[s.len() - 1].0));
        I::lemma_lt_irreflexive(x);
        assert(s0[n] == s[n]);
        lemma_weight_of_sorted_at(s0, n);
    }
}

/// In a consolidated sequence exactly the items that occur have a weight
/// other than zero.
pub proof fn lemma_consolidated_support<I: DBData, R: DBWeight>(s: Seq<(I, R)>, x: I)
    requires
        is_consolidated(s),
    ensures
        has_item(s, x) <==> weight_of(s, x) != R::zero_spec(),
{
    if has_item(s, x) {
        let i = choose|i: int| 0 <= i < s.len() && (#[trigger] s[i]).0 == x;
        lemma_weight_of_sorted_at(s, i);
    } else {
        lemma_weight_of_absent(s, x);
    }
}

/// Dropping the last pair of a consolidated sequence leaves a consolidated
/// sequence in which the dropped item has weight zero and every other item
/// keeps its weight.
pub proof fn lemma_consolidated_drop_last<I: DBData, R: DBWeight>(s: Seq<(I, R)>)
    requires
        is_consolidated(s),
        s.len() > 0,
    ensures
        is_consolidated(s.drop_last()),
        weight_of(s.drop_last(), s.last().0) == R::zero_spec(),
        forall|x: I| x != s.last().0 ==> #[trigger] weight_of(s.drop_last(), x) == weight_of(s, x),
{
    let s0 = s.drop_last();
    assert(s0 =~= s.take(s.len() - 1));
    lemma_sorted_prefix_absent(s, s.len() - 1);
    lemma_weight_of_absent(s0, s.last().0);
    assert forall|i: int| 0 <= i < s0.len() implies (#[trigger] s0[i]).1 != R::zero_spec() by {
        assert(s[i].1 != R::zero_spec());
    }
}

/// Two consolidated sequences that denote the same Z-set are equal.
pub proof fn lemma_canonical<I: DBData, R: DBWeight>(a: Seq<(I, R)>, b: Seq<(I, R)>)
    requires
        is_consolidated(a),
        is_consolidated(b),
        same_weights(a, b),
    ensures
        a == b,
    decreases a.len() + b.len(),
{
    if a.len() == 0 && b.len() == 0 {
        assert(a =~= b);
    } else if a.len() == 0 {
        lemma_weight_of_sorted_at(b, 0);
        assert(weight_of(a, b[0].0) == weight_of(b, b[0].0));
        assert(b[0].1 != R::zero_spec());
        assert(false);
    } else if b.len() == 0 {
        lemma_weight_of_sorted_at(a, 0);
        assert(weight_of(a, a[0].0) == weight_of(b, a[0].0));
        assert(a[0].1 != R::zero_spec());
        assert(false);
    } else {
        let la = a.last();
        let lb = b.last();
        lemma_weight_of_sorted_at(a, a.len() - 1);
        lemma_weight_of_sorted_at(b, b.len() - 1);
        assert(a[a.len() - 1].1 != R::zero_spec());
        assert(b[b.len() - 1].1 != R::zero_spec());
        I::lemma_lt_total(la.0, lb.0);
        if la.0.lt_spec(&lb.0) {
            lemma_sorted_above_absent(a, lb.0);
            lemma_weight_of_absent(a, lb.0);
            assert(weight_of(a, lb.0) == weight_of(b, lb.0));
            assert(false);
        } else if lb.0.lt_spec(&la.0) {
            lemma_sorted_above_absent(b, la.0);
            lemma_weight_of_absent(b, la.0);
            assert(weight_of(a, la.0) == weight_of(b, la.0));
            assert(false);
        } else {
            assert(weight_of(a, la.0) == weight_of(b, la.0));
            assert(la == lb);
            lemma_consolidated_drop_last(a);
            lemma_consolidated_drop_last(b);
            let a0 = a.drop_last();
            let b0 = b.drop_last();
            assert forall|x: I| #[trigger] weight_of(a0, x) == weight_of(b0, x) by {
                if x != la.0 {
                    assert(weight_of(a, x) == weight_of(b, x));
                }
            }
            lemma_canonical(a0, b0);
            assert(a =~= a0.push(la));
            assert(b =~= b0.push(lb));
        }
    }
}


/// The state of a merge of `a` and `b` that has consumed `i` pairs of `a` and
/// `j` pairs of `b` and produced `out`: `out` is the consolidated sum of the
/// consumed prefixes, and its items lie below everything not yet consumed.
pub open spec fn merge_inv<I: DBData, R: DBWeight>(
    out: Seq<(I, R)>,
    a: Seq<(I, R)>,
    b: Seq<(I, R)>,
    i: int,
    j: int,
) -> bool {
    &&& is_consolidated(a)
    &&& is_consolidated(b)
    &&& 0 <= i <= a.len()
    &&& 0 <= j <= b.len()
    &&& is_consolidated(out)
    &&& is_sum(out, a.take(i), b.take(j))
    &&& out.len() > 0 && i < a.len() ==> out.last().0.lt_spec(&a[i].0)
    &&& out.len() > 0 && j < b.len() ==> out.last().0.lt_spec(&b[j].0)
}

/// Appending a pair whose item is above the last item keeps a sequence
/// consolidated, if the weight is not zero.
pub proof fn lemma_consolidated_push<I: DBData, R: DBWeight>(s: Seq<(I, R)>, e: (I, R))
    requires
        is_consolidated(s),
        s.len() > 0 ==> s.last().0.lt_spec(&e.0),
        e.1 != R::zero_spec(),
    ensures
        is_consolidated(s.push(e)),
{
    let t = s.push(e);
    assert forall|i: int, j: int| 0 <= i < j < t.len() implies (#[trigger] t[i]).0.lt_spec(
        &(#[trigger] t[j]).0,
    ) by {
        if j == s.len() {
            if i < s.len() - 1 {
                assert(s[i].0.lt_spec(&s[s.len() - 1].0));
                I::lemma_lt_transitive(s[i].0, s.last().0, e.0);
            }
        } else {
            assert(s[i].0.lt_spec(&s[j].0));
        }
    }
    assert forall|i: int| 0 <= i < t.len() implies (#[trigger] t[i]).1 != R::zero_spec() by {
        if i < s.len() {
            assert(s[i].1 != R::zero_spec());
        }
    }
}

/// The merge takes the next pair of `a` when `b` is used up or its next item
/// is above.
pub proof fn lemma_merge_take_left<I: DBData, R: DBWeight>(
    out: Seq<(I, R)>,
    a: Seq<(I, R)>,
    b: Seq<(I, R)>,
    i: int,
    j: int,
)
    requires
        merge_inv(out, a, b, i, j),
        i < a.len(),
        j < b.len() ==> a[i].0.lt_spec(&b[j].0),
    ensures
        merge_inv(out.push(a[i]), a, b, i + 1, j),
{
    let e = a[i];
    let out2 = out.push(e);
    assert(e.1 != R::zero_spec());
    lemma_consolidated_push(out, e);
    assert(a.take(i + 1) =~= a.take(i).push(e));
    assert forall|x: I| #[trigger]
        weight_of(out2, x) == weight_of(a.take(i + 1), x).add_spec(&weight_of(b.take(j), x)) by {
        lemma_weight_of_push(out, e, x);
        lemma_weight_of_push(a.take(i), e, x);
        assert(weight_of(out, x) == weight_of(a.take(i), x).add_spec(&weight_of(b.take(j), x)));
        if e.0 == x {
            lemma_add_swap_right(weight_of(a.take(i), x), weight_of(b.take(j), x), e.1);
        }
    }
    if i + 1 < a.len() {
        assert(a[i].0.lt_spec(&a[i + 1].0));
    }
}

/// The merge takes the next pair of `b` when `a` is used up or its next item
/// is above.
pub proof fn lemma_merge_take_right<I: DBData, R: DBWeight>(
    out: Seq<(I, R)>,
    a: Seq<(I, R)>,
    b: Seq<(I, R)>,
    i: int,
    j: int,
)
    requires
        merge_inv(out, a, b, i, j),
        j < b.len(),
        i < a.len() ==> b[j].0.lt_spec(&a[i].0),
    ensures
        merge_inv(out.push(b[j]), a, b, i, j + 1),
{
    let e = b[j];
    let out2 = out.push(e);
    assert(e.1 != R::zero_spec());
    lemma_consolidated_push(out, e);
    assert(b.take(j + 1) =~= b.take(j).push(e));
    assert forall|x: I| #[trigger]
        weight_of(out2, x) == weight_of(a.take(i), x).add_spec(&weight_of(b.take(j + 1), x)) by {
        lemma_weight_of_push(out, e, x);
        lemma_weight_of_push(b.take(j), e, x);
        assert(weight_of(out, x) == weight_of(a.take(i), x).add_spec(&weight_of(b.take(j), x)));
        if e.0 == x {
            R::lemma_add_associative(weight_of(a.take(i), x), weight_of(b.take(j), x), e.1);
        }
    }
    if j + 1 < b.len() {
        assert(b[j].0.lt_spec(&b[j + 1].0));
    }
}

/// When the next items of `a` and `b` are equal the merge adds their weights
/// and keeps the pair unless the sum is zero.
pub proof fn lemma_merge_take_both<I: DBData, R: DBWeight>(
    out: Seq<(I, R)>,
    a: Seq<(I, R)>,
    b: Seq<(I, R)>,
    i: int,
    j: int,
)
    requires
        merge_inv(out, a, b, i, j),
        i < a.len(),
        j < b.len(),
        a[i].0 == b[j].0,
    ensures
        a[i].1.add_spec(&b[j].1) == R::zero_spec() ==> merge_inv(out, a, b, i + 1, j + 1),
        a[i].1.add_spec(&b[j].1) != R::zero_spec() ==> merge_inv(
            out.push((a[i].0, a[i].1.add_spec(&b[j].1))),
            a,
            b,
            i + 1,
            j + 1,
        ),
{
    let w = a[i].1.add_spec(&b[j].1);
    let e = (a[i].0, w);
    assert(a.take(i + 1) =~= a.take(i).push(a[i]));
    assert(b.take(j + 1) =~= b.take(j).push(b[j]));
    if i + 1 < a.len() {
        assert(a[i].0.lt_spec(&a[i + 1].0));
    }
    if j + 1 < b.len() {
        assert(b[j].0.lt_spec(&b[j + 1].0));
    }
    if w == R::zero_spec() {
        assert forall|x: I| #[trigger]
            weight_of(out, x) == weight_of(a.take(i + 1), x).add_spec(
                &weight_of(b.take(j + 1), x),
            ) by {
            lemma_weight_of_push(a.take(i), a[i], x);
            lemma_weight_of_push(b.take(j), b[j], x);
            assert(weight_of(out, x) == weight_of(a.take(i), x).add_spec(
                &weight_of(b.take(j), x),
            ));
            if e.0 == x {
                lemma_add_interchange(
                    weight_of(a.take(i), x),
                    weight_of(b.take(j), x),
                    a[i].1,
                    b[j].1,
                );
                R::lemma_add_zero(weight_of(out, x));
            }
        }
        if out.len() > 0 {
            if i + 1 < a.len() {
                I::lemma_lt_transitive(out.last().0, a[i].0, a[i + 1].0);
            }
            if j + 1 < b.len() {
                I::lemma_lt_transitive(out.last().0, b[j].0, b[j + 1].0);
            }
        }
    } else {
        let out2 = out.push(e);
        lemma_consolidated_push(out, e);
        assert forall|x: I| #[trigger]
            weight_of(out2, x) == weight_of(a.take(i + 1), x).add_spec(
                &weight_of(b.take(j + 1), x),
            ) by {
            lemma_weight_of_push(out, e, x);
            lemma_weight_of_push(a.take(i), a[i], x);
            lemma_weight_of_push(b.take(j), b[j], x);
            assert(weight_of(out, x) == weight_of(a.take(i), x).add_spec(
                &weight_of(b.take(j), x),
            ));
            if e.0 == x {
                lemma_add_interchange(
                    weight_of(a.take(i), x),
                    weight_of(b.take(j), x),
                    a[i].1,
                    b[j].1,
                );
            }
        }
    }
}

/// A merge of two consolidated vectors that proceeds in steps.
///
/// One step consumes the smaller of the two next items, or both when they are
/// equal, and appends at most one pair to the output.
pub struct VecMerger<I, R> {
    out: Vec<(I, R)>,
    pos1: usize,
    pos2: usize,
}

impl<I: DBData, R: DBWeight> VecMerger<I, R> {
    /// What the merge has produced so far.
    pub closed spec fn output(&self) -> Seq<(I, R)> {
        self.out@
    }

    /// How many pairs of the first source are consumed.
    pub closed spec fn pos1(&self) -> int {
        self.pos1 as int
    }

    /// How many pairs of the second source are consumed.
    pub closed spec fn pos2(&self) -> int {
        self.pos2 as int
    }

    /// How many source pairs are left to consume.
    pub open spec fn remaining(&self, a: Seq<(I, R)>, b: Seq<(I, R)>) -> int {
        (a.len() - self.pos1()) + (b.len() - self.pos2())
    }

    /// The merger is a valid state of a merge of `a` and `b`.
    pub open spec fn wf(&self, a: Seq<(I, R)>, b: Seq<(I, R)>) -> bool {
        merge_inv(self.output(), a, b, self.pos1(), self.pos2())
    }

    /// Starts a merge of two consolidated vectors.
    pub fn new(a: &Vec<(I, R)>, b: &Vec<(I, R)>) -> (m: Self)
        requires
            is_consolidated(a@),
            is_consolidated(b@),
        ensures
            m.wf(a@, b@),
            m.pos1() == 0,
            m.pos2() == 0,
            m.output() == Seq::<(I, R)>::empty(),
    {
        let m = VecMerger { out: Vec::new(), pos1: 0, pos2: 0 };
        proof {
            assert(a@.take(0) =~= Seq::<(I, R)>::empty());
            assert(b@.take(0) =~= Seq::<(I, R)>::empty());
            assert forall|x: I| #[trigger]
                weight_of(m.out@, x) == weight_of(a@.take(0), x).add_spec(
                    &weight_of(b@.take(0), x),
                ) by {
                R::lemma_add_zero(R::zero_spec());
            }
        }
        m
    }

    /// Tells whether both sources are used up.
    pub fn is_complete(&self, a: &Vec<(I, R)>, b: &Vec<(I, R)>) -> (r: bool)
        requires
            self.wf(a@, b@),
        ensures
            r == (self.remaining(a@, b@) == 0),
    {
        self.pos1 == a.len() && self.pos2 == b.len()
    }

    /// Performs one step of the merge.
    fn step(&mut self, a: &Vec<(I, R)>, b: &Vec<(I, R)>)
        requires
            old(self).wf(a@, b@),
            old(self).remaining(a@, b@) > 0,
        ensures
            final(self).wf(a@, b@),
            old(self).pos1() <= final(self).pos1(),
            old(self).pos2() <= final(self).pos2(),
            old(self).remaining(a@, b@) - 2 <= final(self).remaining(a@, b@) < old(self).remaining(
                a@,
                b@,
            ),
    {
        let i = self.pos1;
        let j = self.pos2;
        if i < a.len() && j < b.len() {
            if a[i].0.less(&b[j].0) {
                proof {
                    lemma_merge_take_left(self.out@, a@, b@, i as int, j as int);
                }
                self.out.push((a[i].0.dup(), a[i].1.dup()));
                self.pos1 = i + 1;
            } else if b[j].0.less(&a[i].0) {
                proof {
                    lemma_merge_take_right(self.out@, a@, b@, i as int, j as int);
                }
                self.out.push((b[j].0.dup(), b[j].1.dup()));
                self.pos2 = j + 1;
            } else {
                proof {
                    I::lemma_lt_total(a@[i as int].0, b@[j as int].0);
                    lemma_merge_take_both(self.out@, a@, b@, i as int, j as int);
                }
                let w = a[i].1.add_by_ref(&b[j].1);
                if !w.is_zero() {
                    self.out.push((a[i].0.dup(), w));
                }
                self.pos1 = i + 1;
                self.pos2 = j + 1;
            }
        } else if i < a.len() {
            proof {
                lemma_merge_take_left(self.out@, a@, b@, i as int, j as int);
            }
            self.out.push((a[i].0.dup(), a[i].1.dup()));
            self.pos1 = i + 1;
        } else {
            assert(self.pos1() == a@.len());
            assert(j < b.len());
            proof {
                lemma_merge_take_right(self.out@, a@, b@, i as int, j as int);
            }
            self.out.push((b[j].0.dup(), b[j].1.dup()));
            self.pos2 = j + 1;
        }
    }

    /// Performs merge steps while fuel is left, taking one unit of fuel for
    /// each step.  A step merges one source pair, or two with equal items.
    ///
    /// With no fuel nothing happens.  Fuel that is left over shows that the
    /// merge is complete.
    pub fn work(&mut self, a: &Vec<(I, R)>, b: &Vec<(I, R)>, fuel: &mut isize)
        requires
            old(self).wf(a@, b@),
        ensures
            final(self).wf(a@, b@),
            old(self).pos1() <= final(self).pos1(),
            old(self).pos2() <= final(self).pos2(),
            *old(fuel) <= 0 ==> *final(fuel) == *old(fuel) && final(self).remaining(a@, b@) == old(
                self,
            ).remaining(a@, b@),
            *old(fuel) > 0 ==> 0 <= *final(fuel) <= *old(fuel),
            *old(fuel) > 0 ==> final(self).remaining(a@, b@) <= old(self).remaining(a@, b@) - (
            *old(fuel) - *final(fuel)),
            *old(fuel) > 0 ==> final(self).remaining(a@, b@) >= old(self).remaining(a@, b@) - 2 * (
            *old(fuel) - *final(fuel)),
            *final(fuel) > 0 ==> final(self).remaining(a@, b@) == 0,
    {
        while *fuel > 0 && !(self.pos1 == a.len() && self.pos2 == b.len())
            invariant
                self.wf(a@, b@),
                old(self).pos1() <= self.pos1(),
                old(self).pos2() <= self.pos2(),
                *old(fuel) <= 0 ==> *fuel == *old(fuel) && self.remaining(a@, b@) == old(
                    self,
                ).remaining(a@, b@),
                *old(fuel) > 0 ==> 0 <= *fuel <= *old(fuel),
                *old(fuel) > 0 ==> self.remaining(a@, b@) <= old(self).remaining(a@, b@) - (*old(
                    fuel,
                ) - *fuel),
                *old(fuel) > 0 ==> self.remaining(a@, b@) >= old(self).remaining(a@, b@) - 2 * (
                *old(fuel) - *fuel),
            decreases self.remaining(a@, b@),
        {
            self.step(a, b);
            *fuel = *fuel - 1;
        }
    }

    /// Hands out what the merge has produced.
    pub fn done(self) -> (r: Vec<(I, R)>)
        ensures
            r@ == self.output(),
    {
        self.out
    }

    /// The output of a complete merge is the consolidated sum of the sources.
    pub proof fn lemma_complete(&self, a: Seq<(I, R)>, b: Seq<(I, R)>)
        requires
            self.wf(a, b),
            self.remaining(a, b) == 0,
        ensures
            is_consolidated(self.output()),
            is_sum(self.output(), a, b),
    {
        assert(a.take(a.len() as int) =~= a);
        assert(b.take(b.len() as int) =~= b);
    }
}

/// Merges two consolidated vectors into the consolidated vector of their sum.
pub fn merge_vecs<I: DBData, R: DBWeight>(a: &Vec<(I, R)>, b: &Vec<(I, R)>) -> (r: Vec<(I, R)>)
    requires
        is_consolidated(a@),
        is_consolidated(b@),
    ensures
        is_consolidated(r@),
        is_sum(r@, a@, b@),
{
    let mut m = VecMerger::new(a, b);
    while !m.is_complete(a, b)
        invariant
            m.wf(a@, b@),
        decreases m.remaining(a@, b@),
    {
        let mut fuel: isize = isize::MAX;
        m.work(a, b, &mut fuel);
    }
    proof {
        m.lemma_complete(a@, b@);
    }
    m.done()
}

/// Consolidates the part of `v` from `lo` up to `hi`.
fn consolidate_range<I: DBData, R: DBWeight>(v: &Vec<(I, R)>, lo: usize, hi: usize) -> (r: Vec<
    (I, R),
>)
    requires
        lo <= hi <= v.len(),
    ensures
        is_consolidated(r@),
        same_weights(r@, v@.subrange(lo as int, hi as int)),
    decreases hi - lo,
{
    let ghost part = v@.subrange(lo as int, hi as int);
    if hi - lo == 0 {
        let r: Vec<(I, R)> = Vec::new();
        proof {
            assert(part =~= r@);
        }
        r
    } else if hi - lo == 1 {
        let mut r: Vec<(I, R)> = Vec::new();
        proof {
            assert(part =~= Seq::<(I, R)>::empty().push(v@[lo as int]));
            assert forall|x: I| #[trigger] weight_of(part, x) == if v@[lo as int].0 == x {
                v@[lo as int].1
            } else {
                R::zero_spec()
            } by {
                lemma_weight_of_push(Seq::<(I, R)>::empty(), v@[lo as int], x);
                lemma_zero_add(v@[lo as int].1);
            }
        }
        if !v[lo].1.is_zero() {
            r.push((v[lo].0.dup(), v[lo].1.dup()));
            proof {
                assert(r@ =~= part);
            }
        }
        r
    } else {
        let mid = lo + (hi - lo) / 2;
        let left = consolidate_range(v, lo, mid);
        let right = consolidate_range(v, mid, hi);
        let r = merge_vecs(&left, &right);
        proof {
            let pl = v@.subrange(lo as int, mid as int);
            let pr = v@.subrange(mid as int, hi as int);
            assert(part =~= pl + pr);
            assert forall|x: I| #[trigger] weight_of(r@, x) == weight_of(part, x) by {
                lemma_weight_of_concat(pl, pr, x);
                assert(weight_of(r@, x) == weight_of(left@, x).add_spec(&weight_of(right@, x)));
                assert(weight_of(left@, x) == weight_of(pl, x));
                assert(weight_of(right@, x) == weight_of(pr, x));
            }
        }
        r
    }
}

/// Sorts the pairs of `v` by item, adds up the weights of equal items and
/// drops the items whose weights add up to zero.
pub fn consolidate<I: DBData, R: DBWeight>(v: &Vec<(I, R)>) -> (r: Vec<(I, R)>)
    ensures
        is_consolidated(r@),
        same_weights(r@, v@),
{
    let r = consolidate_range(v, 0, v.len());
    proof {
        assert(v@.subrange(0, v.len() as int) =~= v@);
    }
    r
}

/// An item with a weight other than zero in a sequence occurs in it.
pub proof fn lemma_weight_needs_item<I, R: DBWeight>(s: Seq<(I, R)>, x: I)
    requires
        weight_of(s, x) != R::zero_spec(),
    ensures
        has_item(s, x),
{
    if !has_item(s, x) {
        lemma_weight_of_absent(s, x);
    }
}


/// A sequence in which each item is below the next one is sorted.
pub proof fn lemma_adjacent_sorted<I: DBData, R>(s: Seq<(I, R)>)
    requires
        forall|i: int| 0 < i < s.len() ==> s[i - 1].0.lt_spec(&(#[trigger] s[i]).0),
    ensures
        is_sorted(s),
    decreases s.len(),
{
    if s.len() > 1 {
        let s0 = s.drop_last();
        assert forall|i: int| 0 < i < s0.len() implies s0[i - 1].0.lt_spec(&(#[trigger] s0[i]).0) by {
            assert(s[i - 1].0.lt_spec(&s[i].0));
        }
        lemma_adjacent_sorted(s0);
        assert forall|i: int, j: int| 0 <= i < j < s.len() implies (#[trigger] s[i]).0.lt_spec(
            &(#[trigger] s[j]).0,
        ) by {
            if j == s.len() - 1 {
                assert(s[j - 1].0.lt_spec(&s[j].0));
                if i < j - 1 {
                    assert(s0[i].0.lt_spec(&s0[j - 1].0));
                    I::lemma_lt_transitive(s[i].0, s[j - 1].0, s[j].0);
                }
            } else {
                assert(s0[i].0.lt_spec(&s0[j].0));
            }
        }
    }
}

/// Tells whether a vector is consolidated.
pub fn check_consolidated<I: DBData, R: DBWeight>(v: &Vec<(I, R)>) -> (r: bool)
    ensures
        r == is_consolidated(v@),
{
    let mut i: usize = 0;
    while i < v.len()
        invariant
            i <= v.len(),
            forall|j: int| 0 <= j < i ==> (#[trigger] v@[j]).1 != R::zero_spec(),
            forall|j: int| 0 < j < i ==> v@[j - 1].0.lt_spec(&(#[trigger] v@[j]).0),
        decreases v.len() - i,
    {
        if v[i].1.is_zero() {
            assert(v@[i as int].1 == R::zero_spec());
            return false;
        }
        if i > 0 && !v[i - 1].0.less(&v[i].0) {
            assert(!v@[i - 1].0.lt_spec(&v@[i as int].0));
            return false;
        }
        i = i + 1;
    }
    proof {
        lemma_adjacent_sorted(v@);
    }
    true
}


/// The first pairs of a consolidated sequence are consolidated.
pub proof fn lemma_consolidated_prefix<I: DBData, R: DBWeight>(s: Seq<(I, R)>, n: int)
    requires
        is_consolidated(s),
        0 <= n <= s.len(),
    ensures
        is_consolidated(s.take(n)),
{
    let p = s.take(n);
    assert forall|i: int, j: int| 0 <= i < j < p.len() implies (#[trigger] p[i]).0.lt_spec(
        &(#[trigger] p[j]).0,
    ) by {
        assert(s[i].0.lt_spec(&s[j].0));
    }
    assert forall|i: int| 0 <= i < p.len() implies (#[trigger] p[i]).1 != R::zero_spec() by {
        assert(s[i].1 != R::zero_spec());
    }
}

} // verus!
