//! Logical timestamps and the antichains that bound batches.
//!
//! Timestamps form a lattice with a least element.  A batch covers the times
//! that are at or above some element of its lower bound and not at or above
//! any element of its upper bound; the bounds are antichains.

use vstd::prelude::*;
use crate::trace::DBData;

verus! {

/// A timestamp: an element of a lattice with a least element.
///
/// `le_spec` is a partial order, `meet_spec` gives greatest lower bounds,
/// `join_spec` least upper bounds, and `minimum_spec()` is below everything.
pub trait Timestamp: Sized {
    /// The partial order on timestamps.
    spec fn le_spec(&self, other: &Self) -> bool;

    /// The greatest lower bound.
    spec fn meet_spec(&self, other: &Self) -> Self;

    /// The least upper bound.
    spec fn join_spec(&self, other: &Self) -> Self;

    /// The least timestamp.
    spec fn minimum_spec() -> Self;

    /// The timestamp that closes the interval of a batch built at this time,
    /// if there is one.
    spec fn advance_spec(&self) -> Option<Self>;

    /// The timestamp that closes an interval is strictly above the one that
    /// opens it.
    proof fn lemma_advance(a: Self)
        ensures
            a.advance_spec() matches Some(n) ==> a.le_spec(&n) && !n.le_spec(&a),
    ;

    /// Every timestamp is at or below itself.
    proof fn lemma_le_reflexive(a: Self)
        ensures
            a.le_spec(&a),
    ;

    /// Two timestamps that are at or below each other are equal.
    proof fn lemma_le_antisymmetric(a: Self, b: Self)
        requires
            a.le_spec(&b),
            b.le_spec(&a),
        ensures
            a == b,
    ;

    /// The order is transitive.
    proof fn lemma_le_transitive(a: Self, b: Self, c: Self)
        requires
            a.le_spec(&b),
            b.le_spec(&c),
        ensures
            a.le_spec(&c),
    ;

    /// The meet is the greatest lower bound.
    proof fn lemma_meet_glb(a: Self, b: Self, c: Self)
        ensures
            a.meet_spec(&b).le_spec(&a),
            a.meet_spec(&b).le_spec(&b),
            c.le_spec(&a) && c.le_spec(&b) ==> c.le_spec(&a.meet_spec(&b)),
    ;

    /// The join is the least upper bound.
    proof fn lemma_join_lub(a: Self, b: Self, c: Self)
        ensures
            a.le_spec(&a.join_spec(&b)),
            b.le_spec(&a.join_spec(&b)),
            a.le_spec(&c) && b.le_spec(&c) ==> a.join_spec(&b).le_spec(&c),
    ;

    /// The minimum is below everything.
    proof fn lemma_minimum_least(a: Self)
        ensures
            Self::minimum_spec().le_spec(&a),
    ;

    /// Decides the partial order.
    fn less_equal(&self, other: &Self) -> (r: bool)
        ensures
            r == self.le_spec(other),
    ;

    /// Computes the greatest lower bound.
    fn meet(&self, other: &Self) -> (r: Self)
        ensures
            r == self.meet_spec(other),
    ;

    /// Computes the least upper bound.
    fn join(&self, other: &Self) -> (r: Self)
        ensures
            r == self.join_spec(other),
    ;

    /// Returns the least timestamp.
    fn minimum() -> (r: Self)
        ensures
            r == Self::minimum_spec(),
    ;

    /// Returns a timestamp strictly above this one that closes the interval
    /// of a batch built at this time, or `None` where the interval stays open.
    fn advance(&self) -> (r: Option<Self>)
        ensures
            r == self.advance_spec(),
    ;
}

impl Timestamp for () {
    open spec fn le_spec(&self, other: &Self) -> bool {
        true
    }

    open spec fn meet_spec(&self, other: &Self) -> Self {
        ()
    }

    open spec fn join_spec(&self, other: &Self) -> Self {
        ()
    }

    open spec fn minimum_spec() -> Self {
        ()
    }

    open spec fn advance_spec(&self) -> Option<Self> {
        None
    }

    proof fn lemma_advance(a: Self) {
    }

    proof fn lemma_le_reflexive(a: Self) {
    }

    proof fn lemma_le_antisymmetric(a: Self, b: Self) {
    }

    proof fn lemma_le_transitive(a: Self, b: Self, c: Self) {
    }

    proof fn lemma_meet_glb(a: Self, b: Self, c: Self) {
    }

    proof fn lemma_join_lub(a: Self, b: Self, c: Self) {
    }

    proof fn lemma_minimum_least(a: Self) {
    }

    fn less_equal(&self, other: &Self) -> (r: bool) {
        true
    }

    fn meet(&self, other: &Self) -> (r: Self) {
        ()
    }

    fn join(&self, other: &Self) -> (r: Self) {
        ()
    }

    fn minimum() -> (r: Self) {
        ()
    }

    fn advance(&self) -> (r: Option<Self>) {
        None
    }
}

impl Timestamp for u32 {
    open spec fn le_spec(&self, other: &Self) -> bool {
        *self <= *other
    }

    open spec fn meet_spec(&self, other: &Self) -> Self {
        if *self <= *other {
            *self
        } else {
            *other
        }
    }

    open spec fn join_spec(&self, other: &Self) -> Self {
        if *self <= *other {
            *other
        } else {
            *self
        }
    }

    open spec fn minimum_spec() -> Self {
        0u32
    }

    open spec fn advance_spec(&self) -> Option<Self> {
        if *self < u32::MAX {
            Some((*self + 1) as u32)
        } else {
            None
        }
    }

    proof fn lemma_advance(a: Self) {
    }

    proof fn lemma_le_reflexive(a: Self) {
    }

    proof fn lemma_le_antisymmetric(a: Self, b: Self) {
    }

    proof fn lemma_le_transitive(a: Self, b: Self, c: Self) {
    }

    proof fn lemma_meet_glb(a: Self, b: Self, c: Self) {
    }

    proof fn lemma_join_lub(a: Self, b: Self, c: Self) {
    }

    proof fn lemma_minimum_least(a: Self) {
    }

    fn less_equal(&self, other: &Self) -> (r: bool) {
        *self <= *other
    }

    fn meet(&self, other: &Self) -> (r: Self) {
        if *self <= *other {
            *self
        } else {
            *other
        }
    }

    fn join(&self, other: &Self) -> (r: Self) {
        if *self <= *other {
            *other
        } else {
            *self
        }
    }

    fn minimum() -> (r: Self) {
        0u32
    }

    fn advance(&self) -> (r: Option<Self>) {
        if *self < u32::MAX {
            Some(*self + 1)
        } else {
            None
        }
    }
}

/// The product of two lattices, ordered pointwise: the outer coordinate
/// counts the epochs of the enclosing clock, the inner one the iterations of
/// the nested clock.
impl<A: Timestamp + DBData, B: Timestamp> Timestamp for (A, B) {
    open spec fn le_spec(&self, other: &Self) -> bool {
        self.0.le_spec(&other.0) && self.1.le_spec(&other.1)
    }

    open spec fn meet_spec(&self, other: &Self) -> Self {
        (self.0.meet_spec(&other.0), self.1.meet_spec(&other.1))
    }

    open spec fn join_spec(&self, other: &Self) -> Self {
        (self.0.join_spec(&other.0), self.1.join_spec(&other.1))
    }

    open spec fn minimum_spec() -> Self {
        (A::minimum_spec(), B::minimum_spec())
    }

    open spec fn advance_spec(&self) -> Option<Self> {
        match self.1.advance_spec() {
            Some(n) => Some((self.0, n)),
            None => None,
        }
    }

    proof fn lemma_advance(a: Self) {
        A::lemma_le_reflexive(a.0);
        B::lemma_advance(a.1);
    }

    proof fn lemma_le_reflexive(a: Self) {
        A::lemma_le_reflexive(a.0);
        B::lemma_le_reflexive(a.1);
    }

    proof fn lemma_le_antisymmetric(a: Self, b: Self) {
        A::lemma_le_antisymmetric(a.0, b.0);
        B::lemma_le_antisymmetric(a.1, b.1);
    }

    proof fn lemma_le_transitive(a: Self, b: Self, c: Self) {
        A::lemma_le_transitive(a.0, b.0, c.0);
        B::lemma_le_transitive(a.1, b.1, c.1);
    }

    proof fn lemma_meet_glb(a: Self, b: Self, c: Self) {
        A::lemma_meet_glb(a.0, b.0, c.0);
        B::lemma_meet_glb(a.1, b.1, c.1);
    }

    proof fn lemma_join_lub(a: Self, b: Self, c: Self) {
        A::lemma_join_lub(a.0, b.0, c.0);
        B::lemma_join_lub(a.1, b.1, c.1);
    }

    proof fn lemma_minimum_least(a: Self) {
        A::lemma_minimum_least(a.0);
        B::lemma_minimum_least(a.1);
    }

    fn less_equal(&self, other: &Self) -> (r: bool) {
        self.0.less_equal(&other.0) && self.1.less_equal(&other.1)
    }

    fn meet(&self, other: &Self) -> (r: Self) {
        (self.0.meet(&other.0), self.1.meet(&other.1))
    }

    fn join(&self, other: &Self) -> (r: Self) {
        (self.0.join(&other.0), self.1.join(&other.1))
    }

    fn minimum() -> (r: Self) {
        (A::minimum(), B::minimum())
    }

    fn advance(&self) -> (r: Option<Self>) {
        match self.1.advance() {
            Some(n) => Some((self.0.dup(), n)),
            None => None,
        }
    }
}

/// No element of `s` is at or below another one.
pub open spec fn is_antichain<T: Timestamp>(s: Seq<T>) -> bool {
    forall|i: int, j: int|
        #![trigger s[i], s[j]]
        0 <= i < s.len() && 0 <= j < s.len() && i != j ==> !s[i].le_spec(&s[j])
}

/// A set of timestamps no two of which are comparable.
pub struct Antichain<T> {
    elements: Vec<T>,
}

impl<T: Timestamp + DBData> Antichain<T> {
    /// The elements, in the order in which they are stored.
    pub closed spec fn view(&self) -> Seq<T> {
        self.elements@
    }

    /// No element is at or below another one.
    pub open spec fn wf(&self) -> bool {
        forall|i: int, j: int|
            #![trigger self@[i], self@[j]]
            0 <= i < self@.len() && 0 <= j < self@.len() && i != j ==> !self@[i].le_spec(&self@[j])
    }

    /// Some element is at or below `t`.
    pub open spec fn less_equal_spec(&self, t: T) -> bool {
        exists|i: int| 0 <= i < self@.len() && (#[trigger] self@[i]).le_spec(&t)
    }

    /// The two antichains are at or below the same timestamps.
    pub open spec fn same_spec(&self, other: &Self) -> bool {
        forall|t: T| #[trigger] self.less_equal_spec(t) == other.less_equal_spec(t)
    }

    /// The empty antichain, which is at or below nothing.
    pub fn new() -> (r: Self)
        ensures
            r@ == Seq::<T>::empty(),
            r.wf(),
    {
        Antichain { elements: Vec::new() }
    }

    /// The antichain of one element.
    pub fn from_elem(t: T) -> (r: Self)
        ensures
            r@ == seq![t],
            r.wf(),
    {
        let mut elements = Vec::new();
        elements.push(t);
        Antichain { elements }
    }

    /// The antichain of the elements of `elements`, where no element is at
    /// or below another one; else nothing.
    pub fn from_vec(elements: Vec<T>) -> (r: Option<Self>)
        ensures
            r matches Some(a) ==> a@ == elements@ && a.wf(),
            r is Some <==> is_antichain(elements@),
    {
        let mut i: usize = 0;
        while i < elements.len()
            invariant
                i <= elements.len(),
                forall|a: int, b: int|
                    #![trigger elements@[a], elements@[b]]
                    0 <= a < i && 0 <= b < elements@.len() && a != b ==> !elements@[a].le_spec(
                        &elements@[b],
                    ),
            decreases elements.len() - i,
        {
            let mut j: usize = 0;
            while j < elements.len()
                invariant
                    i < elements.len(),
                    j <= elements.len(),
                    forall|b: int|
                        0 <= b < j && b != i ==> !elements@[i as int].le_spec(&#[trigger] elements@[b]),
                decreases elements.len() - j,
            {
                if j != i && elements[i].less_equal(&elements[j]) {
                    assert(elements@[i as int].le_spec(&elements@[j as int]));
                    return None;
                }
                j = j + 1;
            }
            i = i + 1;
        }
        Some(Antichain { elements })
    }

    /// The number of elements.
    pub fn len(&self) -> (r: usize)
        ensures
            r == self@.len(),
    {
        self.elements.len()
    }

    /// The element at an index.
    pub fn get(&self, i: usize) -> (r: &T)
        requires
            i < self@.len(),
        ensures
            *r == self@[i as int],
    {
        &self.elements[i]
    }

    /// Tells whether some element is at or below `t`.
    pub fn less_equal(&self, t: &T) -> (r: bool)
        ensures
            r == self.less_equal_spec(*t),
    {
        let mut i: usize = 0;
        while i < self.elements.len()
            invariant
                i <= self.elements.len(),
                forall|k: int| 0 <= k < i ==> !(#[trigger] self@[k]).le_spec(t),
            decreases self.elements.len() - i,
        {
            if self.elements[i].less_equal(t) {
                assert(self@[i as int].le_spec(t));
                return true;
            }
            i = i + 1;
        }
        false
    }

    /// Tells whether the two antichains are at or below the same timestamps.
    pub fn same_as(&self, other: &Self) -> (r: bool)
        ensures
            r == self.same_spec(other),
    {
        let a = self.dominated_by(other);
        let b = other.dominated_by(self);
        proof {
            if a && b {
                assert forall|t: T| #[trigger]
                    self.less_equal_spec(t) == other.less_equal_spec(t) by {
                    if self.less_equal_spec(t) {
                        Self::lemma_dominated(*self, *other, t);
                    }
                    if other.less_equal_spec(t) {
                        Self::lemma_dominated(*other, *self, t);
                    }
                }
            } else if !a {
                let k = choose|k: int|
                    0 <= k < self@.len() && !other.less_equal_spec(#[trigger] self@[k]);
                T::lemma_le_reflexive(self@[k]);
                assert(self.less_equal_spec(self@[k]));
            } else {
                let k = choose|k: int|
                    0 <= k < other@.len() && !self.less_equal_spec(#[trigger] other@[k]);
                T::lemma_le_reflexive(other@[k]);
                assert(other.less_equal_spec(other@[k]));
            }
        }
        a && b
    }

    /// Every element of `self` is at or above some element of `other`.
    pub open spec fn dominated_by_spec(&self, other: &Self) -> bool {
        forall|k: int| 0 <= k < self@.len() ==> other.less_equal_spec(#[trigger] self@[k])
    }

    /// Where every element of `a` is at or above some element of `b`, `b` is
    /// at or below whatever `a` is at or below.
    pub proof fn lemma_dominated(a: Self, b: Self, t: T)
        requires
            a.dominated_by_spec(&b),
            a.less_equal_spec(t),
        ensures
            b.less_equal_spec(t),
    {
        let i = choose|i: int| 0 <= i < a@.len() && (#[trigger] a@[i]).le_spec(&t);
        assert(b.less_equal_spec(a@[i]));
        let j = choose|j: int| 0 <= j < b@.len() && (#[trigger] b@[j]).le_spec(&a@[i]);
        T::lemma_le_transitive(b@[j], a@[i], t);
    }

    /// Tells whether every element of `self` is at or above some element of
    /// `other`.
    pub fn dominated_by(&self, other: &Self) -> (r: bool)
        ensures
            r == self.dominated_by_spec(other),
    {
        let mut i: usize = 0;
        while i < self.elements.len()
            invariant
                i <= self.elements.len(),
                forall|k: int| 0 <= k < i ==> other.less_equal_spec(#[trigger] self@[k]),
            decreases self.elements.len() - i,
        {
            if !other.less_equal(&self.elements[i]) {
                assert(!other.less_equal_spec(self@[i as int]));
                return false;
            }
            i = i + 1;
        }
        true
    }

    /// Adds `t` unless an element is at or below it already, and drops the
    /// elements that `t` is below.
    pub fn insert(&mut self, t: T)
        ensures
            forall|x: T| #[trigger]
                final(self).less_equal_spec(x) == (old(self).less_equal_spec(x) || t.le_spec(&x)),
            old(self).wf() ==> final(self).wf(),
    {
        if self.less_equal(&t) {
            proof {
                let i = choose|i: int| 0 <= i < self@.len() && (#[trigger] self@[i]).le_spec(&t);
                assert forall|x: T| t.le_spec(&x) implies self.less_equal_spec(x) by {
                    T::lemma_le_transitive(self@[i], t, x);
                }
            }
            return ;
        }
        let mut kept: Vec<T> = Vec::new();
        let mut i: usize = 0;
        let ghost mut origin: Seq<int> = Seq::empty();
        while i < self.elements.len()
            invariant
                i <= self.elements.len(),
                *self == *old(self),
                origin.len() == kept@.len(),
                forall|k: int|
                    0 <= k < kept@.len() ==> 0 <= #[trigger] origin[k] < i && kept@[k] == self@[origin[k]],
                forall|k: int, l: int| 0 <= k < l < origin.len() ==> origin[k] < origin[l],
                forall|k: int| 0 <= k < kept@.len() ==> !t.le_spec(#[trigger] &kept@[k]),
                forall|m: int|
                    0 <= m < i && !t.le_spec(&self@[m]) ==> exists|k: int|
                        0 <= k < kept@.len() && #[trigger] origin[k] == m,
            decreases self.elements.len() - i,
        {
            if !t.less_equal(&self.elements[i]) {
                let ghost old_origin = origin;
                kept.push(self.elements[i].dup());
                proof {
                    origin = origin.push(i as int);
                    assert forall|m: int| 0 <= m < i + 1 && !t.le_spec(&self@[m]) implies exists|
                        k: int,
                    |
                        0 <= k < kept@.len() && #[trigger] origin[k] == m by {
                        if m < i {
                            let k = choose|k: int|
                                0 <= k < old_origin.len() && #[trigger] old_origin[k] == m;
                            assert(origin[k] == m);
                        } else {
                            assert(origin[kept@.len() - 1] == m);
                        }
                    }
                }
            }
            i = i + 1;
        }
        let ghost kept_before = kept@;
        let ghost olds = self@;
        kept.push(t);
        self.elements = kept;
        proof {
            let newv = self@;
            assert forall|x: T| #[trigger]
                self.less_equal_spec(x) == (old(self).less_equal_spec(x) || t.le_spec(&x)) by {
                if self.less_equal_spec(x) {
                    let k = choose|i: int| 0 <= i < newv.len() && (#[trigger] newv[i]).le_spec(&x);
                    if k < kept_before.len() {
                        assert(olds[origin[k]].le_spec(&x));
                    }
                }
                if old(self).less_equal_spec(x) {
                    let m = choose|m: int| 0 <= m < olds.len() && (#[trigger] olds[m]).le_spec(&x);
                    if t.le_spec(&olds[m]) {
                        T::lemma_le_transitive(t, olds[m], x);
                    } else {
                        let k = choose|k: int| 0 <= k < kept_before.len() && #[trigger] origin[k] == m;
                        assert(newv[k].le_spec(&x));
                    }
                }
                if t.le_spec(&x) {
                    assert(newv[newv.len() - 1].le_spec(&x));
                }
            }
            if old(self).wf() {
                assert forall|i: int, j: int|
                    #![trigger newv[i], newv[j]]
                    0 <= i < newv.len() && 0 <= j < newv.len() && i != j implies !newv[i].le_spec(
                    &newv[j],
                ) by {
                    if i < kept_before.len() && j < kept_before.len() {
                        assert(origin[i] != origin[j]);
                        assert(!olds[origin[i]].le_spec(&olds[origin[j]]));
                    } else if i < kept_before.len() {
                        assert(olds[origin[i]] == newv[i]);
                    } else {
                    }
                }
            }
        }
    }

    /// Returns an equal antichain.
    pub fn dup(&self) -> (r: Self)
        ensures
            r@ == self@,
    {
        let mut elements: Vec<T> = Vec::new();
        let mut i: usize = 0;
        while i < self.elements.len()
            invariant
                i <= self.elements.len(),
                elements@ == self.elements@.take(i as int),
            decreases self.elements.len() - i,
        {
            elements.push(self.elements[i].dup());
            proof {
                assert(elements@ =~= self.elements@.take(i + 1));
            }
            i = i + 1;
        }
        proof {
            assert(self.elements@.take(self.elements.len() as int) =~= self.elements@);
        }
        Antichain { elements }
    }

    /// The antichain that is at or below the times that `self` or `other` is
    /// at or below: the lower bound of the union of two intervals.
    pub fn meet(&self, other: &Self) -> (r: Self)
        ensures
            forall|t: T| #[trigger]
                r.less_equal_spec(t) == (self.less_equal_spec(t) || other.less_equal_spec(t)),
            self.wf() ==> r.wf(),
    {
        let mut r = self.dup();
        let mut i: usize = 0;
        while i < other.elements.len()
            invariant
                i <= other.elements.len(),
                self.wf() ==> r.wf(),
                forall|t: T| #[trigger]
                    r.less_equal_spec(t) == (self.less_equal_spec(t) || exists|k: int|
                        0 <= k < i && (#[trigger] other@[k]).le_spec(&t)),
            decreases other.elements.len() - i,
        {
            let ghost before = r;
            r.insert(other.elements[i].dup());
            proof {
                assert forall|t: T| #[trigger]
                    r.less_equal_spec(t) == (self.less_equal_spec(t) || exists|k: int|
                        0 <= k < i + 1 && (#[trigger] other@[k]).le_spec(&t)) by {
                    assert(r.less_equal_spec(t) == (before.less_equal_spec(t) || other@[i as int].le_spec(
                        &t,
                    )));
                    assert(before.less_equal_spec(t) == (self.less_equal_spec(t) || exists|k: int|
                        0 <= k < i && (#[trigger] other@[k]).le_spec(&t)));
                }
            }
            i = i + 1;
        }
        r
    }

    /// The antichain that is at or below the times that both `self` and
    /// `other` are at or below: the upper bound of the union of two
    /// intervals.
    pub fn join(&self, other: &Self) -> (r: Self)
        ensures
            forall|t: T| #[trigger]
                r.less_equal_spec(t) == (self.less_equal_spec(t) && other.less_equal_spec(t)),
            r.wf(),
    {
        let mut r = Self::new();
        let mut i: usize = 0;
        while i < self.elements.len()
            invariant
                i <= self.elements.len(),
                r.wf(),
                forall|t: T| #[trigger]
                    r.less_equal_spec(t) == (other.less_equal_spec(t) && exists|k: int|
                        0 <= k < i && (#[trigger] self@[k]).le_spec(&t)),
            decreases self.elements.len() - i,
        {
            let ghost outer = r;
            let mut j: usize = 0;
            while j < other.elements.len()
                invariant
                    i < self.elements.len(),
                    j <= other.elements.len(),
                    r.wf(),
                    forall|t: T| #[trigger]
                        r.less_equal_spec(t) == (outer.less_equal_spec(t) || (self@[i as int].le_spec(
                            &t,
                        ) && exists|k: int| 0 <= k < j && (#[trigger] other@[k]).le_spec(&t))),
                decreases other.elements.len() - j,
            {
                let ghost before = r;
                let e = self.elements[i].join(&other.elements[j]);
                r.insert(e);
                proof {
                    assert forall|t: T| #[trigger]
                        r.less_equal_spec(t) == (outer.less_equal_spec(t) || (self@[i as int].le_spec(
                            &t,
                        ) && exists|k: int| 0 <= k < j + 1 && (#[trigger] other@[k]).le_spec(&t))) by {
                        T::lemma_join_lub(self@[i as int], other@[j as int], t);
                        if e.le_spec(&t) {
                            T::lemma_le_transitive(self@[i as int], e, t);
                            T::lemma_le_transitive(other@[j as int], e, t);
                        }
                        assert(r.less_equal_spec(t) == (before.less_equal_spec(t) || e.le_spec(&t)));
                        assert(before.less_equal_spec(t) == (outer.less_equal_spec(t) || (
                        self@[i as int].le_spec(&t) && exists|k: int|
                            0 <= k < j && (#[trigger] other@[k]).le_spec(&t))));
                    }
                }
                j = j + 1;
            }
            proof {
                assert forall|t: T| #[trigger]
                    r.less_equal_spec(t) == (other.less_equal_spec(t) && exists|k: int|
                        0 <= k < i + 1 && (#[trigger] self@[k]).le_spec(&t)) by {
                    assert(outer.less_equal_spec(t) == (other.less_equal_spec(t) && exists|k: int|
                        0 <= k < i && (#[trigger] self@[k]).le_spec(&t)));
                    assert(r.less_equal_spec(t) == (outer.less_equal_spec(t) || (self@[i as int].le_spec(
                        &t,
                    ) && exists|k: int|
                        0 <= k < other@.len() && (#[trigger] other@[k]).le_spec(&t))));
                }
            }
            i = i + 1;
        }
        r
    }

    /// The antichain that is at or below the times that the meet of
    /// `frontier` with some element of `self` is at or below.
    pub fn recede_to(&self, frontier: &T) -> (r: Self)
        ensures
            forall|t: T| #[trigger]
                r.less_equal_spec(t) == (exists|i: int|
                    0 <= i < self@.len() && (#[trigger] self@[i]).meet_spec(frontier).le_spec(&t)),
            r.wf(),
    {
        let mut r = Self::new();
        let mut i: usize = 0;
        while i < self.elements.len()
            invariant
                i <= self.elements.len(),
                r.wf(),
                forall|t: T| #[trigger]
                    r.less_equal_spec(t) == (exists|k: int|
                        0 <= k < i && (#[trigger] self@[k]).meet_spec(frontier).le_spec(&t)),
            decreases self.elements.len() - i,
        {
            let ghost before = r;
            let e = self.elements[i].meet(frontier);
            r.insert(e);
            proof {
                assert forall|t: T| #[trigger]
                    r.less_equal_spec(t) == (exists|k: int|
                        0 <= k < i + 1 && (#[trigger] self@[k]).meet_spec(frontier).le_spec(&t)) by {
                    assert(r.less_equal_spec(t) == (before.less_equal_spec(t) || e.le_spec(&t)));
                    assert(before.less_equal_spec(t) == (exists|k: int|
                        0 <= k < i && (#[trigger] self@[k]).meet_spec(frontier).le_spec(&t)));
                    if e.le_spec(&t) {
                        assert(self@[i as int].meet_spec(frontier).le_spec(&t));
                    }
                    if exists|k: int|
                        0 <= k < i + 1 && (#[trigger] self@[k]).meet_spec(frontier).le_spec(&t) {
                        let k = choose|k: int|
                            0 <= k < i + 1 && (#[trigger] self@[k]).meet_spec(frontier).le_spec(&t);
                        if k < i {
                            assert(before.less_equal_spec(t));
                        }
                    }
                }
            }
            i = i + 1;
        }
        r
    }
}

} // verus!
