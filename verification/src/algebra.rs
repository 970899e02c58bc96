//! The algebra of weights and Z-sets.
//!
//! Weights form a commutative ring; the machine integers are such a ring with
//! wrapping arithmetic, which is arithmetic modulo a power of two.  A Z-set
//! maps records to weights, and Z-sets are added, negated and scaled record
//! by record.

use vstd::prelude::*;
use vstd::arithmetic::div_mod::{
    lemma_add_mod_noop,
    lemma_mul_mod_noop_left,
    lemma_mul_mod_noop_right,
};
use crate::trace::consolidation::{
    is_consolidated,
    lemma_consolidated_push,
    lemma_weight_of_push,
    weight_of,
};
use crate::trace::{DBData, DBWeight};

verus! {

/// A type with a zero value that can be told from the others.
pub trait HasZero: Sized {
    /// The value is zero.
    spec fn is_zero_spec(&self) -> bool;

    /// Returns a zero.
    fn zero() -> (r: Self)
        ensures
            r.is_zero_spec(),
    ;

    /// Tells whether the value is zero.
    fn is_zero(&self) -> (r: bool)
        requires
            self.zero_checkable(),
        ensures
            r == self.is_zero_spec(),
    ;

    /// The value is in a state in which `is_zero` can look at it.
    spec fn zero_checkable(&self) -> bool;
}

/// Weights that form a commutative ring with a notion of positive weights.
pub trait ZRingValue: DBWeight {
    /// The additive inverse.
    spec fn neg_spec(&self) -> Self;

    /// The product.
    spec fn mul_spec(&self, other: &Self) -> Self;

    /// The multiplicative unit.
    spec fn one_spec() -> Self;

    /// The weight counts as present: it is above zero.
    spec fn positive_spec(&self) -> bool;

    /// A weight and its inverse add up to zero.
    proof fn lemma_neg_inverse(a: Self)
        ensures
            a.add_spec(&a.neg_spec()) == Self::zero_spec(),
    ;

    /// Multiplication is associative.
    proof fn lemma_mul_associative(a: Self, b: Self, c: Self)
        ensures
            a.mul_spec(&b).mul_spec(&c) == a.mul_spec(&b.mul_spec(&c)),
    ;

    /// Multiplication is commutative.
    proof fn lemma_mul_commutative(a: Self, b: Self)
        ensures
            a.mul_spec(&b) == b.mul_spec(&a),
    ;

    /// One is neutral for multiplication.
    proof fn lemma_mul_one(a: Self)
        ensures
            a.mul_spec(&Self::one_spec()) == a,
    ;

    /// Multiplication distributes over addition.
    proof fn lemma_mul_distributive(a: Self, b: Self, c: Self)
        ensures
            a.mul_spec(&b.add_spec(&c)) == a.mul_spec(&b).add_spec(&a.mul_spec(&c)),
    ;

    /// One is positive and zero is not.
    proof fn lemma_positive_one()
        ensures
            Self::one_spec().positive_spec(),
            !Self::zero_spec().positive_spec(),
    ;

    /// Returns the additive inverse.
    fn neg_by_ref(&self) -> (r: Self)
        ensures
            r == self.neg_spec(),
    ;

    /// Returns the product.
    fn mul_by_ref(&self, other: &Self) -> (r: Self)
        ensures
            r == self.mul_spec(other),
    ;

    /// Returns the multiplicative unit.
    fn one() -> (r: Self)
        ensures
            r == Self::one_spec(),
    ;

    /// Tells whether the weight is above zero.
    fn ge0(&self) -> (r: bool)
        ensures
            r == (self.positive_spec() || *self == Self::zero_spec()),
    ;
}

/// The product of anything with zero is zero.
pub proof fn lemma_mul_zero<R: ZRingValue>(a: R)
    ensures
        a.mul_spec(&R::zero_spec()) == R::zero_spec(),
        R::zero_spec().mul_spec(&a) == R::zero_spec(),
{
    let z = R::zero_spec();
    let p = a.mul_spec(&z);
    R::lemma_add_zero(z);
    R::lemma_mul_distributive(a, z, z);
    R::lemma_neg_inverse(p);
    R::lemma_add_associative(p, p, p.neg_spec());
    R::lemma_add_zero(p);
    R::lemma_mul_commutative(a, z);
}

/// The inverse of a sum is the sum of the inverses.
pub proof fn lemma_neg_add<R: ZRingValue>(a: R, b: R)
    ensures
        a.add_spec(&b).neg_spec() == a.neg_spec().add_spec(&b.neg_spec()),
{
    let s = a.add_spec(&b);
    let n = a.neg_spec().add_spec(&b.neg_spec());
    crate::trace::consolidation::lemma_add_interchange(a, b, a.neg_spec(), b.neg_spec());
    R::lemma_neg_inverse(a);
    R::lemma_neg_inverse(b);
    R::lemma_add_zero(R::zero_spec());
    lemma_inverse_unique(s, n);
}

/// What adds up to zero with a weight is its inverse.
pub proof fn lemma_inverse_unique<R: ZRingValue>(a: R, n: R)
    requires
        a.add_spec(&n) == R::zero_spec(),
    ensures
        n == a.neg_spec(),
{
    let m = a.neg_spec();
    R::lemma_neg_inverse(a);
    R::lemma_add_commutative(a, m);
    R::lemma_add_associative(m, a, n);
    R::lemma_add_zero(m);
    crate::trace::consolidation::lemma_zero_add(n);
}

/// The inverse of zero is zero, and the inverse of the inverse of a weight
/// is the weight.
pub proof fn lemma_neg_neg<R: ZRingValue>(a: R)
    ensures
        R::zero_spec().neg_spec() == R::zero_spec(),
        a.neg_spec().neg_spec() == a,
{
    R::lemma_add_zero(R::zero_spec());
    lemma_inverse_unique(R::zero_spec(), R::zero_spec());
    R::lemma_neg_inverse(a);
    R::lemma_add_commutative(a, a.neg_spec());
    lemma_inverse_unique(a.neg_spec(), a);
}

/// The number of values of a 64-bit integer.
pub open spec fn range64() -> int {
    0x1_0000_0000_0000_0000
}

/// The 64-bit integer that is congruent to `x` modulo `2^64`.
pub open spec fn wrap64(x: int) -> i64 {
    vstd::wrapping::i64_specs::signed_crop(x)
}

/// A wrapped integer is congruent to the integer, and a 64-bit integer
/// wraps to itself.
pub proof fn lemma_wrap64(x: int)
    ensures
        (wrap64(x) as int) % range64() == x % range64(),
        i64::MIN <= x <= i64::MAX ==> wrap64(x) == x,
{
}

impl ZRingValue for i64 {
    open spec fn neg_spec(&self) -> Self {
        vstd::wrapping::i64_specs::wrapping_sub(0i64, *self)
    }

    open spec fn mul_spec(&self, other: &Self) -> Self {
        vstd::wrapping::i64_specs::wrapping_mul(*self, *other)
    }

    open spec fn one_spec() -> Self {
        1i64
    }

    open spec fn positive_spec(&self) -> bool {
        *self > 0
    }

    proof fn lemma_neg_inverse(a: Self) {
    }

    proof fn lemma_mul_associative(a: Self, b: Self, c: Self) {
        let m = range64();
        let ab = a * b;
        let bc = b * c;
        lemma_wrap64(ab);
        lemma_wrap64(bc);
        lemma_mul_mod_noop_left(ab, c as int, m);
        lemma_mul_mod_noop_left(wrap64(ab) as int, c as int, m);
        lemma_mul_mod_noop_right(a as int, bc, m);
        lemma_mul_mod_noop_right(a as int, wrap64(bc) as int, m);
        assert(ab * c == a * bc) by (nonlinear_arith)
            requires
                ab == a * b,
                bc == b * c,
        ;
    }

    proof fn lemma_mul_commutative(a: Self, b: Self) {
        assert(a * b == b * a) by (nonlinear_arith);
    }

    proof fn lemma_mul_one(a: Self) {
        assert(a * 1 == a) by (nonlinear_arith);
        lemma_wrap64(a as int);
    }

    proof fn lemma_mul_distributive(a: Self, b: Self, c: Self) {
        let m = range64();
        let ab = a * b;
        let ac = a * c;
        let s = vstd::wrapping::i64_specs::wrapping_add(b, c);
        lemma_wrap64(ab);
        lemma_wrap64(ac);
        lemma_wrap64(b + c);
        assert(s == wrap64(b + c));
        lemma_mul_mod_noop_right(a as int, b + c, m);
        lemma_mul_mod_noop_right(a as int, s as int, m);
        lemma_add_mod_noop(ab, ac, m);
        lemma_add_mod_noop(wrap64(ab) as int, wrap64(ac) as int, m);
        assert(a * (b + c) == ab + ac) by (nonlinear_arith)
            requires
                ab == a * b,
                ac == a * c,
        ;
        lemma_wrap64(wrap64(ab) + wrap64(ac));
        assert(vstd::wrapping::i64_specs::wrapping_add(wrap64(ab), wrap64(ac)) == wrap64(
            wrap64(ab) + wrap64(ac),
        ));
    }

    proof fn lemma_positive_one() {
    }

    fn neg_by_ref(&self) -> (r: Self) {
        0i64.wrapping_sub(*self)
    }

    fn mul_by_ref(&self, other: &Self) -> (r: Self) {
        self.wrapping_mul(*other)
    }

    fn one() -> (r: Self) {
        1i64
    }

    fn ge0(&self) -> (r: bool) {
        *self >= 0
    }
}

/// The sequence `s` with each weight replaced by its inverse.
pub open spec fn negated<I, R: ZRingValue>(s: Seq<(I, R)>) -> Seq<(I, R)> {
    Seq::new(s.len(), |i: int| (s[i].0, s[i].1.neg_spec()))
}

/// `c` stands for the Z-set that `a` stands for, negated.
pub open spec fn is_negation<I, R: ZRingValue>(c: Seq<(I, R)>, a: Seq<(I, R)>) -> bool {
    forall|x: I| #[trigger] weight_of(c, x) == weight_of(a, x).neg_spec()
}

/// `c` stands for the Z-set that `a` stands for, with each weight multiplied
/// by `w`.
pub open spec fn is_scaled<I, R: ZRingValue>(c: Seq<(I, R)>, a: Seq<(I, R)>, w: R) -> bool {
    forall|x: I| #[trigger] weight_of(c, x) == weight_of(a, x).mul_spec(&w)
}

/// `c` stands for the difference of the Z-sets that `a` and `b` stand for.
pub open spec fn is_difference<I, R: ZRingValue>(c: Seq<(I, R)>, a: Seq<(I, R)>, b: Seq<(I, R)>) -> bool {
    forall|x: I| #[trigger] weight_of(c, x) == weight_of(a, x).add_spec(&weight_of(b, x).neg_spec())
}

/// Negates the weights of a consolidated vector.
pub fn negate_vec<I: DBData, R: ZRingValue>(v: &Vec<(I, R)>) -> (r: Vec<(I, R)>)
    requires
        is_consolidated(v@),
    ensures
        is_consolidated(r@),
        is_negation(r@, v@),
        r@ == negated(v@),
{
    let mut r: Vec<(I, R)> = Vec::new();
    let mut i: usize = 0;
    proof {
        assert(negated(v@.take(0)) =~= r@);
        assert forall|x: I| #[trigger] weight_of(r@, x) == weight_of(v@.take(0), x).neg_spec() by {
            lemma_neg_neg(R::zero_spec());
        }
    }
    while i < v.len()
        invariant
            i <= v.len(),
            is_consolidated(v@),
            is_consolidated(r@),
            r@ == negated(v@.take(i as int)),
            is_negation(r@, v@.take(i as int)),
        decreases v.len() - i,
    {
        let ghost before = r@;
        let w = v[i].1.neg_by_ref();
        let ghost e = (v@[i as int].0, w);
        proof {
            lemma_neg_neg(v@[i as int].1);
            assert(w != R::zero_spec());
            if i > 0 {
                assert(before[i - 1].0 == v@[i - 1].0);
                assert(v@[i - 1].0.lt_spec(&v@[i as int].0));
            }
            lemma_consolidated_push(before, e);
            assert(v@.take(i + 1) =~= v@.take(i as int).push(v@[i as int]));
            assert(before.push(e) =~= negated(v@.take(i + 1)));
            assert forall|x: I| #[trigger]
                weight_of(before.push(e), x) == weight_of(v@.take(i + 1), x).neg_spec() by {
                lemma_weight_of_push(before, e, x);
                lemma_weight_of_push(v@.take(i as int), v@[i as int], x);
                assert(weight_of(before, x) == weight_of(v@.take(i as int), x).neg_spec());
                if e.0 == x {
                    lemma_neg_add(weight_of(v@.take(i as int), x), v@[i as int].1);
                }
            }
        }
        r.push((v[i].0.dup(), w));
        i = i + 1;
    }
    proof {
        assert(v@.take(v.len() as int) =~= v@);
    }
    r
}

/// Multiplies the weights of a consolidated vector by `w` and drops the
/// pairs whose weight becomes zero.
pub fn scale_vec<I: DBData, R: ZRingValue>(v: &Vec<(I, R)>, w: &R) -> (r: Vec<(I, R)>)
    requires
        is_consolidated(v@),
    ensures
        is_consolidated(r@),
        is_scaled(r@, v@, *w),
{
    let mut r: Vec<(I, R)> = Vec::new();
    let mut i: usize = 0;
    proof {
        assert forall|x: I| #[trigger]
            weight_of(r@, x) == weight_of(v@.take(0), x).mul_spec(w) by {
            lemma_mul_zero(*w);
        }
    }
    while i < v.len()
        invariant
            i <= v.len(),
            is_consolidated(v@),
            is_consolidated(r@),
            is_scaled(r@, v@.take(i as int), *w),
            forall|j: int, n: int|
                0 <= j < r@.len() && i <= n < v@.len() ==> (#[trigger] r@[j]).0.lt_spec(
                    &(#[trigger] v@[n]).0,
                ),
        decreases v.len() - i,
    {
        let ghost before = r@;
        let p = v[i].1.mul_by_ref(w);
        let ghost e = (v@[i as int].0, p);
        proof {
            assert(v@.take(i + 1) =~= v@.take(i as int).push(v@[i as int]));
        }
        if !p.is_zero() {
            proof {
                if before.len() > 0 {
                    assert(before[before.len() - 1].0.lt_spec(&v@[i as int].0));
                }
                lemma_consolidated_push(before, e);
            }
            r.push((v[i].0.dup(), p));
        }
        proof {
            let after = r@;
            assert forall|x: I| #[trigger]
                weight_of(after, x) == weight_of(v@.take(i + 1), x).mul_spec(w) by {
                lemma_weight_of_push(v@.take(i as int), v@[i as int], x);
                assert(weight_of(before, x) == weight_of(v@.take(i as int), x).mul_spec(w));
                if p != R::zero_spec() {
                    lemma_weight_of_push(before, e, x);
                }
                if e.0 == x {
                    let a = weight_of(v@.take(i as int), x);
                    R::lemma_mul_commutative(a.add_spec(&v@[i as int].1), *w);
                    R::lemma_mul_distributive(*w, a, v@[i as int].1);
                    R::lemma_mul_commutative(a, *w);
                    R::lemma_mul_commutative(v@[i as int].1, *w);
                    R::lemma_add_zero(weight_of(before, x));
                }
            }
            assert forall|j: int, n: int|
                0 <= j < after.len() && i + 1 <= n < v@.len() implies (#[trigger] after[j]).0.lt_spec(
                &(#[trigger] v@[n]).0,
            ) by {
                if j < before.len() {
                    assert(after[j] == before[j]);
                } else {
                    assert(v@[i as int].0.lt_spec(&v@[n].0));
                }
            }
        }
        i = i + 1;
    }
    proof {
        assert(v@.take(v.len() as int) =~= v@);
    }
    r
}

} // verus!
