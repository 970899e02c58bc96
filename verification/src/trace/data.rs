//! `DBData` and `DBWeight` for the primitive types, pairs and options.

use vstd::prelude::*;
use crate::trace::{DBData, DBWeight};

verus! {

impl DBData for () {
    open spec fn lt_spec(&self, other: &Self) -> bool {
        false
    }

    proof fn lemma_lt_irreflexive(a: Self) {
    }

    proof fn lemma_lt_transitive(a: Self, b: Self, c: Self) {
    }

    proof fn lemma_lt_total(a: Self, b: Self) {
    }

    fn less(&self, other: &Self) -> (r: bool) {
        false
    }

    fn same(&self, other: &Self) -> (r: bool) {
        true
    }

    fn dup(&self) -> (r: Self) {
        ()
    }

    open spec fn hash_spec(&self) -> u64 {
        0u64
    }

    fn hash_code(&self) -> (h: u64) {
        0u64
    }
}

impl DBData for u64 {
    open spec fn lt_spec(&self, other: &Self) -> bool {
        *self < *other
    }

    proof fn lemma_lt_irreflexive(a: Self) {
    }

    proof fn lemma_lt_transitive(a: Self, b: Self, c: Self) {
    }

    proof fn lemma_lt_total(a: Self, b: Self) {
    }

    fn less(&self, other: &Self) -> (r: bool) {
        *self < *other
    }

    fn same(&self, other: &Self) -> (r: bool) {
        *self == *other
    }

    fn dup(&self) -> (r: Self) {
        *self
    }

    open spec fn hash_spec(&self) -> u64 {
        vstd::wrapping::u64_specs::wrapping_mul(*self, 0x9e37_79b9_7f4a_7c15u64)
    }

    fn hash_code(&self) -> (h: u64) {
        self.wrapping_mul(0x9e37_79b9_7f4a_7c15u64)
    }
}

impl<A: DBData, B: DBData> DBData for (A, B) {
    open spec fn lt_spec(&self, other: &Self) -> bool {
        self.0.lt_spec(&other.0) || (self.0 == other.0 && self.1.lt_spec(&other.1))
    }

    proof fn lemma_lt_irreflexive(a: Self) {
        A::lemma_lt_irreflexive(a.0);
        B::lemma_lt_irreflexive(a.1);
    }

    proof fn lemma_lt_transitive(a: Self, b: Self, c: Self) {
        A::lemma_lt_irreflexive(a.0);
        A::lemma_lt_irreflexive(b.0);
        if a.0.lt_spec(&b.0) && b.0.lt_spec(&c.0) {
            A::lemma_lt_transitive(a.0, b.0, c.0);
        } else if a.0 == b.0 && b.0 == c.0 {
            B::lemma_lt_transitive(a.1, b.1, c.1);
        }
    }

    proof fn lemma_lt_total(a: Self, b: Self) {
        A::lemma_lt_total(a.0, b.0);
        B::lemma_lt_total(a.1, b.1);
    }

    fn less(&self, other: &Self) -> (r: bool) {
        if self.0.less(&other.0) {
            true
        } else if self.0.same(&other.0) {
            self.1.less(&other.1)
        } else {
            false
        }
    }

    fn same(&self, other: &Self) -> (r: bool) {
        self.0.same(&other.0) && self.1.same(&other.1)
    }

    fn dup(&self) -> (r: Self) {
        (self.0.dup(), self.1.dup())
    }

    open spec fn hash_spec(&self) -> u64 {
        vstd::wrapping::u64_specs::wrapping_add(
            vstd::wrapping::u64_specs::wrapping_mul(self.0.hash_spec(), 31u64),
            self.1.hash_spec(),
        )
    }

    fn hash_code(&self) -> (h: u64) {
        self.0.hash_code().wrapping_mul(31u64).wrapping_add(self.1.hash_code())
    }
}

impl DBData for i64 {
    open spec fn lt_spec(&self, other: &Self) -> bool {
        *self < *other
    }

    proof fn lemma_lt_irreflexive(a: Self) {
    }

    proof fn lemma_lt_transitive(a: Self, b: Self, c: Self) {
    }

    proof fn lemma_lt_total(a: Self, b: Self) {
    }

    fn less(&self, other: &Self) -> (r: bool) {
        *self < *other
    }

    fn same(&self, other: &Self) -> (r: bool) {
        *self == *other
    }

    fn dup(&self) -> (r: Self) {
        *self
    }

    open spec fn hash_spec(&self) -> u64 {
        vstd::wrapping::u64_specs::wrapping_mul(
            (*self + 0x8000_0000_0000_0000) as u64,
            0x9e37_79b9_7f4a_7c15u64,
        )
    }

    fn hash_code(&self) -> (h: u64) {
        let shifted = ((*self as i128) + 0x8000_0000_0000_0000i128) as u64;
        shifted.wrapping_mul(0x9e37_79b9_7f4a_7c15u64)
    }
}

impl DBWeight for i64 {
    open spec fn zero_spec() -> Self {
        0i64
    }

    open spec fn add_spec(&self, other: &Self) -> Self {
        vstd::wrapping::i64_specs::wrapping_add(*self, *other)
    }

    proof fn lemma_add_associative(a: Self, b: Self, c: Self) {
    }

    proof fn lemma_add_commutative(a: Self, b: Self) {
    }

    proof fn lemma_add_zero(a: Self) {
    }

    fn zero() -> (r: Self) {
        0i64
    }

    fn is_zero(&self) -> (r: bool) {
        *self == 0i64
    }

    fn add_by_ref(&self, other: &Self) -> (r: Self) {
        self.wrapping_add(*other)
    }
}


impl DBData for u32 {
    open spec fn lt_spec(&self, other: &Self) -> bool {
        *self < *other
    }

    proof fn lemma_lt_irreflexive(a: Self) {
    }

    proof fn lemma_lt_transitive(a: Self, b: Self, c: Self) {
    }

    proof fn lemma_lt_total(a: Self, b: Self) {
    }

    fn less(&self, other: &Self) -> (r: bool) {
        *self < *other
    }

    fn same(&self, other: &Self) -> (r: bool) {
        *self == *other
    }

    fn dup(&self) -> (r: Self) {
        *self
    }

    open spec fn hash_spec(&self) -> u64 {
        vstd::wrapping::u64_specs::wrapping_mul(*self as u64, 0x9e37_79b9_7f4a_7c15u64)
    }

    fn hash_code(&self) -> (h: u64) {
        (*self as u64).wrapping_mul(0x9e37_79b9_7f4a_7c15u64)
    }
}

impl DBData for i32 {
    open spec fn lt_spec(&self, other: &Self) -> bool {
        *self < *other
    }

    proof fn lemma_lt_irreflexive(a: Self) {
    }

    proof fn lemma_lt_transitive(a: Self, b: Self, c: Self) {
    }

    proof fn lemma_lt_total(a: Self, b: Self) {
    }

    fn less(&self, other: &Self) -> (r: bool) {
        *self < *other
    }

    fn same(&self, other: &Self) -> (r: bool) {
        *self == *other
    }

    fn dup(&self) -> (r: Self) {
        *self
    }

    open spec fn hash_spec(&self) -> u64 {
        vstd::wrapping::u64_specs::wrapping_mul(
            (*self + 0x8000_0000) as u64,
            0x9e37_79b9_7f4a_7c15u64,
        )
    }

    fn hash_code(&self) -> (h: u64) {
        let shifted = ((*self as i64) + 0x8000_0000i64) as u64;
        shifted.wrapping_mul(0x9e37_79b9_7f4a_7c15u64)
    }
}

impl DBWeight for i32 {
    open spec fn zero_spec() -> Self {
        0i32
    }

    open spec fn add_spec(&self, other: &Self) -> Self {
        vstd::wrapping::i32_specs::wrapping_add(*self, *other)
    }

    proof fn lemma_add_associative(a: Self, b: Self, c: Self) {
    }

    proof fn lemma_add_commutative(a: Self, b: Self) {
    }

    proof fn lemma_add_zero(a: Self) {
    }

    fn zero() -> (r: Self) {
        0i32
    }

    fn is_zero(&self) -> (r: bool) {
        *self == 0i32
    }

    fn add_by_ref(&self, other: &Self) -> (r: Self) {
        self.wrapping_add(*other)
    }
}

/// `None` is below every `Some`, and `Some` values are ordered as their
/// contents.
impl<A: DBData> DBData for Option<A> {
    open spec fn lt_spec(&self, other: &Self) -> bool {
        match (*self, *other) {
            (None, Some(_)) => true,
            (Some(a), Some(b)) => a.lt_spec(&b),
            _ => false,
        }
    }

    proof fn lemma_lt_irreflexive(a: Self) {
        match a {
            Some(x) => {
                A::lemma_lt_irreflexive(x);
            },
            None => {},
        }
    }

    proof fn lemma_lt_transitive(a: Self, b: Self, c: Self) {
        match (a, b, c) {
            (Some(x), Some(y), Some(z)) => {
                A::lemma_lt_transitive(x, y, z);
            },
            _ => {},
        }
    }

    proof fn lemma_lt_total(a: Self, b: Self) {
        match (a, b) {
            (Some(x), Some(y)) => {
                A::lemma_lt_total(x, y);
            },
            _ => {},
        }
    }

    fn less(&self, other: &Self) -> (r: bool) {
        match (self, other) {
            (None, Some(_)) => true,
            (Some(a), Some(b)) => a.less(b),
            _ => false,
        }
    }

    fn same(&self, other: &Self) -> (r: bool) {
        match (self, other) {
            (None, None) => true,
            (Some(a), Some(b)) => a.same(b),
            _ => false,
        }
    }

    fn dup(&self) -> (r: Self) {
        match self {
            Some(a) => Some(a.dup()),
            None => None,
        }
    }

    open spec fn hash_spec(&self) -> u64 {
        match *self {
            Some(a) => vstd::wrapping::u64_specs::wrapping_add(a.hash_spec(), 1u64),
            None => 0u64,
        }
    }

    fn hash_code(&self) -> (h: u64) {
        match self {
            Some(a) => a.hash_code().wrapping_add(1u64),
            None => 0u64,
        }
    }
}

} // verus!
