//! The capabilities that terms, letters and coefficients provide to the engines.

use vstd::prelude::*;

verus! {

/// A value that can be compared for equality and duplicated.
///
/// Terms of a module element and letters of a word are such values: the engines
/// look terms up by equality and copy them when one element is combined with
/// another.
pub trait Term: Sized {
    /// Tells whether two values are equal.
    fn same(&self, other: &Self) -> (r: bool)
        ensures
            r == (*self == *other),
    ;

    /// Returns a copy of the value.
    fn duplicate(&self) -> (r: Self)
        ensures
            r == *self,
    ;
}

/// A coefficient ring: an additive group with a multiplication, a one and a
/// division by nonzero values.
///
/// The laws of addition are proof obligations of each implementation: the
/// merging of terms relies on them. Of multiplication and division only that
/// zero absorbs is required, which scaling relies on.
pub trait Ring: Term {
    spec fn zero_spec() -> Self;

    spec fn one_spec() -> Self;

    spec fn plus_spec(a: Self, b: Self) -> Self;

    spec fn neg_spec(a: Self) -> Self;

    spec fn times_spec(a: Self, b: Self) -> Self;

    spec fn div_spec(a: Self, b: Self) -> Self;

    /// Zero is neutral for addition.
    proof fn lemma_plus_zero(a: Self)
        ensures
            Self::plus_spec(a, Self::zero_spec()) == a,
    ;

    /// Addition is commutative.
    proof fn lemma_plus_comm(a: Self, b: Self)
        ensures
            Self::plus_spec(a, b) == Self::plus_spec(b, a),
    ;

    /// Addition is associative.
    proof fn lemma_plus_assoc(a: Self, b: Self, c: Self)
        ensures
            Self::plus_spec(Self::plus_spec(a, b), c) == Self::plus_spec(a, Self::plus_spec(b, c)),
    ;

    /// The negation of a value is its additive inverse.
    proof fn lemma_plus_neg(a: Self)
        ensures
            Self::plus_spec(a, Self::neg_spec(a)) == Self::zero_spec(),
    ;

    /// Zero absorbs multiplication on both sides.
    proof fn lemma_times_zero(a: Self)
        ensures
            Self::times_spec(a, Self::zero_spec()) == Self::zero_spec(),
            Self::times_spec(Self::zero_spec(), a) == Self::zero_spec(),
    ;

    /// Zero divided by a nonzero value is zero.
    proof fn lemma_zero_div(b: Self)
        requires
            b != Self::zero_spec(),
        ensures
            Self::div_spec(Self::zero_spec(), b) == Self::zero_spec(),
    ;

    fn zero() -> (r: Self)
        ensures
            r == Self::zero_spec(),
    ;

    fn one() -> (r: Self)
        ensures
            r == Self::one_spec(),
    ;

    fn is_zero(&self) -> (r: bool)
        ensures
            r == (*self == Self::zero_spec()),
    ;

    fn is_one(&self) -> (r: bool)
        ensures
            r == (*self == Self::one_spec()),
    ;

    fn plus(&self, other: &Self) -> (r: Self)
        ensures
            r == Self::plus_spec(*self, *other),
    ;

    fn negate(&self) -> (r: Self)
        ensures
            r == Self::neg_spec(*self),
    ;

    fn times(&self, other: &Self) -> (r: Self)
        ensures
            r == Self::times_spec(*self, *other),
    ;

    /// Divides by a nonzero value.
    fn divide(&self, other: &Self) -> (r: Self)
        requires
            *other != Self::zero_spec(),
        ensures
            r == Self::div_spec(*self, *other),
    ;
}

/// Zero is also neutral on the left.
pub proof fn lemma_zero_plus<R: Ring>(a: R)
    ensures
        R::plus_spec(R::zero_spec(), a) == a,
{
    R::lemma_plus_comm(R::zero_spec(), a);
    R::lemma_plus_zero(a);
}

/// Zero negates to zero.
pub proof fn lemma_neg_zero<R: Ring>()
    ensures
        R::neg_spec(R::zero_spec()) == R::zero_spec(),
{
    R::lemma_plus_neg(R::zero_spec());
    lemma_zero_plus(R::neg_spec(R::zero_spec()));
}

/// Negating twice gives the value back.
pub proof fn lemma_neg_neg<R: Ring>(a: R)
    ensures
        R::neg_spec(R::neg_spec(a)) == a,
{
    let b = R::neg_spec(a);
    lemma_zero_plus(R::neg_spec(b));
    R::lemma_plus_neg(a);
    R::lemma_plus_assoc(a, b, R::neg_spec(b));
    R::lemma_plus_neg(b);
    R::lemma_plus_zero(a);
}

/// Only zero negates to zero.
pub proof fn lemma_neg_nonzero<R: Ring>(a: R)
    requires
        a != R::zero_spec(),
    ensures
        R::neg_spec(a) != R::zero_spec(),
{
    if R::neg_spec(a) == R::zero_spec() {
        R::lemma_plus_zero(a);
        R::lemma_plus_neg(a);
    }
}

impl Term for char {
    fn same(&self, other: &Self) -> (r: bool) {
        *self == *other
    }

    fn duplicate(&self) -> (r: Self) {
        *self
    }
}

impl Term for u64 {
    fn same(&self, other: &Self) -> (r: bool) {
        *self == *other
    }

    fn duplicate(&self) -> (r: Self) {
        *self
    }
}

impl Term for i64 {
    fn same(&self, other: &Self) -> (r: bool) {
        *self == *other
    }

    fn duplicate(&self) -> (r: Self) {
        *self
    }
}

/// The negation of `i64` modulo 2^64.
pub open spec fn i64_wrapping_neg(a: i64) -> i64 {
    if a == i64::MIN {
        a
    } else {
        (-a) as i64
    }
}

/// The magnitude of an `i64`.
pub open spec fn i64_magnitude(a: i64) -> int {
    if a < 0 {
        -a
    } else {
        a as int
    }
}

/// Division of `i64` rounded toward zero; the one quotient out of range,
/// `i64::MIN / -1`, wraps to `i64::MIN`.
pub open spec fn i64_truncating_div(a: i64, b: i64) -> i64 {
    let q = i64_magnitude(a) / i64_magnitude(b);
    if (a < 0) != (b < 0) {
        (-q) as i64
    } else if q > i64::MAX {
        i64::MIN
    } else {
        q as i64
    }
}

/// `i64` with wrapping arithmetic: the ring of integers modulo 2^64, divided
/// as Rust divides, rounding toward zero.
impl Ring for i64 {
    open spec fn zero_spec() -> Self {
        0
    }

    open spec fn one_spec() -> Self {
        1
    }

    open spec fn plus_spec(a: Self, b: Self) -> Self {
        vstd::wrapping::i64_specs::wrapping_add(a, b)
    }

    open spec fn neg_spec(a: Self) -> Self {
        i64_wrapping_neg(a)
    }

    open spec fn times_spec(a: Self, b: Self) -> Self {
        vstd::wrapping::i64_specs::wrapping_mul(a, b)
    }

    open spec fn div_spec(a: Self, b: Self) -> Self {
        i64_truncating_div(a, b)
    }

    proof fn lemma_plus_zero(a: Self) {
    }

    proof fn lemma_plus_comm(a: Self, b: Self) {
    }

    proof fn lemma_plus_assoc(a: Self, b: Self, c: Self) {
    }

    proof fn lemma_plus_neg(a: Self) {
    }

    proof fn lemma_times_zero(a: Self) {
        assert(a * 0 == 0 && 0 * a == 0) by (nonlinear_arith);
    }

    proof fn lemma_zero_div(b: Self) {
    }

    fn zero() -> (r: Self) {
        0
    }

    fn one() -> (r: Self) {
        1
    }

    fn is_zero(&self) -> (r: bool) {
        *self == 0
    }

    fn is_one(&self) -> (r: bool) {
        *self == 1
    }

    fn plus(&self, other: &Self) -> (r: Self) {
        self.wrapping_add(*other)
    }

    fn negate(&self) -> (r: Self) {
        if *self == i64::MIN {
            *self
        } else {
            -*self
        }
    }

    fn times(&self, other: &Self) -> (r: Self) {
        self.wrapping_mul(*other)
    }

    fn divide(&self, other: &Self) -> (r: Self) {
        let a: i128 = if *self < 0 {
            -(*self as i128)
        } else {
            *self as i128
        };
        let b: i128 = if *other < 0 {
            -(*other as i128)
        } else {
            *other as i128
        };
        let q: i128 = a / b;
        proof {
            assert(0 <= q <= a) by (nonlinear_arith)
                requires
                    q == a / b,
                    a >= 0,
                    b > 0,
            ;
        }
        if (*self < 0) != (*other < 0) {
            (-q) as i64
        } else if q > i64::MAX as i128 {
            i64::MIN
        } else {
            q as i64
        }
    }
}

} // verus!
