//! The numbers that the simulator computes with: times, rates and factors.
//!
//! The simulator is written once for every numeric type that offers the
//! operations of `Scalar`. A binary running on machine floating point supplies
//! its own implementation; `Ticks` is the implementation in whole ticks.

use vstd::prelude::*;

use crate::text::{i64_of, parse_i64};

verus! {

/// A number type.
///
/// Each operation returns a function of its operands, which the
/// specifications name. Nothing is asked of the arithmetic beyond that: it may
/// round and saturate. Values may be unordered (as a NaN is); on the others
/// `rank` gives the order. Two values of one rank need not be the same value
/// (as the two zeros of floating point are not).
///
/// A type gives its operations a meaning by defining the functions that name their
/// results. Where it leaves one out, the result has a name but no further meaning.
pub trait Scalar: Copy {
    /// Whether the value takes part in the order.
    closed spec fn ordered(self) -> bool {
        true
    }

    /// The place of an ordered value in the order.
    closed spec fn rank(self) -> int {
        0
    }

    /// What `plus` returns.
    closed spec fn sum(self, rhs: Self) -> Self {
        arbitrary()
    }

    /// What `minus` returns.
    closed spec fn difference(self, rhs: Self) -> Self {
        arbitrary()
    }

    /// What `times` returns.
    closed spec fn product(self, rhs: Self) -> Self {
        arbitrary()
    }

    /// What `over` returns.
    closed spec fn quotient(self, rhs: Self) -> Self {
        arbitrary()
    }

    /// What `of_int` returns.
    closed spec fn integer(value: i64) -> Self {
        arbitrary()
    }

    /// What `trunc` returns.
    closed spec fn truncated(self) -> i64 {
        0
    }

    /// What `round` returns.
    closed spec fn rounded(self) -> i64 {
        0
    }

    /// What `is_finite` returns.
    closed spec fn finite(self) -> bool {
        true
    }

    /// What `power` returns.
    closed spec fn powered(self, exponent: Self) -> Self {
        arbitrary()
    }

    /// What `power_int` returns.
    closed spec fn powered_int(self, exponent: i32) -> Self {
        arbitrary()
    }

    /// What `greatest` returns.
    closed spec fn maximum() -> Self {
        arbitrary()
    }

    /// What `read` returns.
    closed spec fn reading(text: Seq<char>) -> Option<Self> {
        None
    }

    /// `self < rhs`; false where either is unordered.
    fn is_less(self, rhs: Self) -> (result: bool)
        ensures
            result == (self.ordered() && rhs.ordered() && self.rank() < rhs.rank()),
    ;

    /// `self == rhs`; false where either is unordered.
    fn is_equal(self, rhs: Self) -> (result: bool)
        ensures
            result == (self.ordered() && rhs.ordered() && self.rank() == rhs.rank()),
    ;

    /// `self + rhs`.
    fn plus(self, rhs: Self) -> (result: Self)
        ensures
            result == self.sum(rhs),
    ;

    /// `self - rhs`.
    fn minus(self, rhs: Self) -> (result: Self)
        ensures
            result == self.difference(rhs),
    ;

    /// `self * rhs`.
    fn times(self, rhs: Self) -> (result: Self)
        ensures
            result == self.product(rhs),
    ;

    /// `self / rhs`.
    fn over(self, rhs: Self) -> (result: Self)
        ensures
            result == self.quotient(rhs),
    ;

    /// The number nearest to an integer. Integers are ordered.
    fn of_int(value: i64) -> (result: Self)
        ensures
            result == Self::integer(value),
            result.ordered(),
    ;

    /// The integer part, clamped to the range of `i64`; zero for an unordered value.
    fn trunc(self) -> (result: i64)
        ensures
            result == self.truncated(),
    ;

    /// The nearest integer, clamped to the range of `i64`; zero for an unordered value.
    fn round(self) -> (result: i64)
        ensures
            result == self.rounded(),
    ;

    /// Whether the value is neither infinite nor unordered.
    fn is_finite(self) -> (result: bool)
        ensures
            result == self.finite(),
    ;

    /// `self` to the power of `exponent`.
    fn power(self, exponent: Self) -> (result: Self)
        ensures
            result == self.powered(exponent),
    ;

    /// `self` to the power of an integer.
    fn power_int(self, exponent: i32) -> (result: Self)
        ensures
            result == self.powered_int(exponent),
    ;

    /// The greatest finite number.
    fn greatest() -> (result: Self)
        ensures
            result == Self::maximum(),
    ;

    /// The number that a text stands for, if it stands for one.
    fn read(text: &str) -> (result: Option<Self>)
        ensures
            result == Self::reading(text@),
    ;
}

/// `a < b`.
pub open spec fn less<N: Scalar>(a: N, b: N) -> bool {
    a.ordered() && b.ordered() && a.rank() < b.rank()
}

/// `a == b` as numbers.
pub open spec fn equal<N: Scalar>(a: N, b: N) -> bool {
    a.ordered() && b.ordered() && a.rank() == b.rank()
}

/// The larger of two numbers; where one is unordered, the other.
pub open spec fn larger<N: Scalar>(a: N, b: N) -> N {
    if less(a, b) || !a.ordered() {
        b
    } else {
        a
    }
}

/// The smaller of two numbers; where one is unordered, the other.
pub open spec fn smaller<N: Scalar>(a: N, b: N) -> N {
    if less(b, a) || !a.ordered() {
        b
    } else {
        a
    }
}

/// The larger of two numbers; where one is unordered, the other.
pub fn max_of<N: Scalar>(a: N, b: N) -> (result: N)
    ensures
        result == larger(a, b),
{
    if a.is_less(b) || !a.is_equal(a) {
        b
    } else {
        a
    }
}

/// The smaller of two numbers; where one is unordered, the other.
pub fn min_of<N: Scalar>(a: N, b: N) -> (result: N)
    ensures
        result == smaller(a, b),
{
    if b.is_less(a) || !a.is_equal(a) {
        b
    } else {
        a
    }
}

/// Zero.
pub open spec fn zero<N: Scalar>() -> N {
    N::integer(0)
}

/// One.
pub open spec fn one<N: Scalar>() -> N {
    N::integer(1)
}

/// `a <= b`.
pub open spec fn no_more<N: Scalar>(a: N, b: N) -> bool {
    a.ordered() && b.ordered() && a.rank() <= b.rank()
}

/// `a <= b`.
pub fn is_no_more<N: Scalar>(a: N, b: N) -> (result: bool)
    ensures
        result == no_more(a, b),
{
    a.is_less(b) || a.is_equal(b)
}

/// A number without its sign.
pub open spec fn magnitude<N: Scalar>(a: N) -> N {
    if less(a, zero()) {
        zero::<N>().difference(a)
    } else {
        a
    }
}

/// A number without its sign.
pub fn magnitude_of<N: Scalar>(a: N) -> (result: N)
    ensures
        result == magnitude(a),
{
    if a.is_less(N::of_int(0)) {
        N::of_int(0).minus(a)
    } else {
        a
    }
}

/// The integer in the range of `i64` that is nearest to `value`.
pub open spec fn clamped(value: int) -> i64 {
    if value > i64::MAX {
        i64::MAX
    } else if value < i64::MIN {
        i64::MIN
    } else {
        value as i64
    }
}

/// The integer in the range of `i64` that is nearest to `value`.
pub fn clamp_i64(value: i128) -> (result: i64)
    ensures
        result == clamped(value as int),
{
    if value > i64::MAX as i128 {
        i64::MAX
    } else if value < i64::MIN as i128 {
        i64::MIN
    } else {
        value as i64
    }
}

/// The product of two 64-bit integers, which always fits in 128 bits.
pub fn wide_product(a: i64, b: i64) -> (result: i128)
    ensures
        result == a * b,
        -0x4000_0000_0000_0000_0000_0000_0000_0000 <= a * b,
        a * b <= 0x4000_0000_0000_0000_0000_0000_0000_0000,
{
    proof {
        lemma_wide_product(a, b);
    }
    (a as i128) * (b as i128)
}

/// The product of two 64-bit integers is at most `2^126` in magnitude.
proof fn lemma_wide_product(a: i64, b: i64)
    by (nonlinear_arith)
    ensures
        -0x4000_0000_0000_0000_0000_0000_0000_0000 <= a * b,
        a * b <= 0x4000_0000_0000_0000_0000_0000_0000_0000,
{
}

/// Division that rounds toward zero.
pub open spec fn truncating_quotient(a: int, b: int) -> int {
    let size = vstd::math::abs(a) as int / vstd::math::abs(b) as int;
    if (a < 0) == (b < 0) {
        size
    } else {
        -size
    }
}

/// A whole number of ticks, with arithmetic that saturates at the ends of the
/// 64-bit range.
#[derive(Debug, Clone, Copy, PartialEq, Eq)]
pub struct Ticks {
    /// How many ticks.
    pub count: i64,
}

impl Scalar for Ticks {
    open spec fn ordered(self) -> bool {
        true
    }

    open spec fn rank(self) -> int {
        self.count as int
    }

    open spec fn sum(self, rhs: Self) -> Self {
        Ticks { count: clamped(self.count + rhs.count) }
    }

    open spec fn difference(self, rhs: Self) -> Self {
        Ticks { count: clamped(self.count - rhs.count) }
    }

    open spec fn product(self, rhs: Self) -> Self {
        Ticks { count: clamped(self.count * rhs.count) }
    }

    /// Rounds toward zero. A division by zero gives the end of the range on the
    /// side of the dividend, or zero.
    open spec fn quotient(self, rhs: Self) -> Self {
        Ticks {
            count: if rhs.count != 0 {
                clamped(truncating_quotient(self.count as int, rhs.count as int))
            } else if self.count > 0 {
                i64::MAX
            } else if self.count < 0 {
                i64::MIN
            } else {
                0
            },
        }
    }

    open spec fn integer(value: i64) -> Self {
        Ticks { count: value }
    }

    open spec fn truncated(self) -> i64 {
        self.count
    }

    open spec fn rounded(self) -> i64 {
        self.count
    }

    open spec fn finite(self) -> bool {
        true
    }

    open spec fn powered(self, exponent: Self) -> Self {
        ticks_power(self, exponent.count as int)
    }

    open spec fn powered_int(self, exponent: i32) -> Self {
        ticks_power(self, exponent as int)
    }

    open spec fn maximum() -> Self {
        Ticks { count: i64::MAX }
    }

    open spec fn reading(text: Seq<char>) -> Option<Self> {
        match i64_of(text) {
            Some(count) => Some(Ticks { count }),
            None => None,
        }
    }

    fn is_less(self, rhs: Self) -> (result: bool) {
        self.count < rhs.count
    }

    fn is_equal(self, rhs: Self) -> (result: bool) {
        self.count == rhs.count
    }

    fn plus(self, rhs: Self) -> (result: Self) {
        Ticks { count: clamp_i64(self.count as i128 + rhs.count as i128) }
    }

    fn minus(self, rhs: Self) -> (result: Self) {
        Ticks { count: clamp_i64(self.count as i128 - rhs.count as i128) }
    }

    fn times(self, rhs: Self) -> (result: Self) {
        Ticks { count: clamp_i64(wide_product(self.count, rhs.count)) }
    }

    fn over(self, rhs: Self) -> (result: Self) {
        if rhs.count == 0 {
            let end: i64 = if self.count > 0 {
                i64::MAX
            } else if self.count < 0 {
                i64::MIN
            } else {
                0
            };
            return Ticks { count: end };
        }
        Ticks { count: clamp_i64(divide(self.count, rhs.count)) }
    }

    fn of_int(value: i64) -> (result: Self) {
        Ticks { count: value }
    }

    fn trunc(self) -> (result: i64) {
        self.count
    }

    fn round(self) -> (result: i64) {
        self.count
    }

    fn is_finite(self) -> (result: bool) {
        true
    }

    fn power(self, exponent: Self) -> (result: Self) {
        self.to_power(exponent.count)
    }

    fn power_int(self, exponent: i32) -> (result: Self) {
        self.to_power(exponent as i64)
    }

    fn greatest() -> (result: Self) {
        Ticks { count: i64::MAX }
    }

    fn read(text: &str) -> (result: Option<Self>) {
        match parse_i64(text) {
            Some(count) => Some(Ticks { count }),
            None => None,
        }
    }
}

/// The product of a number of equal factors.
pub open spec fn ticks_product(factor: Ticks, factors: nat) -> Ticks
    decreases factors,
{
    if factors == 0 {
        Ticks { count: 1 }
    } else {
        ticks_product(factor, (factors - 1) as nat).product(factor)
    }
}

/// An integer power; one over it where the exponent is negative.
pub open spec fn ticks_power(base: Ticks, exponent: int) -> Ticks {
    if exponent >= 0 {
        ticks_product(base, exponent as nat)
    } else {
        Ticks { count: 1 }.quotient(ticks_product(base, (-exponent) as nat))
    }
}

impl Ticks {
    /// An integer power; one over it where the exponent is negative.
    fn to_power(self, exponent: i64) -> (result: Self)
        ensures
            result == ticks_power(self, exponent as int),
    {
        let factors: i128 = if exponent < 0 {
            -(exponent as i128)
        } else {
            exponent as i128
        };
        let mut result = Ticks { count: 1 };
        let mut i: i128 = 0;
        while i < factors
            invariant
                0 <= i <= factors,
                result == ticks_product(self, i as nat),
            decreases factors - i,
        {
            result = result.times(self);
            i += 1;
        }
        if exponent < 0 {
            Ticks { count: 1 }.over(result)
        } else {
            result
        }
    }
}

/// Division that rounds toward zero. (The quotient of the least 64-bit integer
/// by minus one does not fit in 64 bits.)
pub fn divide(a: i64, b: i64) -> (result: i128)
    requires
        b != 0,
    ensures
        result == truncating_quotient(a as int, b as int),
        a >= 0 ==> -a <= result <= a,
        a < 0 ==> a <= result <= -a,
{
    let size_a: i128 = if a < 0 {
        -(a as i128)
    } else {
        a as i128
    };
    let size_b: i128 = if b < 0 {
        -(b as i128)
    } else {
        b as i128
    };
    let size: i128 = size_a / size_b;
    assert(0 <= size <= size_a) by (nonlinear_arith)
        requires
            size == size_a / size_b,
            size_a >= 0,
            size_b > 0,
    ;
    if (a < 0) == (b < 0) {
        size
    } else {
        -size
    }
}

} // verus!
