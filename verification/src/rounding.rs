//! Number types whose operations round: what the laws that hold up to rounding ask of them.
//!
//! Such a type stands for real numbers. Its operations give the exact result where the
//! type has it, and otherwise one that is near. Whole ticks are such a type, and so are
//! floating-point numbers in a range in which they do not overflow.

use vstd::prelude::*;

use crate::lists::amounts;
use crate::scalar::{
    larger, less, no_more, smaller, truncating_quotient, zero, Scalar, Ticks,
};

verus! {

/// The largest integer that has to be exact.
pub const EXACT_INTEGER: i64 = 4_294_967_296;

/// Whether two real numbers are no further apart than an error.
pub open spec fn near(a: real, b: real, error: real) -> bool {
    a - b <= error && b - a <= error
}

/// The larger of a real number and nothing.
pub open spec fn positive_part(a: real) -> real {
    if a > 0real {
        a
    } else {
        0real
    }
}

/// Whether a result stands for an exact one: within a bound it is finite and no further from
/// it than an error, and it is exact where any number is.
pub open spec fn stands_for<N: Scalar>(
    value: spec_fn(N) -> real,
    result: N,
    exact: real,
    bound: real,
    error: real,
) -> bool {
    -bound <= exact <= bound ==> {
        &&& result.finite()
        &&& near(value(result), exact, error)
        &&& forall|x: N| x.finite() && #[trigger] value(x) == exact ==> value(result) == exact
    }
}

/// Whether the finite numbers of a type are ordered as the real numbers that they stand for.
pub open spec fn ordered_by_value<N: Scalar>(value: spec_fn(N) -> real) -> bool {
    &&& forall|a: N| a.finite() ==> #[trigger] a.ordered()
    &&& forall|a: N, b: N|
        #![trigger value(a), value(b)]
        a.finite() && b.finite() ==> (a.rank() <= b.rank() <==> value(a) <= value(b))
}

/// Whether the integers up to a size stand for themselves, and the integer part of a number
/// that is not negative is the integer below it.
pub open spec fn has_integers<N: Scalar>(value: spec_fn(N) -> real, bound: real) -> bool {
    &&& forall|i: i64|
        -EXACT_INTEGER <= i <= EXACT_INTEGER ==> {
            &&& (#[trigger] N::integer(i)).finite()
            &&& value(N::integer(i)) == i as real
        }
    &&& forall|a: N|
        a.finite() && -bound <= value(a) <= bound ==> {
            &&& value(a) >= 0real ==> (#[trigger] a.truncated()) as real <= value(a) < (
            a.truncated() + 1) as real
            &&& value(a) < 0real ==> a.truncated() <= 0
        }
}

/// Whether the results of the operations stand for the exact ones.
pub open spec fn operations_round<N: Scalar>(
    value: spec_fn(N) -> real,
    bound: real,
    error: real,
) -> bool {
    &&& forall|a: N, b: N|
        a.finite() && b.finite() ==> stands_for(
            value,
            #[trigger] a.sum(b),
            value(a) + value(b),
            bound,
            error,
        )
    &&& forall|a: N, b: N|
        a.finite() && b.finite() ==> stands_for(
            value,
            #[trigger] a.difference(b),
            value(a) - value(b),
            bound,
            error,
        )
    &&& forall|a: N, b: N|
        a.finite() && b.finite() ==> stands_for(
            value,
            #[trigger] a.product(b),
            value(a) * value(b),
            bound,
            error,
        )
    &&& forall|a: N, b: N|
        a.finite() && b.finite() && value(b) != 0real ==> stands_for(
            value,
            #[trigger] a.quotient(b),
            value(a) / value(b),
            bound,
            error,
        )
}

/// Whether rounding keeps the order of products by one number that is not negative, and of
/// quotients by one that is positive.
pub open spec fn rounding_keeps_order<N: Scalar>(value: spec_fn(N) -> real, bound: real) -> bool {
    &&& forall|a: N, b: N, c: N|
        #![trigger a.product(c), b.product(c)]
        {
            &&& a.finite() && b.finite() && c.finite()
            &&& value(a) <= value(b) && value(c) >= 0real
            &&& -bound <= value(a) * value(c) && value(b) * value(c) <= bound
        } ==> value(a.product(c)) <= value(b.product(c))
    &&& forall|a: N, b: N, c: N|
        #![trigger c.product(a), c.product(b)]
        {
            &&& a.finite() && b.finite() && c.finite()
            &&& value(a) <= value(b) && value(c) >= 0real
            &&& -bound <= value(c) * value(a) && value(c) * value(b) <= bound
        } ==> value(c.product(a)) <= value(c.product(b))
    &&& forall|a: N, b: N, c: N|
        #![trigger a.quotient(c), b.quotient(c)]
        {
            &&& a.finite() && b.finite() && c.finite()
            &&& value(a) <= value(b) && value(c) > 0real
            &&& -bound <= value(a) / value(c) && value(b) / value(c) <= bound
        } ==> value(a.quotient(c)) <= value(b.quotient(c))
}

/// Whether a number type computes with real numbers up to rounding: within a bound, its
/// operations are off by an error at most.
pub open spec fn rounds<N: Scalar>(
    value: spec_fn(N) -> real,
    bound: real,
    error: real,
) -> bool {
    &&& bound >= EXACT_INTEGER as real
    &&& 0real <= error <= bound
    &&& ordered_by_value(value)
    &&& has_integers(value, bound)
    &&& operations_round(value, bound, error)
    &&& rounding_keeps_order(value, bound)
}

/// The real number that a number of ticks stands for.
pub open spec fn ticks_value() -> spec_fn(Ticks) -> real {
    |ticks: Ticks| ticks.count as real
}

pub(crate) proof fn lemma_real_product(a: int, b: int)
    ensures
        (a * b) as real == (a as real) * (b as real),
{
    assert((a * b) as real == (a as real) * (b as real)) by (nonlinear_arith);
}

/// A division that rounds toward zero is off by less than one, and is not off where the
/// exact quotient is an integer.
proof fn lemma_truncated(a: int, b: int, x: int)
    requires
        b != 0,
    ensures
        near(truncating_quotient(a, b) as real, (a as real) / (b as real), 1real),
        x as real == (a as real) / (b as real) ==> truncating_quotient(a, b) == x,
{
    let size_a = vstd::math::abs(a) as int;
    let size_b = vstd::math::abs(b) as int;
    let size = size_a / size_b;
    let rest = size_a % size_b;
    assert(size_a == size_b * size + rest && 0 <= rest < size_b) by (nonlinear_arith)
        requires
            size == size_a / size_b,
            rest == size_a % size_b,
            size_b > 0,
    ;
    lemma_real_product(size_b, size);
    let ra = size_a as real;
    let rb = size_b as real;
    let rs = size as real;
    let rr = rest as real;
    assert(ra == rb * rs + rr);
    let part = ra / rb;
    assert(rs <= part < rs + 1real) by (nonlinear_arith)
        requires
            part == ra / rb,
            ra == rb * rs + rr,
            0real <= rr < rb,
    ;
    let exact = (a as real) / (b as real);
    assert(exact == if (a < 0) == (b < 0) {
        part
    } else {
        -part
    }) by {
        let pa = a as real;
        let pb = b as real;
        if a < 0 && b < 0 {
            assert(pa / pb == part) by (nonlinear_arith)
                requires
                    pa == -ra,
                    pb == -rb,
                    rb > 0real,
                    part == ra / rb,
            ;
        } else if a < 0 {
            assert(pa / pb == -part) by (nonlinear_arith)
                requires
                    pa == -ra,
                    pb == rb,
                    rb > 0real,
                    part == ra / rb,
            ;
        } else if b < 0 {
            assert(pa / pb == -part) by (nonlinear_arith)
                requires
                    pa == ra,
                    pb == -rb,
                    rb > 0real,
                    part == ra / rb,
            ;
        }
    }
}

/// Dividing a larger number by a positive one, rounding toward zero, gives no less.
proof fn lemma_truncated_order(a: int, b: int, c: int)
    requires
        a <= b,
        c > 0,
    ensures
        truncating_quotient(a, c) <= truncating_quotient(b, c),
{
    let x = vstd::math::abs(a) as int;
    let y = vstd::math::abs(b) as int;
    assert(x / c >= 0 && y / c >= 0) by (nonlinear_arith)
        requires
            x >= 0,
            y >= 0,
            c > 0,
    ;
    if a >= 0 {
        assert(x / c <= y / c) by (nonlinear_arith)
            requires
                0 <= x <= y,
                c > 0,
        ;
    } else if b < 0 {
        assert(y / c <= x / c) by (nonlinear_arith)
            requires
                0 <= y <= x,
                c > 0,
        ;
    }
}

/// Whole ticks compute with real numbers up to rounding: in the range of 64 bits they are
/// off by one at most.
pub proof fn ticks_round()
    ensures
        rounds(ticks_value(), i64::MAX as real, 1real),
{
    let value = ticks_value();
    let bound = i64::MAX as real;
    assert(operations_round(value, bound, 1real)) by {
        assert forall|a: Ticks, b: Ticks| a.finite() && b.finite() implies stands_for(
            value,
            #[trigger] a.product(b),
            value(a) * value(b),
            bound,
            1real,
        ) by {
            lemma_real_product(a.count as int, b.count as int);
        }
        assert forall|a: Ticks, b: Ticks|
            a.finite() && b.finite() && value(b) != 0real implies stands_for(
            value,
            #[trigger] a.quotient(b),
            value(a) / value(b),
            bound,
            1real,
        ) by {
            lemma_quotient_stands(a, b);
        }
    }
    assert(rounding_keeps_order(value, bound)) by {
        assert forall|a: Ticks, b: Ticks, c: Ticks|
            #![trigger a.product(c), b.product(c)]
            value(a) <= value(b) && value(c) >= 0real implies value(a.product(c)) <= value(
            b.product(c),
        ) by {
            assert(a.count * c.count <= b.count * c.count) by (nonlinear_arith)
                requires
                    a.count <= b.count,
                    c.count >= 0,
            ;
        }
        assert forall|a: Ticks, b: Ticks, c: Ticks|
            #![trigger c.product(a), c.product(b)]
            value(a) <= value(b) && value(c) >= 0real implies value(c.product(a)) <= value(
            c.product(b),
        ) by {
            assert(c.count * a.count <= c.count * b.count) by (nonlinear_arith)
                requires
                    a.count <= b.count,
                    c.count >= 0,
            ;
        }
        assert forall|a: Ticks, b: Ticks, c: Ticks|
            #![trigger a.quotient(c), b.quotient(c)]
            value(a) <= value(b) && value(c) > 0real implies value(a.quotient(c)) <= value(
            b.quotient(c),
        ) by {
            lemma_truncated_order(a.count as int, b.count as int, c.count as int);
        }
    }
}

proof fn lemma_quotient_stands(a: Ticks, b: Ticks)
    requires
        b.count != 0,
    ensures
        stands_for(
            ticks_value(),
            a.quotient(b),
            (a.count as real) / (b.count as real),
            i64::MAX as real,
            1real,
        ),
{
    let value = ticks_value();
    let exact = (a.count as real) / (b.count as real);
    let quotient = truncating_quotient(a.count as int, b.count as int);
    if -(i64::MAX as real) <= exact <= i64::MAX as real {
        lemma_truncated(a.count as int, b.count as int, 0);
        assert(near(value(a.quotient(b)), exact, 1real)) by {
            if quotient > i64::MAX {
                assert(quotient >= i64::MAX + 1);
            }
        }
        assert forall|x: Ticks| x.finite() && #[trigger] value(x) == exact implies value(
            a.quotient(b),
        ) == exact by {
            lemma_truncated(a.count as int, b.count as int, x.count as int);
        }
    }
}

/// Some real numbers added up.
pub open spec fn real_sum(ids: Seq<i32>, amount: spec_fn(i32) -> real) -> real
    decreases ids.len(),
{
    if ids.len() == 0 {
        0real
    } else {
        real_sum(ids.drop_last(), amount) + amount(ids.last())
    }
}

/// Sums of numbers that are near each other are near each other.
pub(crate) proof fn lemma_sums_near(
    ids: Seq<i32>,
    a: spec_fn(i32) -> real,
    b: spec_fn(i32) -> real,
    error: real,
)
    requires
        forall|i: int| 0 <= i < ids.len() ==> near(a(#[trigger] ids[i]), b(ids[i]), error),
    ensures
        near(real_sum(ids, a), real_sum(ids, b), error * (ids.len() as real)),
    decreases ids.len(),
{
    let n = ids.len() as real;
    if ids.len() > 0 {
        let rest = ids.drop_last();
        assert forall|i: int| 0 <= i < rest.len() implies near(
            a(#[trigger] rest[i]),
            b(rest[i]),
            error,
        ) by {
            assert(rest[i] == ids[i]);
        }
        lemma_sums_near(rest, a, b, error);
        assert(ids[ids.len() - 1] == ids.last());
        let m = rest.len() as real;
        assert(error * n == error * m + error) by (nonlinear_arith)
            requires
                n == m + 1real,
        ;
    } else {
        assert(error * n == 0real) by (nonlinear_arith)
            requires
                n == 0real,
        ;
    }
}

/// A common factor can be taken out of a sum.
pub(crate) proof fn lemma_sum_scaled(ids: Seq<i32>, amount: spec_fn(i32) -> real, factor: real)
    ensures
        real_sum(ids, |i: i32| factor * amount(i)) == factor * real_sum(ids, amount),
    decreases ids.len(),
{
    if ids.len() > 0 {
        let rest = ids.drop_last();
        lemma_sum_scaled(rest, amount, factor);
        let a = real_sum(rest, amount);
        let b = amount(ids.last());
        assert(factor * (a + b) == factor * a + factor * b) by (nonlinear_arith);
    } else {
        assert(factor * 0real == 0real) by (nonlinear_arith);
    }
}

/// A sum of integers is the same in real numbers.
pub(crate) proof fn lemma_sum_of_integers(ids: Seq<i32>, amount: spec_fn(i32) -> int)
    ensures
        real_sum(ids, |i: i32| amount(i) as real) == amounts(ids, amount) as real,
    decreases ids.len(),
{
    if ids.len() > 0 {
        lemma_sum_of_integers(ids.drop_last(), amount);
    }
}

/// A sum depends only on its amounts, and is no less where they are not.
pub(crate) proof fn lemma_sum_order(
    ids: Seq<i32>,
    a: spec_fn(i32) -> real,
    b: spec_fn(i32) -> real,
)
    requires
        forall|i: int| 0 <= i < ids.len() ==> a(#[trigger] ids[i]) <= b(ids[i]),
    ensures
        real_sum(ids, a) <= real_sum(ids, b),
    decreases ids.len(),
{
    if ids.len() > 0 {
        let rest = ids.drop_last();
        assert forall|i: int| 0 <= i < rest.len() implies a(#[trigger] rest[i]) <= b(rest[i]) by {
            assert(rest[i] == ids[i]);
        }
        lemma_sum_order(rest, a, b);
        assert(ids[ids.len() - 1] == ids.last());
    }
}

/// The larger of a number and zero stands for the larger of its value and nothing.
pub(crate) proof fn lemma_positive_part<N: Scalar>(
    value: spec_fn(N) -> real,
    a: N,
    bound: real,
    error: real,
)
    requires
        rounds(value, bound, error),
        a.finite(),
    ensures
        larger(a, zero()).finite(),
        value(larger(a, zero())) == positive_part(value(a)),
{
    let none = N::integer(0);
    assert(none.finite() && value(none) == 0real);
    assert(a.ordered() && none.ordered());
    assert(a.rank() <= none.rank() <==> value(a) <= value(none));
    assert(none.rank() <= a.rank() <==> value(none) <= value(a));
}

/// An amount more for every item is that amount more for each of them in the sum.
pub(crate) proof fn lemma_sum_shifted(ids: Seq<i32>, amount: spec_fn(i32) -> real, more: real)
    ensures
        real_sum(ids, |i: i32| amount(i) + more) == real_sum(ids, amount) + more * (
        ids.len() as real),
    decreases ids.len(),
{
    let n = ids.len() as real;
    if ids.len() > 0 {
        let m = ids.drop_last().len() as real;
        lemma_sum_shifted(ids.drop_last(), amount, more);
        assert(more * n == more * m + more) by (nonlinear_arith)
            requires
                n == m + 1real,
        ;
    } else {
        assert(more * n == 0real) by (nonlinear_arith)
            requires
                n == 0real,
        ;
    }
}

/// The larger of two real numbers.
pub open spec fn real_max(a: real, b: real) -> real {
    if a < b {
        b
    } else {
        a
    }
}

/// The smaller of two real numbers.
pub open spec fn real_min(a: real, b: real) -> real {
    if b < a {
        b
    } else {
        a
    }
}

/// Finite numbers compare as the real numbers that they stand for.
pub(crate) proof fn lemma_compared<N: Scalar>(
    value: spec_fn(N) -> real,
    a: N,
    b: N,
    bound: real,
    error: real,
)
    requires
        rounds(value, bound, error),
        a.finite(),
        b.finite(),
    ensures
        a.ordered(),
        b.ordered(),
        less(a, b) <==> value(a) < value(b),
        no_more(a, b) <==> value(a) <= value(b),
        larger(a, b).finite(),
        value(larger(a, b)) == real_max(value(a), value(b)),
        smaller(a, b).finite(),
        value(smaller(a, b)) == real_min(value(a), value(b)),
{
    assert(a.ordered() && b.ordered());
    assert(a.rank() <= b.rank() <==> value(a) <= value(b));
    assert(b.rank() <= a.rank() <==> value(b) <= value(a));
}

/// A sum of two finite numbers is near the exact one.
pub(crate) proof fn lemma_sum_near<N: Scalar>(
    value: spec_fn(N) -> real,
    a: N,
    b: N,
    bound: real,
    error: real,
)
    requires
        rounds(value, bound, error),
        a.finite(),
        b.finite(),
        -bound <= value(a) + value(b) <= bound,
    ensures
        a.sum(b).finite(),
        near(value(a.sum(b)), value(a) + value(b), error),
        value(b) == 0real ==> value(a.sum(b)) == value(a),
        value(a) == 0real ==> value(a.sum(b)) == value(b),
{
    assert(stands_for(value, a.sum(b), value(a) + value(b), bound, error));
    assert(value(a) == value(a) && value(b) == value(b));
}

/// A difference of two finite numbers is near the exact one.
pub(crate) proof fn lemma_difference_near<N: Scalar>(
    value: spec_fn(N) -> real,
    a: N,
    b: N,
    bound: real,
    error: real,
)
    requires
        rounds(value, bound, error),
        a.finite(),
        b.finite(),
        -bound <= value(a) - value(b) <= bound,
    ensures
        a.difference(b).finite(),
        near(value(a.difference(b)), value(a) - value(b), error),
        value(b) == 0real ==> value(a.difference(b)) == value(a),
        value(a) == value(b) ==> value(a.difference(b)) == 0real,
{
    assert(stands_for(value, a.difference(b), value(a) - value(b), bound, error));
    assert(N::integer(0).finite() && value(N::integer(0)) == 0real);
    assert(value(a) == value(a));
}

/// A product of two finite numbers is near the exact one.
pub(crate) proof fn lemma_product_near<N: Scalar>(
    value: spec_fn(N) -> real,
    a: N,
    b: N,
    bound: real,
    error: real,
)
    requires
        rounds(value, bound, error),
        a.finite(),
        b.finite(),
        -bound <= value(a) * value(b) <= bound,
    ensures
        a.product(b).finite(),
        near(value(a.product(b)), value(a) * value(b), error),
        value(a) == 0real || value(b) == 0real ==> value(a.product(b)) == 0real,
        value(b) == 1real ==> value(a.product(b)) == value(a),
        value(a) == 1real ==> value(a.product(b)) == value(b),
{
    let x = value(a);
    let y = value(b);
    assert(stands_for(value, a.product(b), x * y, bound, error));
    assert(N::integer(0).finite() && value(N::integer(0)) == 0real);
    assert(x == 0real || y == 0real ==> x * y == 0real) by (nonlinear_arith);
    assert(y == 1real ==> x * y == x) by (nonlinear_arith);
    assert(x == 1real ==> x * y == y) by (nonlinear_arith);
    assert(value(a) == value(a) && value(b) == value(b));
}

/// A quotient of two finite numbers is near the exact one.
pub(crate) proof fn lemma_quotient_near<N: Scalar>(
    value: spec_fn(N) -> real,
    a: N,
    b: N,
    bound: real,
    error: real,
)
    requires
        rounds(value, bound, error),
        a.finite(),
        b.finite(),
        value(b) != 0real,
        -bound <= value(a) / value(b) <= bound,
    ensures
        a.quotient(b).finite(),
        near(value(a.quotient(b)), value(a) / value(b), error),
        value(a) == 0real ==> value(a.quotient(b)) == 0real,
        value(a) == value(b) ==> value(a.quotient(b)) == 1real,
{
    let x = value(a);
    let y = value(b);
    assert(stands_for(value, a.quotient(b), x / y, bound, error));
    assert(N::integer(0).finite() && value(N::integer(0)) == 0real);
    assert(N::integer(1).finite() && value(N::integer(1)) == 1real);
    assert(x == 0real ==> x / y == 0real) by (nonlinear_arith)
        requires
            y != 0real,
    ;
    assert(x == y ==> x / y == 1real) by (nonlinear_arith)
        requires
            y != 0real,
    ;
}

/// An integer stands for itself.
pub(crate) proof fn lemma_integer_value<N: Scalar>(
    value: spec_fn(N) -> real,
    i: i64,
    bound: real,
    error: real,
)
    requires
        rounds(value, bound, error),
        -EXACT_INTEGER <= i <= EXACT_INTEGER,
    ensures
        N::integer(i).finite(),
        value(N::integer(i)) == i as real,
{
}

} // verus!
