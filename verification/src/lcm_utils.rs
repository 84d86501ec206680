//! Greatest common divisors and least common multiples.

use vstd::prelude::*;
use vstd::math::abs;

verus! {

/// Whether `d` divides `n`.
pub open spec fn divides(d: int, n: int) -> bool {
    exists|k: int| #[trigger] (d * k) == n
}

/// The greatest common divisor of two natural numbers.
pub open spec fn gcd_of(a: nat, b: nat) -> nat
    decreases b,
{
    if b == 0 {
        a
    } else {
        gcd_of(b, a % b)
    }
}

/// The least common multiple of two natural numbers; zero where one is zero.
pub open spec fn lcm_of(a: nat, b: nat) -> nat {
    if a == 0 || b == 0 {
        0
    } else {
        (a / gcd_of(a, b)) * b
    }
}

/// The least common multiple of the magnitudes of a sequence of numbers.
pub open spec fn lcm_of_all(numbers: Seq<i64>) -> nat
    decreases numbers.len(),
{
    if numbers.len() == 0 {
        1
    } else {
        lcm_of(lcm_of_all(numbers.drop_last()), abs(numbers.last() as int))
    }
}

/// The greatest common divisor divides both numbers, and every number that
/// divides both divides it.
pub proof fn gcd_is_greatest_common_divisor(a: nat, b: nat)
    ensures
        divides(gcd_of(a, b) as int, a as int),
        divides(gcd_of(a, b) as int, b as int),
        forall|d: int| divides(d, a as int) && divides(d, b as int) ==> #[trigger] divides(d, gcd_of(a, b) as int),
        gcd_of(a, b) == 0 <==> a == 0 && b == 0,
    decreases b,
{
    let g = gcd_of(a, b) as int;
    if b == 0 {
        assert(g * 1 == a);
        assert(g * 0 == b);
    } else {
        gcd_is_greatest_common_divisor(b, a % b);
        let q = a as int / b as int;
        let r = (a % b) as int;
        assert(a == b * q + r) by (nonlinear_arith)
            requires
                b > 0,
                q == a as int / b as int,
                r == a as int % b as int,
        ;
        let k = choose|k: int| #[trigger] (g * k) == b;
        let m = choose|m: int| #[trigger] (g * m) == r;
        assert(g * (k * q + m) == a) by (nonlinear_arith)
            requires
                g * k == b,
                g * m == r,
                a == b * q + r,
        ;
        assert forall|d: int| divides(d, a as int) && divides(d, b as int) implies #[trigger] divides(d, g) by {
            let u = choose|u: int| #[trigger] (d * u) == a;
            let v = choose|v: int| #[trigger] (d * v) == b;
            assert(d * (u - v * q) == r) by (nonlinear_arith)
                requires
                    d * u == a,
                    d * v == b,
                    a == b * q + r,
            ;
            assert(divides(d, r));
        }
    }
}

/// The greatest common divisor is a combination of the two numbers.
proof fn lemma_bezout(a: nat, b: nat) -> (xy: (int, int))
    ensures
        gcd_of(a, b) == xy.0 * a + xy.1 * b,
    decreases b,
{
    if b == 0 {
        (1, 0)
    } else {
        let (x, y) = lemma_bezout(b, a % b);
        let q = a as int / b as int;
        let r = (a % b) as int;
        assert(x * b + y * r == y * a + (x - y * q) * b) by (nonlinear_arith)
            requires
                b > 0,
                q == a as int / b as int,
                r == a as int % b as int,
        ;
        (y, x - y * q)
    }
}

/// The least common multiple is a multiple of both numbers and divides every
/// number that is.
pub proof fn lcm_is_least_common_multiple(a: nat, b: nat)
    ensures
        divides(a as int, lcm_of(a, b) as int),
        divides(b as int, lcm_of(a, b) as int),
        forall|m: int| divides(a as int, m) && divides(b as int, m) ==> #[trigger] divides(lcm_of(a, b) as int, m),
        lcm_of(a, b) == 0 <==> a == 0 || b == 0,
{
    if a == 0 || b == 0 {
        assert(a * 0 == 0);
        assert(b * 0 == 0);
        assert forall|m: int| divides(a as int, m) && divides(b as int, m) implies #[trigger] divides(0, m) by {
            let u = choose|u: int| #[trigger] (a * u) == m;
            let v = choose|v: int| #[trigger] (b * v) == m;
            assert(m == 0) by (nonlinear_arith)
                requires
                    a * u == m,
                    b * v == m,
                    a == 0 || b == 0,
            ;
            assert(0 * 0 == m);
        }
    } else {
        gcd_is_greatest_common_divisor(a, b);
        let g = gcd_of(a, b) as int;
        let p = choose|k: int| #[trigger] (g * k) == a;
        let q = choose|k: int| #[trigger] (g * k) == b;
        assert(a as int / g == p) by (nonlinear_arith)
            requires
                g * p == a,
                g > 0,
        ;
        let l = lcm_of(a, b) as int;
        assert(l == p * b);
        assert(p > 0) by (nonlinear_arith)
            requires
                g * p == a,
                g > 0,
                a > 0,
        ;
        assert(l > 0) by (nonlinear_arith)
            requires
                l == p * b,
                p > 0,
                b > 0,
        ;
        assert(a * q == l) by (nonlinear_arith)
            requires
                l == p * b,
                g * p == a,
                g * q == b,
        ;
        assert(b * p == l) by (nonlinear_arith)
            requires
                l == p * b,
        ;
        let (x, y) = lemma_bezout(a, b);
        assert forall|m: int| divides(a as int, m) && divides(b as int, m) implies #[trigger] divides(l, m) by {
            let u = choose|u: int| #[trigger] (a * u) == m;
            let v = choose|v: int| #[trigger] (b * v) == m;
            let w = v * x + u * y;
            let ab = a * b;
            assert(a * m == ab * v) by (nonlinear_arith)
                requires
                    b * v == m,
                    ab == a * b,
            ;
            assert(b * m == ab * u) by (nonlinear_arith)
                requires
                    a * u == m,
                    ab == a * b,
            ;
            assert(g * m == x * (a * m) + y * (b * m)) by (nonlinear_arith)
                requires
                    g == x * a + y * b,
            ;
            assert(x * (ab * v) + y * (ab * u) == ab * w) by (nonlinear_arith)
                requires
                    w == v * x + u * y,
            ;
            assert(g * l == ab) by (nonlinear_arith)
                requires
                    g * p == a,
                    l == p * b,
                    ab == a * b,
            ;
            assert(g * (l * w) == ab * w) by (nonlinear_arith)
                requires
                    g * l == ab,
            ;
            assert(m == l * w) by (nonlinear_arith)
                requires
                    g * m == g * (l * w),
                    g > 0,
            ;
        }
    }
}

/// Division is transitive.
proof fn lemma_divides_transitive(a: int, b: int, c: int)
    requires
        divides(a, b),
        divides(b, c),
    ensures
        divides(a, c),
{
    let u = choose|u: int| #[trigger] (a * u) == b;
    let v = choose|v: int| #[trigger] (b * v) == c;
    assert(a * (u * v) == c) by (nonlinear_arith)
        requires
            a * u == b,
            b * v == c,
    ;
}

/// The least common multiple of a sequence is a multiple of every number in it
/// and divides every number that is.
pub proof fn lcm_of_all_is_least_common_multiple(numbers: Seq<i64>)
    ensures
        forall|i: int| 0 <= i < numbers.len() ==> divides(abs(#[trigger] numbers[i] as int) as int, lcm_of_all(numbers) as int),
        forall|m: int|
            (forall|i: int| 0 <= i < numbers.len() ==> divides(abs(#[trigger] numbers[i] as int) as int, m))
                ==> #[trigger] divides(lcm_of_all(numbers) as int, m),
        lcm_of_all(numbers) == 0 <==> numbers.contains(0),
    decreases numbers.len(),
{
    let whole = lcm_of_all(numbers) as int;
    if numbers.len() == 0 {
        assert forall|m: int| #[trigger] divides(whole, m) by {
            assert(whole * m == m);
        }
    } else {
        let rest = numbers.drop_last();
        lcm_of_all_is_least_common_multiple(rest);
        lcm_is_least_common_multiple(lcm_of_all(rest), abs(numbers.last() as int));
        assert forall|i: int| 0 <= i < numbers.len() implies divides(abs(#[trigger] numbers[i] as int) as int, whole) by {
            if i < rest.len() {
                assert(rest[i] == numbers[i]);
                lemma_divides_transitive(abs(numbers[i] as int) as int, lcm_of_all(rest) as int, whole);
            }
        }
        assert forall|m: int|
            (forall|i: int| 0 <= i < numbers.len() ==> divides(abs(#[trigger] numbers[i] as int) as int, m))
            implies #[trigger] divides(whole, m) by {
            assert forall|i: int| 0 <= i < rest.len() implies divides(abs(#[trigger] rest[i] as int) as int, m) by {
                assert(rest[i] == numbers[i]);
            }
            assert(divides(lcm_of_all(rest) as int, m));
            assert(divides(abs(numbers[numbers.len() - 1] as int) as int, m));
        }
        if numbers.contains(0) {
            let i = choose|i: int| 0 <= i < numbers.len() && numbers[i] == 0;
            if i < rest.len() {
                assert(rest[i] == 0);
            }
        }
        if rest.contains(0) {
            let i = choose|i: int| 0 <= i < rest.len() && rest[i] == 0;
            assert(numbers[i] == 0);
        }
        if numbers.last() == 0 {
            assert(numbers[numbers.len() - 1] == 0);
        }
    }
}

/// A least common multiple that is not zero is no smaller than the first number.
proof fn lemma_lcm_at_least(a: nat, b: nat)
    requires
        b > 0,
    ensures
        a <= lcm_of(a, b),
{
    lcm_is_least_common_multiple(a, b);
    if a > 0 {
        let l = lcm_of(a, b) as int;
        let k = choose|k: int| #[trigger] (a * k) == l;
        assert(a <= l) by (nonlinear_arith)
            requires
                a * k == l,
                l > 0,
                a > 0,
        ;
    }
}

/// The least common multiple of a prefix is no larger than that of the whole.
proof fn lemma_lcm_of_prefix(numbers: Seq<i64>, i: int)
    requires
        0 <= i <= numbers.len(),
        !numbers.contains(0),
    ensures
        lcm_of_all(numbers.take(i)) <= lcm_of_all(numbers),
    decreases numbers.len(),
{
    if i == numbers.len() {
        assert(numbers.take(i) =~= numbers);
    } else {
        let rest = numbers.drop_last();
        assert(rest.take(i) =~= numbers.take(i));
        assert forall|j: int| 0 <= j < rest.len() implies rest[j] != 0 by {
            assert(rest[j] == numbers[j]);
        }
        lemma_lcm_of_prefix(rest, i);
        assert(numbers[numbers.len() - 1] != 0);
        lemma_lcm_at_least(lcm_of_all(rest), abs(numbers.last() as int));
    }
}

/// GCD of two numbers, taken by their magnitudes.
pub fn gcd(a: i64, b: i64) -> (result: i64)
    requires
        a != i64::MIN,
        b != i64::MIN,
    ensures
        result == gcd_of(abs(a as int), abs(b as int)),
{
    let mut a: i64 = if a < 0 {
        -a
    } else {
        a
    };
    let mut b: i64 = if b < 0 {
        -b
    } else {
        b
    };
    let ghost whole = gcd_of(a as nat, b as nat);
    while b != 0
        invariant
            a >= 0,
            b >= 0,
            gcd_of(a as nat, b as nat) == whole,
        decreases b,
    {
        let t: i64 = b;
        b = a % b;
        a = t;
    }
    a
}

/// LCM of two numbers: the least common multiple of their magnitudes, with the
/// sign of their product.
pub fn lcm_pair(a: i64, b: i64) -> (result: i64)
    requires
        a != i64::MIN,
        b != i64::MIN,
        lcm_of(abs(a as int), abs(b as int)) <= i64::MAX,
    ensures
        abs(result as int) == lcm_of(abs(a as int), abs(b as int)),
        result < 0 <==> a != 0 && b != 0 && (a < 0) != (b < 0),
{
    if a == 0 || b == 0 {
        return 0;
    }
    let g: i64 = gcd(a, b);
    let size_a: i64 = if a < 0 {
        -a
    } else {
        a
    };
    let size_b: i64 = if b < 0 {
        -b
    } else {
        b
    };
    proof {
        gcd_is_greatest_common_divisor(size_a as nat, size_b as nat);
        lcm_is_least_common_multiple(size_a as nat, size_b as nat);
    }
    let size: i64 = (size_a / g) * size_b;
    if (a < 0) == (b < 0) {
        size
    } else {
        -size
    }
}

/// Compute LCM of a list of numbers.
pub fn lcm_many(numbers: &[i64]) -> (result: i64)
    requires
        numbers@.len() > 0,
        numbers@.contains(0) || lcm_of_all(numbers@) <= i64::MAX && !numbers@.contains(i64::MIN),
    ensures
        result == lcm_of_all(numbers@),
{
    proof {
        lcm_of_all_is_least_common_multiple(numbers@);
    }
    match checked_lcm_many(numbers) {
        Some(result) => result,
        None => 0,
    }
}

/// Compute LCM of a list of numbers, or nothing where it exceeds the range of
/// `i64`.
pub fn checked_lcm_many(numbers: &[i64]) -> (result: Option<i64>)
    requires
        numbers@.contains(0) || !numbers@.contains(i64::MIN),
    ensures
        match result {
            Some(value) => value == lcm_of_all(numbers@),
            None => lcm_of_all(numbers@) > i64::MAX,
        },
{
    let n: usize = numbers.len();
    let mut i: usize = 0;
    while i < n
        invariant
            i <= n == numbers@.len(),
            forall|j: int| 0 <= j < i ==> numbers@[j] != 0,
        decreases n - i,
    {
        if numbers[i] == 0 {
            proof {
                assert(numbers@.contains(0));
                lcm_of_all_is_least_common_multiple(numbers@);
            }
            return Some(0);
        }
        i += 1;
    }
    assert(!numbers@.contains(0));
    let mut result: i64 = 1;
    i = 0;
    while i < n
        invariant
            i <= n == numbers@.len(),
            !numbers@.contains(0),
            !numbers@.contains(i64::MIN),
            result == lcm_of_all(numbers@.take(i as int)),
            result > 0,
        decreases n - i,
    {
        let ghost before = numbers@.take(i as int);
        let ghost after = numbers@.take(i + 1);
        let next: i64 = numbers[i];
        assert(numbers@.contains(next));
        let size: i64 = if next < 0 {
            -next
        } else {
            next
        };
        proof {
            assert(after.drop_last() =~= before);
            gcd_is_greatest_common_divisor(result as nat, size as nat);
            lcm_is_least_common_multiple(result as nat, size as nat);
            lemma_lcm_of_prefix(numbers@, i + 1);
        }
        let share: i64 = result / gcd(result, size);
        let wide: i128 = crate::scalar::wide_product(share, size);
        if wide > i64::MAX as i128 {
            return None;
        }
        result = wide as i64;
        i += 1;
    }
    assert(numbers@.take(n as int) =~= numbers@);
    Some(result)
}

} // verus!
