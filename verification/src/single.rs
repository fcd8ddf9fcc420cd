//! Single-precision rounding of whole numbers, in integer arithmetic.
//!
//! A single-precision value keeps 24 significant bits. Below `2^24` every
//! whole number is such a value; from there on the values are the multiples
//! of a power of two, the unit, which doubles at every power of two. A number
//! in between is rounded to the nearer value, and to the one with the even
//! multiplier when it lies half way.
use vstd::arithmetic::div_mod::*;
use vstd::arithmetic::mul::*;
use vstd::prelude::*;

verus! {

/// The quotient `num / den` rounded to the nearest whole number, half way to
/// the even one.
pub open spec fn nearest_even(num: int, den: int) -> int
    recommends
        num >= 0,
        den > 0,
{
    let q = num / den;
    let r = num % den;
    if 2 * r < den || (2 * r == den && q % 2 == 0) {
        q
    } else {
        q + 1
    }
}

/// The distance between neighbouring single-precision values at `n`: 1 below
/// `2^24`, and twice the unit of `n / 2` from there on.
pub open spec fn unit_of(n: int) -> int
    decreases n,
{
    if n < 0x100_0000 {
        1
    } else {
        2 * unit_of(n / 2)
    }
}

/// The single-precision value nearest to `n`.
pub open spec fn to_single(n: int) -> int
    recommends
        n >= 0,
{
    nearest_even(n, unit_of(n)) * unit_of(n)
}

/// Whether `n` is a single-precision value.
pub open spec fn is_single(n: int) -> bool {
    n % unit_of(n) == 0
}

/// A rounded quotient lies within one of the truncated quotient, and is the
/// quotient itself where the division is exact.
pub proof fn lemma_nearest_even_bounds(num: int, den: int)
    requires
        num >= 0,
        den > 0,
    ensures
        num / den <= nearest_even(num, den) <= num / den + 1,
        num % den == 0 ==> nearest_even(num, den) == num / den,
        -den <= 2 * (nearest_even(num, den) * den - num) <= den,
{
    let q = num / den;
    lemma_fundamental_div_mod(num, den);
    assert((q + 1) * den == q * den + den) by (nonlinear_arith);
}

/// Rounding a quotient keeps the order of the numerators.
pub proof fn lemma_nearest_even_monotone(a: int, b: int, den: int)
    requires
        0 <= a <= b,
        den > 0,
    ensures
        nearest_even(a, den) <= nearest_even(b, den),
{
    lemma_div_is_ordered(a, b, den);
    lemma_fundamental_div_mod(a, den);
    lemma_fundamental_div_mod(b, den);
}

/// A whole number that does not exceed the exact quotient does not exceed the
/// rounded one.
pub proof fn lemma_nearest_even_lower(c: int, num: int, den: int)
    requires
        den > 0,
        c >= 0,
        c * den <= num,
    ensures
        c <= nearest_even(num, den),
{
    lemma_div_is_ordered(c * den, num, den);
    lemma_div_by_multiple(c, den);
}

/// The unit is positive; from `2^24` on it is even and `n` holds between
/// `2^23` and `2^24` units.
pub proof fn lemma_unit_bounds(n: int)
    ensures
        unit_of(n) >= 1,
        n < 0x100_0000 ==> unit_of(n) == 1,
        n >= 0x100_0000 ==> unit_of(n) >= 2 && 0x80_0000 * unit_of(n) <= n < 0x100_0000
            * unit_of(n),
    decreases n,
{
    if n >= 0x100_0000 {
        lemma_unit_bounds(n / 2);
    }
}

/// The larger number has the same unit or at least twice the unit.
pub proof fn lemma_unit_monotone(a: int, b: int)
    requires
        a <= b,
    ensures
        unit_of(a) == unit_of(b) || 2 * unit_of(a) <= unit_of(b),
    decreases b,
{
    lemma_unit_bounds(b);
    if a >= 0x100_0000 {
        lemma_unit_monotone(a / 2, b / 2);
    }
}

/// A multiple of the unit of `n` with 24 significant bits has that unit too.
proof fn lemma_unit_of_multiple(c: int, n: int)
    requires
        0x80_0000 <= c < 0x100_0000,
    ensures
        unit_of(c * unit_of(n)) == unit_of(n),
    decreases n,
{
    if n >= 0x100_0000 {
        let h = unit_of(n / 2);
        lemma_unit_bounds(n / 2);
        lemma_unit_of_multiple(c, n / 2);
        let x = c * unit_of(n);
        assert(x == 2 * (c * h) && c * h >= c) by (nonlinear_arith)
            requires
                x == c * (2 * h),
                h >= 1,
                c >= 0,
        ;
    }
}

/// Rounding yields a single-precision value: the number itself below `2^24`,
/// and a value between `2^23` and `2^24` units from there on.
pub proof fn lemma_to_single_is_single(n: int)
    requires
        n >= 0,
    ensures
        is_single(to_single(n)),
        n < 0x100_0000 ==> to_single(n) == n,
        n >= 0x100_0000 ==> 0x80_0000 * unit_of(n) <= to_single(n) <= 0x100_0000 * unit_of(n),
{
    let u = unit_of(n);
    lemma_unit_bounds(n);
    let c = nearest_even(n, u);
    let x = to_single(n);
    if n >= 0x100_0000 {
        let q = n / u;
        lemma_fundamental_div_mod(n, u);
        assert(0x80_0000 <= q < 0x100_0000) by (nonlinear_arith)
            requires
                n == u * q + n % u,
                0 <= n % u < u,
                0x80_0000 * u <= n < 0x100_0000 * u,
        ;
        assert(0x80_0000 * u <= c * u <= 0x100_0000 * u) by (nonlinear_arith)
            requires
                0x80_0000 <= c <= 0x100_0000,
                u >= 1,
        ;
        if c < 0x100_0000 {
            lemma_unit_of_multiple(c, n);
            lemma_mod_multiples_basic(c, u);
        } else {
            lemma_unit_of_multiple(0x80_0000, n);
            assert(x == 2 * (0x80_0000 * u) && x == 0x80_0000 * (2 * u)) by (nonlinear_arith)
                requires
                    x == 0x100_0000 * u,
            ;
            lemma_mod_multiples_basic(0x80_0000, 2 * u);
        }
    }
}

/// Rounding moves a number by at most half a unit.
pub proof fn lemma_to_single_near(n: int)
    requires
        n >= 0,
    ensures
        -unit_of(n) <= 2 * (to_single(n) - n) <= unit_of(n),
{
    lemma_unit_bounds(n);
    lemma_nearest_even_bounds(n, unit_of(n));
}

/// Rounding leaves a single-precision value as it is.
pub proof fn lemma_single_fixed(x: int)
    requires
        x >= 0,
        is_single(x),
    ensures
        to_single(x) == x,
{
    let u = unit_of(x);
    lemma_unit_bounds(x);
    lemma_fundamental_div_mod(x, u);
    assert(u * (x / u) == (x / u) * u) by (nonlinear_arith);
}

/// Rounding keeps the order of two numbers.
pub proof fn lemma_to_single_monotone(a: int, b: int)
    requires
        0 <= a <= b,
    ensures
        to_single(a) <= to_single(b),
{
    let ua = unit_of(a);
    let ub = unit_of(b);
    lemma_unit_monotone(a, b);
    lemma_unit_bounds(b);
    if ua == ub {
        lemma_nearest_even_monotone(a, b, ua);
        lemma_mul_inequality(nearest_even(a, ua), nearest_even(b, ua), ua);
    } else {
        lemma_to_single_is_single(a);
        lemma_to_single_is_single(b);
    }
}

/// Twice a single-precision value is one.
pub proof fn lemma_single_double(x: int)
    requires
        x >= 0,
        is_single(x),
    ensures
        is_single(2 * x),
{
    if 2 * x >= 0x100_0000 {
        let u = unit_of(x);
        lemma_unit_bounds(x);
        lemma_fundamental_div_mod(x, u);
        let k = x / u;
        assert(2 * x == k * (2 * u)) by (nonlinear_arith)
            requires
                x == u * k,
        ;
        lemma_mod_multiples_basic(k, 2 * u);
    }
}

/// Half a single-precision value, truncated, is one.
pub proof fn lemma_single_half(x: int)
    requires
        x >= 0,
        is_single(x),
    ensures
        is_single(x / 2),
{
    if x >= 0x100_0000 {
        let h = unit_of(x / 2);
        lemma_unit_bounds(x / 2);
        lemma_fundamental_div_mod(x, 2 * h);
        let k = x / (2 * h);
        assert(x == 2 * (k * h)) by (nonlinear_arith)
            requires
                x == (2 * h) * k,
        ;
        lemma_mod_multiples_basic(k, h);
    }
}

/// Divides and rounds to the nearest whole number, half way to the even one.
pub fn divide_to_nearest(num: u64, den: u64) -> (quotient: u64)
    requires
        den > 0,
    ensures
        quotient == nearest_even(num as int, den as int),
{
    let q = num / den;
    let r = num % den;
    if r < den - r || (r == den - r && q % 2 == 0) {
        q
    } else {
        proof {
            lemma_fundamental_div_mod(num as int, den as int);
            assert(2 * q <= den * q) by (nonlinear_arith)
                requires
                    den >= 2,
                    q >= 0,
            ;
        }
        q + 1
    }
}

/// The unit of `n`.
pub fn unit(n: u64) -> (u: u64)
    ensures
        u == unit_of(n as int),
{
    let mut u: u64 = 1;
    let mut rest: u64 = n;
    while rest >= 0x100_0000
        invariant
            u >= 1,
            u * rest <= n,
            unit_of(n as int) == u * unit_of(rest as int),
        decreases rest,
    {
        proof {
            let h = unit_of(rest as int / 2);
            assert((2 * u) * (rest / 2) <= u * rest && u * (2 * h) == (2 * u) * h && u
                * 0x100_0000 <= u * rest) by (nonlinear_arith)
                requires
                    u >= 1,
                    rest >= 0x100_0000,
            ;
        }
        rest = rest / 2;
        u = u * 2;
    }
    u
}

/// Rounds `n` to the nearest single-precision value, which has to fit in 64
/// bits.
pub fn round_to_single(n: u64) -> (rounded: u64)
    requires
        to_single(n as int) <= u64::MAX,
    ensures
        rounded == to_single(n as int),
{
    let u = unit(n);
    proof {
        lemma_unit_bounds(n as int);
    }
    let q = divide_to_nearest(n, u);
    q * u
}

} // verus!
