//! The jump from one candidate bucket to the next.
//!
//! The jump multiplies the successor of the current candidate by the ratio of
//! `2^31` to a divisor between 1 and `2^31`, which is drawn from the top 31
//! bits of the generator's state. Both factors, the ratio and the product are
//! single-precision values, and the whole part of the product is the next
//! candidate. The ratio is at least one, so a candidate never falls back; it
//! is at least two when the state lies in the lower half of its range, so the
//! candidate then moves on.
use crate::single::{
    divide_to_nearest, is_single, lemma_nearest_even_lower, lemma_single_double,
    lemma_single_fixed, lemma_single_half, lemma_to_single_is_single, lemma_to_single_monotone,
    lemma_to_single_near, lemma_unit_bounds, nearest_even, round_to_single, to_single, unit_of,
};
use vstd::arithmetic::div_mod::*;
use vstd::prelude::*;

verus! {

/// The least power of two above `n`.
pub open spec fn span_of(n: int) -> int
    decreases n,
{
    if n <= 0 {
        1
    } else {
        2 * span_of(n / 2)
    }
}

/// The single-precision value of `2^31 / d`, counted in steps of
/// `2^8 / span_of(d)`: a number between `2^23` and `2^24`.
pub open spec fn ratio_of(d: int) -> int
    recommends
        1 <= d <= 0x8000_0000,
{
    nearest_even(0x80_0000 * span_of(d), d)
}

/// The whole part of the single-precision product of `x` and `2^31 / d`.
pub open spec fn stride(x: int, d: int) -> int
    recommends
        0 <= x,
        1 <= d <= 0x8000_0000,
{
    to_single(x * ratio_of(d)) * 0x100 / span_of(d)
}

/// The divisor that a state of the generator selects: one more than its top
/// 31 bits, as a single-precision value.
pub open spec fn divisor_of(key: u64) -> int {
    to_single(key / 0x2_0000_0000 + 1)
}

/// The candidate that follows `b` when the generator has reached `key`. A
/// product beyond the largest `i32` counts as that number.
pub open spec fn next_candidate(b: int, key: u64) -> int
    recommends
        0 <= b <= i32::MAX,
{
    let j = stride(to_single(b + 1), divisor_of(key));
    if j > i32::MAX {
        i32::MAX as int
    } else {
        j
    }
}

/// A candidate as the jump produces it: a single-precision value, or the
/// largest `i32`.
pub open spec fn is_candidate(b: int) -> bool {
    0 <= b <= i32::MAX && (is_single(b) || b == i32::MAX)
}

/// The span of `n` is above `n` and at most twice `n`.
proof fn lemma_span_bounds(n: int)
    requires
        n >= 1,
    ensures
        n < span_of(n) <= 2 * n,
    decreases n,
{
    if n >= 2 {
        lemma_span_bounds(n / 2);
    } else {
        assert(span_of(1) == 2 * span_of(0));
    }
}

/// From 128 on the span is 256 times the span of the 256th part; below 128 it
/// is at most 128.
proof fn lemma_span_by_byte(n: int)
    ensures
        span_of(n) >= 1,
        n >= 128 ==> span_of(n) == 256 * span_of(n / 256),
        n < 128 ==> span_of(n) <= 128,
    decreases n,
{
    reveal_with_fuel(span_of, 9);
    if n >= 256 {
        lemma_span_by_byte(n / 256);
    }
}

/// A single-precision value times a span is a single-precision value.
proof fn lemma_single_times_span(x: int, n: int)
    requires
        x >= 0,
        is_single(x),
    ensures
        is_single(x * span_of(n)),
    decreases n,
{
    if n > 0 {
        let w = span_of(n / 2);
        lemma_single_double(x);
        lemma_single_times_span(2 * x, n / 2);
        assert(x * (2 * w) == (2 * x) * w) by (nonlinear_arith);
    }
}

/// The whole part of a single-precision value over a span is a
/// single-precision value.
proof fn lemma_single_over_span(x: int, n: int)
    requires
        x >= 0,
        is_single(x),
    ensures
        is_single(x / span_of(n)),
    decreases n,
{
    if n > 0 {
        let w = span_of(n / 2);
        lemma_span_by_byte(n / 2);
        lemma_single_half(x);
        lemma_single_over_span(x / 2, n / 2);
        lemma_div_denominator(x, 2, w);
    }
}

/// `2^30` and `2^31` are single-precision values.
proof fn lemma_large_singles()
    ensures
        is_single(0x4000_0000),
        is_single(0x8000_0000),
{
    assert(unit_of(0x80_0000) == 1);
    assert(unit_of(0x100_0000) == 2 * unit_of(0x80_0000));
    assert(unit_of(0x200_0000) == 2 * unit_of(0x100_0000));
    assert(unit_of(0x400_0000) == 2 * unit_of(0x200_0000));
    assert(unit_of(0x800_0000) == 2 * unit_of(0x400_0000));
    assert(unit_of(0x1000_0000) == 2 * unit_of(0x800_0000));
    assert(unit_of(0x2000_0000) == 2 * unit_of(0x1000_0000));
    assert(unit_of(0x4000_0000) == 2 * unit_of(0x2000_0000));
    assert(unit_of(0x8000_0000) == 2 * unit_of(0x4000_0000));
}

/// The ratio counts between `2^23` and `2^24` steps.
proof fn lemma_ratio_bounds(d: int)
    requires
        d >= 1,
    ensures
        0x80_0000 <= ratio_of(d) <= 0x100_0000,
{
    let w = span_of(d);
    let num = 0x80_0000 * w;
    lemma_span_bounds(d);
    lemma_nearest_even_lower(0x80_0000, num, d);
    lemma_fundamental_div_mod(num, d);
    let q = num / d;
    assert(q <= 0x100_0000 && (q == 0x100_0000 ==> num % d == 0)) by (nonlinear_arith)
        requires
            num == d * q + num % d,
            0 <= num % d,
            num <= 0x100_0000 * d,
            d >= 1,
    ;
}

/// The stride is at least `c` times `x` where the divisor is at most the
/// `c`-th part of `2^31`, for `c` one or two.
proof fn lemma_stride_lower(x: int, d: int, c: int)
    requires
        x >= 0,
        is_single(x),
        d >= 1,
        c == 1 || c == 2,
        c * d <= 0x8000_0000,
    ensures
        stride(x, d) >= c * x,
{
    let w = span_of(d);
    let m = ratio_of(d);
    let p = to_single(x * m);
    lemma_span_by_byte(d);
    lemma_ratio_bounds(d);
    if d < 128 {
        assert(x * m >= x) by (nonlinear_arith)
            requires
                x >= 0,
                m >= 1,
        ;
        lemma_to_single_monotone(x, x * m);
        lemma_single_fixed(x);
        assert((2 * p) * w <= p * 0x100) by (nonlinear_arith)
            requires
                p >= 0,
                0 < w <= 128,
        ;
        lemma_div_is_ordered((2 * p) * w, p * 0x100, w);
        lemma_div_by_multiple(2 * p, w);
    } else {
        let h = span_of(d / 256);
        let y = c * x;
        if c == 2 {
            lemma_single_double(x);
        }
        lemma_single_times_span(y, d / 256);
        assert((c * h) * d <= 0x80_0000 * w && c * h >= 0) by (nonlinear_arith)
            requires
                c * d <= 0x8000_0000,
                w == 256 * h,
                h >= 1,
                c >= 1,
        ;
        lemma_nearest_even_lower(c * h, 0x80_0000 * w, d);
        assert(y * h <= x * m && y * h >= 0) by (nonlinear_arith)
            requires
                y == c * x,
                m >= c * h,
                x >= 0,
                c >= 1,
                h >= 1,
        ;
        lemma_to_single_monotone(y * h, x * m);
        lemma_single_fixed(y * h);
        assert(y * w <= p * 0x100 && y * w >= 0) by (nonlinear_arith)
            requires
                y * h <= p,
                w == 256 * h,
                y >= 0,
                h >= 1,
        ;
        lemma_div_is_ordered(y * w, p * 0x100, w);
        lemma_div_by_multiple(y, w);
    }
}

/// The stride is a single-precision value.
proof fn lemma_stride_single(x: int, d: int)
    requires
        x >= 0,
        d >= 1,
    ensures
        stride(x, d) >= 0,
        is_single(stride(x, d)),
{
    let m = ratio_of(d);
    lemma_span_by_byte(d);
    let p = to_single(x * m);
    lemma_to_single_is_single(x * m);
    lemma_single_double(p);
    lemma_single_double(2 * p);
    lemma_single_double(4 * p);
    lemma_single_double(8 * p);
    lemma_single_double(16 * p);
    lemma_single_double(32 * p);
    lemma_single_double(64 * p);
    lemma_single_double(128 * p);
    lemma_single_over_span(p * 0x100, d);
}

/// What holds of the divisor: between 1 and `2^31`, and at most `2^30` for a
/// state in the lower half of the range.
proof fn lemma_divisor_bounds(key: u64)
    ensures
        1 <= divisor_of(key) <= 0x8000_0000,
        key < 0x8000_0000_0000_0000 ==> divisor_of(key) <= 0x4000_0000,
{
    let raw = key / 0x2_0000_0000 + 1;
    lemma_large_singles();
    lemma_single_fixed(0x4000_0000);
    lemma_single_fixed(0x8000_0000);
    lemma_to_single_monotone(1, raw);
    lemma_to_single_monotone(raw, 0x8000_0000);
    if key < 0x8000_0000_0000_0000 {
        lemma_to_single_monotone(raw, 0x4000_0000);
    }
}

/// The successor of a candidate, as a single-precision value, is not below
/// the candidate, and is the successor itself up to `2^24`.
proof fn lemma_successor(b: int)
    requires
        is_candidate(b),
    ensures
        is_single(to_single(b + 1)),
        b <= to_single(b + 1) <= 0x8000_0000,
        1 <= to_single(b + 1),
        b < 0x100_0000 ==> to_single(b + 1) == b + 1,
        b == i32::MAX ==> to_single(b + 1) == 0x8000_0000,
{
    lemma_large_singles();
    lemma_single_fixed(0x8000_0000);
    lemma_to_single_is_single(b + 1);
    lemma_to_single_monotone(b + 1, 0x8000_0000);
    if is_single(b) {
        lemma_single_fixed(b);
        lemma_to_single_monotone(b, b + 1);
    }
    if b + 1 == 0x100_0000 {
        assert(is_single(0x100_0000)) by {
            reveal_with_fuel(unit_of, 2);
        }
        lemma_single_fixed(0x100_0000);
    }
}

/// A jump never falls back. It moves on when the generator's state lies in
/// the lower half of its range, and whatever the state while the candidate is
/// below `2^24`; at the largest `i32` it stays.
pub proof fn lemma_jump_advances(b: int, key: u64)
    requires
        is_candidate(b),
    ensures
        is_candidate(next_candidate(b, key)),
        b <= next_candidate(b, key),
        b < i32::MAX && key < 0x8000_0000_0000_0000 ==> b < next_candidate(b, key),
        b < 0x100_0000 ==> b < next_candidate(b, key),
        b == i32::MAX ==> next_candidate(b, key) == i32::MAX,
{
    let x = to_single(b + 1);
    let d = divisor_of(key);
    lemma_successor(b);
    lemma_divisor_bounds(key);
    lemma_stride_single(x, d);
    lemma_stride_lower(x, d, 1);
    if key < 0x8000_0000_0000_0000 {
        lemma_stride_lower(x, d, 2);
    }
}

/// The least power of two above `n`.
pub fn span(n: u64) -> (w: u64)
    requires
        n < 0x8000_0000_0000_0000,
    ensures
        w == span_of(n as int),
{
    let mut w: u64 = 1;
    let mut rest: u64 = n;
    while rest > 0
        invariant
            w >= 1,
            w * rest <= n,
            n < 0x8000_0000_0000_0000,
            span_of(n as int) == w * span_of(rest as int),
        decreases rest,
    {
        proof {
            let h = span_of(rest as int / 2);
            assert((2 * w) * (rest / 2) <= w * rest && w * (2 * h) == (2 * w) * h && w <= w
                * rest) by (nonlinear_arith)
                requires
                    w >= 1,
                    rest >= 1,
            ;
        }
        rest = rest / 2;
        w = w * 2;
    }
    w
}

/// Jumps from the candidate `b` to the next one, the generator having
/// reached `key`.
pub fn jump(b: i32, key: u64) -> (j: i32)
    requires
        0 <= b < i32::MAX,
    ensures
        j == next_candidate(b as int, key),
{
    let top = key >> 33;
    proof {
        assert(top == key / 0x2_0000_0000 && top < 0x8000_0000) by (bit_vector)
            requires
                top == key >> 33,
        ;
        lemma_divisor_bounds(key);
        lemma_large_singles();
        lemma_single_fixed(0x8000_0000);
        lemma_to_single_monotone(b + 1, 0x8000_0000);
    }
    let x = round_to_single((b + 1) as u64);
    let d = round_to_single(top + 1);
    proof {
        lemma_span_bounds(d as int);
        lemma_ratio_bounds(d as int);
    }
    let w = span(d);
    let m = divide_to_nearest(0x80_0000 * w, d);
    proof {
        let product = x * m;
        assert(0 <= product <= 0x80_0000_0000_0000) by (nonlinear_arith)
            requires
                product == x * m,
                0 <= x <= 0x8000_0000,
                0 <= m <= 0x100_0000,
        ;
        lemma_to_single_near(product);
        lemma_unit_bounds(product);
    }
    let p = round_to_single(x * m);
    let j = p * 0x100 / w;
    if j > i32::MAX as u64 {
        i32::MAX
    } else {
        j as i32
    }
}

} // verus!
