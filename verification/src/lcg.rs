//! The linear congruential generator that drives the jump sequence.
//!
//! One step maps a 64-bit state `s` to `s * MULTIPLIER + 1` modulo `2^64`.
//! Besides the step itself this module proves the one fact about the orbit of
//! a state that the jump sequence relies on: from every state the generator
//! reaches the lower half of the 64-bit range again.
use vstd::arithmetic::div_mod::*;
use vstd::arithmetic::power2::*;
use vstd::prelude::*;

verus! {

/// The multiplier of the generator.
pub const MULTIPLIER: u64 = 2862933555777941757;

/// One step of the generator.
pub open spec fn lcg_next(state: u64) -> u64 {
    ((state * MULTIPLIER + 1) % 0x1_0000_0000_0000_0000) as u64
}

/// The state after `n` steps.
pub open spec fn lcg_iter(state: u64, n: nat) -> u64
    decreases n,
{
    if n == 0 {
        state
    } else {
        lcg_next(lcg_iter(state, (n - 1) as nat))
    }
}

/// Advances the generator by one step, wrapping on overflow.
pub fn advance(state: u64) -> (next: u64)
    ensures
        next == lcg_next(state),
{
    let product = state.wrapping_mul(MULTIPLIER);
    product.wrapping_add(1)
}

/// `MULTIPLIER` to the power `n`: the factor by which `n` steps scale a state.
spec fn scale(n: nat) -> int
    decreases n,
{
    if n == 0 {
        1
    } else {
        MULTIPLIER * scale((n - 1) as nat)
    }
}

/// `1 + MULTIPLIER + ... + MULTIPLIER^(n-1)`: what `n` steps add to a state.
spec fn offset(n: nat) -> int
    decreases n,
{
    if n == 0 {
        0
    } else {
        MULTIPLIER * offset((n - 1) as nat) + 1
    }
}

/// Steps compose: `m` steps followed by `n` steps are `m + n` steps.
pub proof fn lemma_iter_adds(state: u64, m: nat, n: nat)
    ensures
        lcg_iter(lcg_iter(state, m), n) == lcg_iter(state, m + n),
    decreases n,
{
    if n > 0 {
        lemma_iter_adds(state, m, (n - 1) as nat);
    }
}

/// `n` steps are an affine map of the state, modulo `2^64`.
proof fn lemma_closed_form(state: u64, n: nat)
    ensures
        lcg_iter(state, n) == (scale(n) * state + offset(n)) % 0x1_0000_0000_0000_0000,
    decreases n,
{
    let m = 0x1_0000_0000_0000_0000int;
    if n > 0 {
        let k = (n - 1) as nat;
        lemma_closed_form(state, k);
        let a = MULTIPLIER as int;
        let x = scale(k) * state + offset(k);
        assert(a * x + 1 == scale(n) * state + offset(n)) by (nonlinear_arith)
            requires
                x == scale(k) * state + offset(k),
                scale(n) == a * scale(k),
                offset(n) == a * offset(k) + 1,
        ;
        lemma_mul_mod_noop_right(a, x, m);
        lemma_add_mod_noop(a * (x % m), 1, m);
        lemma_add_mod_noop(a * x, 1, m);
    }
}

/// How `scale` and `offset` of a sum of step counts decompose.
proof fn lemma_affine_adds(m: nat, n: nat)
    ensures
        scale(m + n) == scale(m) * scale(n),
        offset(m + n) == scale(n) * offset(m) + offset(n),
    decreases n,
{
    if n == 0 {
        assert(scale(m) * 1 == scale(m)) by (nonlinear_arith);
        assert(1 * offset(m) == offset(m)) by (nonlinear_arith);
    } else {
        let k = (n - 1) as nat;
        lemma_affine_adds(m, k);
        let a = MULTIPLIER as int;
        assert(a * (scale(m) * scale(k)) == scale(m) * (a * scale(k))) by (nonlinear_arith);
        assert(a * (scale(k) * offset(m) + offset(k)) + 1 == (a * scale(k)) * offset(m) + (a
            * offset(k) + 1)) by (nonlinear_arith);
    }
}

/// After `2^j` steps the scale is one more than a multiple of `2^(j+2)`, and
/// the offset is an odd multiple of `2^j`. Returns the two cofactors.
proof fn lemma_dyadic(j: nat) -> (w: (int, int))
    ensures
        scale(pow2(j)) == 1 + pow2(j + 2) * w.0,
        offset(pow2(j)) == pow2(j) * (1 + 2 * w.1),
    decreases j,
{
    lemma2_to64();
    if j == 0 {
        assert(scale(1) == MULTIPLIER * scale(0));
        assert(offset(1) == MULTIPLIER * offset(0) + 1);
        (715733388944485439int, 0int)
    } else {
        let i = (j - 1) as nat;
        let (u, v) = lemma_dyadic(i);
        let p = pow2(i) as int;
        lemma_pow2_unfold(j);
        lemma_pow2_unfold(j + 1);
        lemma_pow2_unfold(j + 2);
        assert(pow2(j) == 2 * p);
        assert(pow2(j + 2) == 8 * p);
        lemma_affine_adds(pow2(i), pow2(i));
        let s = scale(pow2(i));
        let t = offset(pow2(i));
        assert(scale(pow2(j)) == s * s);
        assert(offset(pow2(j)) == s * t + t);
        let u2 = u + 2 * p * u * u;
        let v2 = v + p * u + 2 * v * p * u;
        assert(s * s == 1 + (8 * p) * u2) by (nonlinear_arith)
            requires
                s == 1 + (4 * p) * u,
                u2 == u + 2 * p * u * u,
        ;
        assert(s * t + t == (2 * p) * (1 + 2 * v2)) by (nonlinear_arith)
            requires
                s == 1 + (4 * p) * u,
                t == p * (1 + 2 * v),
                v2 == v + p * u + 2 * v * p * u,
        ;
        (u2, v2)
    }
}

/// `2^63` steps add `2^63` to the state: they flip its top bit and keep the
/// rest.
pub proof fn lemma_half_period(state: u64)
    ensures
        lcg_iter(state, pow2(63)) == (state + 0x8000_0000_0000_0000) % 0x1_0000_0000_0000_0000,
{
    let m = 0x1_0000_0000_0000_0000int;
    let (u, v) = lemma_dyadic(63);
    lemma2_to64_rest();
    lemma_pow2_unfold(65);
    lemma_closed_form(state, pow2(63));
    let s = scale(pow2(63));
    let t = offset(pow2(63));
    let c = 2 * u * state + v;
    assert(s * state + t == m * c + (state + 0x8000_0000_0000_0000)) by (nonlinear_arith)
        requires
            s == 1 + (2 * m) * u,
            t == 0x8000_0000_0000_0000 * (1 + 2 * v),
            m == 0x1_0000_0000_0000_0000,
            c == 2 * u * state + v,
    ;
    lemma_mod_multiples_vanish(c, state + 0x8000_0000_0000_0000, m);
}

/// From every state the generator comes back to the lower half of the 64-bit
/// range after some positive number of steps, which is returned.
pub proof fn lemma_reaches_lower_half(state: u64) -> (n: nat)
    ensures
        n >= 1,
        lcg_iter(state, n) < 0x8000_0000_0000_0000,
{
    lemma2_to64();
    lemma_half_period(state);
    if state >= 0x8000_0000_0000_0000 {
        pow2(63)
    } else {
        let mid = lcg_iter(state, pow2(63));
        lemma_half_period(mid);
        lemma_iter_adds(state, pow2(63), pow2(63));
        pow2(63) + pow2(63)
    }
}

} // verus!
