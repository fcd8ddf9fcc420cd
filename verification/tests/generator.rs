use jump_consistent_hash::lcg::{advance, MULTIPLIER};

#[test]
fn multiplier_is_fixed() {
    assert_eq!(MULTIPLIER, 2862933555777941757);
}

#[test]
fn advance_multiplies_and_adds_one() {
    assert_eq!(advance(0), 1);
    assert_eq!(advance(1), 2862933555777941758);
    assert_eq!(advance(2), 5725867111555883515);
}

#[test]
fn advance_wraps() {
    assert_eq!(advance(u64::MAX), 15583810517931609860);
    assert_eq!(advance(1 << 63), (1 << 63) + 1);
    for state in [3u64, 1 << 40, 0xdeadbeef, u64::MAX - 5] {
        assert_eq!(advance(state), state.wrapping_mul(2862933555777941757).wrapping_add(1));
    }
}

#[test]
fn half_a_period_flips_the_top_bit_of_small_cycles() {
    // Modulo 2^8 the generator has period 2^8, and 2^7 steps add 2^7.
    let mut state: u64 = 19;
    for _ in 0..128 {
        state = advance(state);
    }
    assert_eq!(state % 256, (19 + 128) % 256);
    for _ in 0..128 {
        state = advance(state);
    }
    assert_eq!(state % 256, 19);
}
