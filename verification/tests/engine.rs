use jump_consistent_hash::{InvalidConfiguration, JumpConsistentHash};
use std::collections::hash_map::{DefaultHasher, RandomState};
use std::collections::BTreeSet;
use std::hash::{BuildHasher, BuildHasherDefault, Hasher};

const BUCKETS: i32 = 4;

/// A hasher whose digest is the last eight bytes written, read little endian,
/// with every bit flipped where `flip` is set.
struct PlainHasher {
    state: u64,
    flip: bool,
}

impl Hasher for PlainHasher {
    fn finish(&self) -> u64 {
        if self.flip {
            !self.state
        } else {
            self.state
        }
    }

    fn write(&mut self, bytes: &[u8]) {
        for byte in bytes {
            self.state = (self.state >> 8) | ((*byte as u64) << 56);
        }
    }
}

#[derive(Clone, Debug)]
struct Plain {
    flip: bool,
}

impl BuildHasher for Plain {
    type Hasher = PlainHasher;

    fn build_hasher(&self) -> PlainHasher {
        PlainHasher { state: 0, flip: self.flip }
    }
}

/// The jump in single-precision floating point.
fn float_jump(b: i32, key: u64) -> i32 {
    ((b.wrapping_add(1) as f32) * (((1u64 << 31) as f32) / (((key >> 33) + 1) as f32))) as i32
}

/// The bucket of a digest, found with floating-point jumps.
fn float_bucket(buckets: i32, digest: u64) -> i32 {
    let mut key = digest;
    let mut b = -1;
    let mut j = 0;
    while j < buckets {
        b = j;
        key = key.wrapping_mul(2862933555777941757).wrapping_add(1);
        j = float_jump(b, key);
    }
    b
}

/// A stream of digests that looks random and is the same in every run.
fn scramble(seed: u64) -> u64 {
    let mut z = seed.wrapping_add(0x9e3779b97f4a7c15);
    z = (z ^ (z >> 30)).wrapping_mul(0xbf58476d1ce4e5b9);
    z = (z ^ (z >> 27)).wrapping_mul(0x94d049bb133111eb);
    z ^ (z >> 31)
}

#[test]
fn get_nodes_default() {
    let buckets = JumpConsistentHash::new(BUCKETS).unwrap();
    let mut result = BTreeSet::new();
    for key in 0..100 {
        result.insert(buckets.get(&key));
    }

    assert_eq!(
        (0..BUCKETS).collect::<Vec<_>>(),
        result.into_iter().collect::<Vec<_>>()
    )
}

#[test]
fn get_nodes_custom() {
    let hasher: RandomState = RandomState::default();
    let buckets = JumpConsistentHash::new_with_hash_builder(BUCKETS, hasher).unwrap();
    let mut result = BTreeSet::new();
    for key in 0..100 {
        result.insert(buckets.get(&key));
    }

    assert_eq!(
        (0..BUCKETS).collect::<Vec<_>>(),
        result.into_iter().collect::<Vec<_>>()
    )
}

#[test]
fn new_refuses_zero_buckets() {
    let made = JumpConsistentHash::new(0);
    assert_eq!(made.unwrap_err(), InvalidConfiguration { bucket_count: 0 });
}

#[test]
fn new_refuses_negative_buckets() {
    assert_eq!(
        JumpConsistentHash::new(-1).unwrap_err(),
        InvalidConfiguration { bucket_count: -1 }
    );
    assert_eq!(
        JumpConsistentHash::new(i32::MIN).unwrap_err(),
        InvalidConfiguration { bucket_count: i32::MIN }
    );
}

#[test]
fn new_with_hash_builder_refuses_zero_and_negative_buckets() {
    let zero = JumpConsistentHash::new_with_hash_builder(0, RandomState::new());
    assert_eq!(zero.unwrap_err(), InvalidConfiguration { bucket_count: 0 });
    let negative = JumpConsistentHash::new_with_hash_builder(-7, Plain { flip: false });
    assert_eq!(negative.unwrap_err(), InvalidConfiguration { bucket_count: -7 });
}

#[test]
fn new_accepts_every_positive_count() {
    for count in [1, 2, 4, 1000, 1 << 24, i32::MAX] {
        let engine = JumpConsistentHash::new(count).unwrap();
        assert_eq!(engine.buckets(), count);
    }
}

#[test]
fn try_from_builds_like_new() {
    let engine = <JumpConsistentHash>::try_from(5).unwrap();
    let other = JumpConsistentHash::new(5).unwrap();
    assert_eq!(engine.buckets(), 5);
    for key in 0..200u32 {
        assert_eq!(engine.get(&key), other.get(&key));
    }
    assert_eq!(
        <JumpConsistentHash>::try_from(0).unwrap_err(),
        InvalidConfiguration { bucket_count: 0 }
    );
}

#[test]
fn one_bucket_takes_every_key() {
    let engine = JumpConsistentHash::new(1).unwrap();
    for key in 0..1000u64 {
        assert_eq!(engine.get(&key), 0);
        assert_eq!(engine.get_bucket(scramble(key)), 0);
    }
    assert_eq!(engine.get(&"a key"), 0);
    assert_eq!(engine.get_bucket(0), 0);
    assert_eq!(engine.get_bucket(u64::MAX), 0);
}

#[test]
fn buckets_are_in_range() {
    for count in [1, 2, 3, 4, 17, 1000, 1 << 24, (1 << 24) + 1, 1 << 30, i32::MAX] {
        let engine = JumpConsistentHash::new(count).unwrap();
        for seed in 0..300u64 {
            let by_digest = engine.get_bucket(scramble(seed));
            assert!(0 <= by_digest && by_digest < count);
            let by_key = engine.get(&seed);
            assert!(0 <= by_key && by_key < count);
        }
    }
}

#[test]
fn get_is_repeatable() {
    let fixed = JumpConsistentHash::new(64).unwrap();
    let seeded = JumpConsistentHash::new_with_hash_builder(64, RandomState::new()).unwrap();
    for key in 0..500i64 {
        assert_eq!(fixed.get(&key), fixed.get(&key));
        assert_eq!(seeded.get(&key), seeded.get(&key));
    }
    let copy = seeded.clone();
    for key in 0..500i64 {
        assert_eq!(seeded.get(&key), copy.get(&key));
    }
}

#[test]
fn get_jumps_from_the_digest_of_the_key() {
    let builder = BuildHasherDefault::<DefaultHasher>::default();
    let engine = JumpConsistentHash::new(1000).unwrap();
    let mut seen = BTreeSet::new();
    for key in 0..500u32 {
        let mut hasher = builder.build_hasher();
        std::hash::Hash::hash(&key, &mut hasher);
        let digest = hasher.finish();
        assert_eq!(engine.get(&key), engine.get_bucket(digest));
        seen.insert(engine.get(&key));
    }
    assert!(seen.len() > 100);

    let state = RandomState::new();
    let seeded = JumpConsistentHash::new_with_hash_builder(1000, state.clone()).unwrap();
    for key in ["", "a", "jump", "consistent", "hash"] {
        assert_eq!(seeded.get(&key), seeded.get_bucket(state.hash_one(key)));
    }
}

#[test]
fn plain_digests_give_known_buckets() {
    let engine = JumpConsistentHash::new_with_hash_builder(10, Plain { flip: false }).unwrap();
    assert_eq!(engine.get(&0u64), 0);
    assert_eq!(engine.get(&1u64), 6);
    let wide = JumpConsistentHash::new_with_hash_builder(57, Plain { flip: false }).unwrap();
    assert_eq!(wide.get(&42u64), 43);
}

#[test]
fn hash_builders_need_not_agree() {
    let plain = JumpConsistentHash::new_with_hash_builder(10, Plain { flip: false }).unwrap();
    let flipped = JumpConsistentHash::new_with_hash_builder(10, Plain { flip: true }).unwrap();
    assert_eq!(plain.get(&1u64), plain.get_bucket(1));
    assert_eq!(flipped.get(&1u64), flipped.get_bucket(!1u64));
    assert_eq!(plain.get(&1u64), 6);
    assert_eq!(flipped.get(&1u64), 3);
    let mut differ = 0;
    for key in 0..100u64 {
        if plain.get(&key) != flipped.get(&key) {
            differ += 1;
        }
    }
    assert!(differ > 50);
}

#[test]
fn get_bucket_known_values() {
    let cases: [(u64, i32, i32); 14] = [
        (0, 1, 0),
        (0, 2, 0),
        (0, 10, 0),
        (1, 1, 0),
        (1, 10, 6),
        (42, 57, 43),
        (256, 1024, 520),
        (0xDEAD10CC, 1, 0),
        (0xDEAD10CC, 666, 361),
        (0xdeadbeef, 11, 5),
        (0xdeadbeef, 1000, 285),
        (u64::MAX, 7, 2),
        (12345678901234567890, 1 << 20, 46485),
        (123456789, 100000000, 96971864),
    ];
    for (digest, count, bucket) in cases {
        let engine = JumpConsistentHash::new(count).unwrap();
        assert_eq!(engine.get_bucket(digest), bucket);
    }
}

#[test]
fn get_bucket_with_very_many_buckets() {
    let most = JumpConsistentHash::new(i32::MAX).unwrap();
    assert_eq!(most.get_bucket(42), 1603940608);
    let many = JumpConsistentHash::new(1 << 25).unwrap();
    assert_eq!(many.get_bucket(7), 13959603);
    for seed in 0..200u64 {
        let digest = scramble(seed);
        assert_eq!(most.get_bucket(digest), float_bucket(i32::MAX, digest));
        assert_eq!(many.get_bucket(digest), float_bucket(1 << 25, digest));
    }
}

#[test]
fn get_bucket_agrees_with_floating_point() {
    for count in [1, 2, 3, 5, 10, 100, 1000, 65536, 1 << 24, (1 << 24) + 3, 100000000] {
        let engine = JumpConsistentHash::new(count).unwrap();
        for seed in 0..400u64 {
            let digest = scramble(seed.wrapping_mul(count as u64));
            assert_eq!(engine.get_bucket(digest), float_bucket(count, digest));
        }
        for digest in [0, 1, 2, u64::MAX, u64::MAX - 1, 1 << 63, (1 << 63) - 1, 1 << 33] {
            assert_eq!(engine.get_bucket(digest), float_bucket(count, digest));
        }
    }
}

#[test]
fn single_precision_decides_close_calls() {
    // In double precision this digest lands one bucket lower.
    let mut key: u64 = 35;
    let mut b: i64 = -1;
    let mut j: i64 = 0;
    while j < 10000 {
        b = j;
        key = key.wrapping_mul(2862933555777941757).wrapping_add(1);
        j = (((b + 1) as f64) * (((1u64 << 31) as f64) / (((key >> 33) + 1) as f64))) as i64;
    }
    assert_eq!(b, 2709);
    let engine = JumpConsistentHash::new(10000).unwrap();
    assert_eq!(engine.get_bucket(35), 2710);
    assert_eq!(float_bucket(10000, 35), 2710);
}

#[test]
fn growing_by_one_bucket_moves_keys_to_the_new_bucket_only() {
    for count in 1..60 {
        let before = JumpConsistentHash::new(count).unwrap();
        let after = JumpConsistentHash::new(count + 1).unwrap();
        let mut moved = 0;
        for key in 0..400u32 {
            let old = before.get(&key);
            let new = after.get(&key);
            if new != old {
                assert_eq!(new, count);
                moved += 1;
            }
        }
        assert!(moved * (count + 1) < 2 * 400 + 40 * (count + 1));
    }
}

#[test]
fn growing_moves_digests_to_new_buckets_only() {
    for (small, large) in [(1, 2), (3, 10), (10, 11), (100, 1000), (1 << 24, 1 << 26)] {
        let before = JumpConsistentHash::new(small).unwrap();
        let after = JumpConsistentHash::new(large).unwrap();
        for seed in 0..500u64 {
            let digest = scramble(seed);
            let old = before.get_bucket(digest);
            let new = after.get_bucket(digest);
            assert!(new == old || (small <= new && new < large));
        }
    }
}

#[test]
fn digests_keep_their_buckets_as_the_count_grows() {
    let rows: [(u64, [i32; 11]); 4] = [
        (1, [0, 0, 0, 0, 0, 0, 6, 6, 6, 6, 6]),
        (6, [0, 1, 2, 2, 2, 5, 5, 5, 8, 9, 9]),
        (10, [0, 1, 2, 2, 2, 5, 6, 7, 7, 7, 7]),
        (17, [0, 1, 1, 1, 4, 4, 4, 7, 7, 9, 10]),
    ];
    for (digest, row) in rows {
        for count in 1..12 {
            let engine = JumpConsistentHash::new(count).unwrap();
            assert_eq!(engine.get_bucket(digest), row[(count - 1) as usize]);
        }
    }
}

#[test]
fn four_buckets_are_all_used() {
    let engine = JumpConsistentHash::new(4).unwrap();
    let mut seen = BTreeSet::new();
    for key in 0..100 {
        seen.insert(engine.get(&key));
    }
    assert_eq!(seen.into_iter().collect::<Vec<i32>>(), vec![0, 1, 2, 3]);
}
