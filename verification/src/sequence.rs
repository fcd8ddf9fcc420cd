//! The jump sequence of a digest, and the bucket that it selects.
//!
//! A digest seeds the generator, and every step of the generator makes one
//! jump. The candidates start at 0 and never fall back. For a bucket count
//! `n` the sequence lands where a candidate below `n` is followed by one that
//! is not; that candidate is the bucket.
use crate::jump::{is_candidate, lemma_jump_advances, next_candidate};
use crate::lcg::{lcg_iter, lemma_iter_adds, lemma_reaches_lower_half};
use vstd::prelude::*;

verus! {

/// The candidate after `i` jumps.
pub open spec fn candidate(digest: u64, i: nat) -> int
    decreases i,
{
    if i == 0 {
        0
    } else {
        next_candidate(candidate(digest, (i - 1) as nat), lcg_iter(digest, i))
    }
}

/// Whether the sequence lands at its `i`-th candidate for `buckets` buckets.
pub open spec fn lands_at(digest: u64, buckets: int, i: nat) -> bool {
    candidate(digest, i) < buckets <= candidate(digest, i + 1)
}

/// The bucket of `digest` among `buckets` buckets: the candidate at which the
/// sequence lands.
pub open spec fn jump_bucket(digest: u64, buckets: int) -> int
    recommends
        1 <= buckets <= i32::MAX,
{
    candidate(digest, choose|i: nat| lands_at(digest, buckets, i))
}

/// Every member of the sequence is a candidate, the next one is not below it,
/// and is above it where the generator comes to the lower half of its range.
pub proof fn lemma_candidate_step(digest: u64, i: nat)
    ensures
        is_candidate(candidate(digest, i)),
        candidate(digest, i) <= candidate(digest, i + 1),
        candidate(digest, i) < i32::MAX && lcg_iter(digest, i + 1) < 0x8000_0000_0000_0000
            ==> candidate(digest, i) < candidate(digest, i + 1),
        candidate(digest, i) < 0x100_0000 ==> candidate(digest, i) < candidate(digest, i + 1),
    decreases i,
{
    if i > 0 {
        let h = (i - 1) as nat;
        lemma_candidate_step(digest, h);
        lemma_jump_advances(candidate(digest, h), lcg_iter(digest, i));
    }
    lemma_jump_advances(candidate(digest, i), lcg_iter(digest, i + 1));
}

/// The sequence never falls back.
pub proof fn lemma_candidates_ordered(digest: u64, i: nat, k: nat)
    requires
        i <= k,
    ensures
        candidate(digest, i) <= candidate(digest, k),
    decreases k - i,
{
    if i < k {
        let h = (k - 1) as nat;
        lemma_candidates_ordered(digest, i, h);
        lemma_candidate_step(digest, h);
    }
}

/// One more jump from a candidate below the largest `i32`. `rounds` counts
/// the steps after which the generator is in the lower half of its range
/// again. Either the candidate moves on, or it stays and fewer rounds, which
/// are returned, are left.
pub proof fn lemma_next_round(digest: u64, i: nat, rounds: nat) -> (left: nat)
    requires
        candidate(digest, i) < i32::MAX,
        rounds >= 1,
        lcg_iter(lcg_iter(digest, i), rounds) < 0x8000_0000_0000_0000,
    ensures
        left >= 1,
        lcg_iter(lcg_iter(digest, i + 1), left) < 0x8000_0000_0000_0000,
        candidate(digest, i) < candidate(digest, i + 1) || (candidate(digest, i) == candidate(
            digest,
            i + 1,
        ) && left < rounds),
{
    let key = lcg_iter(digest, i + 1);
    lemma_candidate_step(digest, i);
    if key < 0x8000_0000_0000_0000 {
        lemma_reaches_lower_half(key)
    } else {
        assert(lcg_iter(lcg_iter(digest, i), 1) == key) by {
            reveal_with_fuel(lcg_iter, 2);
        }
        lemma_iter_adds(lcg_iter(digest, i), 1, (rounds - 1) as nat);
        (rounds - 1) as nat
    }
}

/// From a candidate below `buckets` the sequence goes on to land.
proof fn lemma_lands_after(digest: u64, buckets: int, i: nat, rounds: nat) -> (k: nat)
    requires
        candidate(digest, i) < buckets <= i32::MAX,
        rounds >= 1,
        lcg_iter(lcg_iter(digest, i), rounds) < 0x8000_0000_0000_0000,
    ensures
        lands_at(digest, buckets, k),
    decreases buckets - candidate(digest, i), rounds,
{
    if candidate(digest, i + 1) >= buckets {
        i
    } else {
        let left = lemma_next_round(digest, i, rounds);
        lemma_lands_after(digest, buckets, i + 1, left)
    }
}

/// For every bucket count from 1 to the largest `i32` the sequence lands.
pub proof fn lemma_landing_exists(digest: u64, buckets: int) -> (i: nat)
    requires
        1 <= buckets <= i32::MAX,
    ensures
        lands_at(digest, buckets, i),
{
    let rounds = lemma_reaches_lower_half(digest);
    lemma_lands_after(digest, buckets, 0, rounds)
}

/// The sequence lands at one place only.
pub proof fn lemma_landing_unique(digest: u64, buckets: int, i: nat, k: nat)
    requires
        lands_at(digest, buckets, i),
        lands_at(digest, buckets, k),
    ensures
        i == k,
{
    if i < k {
        lemma_candidates_ordered(digest, i + 1, k);
    }
    if k < i {
        lemma_candidates_ordered(digest, k + 1, i);
    }
}

/// A digest has one bucket among a given number of buckets: two candidates
/// at which its sequence lands are the same.
pub proof fn lemma_bucket_is_determined(digest: u64, buckets: int, first: int, second: int)
    requires
        exists|i: nat| #[trigger] lands_at(digest, buckets, i) && first == candidate(digest, i),
        exists|i: nat| #[trigger] lands_at(digest, buckets, i) && second == candidate(digest, i),
    ensures
        first == second,
{
    let i = choose|i: nat| #[trigger] lands_at(digest, buckets, i) && first == candidate(digest, i);
    let k = choose|i: nat| #[trigger]
        lands_at(digest, buckets, i) && second == candidate(digest, i);
    lemma_landing_unique(digest, buckets, i, k);
}

/// The bucket is the candidate at the place where the sequence lands.
pub proof fn lemma_jump_bucket_is(digest: u64, buckets: int, i: nat)
    requires
        lands_at(digest, buckets, i),
    ensures
        jump_bucket(digest, buckets) == candidate(digest, i),
{
    let k = choose|k: nat| lands_at(digest, buckets, k);
    lemma_landing_unique(digest, buckets, i, k);
}

/// The bucket of every digest is one of the buckets: at least 0 and below
/// the bucket count.
pub proof fn lemma_bucket_in_range(digest: u64, buckets: int)
    requires
        1 <= buckets <= i32::MAX,
    ensures
        0 <= jump_bucket(digest, buckets) < buckets,
{
    let i = lemma_landing_exists(digest, buckets);
    lemma_jump_bucket_is(digest, buckets, i);
    lemma_candidate_step(digest, i);
}

/// With one bucket every digest goes to bucket 0.
pub proof fn lemma_single_bucket(digest: u64)
    ensures
        jump_bucket(digest, 1) == 0,
{
    lemma_bucket_in_range(digest, 1);
}

/// When the bucket count grows, a digest keeps its bucket or moves to one of
/// the new buckets.
pub proof fn lemma_moves_to_new_buckets_only(digest: u64, before: int, after: int)
    requires
        1 <= before <= after <= i32::MAX,
    ensures
        jump_bucket(digest, after) == jump_bucket(digest, before) || before <= jump_bucket(
            digest,
            after,
        ) < after,
{
    let i = lemma_landing_exists(digest, before);
    let k = lemma_landing_exists(digest, after);
    lemma_jump_bucket_is(digest, before, i);
    lemma_jump_bucket_is(digest, after, k);
    if k < i {
        lemma_candidates_ordered(digest, k + 1, i);
    }
    if i < k {
        lemma_candidates_ordered(digest, i + 1, k);
    }
}

/// With one bucket more, a digest keeps its bucket or moves to the new one.
pub proof fn lemma_minimal_remap(digest: u64, buckets: int)
    requires
        1 <= buckets < i32::MAX,
    ensures
        jump_bucket(digest, buckets + 1) == jump_bucket(digest, buckets) || jump_bucket(
            digest,
            buckets + 1,
        ) == buckets,
{
    lemma_moves_to_new_buckets_only(digest, buckets, buckets + 1);
}

} // verus!
