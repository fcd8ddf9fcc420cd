//! The engine: a bucket count and a hash builder.
use crate::jump::jump;
use crate::lcg::{advance, lcg_iter, lemma_reaches_lower_half};
use crate::sequence::{
    candidate, jump_bucket, lands_at, lemma_candidate_step, lemma_jump_bucket_is,
    lemma_next_round,
};
use std::collections::hash_map::DefaultHasher;
use std::hash::{BuildHasher, BuildHasherDefault, Hash};
use vstd::prelude::*;
use vstd::std_specs::convert::TryFromSpecImpl;

verus! {

/// `std::hash::BuildHasherDefault`, of which nothing is known here but that
/// it exists.
#[verifier::external_type_specification]
#[verifier::external_body]
#[verifier::reject_recursive_types(H)]
pub struct ExBuildHasherDefault<H>(BuildHasherDefault<H>);

/// The refusal to build an engine: the bucket count was not positive.
#[derive(Clone, Copy, Debug, PartialEq, Eq)]
pub struct InvalidConfiguration {
    /// The bucket count that was refused.
    pub bucket_count: i32,
}

/// Maps keys to buckets by jump consistent hashing.
///
/// The engine holds the number of buckets, which is at least 1, and the hash
/// builder that turns a key into a digest. Neither changes after
/// construction.
#[derive(Debug)]
pub struct JumpConsistentHash<H = BuildHasherDefault<DefaultHasher>> {
    buckets: i32,
    hash_builder: H,
}

impl<H: Clone> Clone for JumpConsistentHash<H> {
    /// An engine with the same bucket count and a clone of the hash builder.
    fn clone(&self) -> (copy: Self)
        ensures
            copy.bucket_count() == self.bucket_count(),
    {
        proof {
            use_type_invariant(self);
        }
        JumpConsistentHash { buckets: self.buckets, hash_builder: self.hash_builder.clone() }
    }
}

/// Calls `Default::default` of `BuildHasherDefault<DefaultHasher>`. Nothing is
/// claimed of the builder that comes back.
#[verifier::external_body]
fn default_hash_builder() -> BuildHasherDefault<DefaultHasher> {
    BuildHasherDefault::default()
}

impl<H> JumpConsistentHash<H> {
    /// Every engine has at least one bucket.
    #[verifier::type_invariant]
    spec fn well_formed(&self) -> bool {
        self.buckets >= 1
    }

    /// The number of buckets.
    pub closed spec fn bucket_count(&self) -> i32 {
        self.buckets
    }

    /// The hash builder.
    pub closed spec fn hash_builder(&self) -> H {
        self.hash_builder
    }

    /// Creates an engine with `buckets` buckets that digests keys with
    /// `builder`. A bucket count below 1 is refused.
    pub fn new_with_hash_builder(buckets: i32, builder: H) -> (made: Result<
        Self,
        InvalidConfiguration,
    >)
        ensures
            buckets >= 1 ==> made is Ok && made->Ok_0.bucket_count() == buckets
                && made->Ok_0.hash_builder() == builder,
            buckets < 1 ==> made == Err::<Self, InvalidConfiguration>(
                InvalidConfiguration { bucket_count: buckets },
            ),
    {
        if buckets > 0 {
            Ok(JumpConsistentHash { buckets, hash_builder: builder })
        } else {
            Err(InvalidConfiguration { bucket_count: buckets })
        }
    }

    /// The number of buckets.
    pub fn buckets(&self) -> (count: i32)
        ensures
            count == self.bucket_count(),
            count >= 1,
    {
        proof {
            use_type_invariant(self);
        }
        self.buckets
    }

    /// The bucket of a key whose digest is `key`.
    ///
    /// Starting from candidate 0, the generator is advanced and the jump made
    /// until the candidate is no longer below the bucket count. The candidate
    /// before that one is the bucket: the one at which the sequence lands.
    pub fn get_bucket(&self, key: u64) -> (bucket: i32)
        ensures
            bucket == jump_bucket(key, self.bucket_count() as int),
            exists|i: nat| #[trigger]
                lands_at(key, self.bucket_count() as int, i) && bucket == candidate(key, i),
            0 <= bucket < self.bucket_count(),
    {
        proof {
            use_type_invariant(self);
        }
        let ghost digest = key;
        let ghost mut i: nat = 0;
        let ghost mut rounds: nat = 1;
        proof {
            rounds = lemma_reaches_lower_half(key);
        }
        let mut key = key;
        let mut b: i32 = -1;
        let mut j: i32 = 0;
        while j < self.buckets
            invariant
                self.buckets >= 1,
                key == lcg_iter(digest, i),
                j == candidate(digest, i),
                i > 0 ==> b == candidate(digest, (i - 1) as nat) && 0 <= b < self.buckets,
                rounds >= 1,
                lcg_iter(key, rounds) < 0x8000_0000_0000_0000,
            decreases i32::MAX - j, rounds,
        {
            proof {
                lemma_candidate_step(digest, i);
                rounds = lemma_next_round(digest, i, rounds);
                i = i + 1;
            }
            b = j;
            key = advance(key);
            j = jump(b, key);
        }
        proof {
            lemma_jump_bucket_is(digest, self.buckets as int, (i - 1) as nat);
            assert(lands_at(digest, self.buckets as int, (i - 1) as nat));
        }
        b
    }
}

impl<H: BuildHasher> JumpConsistentHash<H> {
    /// Calls `BuildHasher::hash_one` on the engine's hash builder: a hasher is
    /// built, fed the key and finished. The digest depends on the builder and
    /// on how the key feeds a hasher, so nothing is claimed of it.
    #[verifier::external_body]
    fn prepare_key<K: Hash>(&self, key: &K) -> (digest: u64) {
        self.hash_builder.hash_one(key)
    }

    /// The bucket of `key`: that of the digest which the hash builder gives
    /// the key.
    pub fn get<K: Hash>(&self, key: &K) -> (bucket: i32)
        ensures
            0 <= bucket < self.bucket_count(),
            exists|digest: u64| bucket == jump_bucket(digest, self.bucket_count() as int),
    {
        let digest = self.prepare_key(key);
        self.get_bucket(digest)
    }
}

impl JumpConsistentHash<BuildHasherDefault<DefaultHasher>> {
    /// Creates an engine with `buckets` buckets that digests keys with the
    /// default hasher. A bucket count below 1 is refused.
    pub fn new(buckets: i32) -> (made: Result<Self, InvalidConfiguration>)
        ensures
            buckets >= 1 ==> made is Ok && made->Ok_0.bucket_count() == buckets,
            buckets < 1 ==> made == Err::<Self, InvalidConfiguration>(
                InvalidConfiguration { bucket_count: buckets },
            ),
    {
        Self::new_with_hash_builder(buckets, default_hash_builder())
    }
}

impl TryFrom<i32> for JumpConsistentHash<BuildHasherDefault<DefaultHasher>> {
    type Error = InvalidConfiguration;

    /// Converts a bucket count into an engine, as `new` does.
    fn try_from(buckets: i32) -> (made: Result<Self, InvalidConfiguration>)
        ensures
            buckets >= 1 ==> made is Ok && made->Ok_0.bucket_count() == buckets,
            buckets < 1 ==> made == Err::<Self, InvalidConfiguration>(
                InvalidConfiguration { bucket_count: buckets },
            ),
    {
        Self::new(buckets)
    }
}

impl TryFromSpecImpl<i32> for JumpConsistentHash<BuildHasherDefault<DefaultHasher>> {
    /// The engine that a conversion makes holds a hash builder of which
    /// nothing is known, so no spec function gives the engine. What the
    /// conversion returns is stated on `try_from` itself.
    open spec fn obeys_try_from_spec() -> bool {
        false
    }

    open spec fn try_from_spec(buckets: i32) -> Result<Self, InvalidConfiguration> {
        Err(InvalidConfiguration { bucket_count: buckets })
    }
}

} // verus!
