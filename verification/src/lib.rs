//! Jump consistent hashing: a key is mapped to one of `n` numbered buckets so
//! that growing `n` by one moves keys only into the new bucket.
//!
//! The bucket of a key is found in two steps. A hash builder turns the key into
//! a 64-bit digest. The digest then seeds a pseudo-random sequence of candidate
//! buckets that never falls back, and the last candidate below `n` is the
//! bucket. Nothing is stored between calls.
//!
//! # Arithmetic
//!
//! A jump multiplies and divides in single precision: 24 significant bits,
//! rounded to the nearest value and half way to the even one. The library
//! computes these values in whole numbers, so that every step has an exact
//! statement.
//!
//! Up to `2^24` buckets every candidate and its successor are single-precision
//! values as they stand, and every jump moves on. Beyond that the successor of
//! a candidate is rounded, and a jump may stay where it is. It still never
//! falls back, and the generator never keeps it in place for ever, so the
//! bucket is found, lies below `n` and moves to new buckets only, for every
//! `n` up to the largest `i32`.
//!
//! # Modules
//!
//! - [`engine`]: the engine, with its construction and the lookup of a key.
//! - [`sequence`]: the sequence of candidates, the bucket that it selects, and
//!   what holds of that bucket.
//! - [`jump`]: one jump.
//! - [`single`]: rounding to single precision.
//! - [`lcg`]: the generator.
pub mod engine;
pub mod jump;
pub mod lcg;
pub mod sequence;
pub mod single;

pub use engine::{InvalidConfiguration, JumpConsistentHash};
