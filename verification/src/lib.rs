//! Approximate count-distinct (cardinality) sketches in bounded memory.
//!
//! The crate offers two families of estimators: a two-bit-per-substream
//! sketch and a three-bit-per-substream sketch, each generic over the number
//! of substreams, plus a small fixed sixty-four-substream variant. Hashing is
//! pluggable: any [`HashStrategy`] turns a hashable value into the 64-bit
//! digest the estimators consume.

pub mod bits;
pub mod estimate;
pub mod h2b;
pub mod h3b;
pub mod hbb64;
pub mod prelude;

use vstd::prelude::*;

verus! {

/// A pluggable strategy that turns a hashable value into a 64-bit digest.
///
/// Two strategies are merge-compatible exactly when their `key` values agree:
/// such strategies produce the same digest for the same value.
pub trait HashStrategy: Sized {
    /// The observable identity of this strategy: strategies with equal keys
    /// digest equal values equally.
    spec fn key(&self) -> u64;

    /// Produces the 64-bit digest of `value`.
    fn digest<V: core::hash::Hash + ?Sized>(&self, value: &V) -> u64;
}

/// Relies on `rand::random`: a fresh pseudo-random 64-bit seed. Nothing is
/// promised of its value.
#[verifier::external_body]
fn random_seed() -> u64 {
    rand::random()
}

/// Relies on `ahash::AHasher` fed a seed before the value: the digest
/// depends on the seed, the value and the machine. Nothing is promised of
/// it.
#[verifier::external_body]
fn ahash_seeded_digest<V: core::hash::Hash + ?Sized>(state: u64, value: &V) -> u64 {
    let mut h = ahash::AHasher::default();
    core::hash::Hasher::write_u64(&mut h, state);
    core::hash::Hash::hash(value, &mut h);
    core::hash::Hasher::finish(&h)
}

/// Relies on `ahash::AHasher::default`: the digest depends on the value and
/// the machine alone. Nothing is promised of it.
#[verifier::external_body]
fn ahash_default_digest<V: core::hash::Hash + ?Sized>(value: &V) -> u64 {
    let mut h = ahash::AHasher::default();
    core::hash::Hash::hash(value, &mut h);
    core::hash::Hasher::finish(&h)
}

/// Relies on `siphasher::sip::SipHasher13` fed a seed before the value: the
/// digest depends on the seed and the value. Nothing is promised of it.
#[verifier::external_body]
fn siphash_seeded_digest<V: core::hash::Hash + ?Sized>(state: u64, value: &V) -> u64 {
    let mut h = siphasher::sip::SipHasher13::default();
    core::hash::Hasher::write_u64(&mut h, state);
    core::hash::Hash::hash(value, &mut h);
    core::hash::Hasher::finish(&h)
}

/// Relies on `siphasher::sip::SipHasher13::default`: the digest depends on
/// the value alone. Nothing is promised of it.
#[verifier::external_body]
fn siphash_default_digest<V: core::hash::Hash + ?Sized>(value: &V) -> u64 {
    let mut h = siphasher::sip::SipHasher13::default();
    core::hash::Hash::hash(value, &mut h);
    core::hash::Hasher::finish(&h)
}

/// Randomly seeded `AHasher` strategy: every instance draws its own seed, so
/// independently created instances are not merge-compatible.
#[derive(Debug, Eq, PartialEq, Hash, Clone)]
pub struct AHasherBuilder {
    state: u64,
}

impl Default for AHasherBuilder {
    fn default() -> Self {
        AHasherBuilder { state: random_seed() }
    }
}

impl HashStrategy for AHasherBuilder {
    closed spec fn key(&self) -> u64 {
        self.state
    }

    fn digest<V: core::hash::Hash + ?Sized>(&self, value: &V) -> u64 {
        ahash_seeded_digest(self.state, value)
    }
}

/// Unseeded `AHasher` strategy: faster to set up and completely predictable
/// within a process, so all instances are merge-compatible.
#[derive(Debug, Eq, PartialEq, Hash, Clone)]
pub struct AHasherDefaultBuilder;

impl Default for AHasherDefaultBuilder {
    fn default() -> (d: Self)
        ensures
            d == AHasherDefaultBuilder,
    {
        AHasherDefaultBuilder
    }
}

impl HashStrategy for AHasherDefaultBuilder {
    closed spec fn key(&self) -> u64 {
        0
    }

    fn digest<V: core::hash::Hash + ?Sized>(&self, value: &V) -> u64 {
        ahash_default_digest(value)
    }
}

/// Randomly seeded `SipHasher13` strategy.
#[derive(Debug, Eq, PartialEq, Hash, Clone)]
pub struct SipHasher13Builder {
    state: u64,
}

impl Default for SipHasher13Builder {
    fn default() -> Self {
        SipHasher13Builder { state: random_seed() }
    }
}

impl HashStrategy for SipHasher13Builder {
    closed spec fn key(&self) -> u64 {
        self.state
    }

    fn digest<V: core::hash::Hash + ?Sized>(&self, value: &V) -> u64 {
        siphash_seeded_digest(self.state, value)
    }
}

/// Unseeded `SipHasher13` strategy: predictable, and merge-compatible across
/// instances.
#[derive(Debug, Eq, PartialEq, Hash, Clone)]
pub struct SipHasher13DefaultBuilder;

impl Default for SipHasher13DefaultBuilder {
    fn default() -> (d: Self)
        ensures
            d == SipHasher13DefaultBuilder,
    {
        SipHasher13DefaultBuilder
    }
}

impl HashStrategy for SipHasher13DefaultBuilder {
    closed spec fn key(&self) -> u64 {
        0
    }

    fn digest<V: core::hash::Hash + ?Sized>(&self, value: &V) -> u64 {
        siphash_default_digest(value)
    }
}

} // verus!
