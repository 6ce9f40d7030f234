//! Scenario tests for the estimators: exact digest-level insertions, merges,
//! aging, duplicate handling, hash-strategy compatibility, and exact values
//! of the fixed-point estimation formula.

use hypertwobits::estimate::{estimate, estimate64};
use hypertwobits::h2b::{HyperTwoBits, M512 as H2bM512, M64 as H2bM64, Sketch as H2bSketch, M64};
use hypertwobits::h3b::{HyperThreeBits, M512 as H3bM512};
use hypertwobits::hbb64::HyperBitBit64;
use hypertwobits::{AHasherBuilder, HashStrategy, SipHasher13Builder, SipHasher13DefaultBuilder};

// A digest for a 512-substream sketch: the top 9 bits pick the substream,
// the residual is the rest.
fn digest512(stream: u64, residual: u64) -> u64 {
    (stream << 55) | residual
}

#[test]
fn insert_hash_counts_distinct_streams() {
    let mut e: HyperTwoBits<H2bM512> = HyperTwoBits::default();
    assert_eq!(e.count(), 0);
    // residual 1 has one trailing one: enough for level 1 at generation 1
    e.insert_hash(digest512(0, 1));
    assert_eq!(e.count(), 2);
    e.insert_hash(digest512(1, 1));
    assert_eq!(e.count(), 4);
    // the same digest again changes nothing
    e.insert_hash(digest512(0, 1));
    assert_eq!(e.count(), 4);
    // an even residual has no trailing ones and cannot promote
    e.insert_hash(digest512(2, 2));
    assert_eq!(e.count(), 4);
}

#[test]
fn insert_hash_counts_distinct_streams_3b() {
    let mut e: HyperThreeBits<H3bM512> = HyperThreeBits::default();
    assert_eq!(e.count(), 0);
    e.insert_hash(digest512(0, 1));
    assert_eq!(e.count(), 2);
    e.insert_hash(digest512(1, 1));
    assert_eq!(e.count(), 4);
    e.insert_hash(digest512(0, 1));
    assert_eq!(e.count(), 4);
}

#[test]
fn merge_unions_compatible_counters() {
    let mut a: HyperTwoBits<H2bM512> = HyperTwoBits::default();
    a.insert_hash(digest512(0, 1));
    let mut b: HyperTwoBits<H2bM512> = HyperTwoBits::default();
    b.insert_hash(digest512(1, 1));
    a.merge(b);
    assert_eq!(a.count(), 4);
}

#[test]
fn merge_is_idempotent_on_overlap() {
    let mut a: HyperTwoBits<H2bM512> = HyperTwoBits::default();
    a.insert_hash(digest512(0, 1));
    a.insert_hash(digest512(1, 1));
    let mut b: HyperTwoBits<H2bM512> = HyperTwoBits::default();
    b.insert_hash(digest512(1, 1));
    a.merge(b);
    assert_eq!(a.count(), 4);
}

#[test]
fn sketch_merge_takes_the_max() {
    // disjoint and nested level assignments: the or-merge is the maximum
    let mut a = M64::default();
    H2bSketch::set(&mut a, 0, 1);
    H2bSketch::set(&mut a, 1, 3);
    let mut b = M64::default();
    H2bSketch::set(&mut b, 1, 1);
    H2bSketch::set(&mut b, 2, 2);
    H2bSketch::merge(&mut a, &b);
    assert_eq!(H2bSketch::val(&a, 0), 1);
    assert_eq!(H2bSketch::val(&a, 1), 3);
    assert_eq!(H2bSketch::val(&a, 2), 2);
    assert_eq!(H2bSketch::val(&a, 3), 0);
}

#[test]
fn fresh_counter_scenario() {
    // a fresh 2-bit, width-512 counter over the deterministic strategy
    let mut e: HyperTwoBits<H2bM512, SipHasher13DefaultBuilder> = HyperTwoBits::new();
    assert_eq!(e.count(), 0);
    e.insert(&"foo");
    assert_eq!(e.count(), 2);
    e.insert(&"bar");
    assert_eq!(e.count(), 4);
    // inserting "foo" again must not change the count
    e.insert(&"foo");
    assert_eq!(e.count(), 4);
}

#[test]
fn duplicate_insert_never_shrinks_the_count() {
    let mut e: HyperTwoBits<H2bM512, SipHasher13DefaultBuilder> = HyperTwoBits::new();
    e.insert(&"foo");
    let after_first = e.count();
    e.insert(&"foo");
    assert_eq!(e.count(), after_first);
    e.insert(&"bar");
    let after_second = e.count();
    assert!(after_second >= after_first);
    e.insert(&"foo");
    assert_eq!(e.count(), after_second);
}

#[test]
fn saturation_ages_the_store() {
    // 64 substreams saturate at floor(0.988 * 64) = 63 active entries
    let mut e: HyperTwoBits<H2bM64> = HyperTwoBits::default();
    for k in 0..62u64 {
        e.insert_hash((k << 58) | 1);
    }
    assert_eq!(e.count(), 443);
    // the 63rd active substream crosses the threshold: every level drops
    // from 1 to 0 and the generation moves from 1 to 5
    e.insert_hash((62u64 << 58) | 1);
    assert_eq!(e.count(), 0);
}

#[test]
fn independently_seeded_strategies_are_incompatible() {
    // merging requires observably identical strategies; two freshly seeded
    // instances disagree already on a single probe digest
    let a = AHasherBuilder::default();
    let b = AHasherBuilder::default();
    assert_ne!(a.digest(&42u64), b.digest(&42u64));
    let c = SipHasher13Builder::default();
    let d = SipHasher13Builder::default();
    assert_ne!(c.digest(&42u64), d.digest(&42u64));
}

#[test]
fn hbb64_duplicate_insert_is_stable() {
    let mut e: HyperBitBit64 = HyperBitBit64::default();
    e.insert("foo");
    let c = e.count();
    e.insert("foo");
    assert_eq!(e.count(), c);
    e.insert("bar");
    assert!(e.count() >= c);
}

#[test]
fn estimate_formula_exact_values() {
    // 2^t * w * ln(w / (w - c)), truncated
    assert_eq!(estimate(512, 0, 1), 0);
    assert_eq!(estimate(512, 1, 1), 2);
    assert_eq!(estimate(512, 2, 1), 4);
    assert_eq!(estimate(512, 3, 1), 6);
    assert_eq!(estimate(512, 5, 1), 10);
    assert_eq!(estimate(2048, 100, 1), 205);
    assert_eq!(estimate(2048, 1000, 5), 43907);
    assert_eq!(estimate(4096, 4000, 9), 7871488);
    assert_eq!(estimate(256, 100, 1), 253);
    assert_eq!(estimate(64, 61, 1), 391);
    // a full store saturates the estimate
    assert_eq!(estimate(512, 512, 1), u64::MAX);
    // an enormous generation saturates it too
    assert_eq!(estimate(512, 1, 100), u64::MAX);
}

#[test]
fn estimate64_formula_exact_values() {
    // u * 64 * 1.1 * ln(64 / (64 - c1)), truncated
    assert_eq!(estimate64(1, 0), 0);
    assert_eq!(estimate64(1, 1), 1);
    assert_eq!(estimate64(1, 10), 11);
    assert_eq!(estimate64(4, 30), 178);
    assert_eq!(estimate64(16, 62), 3903);
    assert_eq!(estimate64(1, 63), 292);
    assert_eq!(estimate64(1, 64), u64::MAX);
}

#[test]
fn insert2_and_insert4_match_single_inserts() {
    let mut one: HyperTwoBits<H2bM512> = HyperTwoBits::default();
    one.insert(&"a");
    one.insert(&"b");
    one.insert(&"c");
    one.insert(&"d");
    let mut two: HyperTwoBits<H2bM512> = HyperTwoBits::default();
    two.insert2(&"a", &"b");
    two.insert2(&"c", &"d");
    let mut four: HyperTwoBits<H2bM512> = HyperTwoBits::default();
    four.insert4(&"a", &"b", &"c", &"d");
    // far from saturation, the batched inserts reach the same state
    assert_eq!(one.count(), two.count());
    assert_eq!(one.count(), four.count());
}
