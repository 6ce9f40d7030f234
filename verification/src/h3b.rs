//! The three-bit estimator: a register store with levels in `[0, 7]`, a
//! cached active-substream count, and a generation that advances whenever
//! the store saturates.

pub mod sketch;

use vstd::prelude::*;

use crate::bits::{active, age_levels, lemma_active_le_len, lemma_active_zero, or_levels};
use crate::estimate::{
    bump_t, estimate, spec_alpha_threshold, spec_estimate, spec_merge_threshold,
};
use crate::HashStrategy;
use crate::AHasherDefaultBuilder;
use vstd::std_specs::bits::u64_trailing_ones;

pub use sketch::{Sketch, M1024, M128, M2048, M256, M4096, M512, M64};

verus! {

/// The abstract state of a three-bit estimator: the levels of the store, the
/// cached active count, and the generation.
pub ghost struct H3bState {
    pub levels: Seq<u8>,
    pub count: u32,
    pub t: u32,
}

/// The promotion half of an insertion: the digest picks a substream and the
/// trailing ones of the masked residual decide how far its level rises,
/// through seven generation-relative thresholds. The saturation check is
/// separate so that batched insertions could defer it.
pub open spec fn spec_promote(s: H3bState, hash: u64, shift: u32, mask: u64) -> H3bState {
    let k = (hash >> (shift as u64)) as int;
    let x = hash & mask;
    let tr = u64_trailing_ones(x) as int;
    let raise1 = tr >= s.t && s.levels[k] < 1;
    let l1 = if raise1 {
        s.levels.update(k, 1u8)
    } else {
        s.levels
    };
    let c1 = if raise1 {
        (s.count + 1) as u32
    } else {
        s.count
    };
    let l2 = if tr >= s.t + 4 && l1[k] < 2 {
        l1.update(k, 2u8)
    } else {
        l1
    };
    let l3 = if tr >= s.t + 8 && l2[k] < 3 {
        l2.update(k, 3u8)
    } else {
        l2
    };
    let l4 = if tr >= s.t + 16 && l3[k] < 4 {
        l3.update(k, 4u8)
    } else {
        l3
    };
    let l5 = if tr >= s.t + 32 && l4[k] < 5 {
        l4.update(k, 5u8)
    } else {
        l4
    };
    let l6 = if tr >= s.t + 64 && l5[k] < 6 {
        l5.update(k, 6u8)
    } else {
        l5
    };
    let l7 = if tr >= s.t + 128 && l6[k] < 7 {
        l6.update(k, 7u8)
    } else {
        l6
    };
    H3bState { levels: l7, count: c1, t: s.t }
}

/// The saturation half of an insertion: once the active count reaches the
/// threshold, every level drops by one and the generation advances by four.
pub open spec fn spec_saturate(s: H3bState, w: u32) -> H3bState {
    if s.count >= spec_alpha_threshold(w) {
        H3bState {
            levels: age_levels(s.levels),
            count: active(age_levels(s.levels)) as u32,
            t: bump_t(s.t),
        }
    } else {
        s
    }
}

/// One full insertion of a digest.
pub open spec fn spec_insert_hash(s: H3bState, hash: u64, w: u32, shift: u32, mask: u64) -> H3bState {
    spec_saturate(spec_promote(s, hash, shift, mask), w)
}

/// Merging two estimator states. The higher generation wins the identity; a
/// gap above eight discards the older state; a nearly full receiver is aged
/// first; equal generations or-merge, unequal ones shift the older store
/// down one generation step.
pub open spec fn spec_merge(a: H3bState, b: H3bState, w: u32) -> H3bState {
    let x = if b.t > a.t {
        b
    } else {
        a
    };
    let y = if b.t > a.t {
        a
    } else {
        b
    };
    if x.t - y.t > 8 {
        x
    } else {
        let same = x.t == y.t;
        let x1 = if x.count >= spec_merge_threshold(w) {
            H3bState {
                levels: age_levels(x.levels),
                count: active(age_levels(x.levels)) as u32,
                t: bump_t(x.t),
            }
        } else {
            x
        };
        let merged = if same {
            or_levels(x1.levels, y.levels)
        } else {
            Seq::new(x1.levels.len(), |i: int| sketch::merge_down3(x1.levels[i], y.levels[i]))
        };
        H3bState { levels: merged, count: active(merged) as u32, t: x1.t }
    }
}

/// A `HyperThreeBits` counter estimates the number of distinct values
/// inserted into it, in constant memory. It trades one extra bit per
/// substream against the two-bit variant for more headroom per generation.
#[derive(Debug, Eq, PartialEq, Hash, Clone)]
pub struct HyperThreeBits<SKETCH: Sketch = M256, HASH: HashStrategy = AHasherDefaultBuilder> {
    hash: HASH,
    sketch: SKETCH,
    count: u32,
    t: u32,
}

impl<SKETCH: Sketch, HASH: HashStrategy> View for HyperThreeBits<SKETCH, HASH> {
    type V = H3bState;

    closed spec fn view(&self) -> H3bState {
        H3bState { levels: self.sketch.levels(), count: self.count, t: self.t }
    }
}

impl<SKETCH: Sketch> Default for HyperThreeBits<SKETCH> {
    /// A counter over the default hash strategy.
    fn default() -> (d: Self)
        ensures
            d.inv(),
            d@.levels == Seq::new(SKETCH::spec_streams() as nat, |i: int| 0u8),
            d@.count == 0,
            d@.t == 1,
    {
        Self::new()
    }
}

impl<HASH: HashStrategy + core::default::Default, BITS: Sketch> HyperThreeBits<BITS, HASH> {
    /// The cached count always equals the number of active substreams, and
    /// the generation never falls below its starting value.
    pub closed spec fn inv(&self) -> bool {
        &&& self.count == active(self.sketch.levels())
        &&& self.t >= 1
    }

    /// The observable identity of the owned hash strategy.
    pub closed spec fn hash_key(&self) -> u64 {
        self.hash.key()
    }

    /// Creates a zeroed counter at the first generation.
    pub fn new() -> (s: Self)
        ensures
            s.inv(),
            s@.levels == Seq::new(BITS::spec_streams() as nat, |i: int| 0u8),
            s@.count == 0,
            s@.t == 1,
    {
        let s = Self { hash: HASH::default(), sketch: BITS::new(), count: 0, t: 1 };
        proof {
            lemma_active_zero(s.sketch.levels());
        }
        s
    }

    /// Merges another counter into this one, consuming it.
    ///
    /// The two counters must use observably identical hash strategies:
    /// sketches built with unrelated hash functions are meaningless to
    /// combine, so the contract refuses them.
    pub fn merge(&mut self, other: Self)
        requires
            old(self).inv(),
            other.inv(),
            old(self).hash_key() == other.hash_key(),
        ensures
            final(self).inv(),
            final(self)@ == spec_merge(old(self)@, other@, BITS::spec_streams()),
            final(self).hash_key() == old(self).hash_key(),
    {
        let mut other = other;
        proof {
            self.sketch.facts();
            other.sketch.facts();
        }
        // the paper asks for action when the sketch is "nearly full"; assume
        // 99% of the substreams being set is "nearly full"
        let threshold: u32 = (BITS::streams() * 99) / 100;
        // for simplicity, ensure that `self` always has the larger generation
        if other.t > self.t {
            core::mem::swap(self, &mut other);
        }
        // if the generations differ by more than 8, the older sketch is too
        // coarse to contribute: keep the newer one unchanged
        if self.t - other.t > 8 {
            return ;
        }
        // remember whether the generations matched before making room
        let same = self.t == other.t;
        if self.count >= threshold {
            self.count = self.sketch.decrement();
            self.t = if self.t <= u32::MAX - 4 {
                self.t + 4
            } else {
                u32::MAX
            };
        }
        if same {
            // merge the sketches plane-wise
            self.sketch.merge(&other.sketch);
        } else {
            // merge the high bits of other into the low bits of self
            self.sketch.merge_high_into_lo(&other.sketch);
        }
        // update the cached count
        self.count = self.sketch.count();
    }

    /// Inserts a value into the counter.
    pub fn insert<V: core::hash::Hash + ?Sized>(&mut self, value: &V)
        requires
            old(self).inv(),
        ensures
            final(self).inv(),
            exists|h: u64|
                final(self)@ == spec_insert_hash(
                    old(self)@,
                    h,
                    BITS::spec_streams(),
                    BITS::spec_idx_shift(),
                    BITS::spec_hash_mask(),
                ),
            final(self).hash_key() == old(self).hash_key(),
    {
        let hash = self.hash.digest(value);
        self.insert_hash(hash);
    }

    /// Inserts a pre-computed 64-bit digest into the counter.
    pub fn insert_hash(&mut self, hash: u64)
        requires
            old(self).inv(),
        ensures
            final(self).inv(),
            final(self)@ == spec_insert_hash(
                old(self)@,
                hash,
                BITS::spec_streams(),
                BITS::spec_idx_shift(),
                BITS::spec_hash_mask(),
            ),
            final(self).hash_key() == old(self).hash_key(),
    {
        proof {
            self.sketch.facts();
            lemma_active_le_len(self.sketch.levels());
        }
        let threshold: u32 = (BITS::streams() * 988) / 1000;
        // use the most significant bits to pick the substream, the rest as
        // the residual
        let shift = BITS::idx_shift() as u64;
        let stream: u32 = (hash >> shift) as u32;
        let x: u64 = hash & BITS::hash_mask();
        let ghost levels0 = self.sketch.levels();
        if x.trailing_ones() >= self.t && self.sketch.val(stream) < 1 {
            self.count = self.count + 1;
            self.sketch.set(stream, 1);
        }
        // one level for each further power of rarity
        if (x.trailing_ones() as u64) >= (self.t as u64) + 4 && self.sketch.val(stream) < 2 {
            self.sketch.set(stream, 2);
        }
        if (x.trailing_ones() as u64) >= (self.t as u64) + 8 && self.sketch.val(stream) < 3 {
            self.sketch.set(stream, 3);
        }
        if (x.trailing_ones() as u64) >= (self.t as u64) + 16 && self.sketch.val(stream) < 4 {
            self.sketch.set(stream, 4);
        }
        if (x.trailing_ones() as u64) >= (self.t as u64) + 32 && self.sketch.val(stream) < 5 {
            self.sketch.set(stream, 5);
        }
        if (x.trailing_ones() as u64) >= (self.t as u64) + 64 && self.sketch.val(stream) < 6 {
            self.sketch.set(stream, 6);
        }
        if (x.trailing_ones() as u64) >= (self.t as u64) + 128 && self.sketch.val(stream) < 7 {
            self.sketch.set(stream, 7);
        }
        proof {
            lemma_active_promote(levels0, self.sketch.levels(), stream as int);
        }
        if self.count >= threshold {
            self.count = self.sketch.decrement();
            self.t = if self.t <= u32::MAX - 4 {
                self.t + 4
            } else {
                u32::MAX
            };
        }
    }

    /// Returns the estimated number of distinct values inserted so far. Non
    /// destructive: it can be called any number of times.
    pub fn count(&self) -> (r: u64)
        requires
            self.inv(),
        ensures
            r == spec_estimate(BITS::spec_streams(), self@.count, self@.t),
    {
        proof {
            self.sketch.facts();
            lemma_active_le_len(self.sketch.levels());
        }
        estimate(BITS::streams(), self.count, self.t)
    }
}

/// Law: inserting the exact same digest twice never decreases the estimate,
/// and never increments the active count for a substream that is already
/// active. The one family of inputs left out is a second insertion that
/// itself saturates the store: aging rescales the whole state there.
pub proof fn lemma_insert_idempotent(
    s: H3bState,
    s1: H3bState,
    s2: H3bState,
    hash: u64,
    w: u32,
    shift: u32,
    mask: u64,
)
    requires
        s.count == active(s.levels),
        s.levels.len() == w,
        2 <= w <= 4096,
        (hash >> (shift as u64)) < w as u64,
        s1 == spec_insert_hash(s, hash, w, shift, mask),
        s2 == spec_insert_hash(s1, hash, w, shift, mask),
        spec_promote(s1, hash, shift, mask).count < spec_alpha_threshold(w),
    ensures
        s2.t == s1.t,
        s1.count <= s2.count,
        spec_estimate(w, s2.count, s2.t) >= spec_estimate(w, s1.count, s1.t),
        s1.levels[(hash >> (shift as u64)) as int] != 0 ==> s2.count == s1.count,
{
    let k = (hash >> (shift as u64)) as int;
    let p1 = spec_promote(s, hash, shift, mask);
    lemma_active_le_len(s.levels);
    lemma_active_promote(s.levels, p1.levels, k);
    assert(p1.count == active(p1.levels));
    if p1.count >= spec_alpha_threshold(w) {
        lemma_active_le_len(age_levels(p1.levels));
        assert(s1.count == active(s1.levels));
    }
    lemma_active_le_len(s1.levels);
    let p2 = spec_promote(s1, hash, shift, mask);
    lemma_active_promote(s1.levels, p2.levels, k);
    assert(s2 == p2);
    assert(p2.count == active(p2.levels));
    lemma_active_le_len(p2.levels);
    crate::estimate::lemma_estimate_mono(w, s1.count, s2.count, s1.t);
}

/// A promotion touches one substream and never lowers it, so the active
/// count grows exactly when that substream rises from zero.
proof fn lemma_active_promote(before: Seq<u8>, after: Seq<u8>, k: int)
    requires
        0 <= k < before.len(),
        after.len() == before.len(),
        forall|i: int| 0 <= i < before.len() && i != k ==> after[i] == before[i],
        after[k] != 0 || after[k] == before[k],
    ensures
        before[k] != 0 || after[k] == before[k] ==> active(after) == active(before),
        before[k] == 0 && after[k] != 0 ==> active(after) == active(before) + 1,
    decreases before.len(),
{
    if before.len() > 0 {
        if k == before.len() - 1 {
            assert(after.drop_last() =~= before.drop_last());
        } else {
            lemma_active_promote(before.drop_last(), after.drop_last(), k);
            assert(after.last() == before.last());
        }
    }
}

} // verus!
