//! A lighter-weight cardinality counter with a fixed 64 substreams: two
//! single-bit planes kept for the current and the next generation, rotated
//! whenever the current one saturates.

use vstd::prelude::*;

use crate::bits::{bit64, lemma_pop64_le, pop64};
use crate::estimate::{estimate64, spec_estimate64};
use crate::HashStrategy;
use crate::AHasherDefaultBuilder;

verus! {

/// The abstract state of a `HyperBitBit64` counter.
pub ghost struct Hbb64State {
    pub sketch1: u64,
    pub sketch2: u64,
    pub count1: u64,
    pub count2: u64,
    pub u: u64,
}

/// One insertion of a digest: the top bits pick a substream, and the low
/// bits are tested against the current and the next power-of-two rarity
/// mask; when the current plane saturates, the next plane takes its place
/// and the rarity baseline is multiplied by four. The baseline stops growing
/// at the top of its range, far beyond any reachable stream.
pub open spec fn spec_insert64(s: Hbb64State, x: u64) -> Hbb64State {
    let k = (x >> 58u64) % 64;
    let low = x & 0x03ff_ffff_ffff_ffff;
    let hit1 = low & ((s.u - 1) as u64) == (s.u - 1) as u64;
    let fresh1 = hit1 && s.sketch1 & (1u64 << k) == 0;
    let sketch1 = if hit1 {
        s.sketch1 | (1u64 << k)
    } else {
        s.sketch1
    };
    let count1 = if fresh1 {
        (s.count1 + 1) as u64
    } else {
        s.count1
    };
    let mask2 = ((s.u - 1) * 4 + 3) as u64;
    let hit2 = low & mask2 == mask2;
    let fresh2 = hit2 && s.sketch2 & (1u64 << k) == 0;
    let sketch2 = if hit2 {
        s.sketch2 | (1u64 << k)
    } else {
        s.sketch2
    };
    let count2 = if fresh2 {
        (s.count2 + 1) as u64
    } else {
        s.count2
    };
    if count1 >= 62 && s.u <= 0x1000_0000_0000_0000 {
        Hbb64State {
            sketch1: sketch2,
            sketch2: 0,
            count1: count2,
            count2: 0,
            u: (s.u * 4) as u64,
        }
    } else {
        Hbb64State { sketch1, sketch2, count1, count2, u: s.u }
    }
}

/// A `HyperBitBit64` cardinality counter with 64 substreams.
#[derive(Debug, Eq, PartialEq, Hash, Clone)]
pub struct HyperBitBit64<HASH: HashStrategy = AHasherDefaultBuilder> {
    hash: HASH,
    sketch1: u64,
    sketch2: u64,
    count1: u64,
    count2: u64,
    u: u64,
}

impl<HASH: HashStrategy> View for HyperBitBit64<HASH> {
    type V = Hbb64State;

    closed spec fn view(&self) -> Hbb64State {
        Hbb64State {
            sketch1: self.sketch1,
            sketch2: self.sketch2,
            count1: self.count1,
            count2: self.count2,
            u: self.u,
        }
    }
}

impl<HASH: HashStrategy + core::default::Default> Default for HyperBitBit64<HASH> {
    fn default() -> (d: Self)
        ensures
            d.inv(),
            d@ == (Hbb64State { sketch1: 0, sketch2: 0, count1: 0, count2: 0, u: 1 }),
    {
        Self::new()
    }
}

impl<HASH: HashStrategy + core::default::Default> HyperBitBit64<HASH> {
    /// The cached counts always equal the population of their planes, and
    /// the rarity baseline stays in range.
    pub closed spec fn inv(&self) -> bool {
        &&& self.count1 == pop64(self.sketch1, 64)
        &&& self.count2 == pop64(self.sketch2, 64)
        &&& 1 <= self.u <= 0x4000_0000_0000_0000
    }

    /// Creates an empty counter.
    pub fn new() -> (s: Self)
        ensures
            s.inv(),
            s@ == (Hbb64State { sketch1: 0, sketch2: 0, count1: 0, count2: 0, u: 1 }),
    {
        let s = Self {
            hash: HASH::default(),
            sketch1: 0,
            sketch2: 0,
            count1: 0,
            count2: 0,
            u: 1,
        };
        proof {
            lemma_pop64_zero(64);
        }
        s
    }

    /// Inserts a value into the counter.
    pub fn insert<V: core::hash::Hash>(&mut self, v: V)
        requires
            old(self).inv(),
        ensures
            final(self).inv(),
            exists|x: u64| final(self)@ == spec_insert64(old(self)@, x),
    {
        let x = self.hash.digest(&v);
        let k: u64 = (x >> 58u64) % 64;
        let low: u64 = x & 0x03ff_ffff_ffff_ffff;
        proof {
            lemma_pop64_le(self.sketch1, 64);
            lemma_pop64_le(self.sketch2, 64);
        }
        if low & (self.u - 1) == self.u - 1 {
            let ghost s1 = self.sketch1;
            if self.sketch1 & (1u64 << k) == 0 {
                self.count1 = self.count1 + 1;
            }
            self.sketch1 = self.sketch1 | (1u64 << k);
            proof {
                lemma_pop64_set_bit(s1, k);
            }
        }
        let mask2 = (self.u - 1) * 4 + 3;
        if low & mask2 == mask2 {
            let ghost s2 = self.sketch2;
            if self.sketch2 & (1u64 << k) == 0 {
                self.count2 = self.count2 + 1;
            }
            self.sketch2 = self.sketch2 | (1u64 << k);
            proof {
                lemma_pop64_set_bit(s2, k);
            }
        }
        if self.count1 >= 62 && self.u <= 0x1000_0000_0000_0000 {
            self.u = self.u * 4;
            self.sketch1 = self.sketch2;
            self.count1 = self.count2;
            self.sketch2 = 0;
            self.count2 = 0;
            proof {
                lemma_pop64_zero(64);
            }
        }
        proof {
            assert(self@ == spec_insert64(old(self)@, x));
        }
    }

    /// Returns the cardinality estimate. Non destructive: it can be called
    /// any number of times.
    pub fn count(&self) -> (r: u64)
        requires
            self.inv(),
        ensures
            r == spec_estimate64(self@.u, self@.count1 as u32),
    {
        proof {
            lemma_pop64_le(self.sketch1, 64);
        }
        estimate64(self.u, self.count1 as u32)
    }
}

/// An empty plane has no set bits.
proof fn lemma_pop64_zero(n: nat)
    ensures
        pop64(0, n) == 0,
    decreases n,
{
    if n > 0 {
        lemma_pop64_zero((n - 1) as nat);
        assert(forall|j: u64| (0u64 >> j) & 1 == 0) by (bit_vector);
    }
}

/// Setting one bit raises the population exactly when the bit was clear.
proof fn lemma_pop64_set_bit(s: u64, k: u64)
    requires
        k < 64,
    ensures
        s & (1u64 << k) == 0 ==> pop64(s | (1u64 << k), 64) == pop64(s, 64) + 1,
        s & (1u64 << k) != 0 ==> (s | (1u64 << k)) == s,
{
    assert((forall|j: u64|
        j < 64 && j != k ==> bit64(s | (1u64 << k), j) == bit64(s, j)) && bit64(s | (1u64 << k), k)
        && (s & (1u64 << k) == 0 ==> !bit64(s, k)) && (s & (1u64 << k) != 0 ==> (s | (1u64 << k))
        == s)) by (bit_vector)
        requires
            k < 64,
    ;
    if s & (1u64 << k) == 0 {
        lemma_pop64_one_bit(s, s | (1u64 << k), k, 64);
    }
}

/// Populations of two words that differ only in one set bit.
proof fn lemma_pop64_one_bit(a: u64, b: u64, k: u64, n: nat)
    requires
        k < 64,
        n <= 64,
        forall|j: u64| j < 64 && j != k ==> bit64(a, j) == bit64(b, j),
        !bit64(a, k),
        bit64(b, k),
    ensures
        k < n ==> pop64(b, n) == pop64(a, n) + 1,
        k >= n ==> pop64(b, n) == pop64(a, n),
    decreases n,
{
    if n > 0 {
        lemma_pop64_one_bit(a, b, k, (n - 1) as nat);
    }
}

} // verus!
