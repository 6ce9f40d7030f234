//! Storage for the three-bit sketch: each substream holds a level in
//! `[0, 7]`, kept as three parallel bit planes.

use vstd::prelude::*;

use crate::bits::{
    active, age_levels, bit64, bit128, dec1, lemma_active_take_step, lemma_bit_or64,
    lemma_bit_or128, lemma_pop128_le, lemma_stream_bound, or_levels, pop64, pop128, popcount64,
    popcount128,
};

verus! {

/// The level encoded at index `i` by the three planes.
pub open spec fn lvl3_64(low: u64, middle: u64, high: u64, i: u64) -> u8 {
    (((if bit64(high, i) {
        4u8
    } else {
        0u8
    })) + (if bit64(middle, i) {
        2u8
    } else {
        0u8
    }) + (if bit64(low, i) {
        1u8
    } else {
        0u8
    })) as u8
}

/// All 64 levels encoded by three 64-bit planes.
pub open spec fn levels3_64(low: u64, middle: u64, high: u64) -> Seq<u8> {
    Seq::new(64, |i: int| lvl3_64(low, middle, high, i as u64))
}

/// The level encoded at index `i` by the three planes.
pub open spec fn lvl3_128(low: u128, middle: u128, high: u128, i: u128) -> u8 {
    (((if bit128(high, i) {
        4u8
    } else {
        0u8
    })) + (if bit128(middle, i) {
        2u8
    } else {
        0u8
    }) + (if bit128(low, i) {
        1u8
    } else {
        0u8
    })) as u8
}

/// All 128 levels encoded by three 128-bit planes.
pub open spec fn levels3_128(low: u128, middle: u128, high: u128) -> Seq<u8> {
    Seq::new(128, |i: int| lvl3_128(low, middle, high, i as u128))
}

/// Reinterpreting a one-generation-older store: its middle plane feeds our
/// low plane, its high plane our middle plane, our high plane stays.
pub open spec fn merge_down3(v: u8, w: u8) -> u8 {
    (v | ((w >> 1) & 3)) as u8
}

/// Sketch storage for the three-bit estimator. One implementation exists per
/// supported substream count, so that the estimator is generic without
/// branching on the width.
pub trait Sketch: Default + Sized {
    /// Number of substreams.
    spec fn spec_streams() -> u32;

    /// Mask keeping the digest bits that are not used for the substream index.
    spec fn spec_hash_mask() -> u64;

    /// How far the digest is shifted right to obtain the substream index.
    spec fn spec_idx_shift() -> u32;

    /// The levels of all substreams; the mathematical content of the store.
    spec fn levels(&self) -> Seq<u8>;

    /// Structural facts every implementation provides.
    proof fn facts(&self)
        ensures
            2 <= Self::spec_streams() <= 4096,
            Self::spec_idx_shift() < 64,
            self.levels().len() == Self::spec_streams(),
            forall|i: int| 0 <= i < self.levels().len() ==> self.levels()[i] <= 7,
            forall|h: u64|
                #[trigger] (h >> (Self::spec_idx_shift() as u64)) < Self::spec_streams() as u64,
    ;

    /// A zeroed store: every substream at level 0.
    fn new() -> (s: Self)
        ensures
            s.levels() == Seq::new(Self::spec_streams() as nat, |i: int| 0u8),
    ;

    /// Number of substreams.
    fn streams() -> (r: u32)
        ensures
            r == Self::spec_streams(),
    ;

    /// Mask keeping the digest bits that are not used for the substream index.
    fn hash_mask() -> (r: u64)
        ensures
            r == Self::spec_hash_mask(),
    ;

    /// How far the digest is shifted right to obtain the substream index.
    fn idx_shift() -> (r: u32)
        ensures
            r == Self::spec_idx_shift(),
    ;

    /// Fetches the level of substream `stream`.
    fn val(&self, stream: u32) -> (r: u8)
        requires
            stream < Self::spec_streams(),
        ensures
            r == self.levels()[stream as int],
    ;

    /// Sets the level of substream `stream` to `value`.
    fn set(&mut self, stream: u32, value: u8)
        requires
            stream < Self::spec_streams(),
            value <= 7,
        ensures
            final(self).levels() == old(self).levels().update(stream as int, value),
    ;

    /// Ages the store: every level drops by one, floored at zero. Returns the
    /// new number of active substreams. No closed-form bit trick covers eight
    /// levels, so the default walks the substreams; aging is rare enough for
    /// that to be acceptable.
    fn decrement(&mut self) -> (r: u32)
        ensures
            final(self).levels() == age_levels(old(self).levels()),
            r == active(final(self).levels()),
    {
        let ghost levels0 = self.levels();
        proof {
            self.facts();
        }
        let w = Self::streams();
        let mut stream: u32 = 0;
        while stream < w
            invariant
                stream <= w,
                w == Self::spec_streams(),
                self.levels().len() == levels0.len(),
                levels0.len() == w,
                forall|i: int| 0 <= i < stream ==> self.levels()[i] == dec1(levels0[i]),
                forall|i: int| stream <= i < w ==> self.levels()[i] == levels0[i],
            decreases w - stream,
        {
            proof {
                self.facts();
            }
            let value = self.val(stream);
            if value > 0 {
                self.set(stream, value - 1);
            }
            stream = stream + 1;
        }
        proof {
            assert(self.levels() =~= age_levels(levels0));
        }
        self.count()
    }

    /// Returns the number of substreams whose level is non-zero.
    fn count(&self) -> (r: u32)
        ensures
            r == active(self.levels()),
    ;

    /// Merges another store of the same generation: plane-wise or, which is
    /// the bitwise or of each pair of levels.
    fn merge(&mut self, other: &Self)
        ensures
            final(self).levels() == or_levels(old(self).levels(), other.levels()),
    ;

    /// Merges a store that is one generation behind: its middle plane is
    /// or-ed into our low plane, its high plane into our middle plane.
    fn merge_high_into_lo(&mut self, other: &Self)
        ensures
            final(self).levels() == Seq::new(
                old(self).levels().len(),
                |i: int| merge_down3(old(self).levels()[i], other.levels()[i]),
            ),
    ;
}

// ------------------------------------------------------------------
// Plane lemmas for one triple of 64-bit planes.
// ------------------------------------------------------------------
proof fn lemma_set3_64(l: u64, m: u64, h: u64, nl: u64, nm: u64, nh: u64, s: u64, v: u64)
    requires
        s < 64,
        v < 8,
        nh == (h & !(1u64 << s)) | (((v >> 2u64) & 1) << s),
        nm == (m & !(1u64 << s)) | (((v >> 1u64) & 1) << s),
        nl == (l & !(1u64 << s)) | ((v & 1) << s),
    ensures
        forall|j: u64|
            j < 64 && j != s ==> #[trigger] lvl3_64(nl, nm, nh, j) == lvl3_64(l, m, h, j),
        lvl3_64(nl, nm, nh, s) == v,
{
    assert((forall|j: u64|
        j < 64 && j != s ==> #[trigger] lvl3_64(nl, nm, nh, j) == lvl3_64(l, m, h, j)) && lvl3_64(
        nl,
        nm,
        nh,
        s,
    ) == v) by (bit_vector)
        requires
            s < 64,
            v < 8,
            nh == (h & !(1u64 << s)) | (((v >> 2u64) & 1) << s),
            nm == (m & !(1u64 << s)) | (((v >> 1u64) & 1) << s),
            nl == (l & !(1u64 << s)) | ((v & 1) << s),
    ;
}

proof fn lemma_or3_64(l1: u64, m1: u64, h1: u64, l2: u64, m2: u64, h2: u64, j: u64)
    requires
        j < 64,
    ensures
        lvl3_64(l1 | l2, m1 | m2, h1 | h2, j) == (lvl3_64(l1, m1, h1, j) | lvl3_64(
            l2,
            m2,
            h2,
            j,
        )) as u8,
{
    assert(lvl3_64(l1 | l2, m1 | m2, h1 | h2, j) == (lvl3_64(l1, m1, h1, j) | lvl3_64(
        l2,
        m2,
        h2,
        j,
    )) as u8) by (bit_vector);
}

proof fn lemma_mhl3_64(l1: u64, m1: u64, h1: u64, l2: u64, m2: u64, h2: u64, j: u64)
    requires
        j < 64,
    ensures
        lvl3_64(l1 | m2, m1 | h2, h1, j) == merge_down3(
            lvl3_64(l1, m1, h1, j),
            lvl3_64(l2, m2, h2, j),
        ),
{
    assert(lvl3_64(l1 | m2, m1 | h2, h1, j) == merge_down3(
        lvl3_64(l1, m1, h1, j),
        lvl3_64(l2, m2, h2, j),
    )) by (bit_vector);
}

/// Connects a popcount of the or of the planes with the number of active
/// levels they encode.
proof fn lemma_active3_64(l: u64, m: u64, h: u64, n: int)
    requires
        0 <= n <= 64,
    ensures
        active(levels3_64(l, m, h).take(n)) == pop64(l | m | h, n as nat),
    decreases n,
{
    if n > 0 {
        lemma_active3_64(l, m, h, n - 1);
        lemma_active_take_step(levels3_64(l, m, h), n);
        let j = (n - 1) as u64;
        lemma_bit_or64(l, m, j);
        lemma_bit_or64(l | m, h, j);
        assert(lvl3_64(l, m, h, j) == 0 <==> !(bit64(l, j) || bit64(m, j) || bit64(h, j)));
    }
}

/// M = 64, three 64-bit planes.
#[derive(Debug, Eq, PartialEq, Hash, Copy, Clone, Default)]
pub struct M64 {
    high: u64,
    middle: u64,
    low: u64,
}

impl Sketch for M64 {
    closed spec fn spec_streams() -> u32 {
        64
    }

    closed spec fn spec_hash_mask() -> u64 {
        0x03ff_ffff_ffff_ffff
    }

    closed spec fn spec_idx_shift() -> u32 {
        58
    }

    closed spec fn levels(&self) -> Seq<u8> {
        levels3_64(self.low, self.middle, self.high)
    }

    proof fn facts(&self)
    {
        assert forall|h: u64| #[trigger] (h >> (Self::spec_idx_shift() as u64))
            < Self::spec_streams() as u64 by {
            lemma_stream_bound(h, 58, 64);
        }
    }

    fn new() -> (s: Self)
    {
        let s = M64 { high: 0, middle: 0, low: 0 };
        proof {
            assert(forall|j: u64| (0u64 >> j) & 1 == 0) by (bit_vector);
            assert(s.levels() =~= Seq::new(Self::spec_streams() as nat, |i: int| 0u8));
        }
        s
    }

    fn streams() -> u32 {
        64
    }

    fn hash_mask() -> u64 {
        0x03ff_ffff_ffff_ffff
    }

    fn idx_shift() -> u32 {
        58
    }

    fn val(&self, stream: u32) -> (r: u8)
    {
        let s = stream as u64;
        let high_bit = ((self.high >> s) & 1) as u8;
        let middle_bit = ((self.middle >> s) & 1) as u8;
        let low_bit = ((self.low >> s) & 1) as u8;
        proof {
            let h = self.high;
            let m = self.middle;
            let l = self.low;
            assert(((((h >> s) & 1) as u8) << 2u8) | ((((m >> s) & 1) as u8) << 1u8) | (((l >> s)
                & 1) as u8) == lvl3_64(l, m, h, s)) by (bit_vector)
                requires
                    s < 64,
            ;
        }
        high_bit << 2u8 | middle_bit << 1u8 | low_bit
    }

    fn set(&mut self, stream: u32, value: u8)
    {
        let ghost l = self.low;
        let ghost m = self.middle;
        let ghost h = self.high;
        let s = stream as u64;
        let value = value as u64;
        let value_high_bit = (value >> 2u64) & 1;
        let value_middle_bit = (value >> 1u64) & 1;
        let value_low_bit = value & 1;
        // reset the bits at the index, then write the value's bits
        self.high = (self.high & !(1u64 << s)) | (value_high_bit << s);
        self.middle = (self.middle & !(1u64 << s)) | (value_middle_bit << s);
        self.low = (self.low & !(1u64 << s)) | (value_low_bit << s);
        proof {
            lemma_set3_64(l, m, h, self.low, self.middle, self.high, s, value);
            assert(self.levels() =~= levels3_64(l, m, h).update(stream as int, value as u8));
        }
    }

    fn count(&self) -> (r: u32)
    {
        let used_streams = self.low | self.middle | self.high;
        let r = popcount64(used_streams);
        proof {
            lemma_active3_64(self.low, self.middle, self.high, 64);
            assert(self.levels().take(64) =~= self.levels());
        }
        r
    }

    fn merge(&mut self, other: &Self)
    {
        let ghost l = self.low;
        let ghost m = self.middle;
        let ghost h = self.high;
        self.high = self.high | other.high;
        self.middle = self.middle | other.middle;
        self.low = self.low | other.low;
        proof {
            assert forall|j: int| 0 <= j < 64 implies self.levels()[j] == (levels3_64(l, m, h)[j]
                | other.levels()[j]) as u8 by {
                lemma_or3_64(l, m, h, other.low, other.middle, other.high, j as u64);
            }
            assert(self.levels() =~= or_levels(levels3_64(l, m, h), other.levels()));
        }
    }

    fn merge_high_into_lo(&mut self, other: &Self)
    {
        let ghost l = self.low;
        let ghost m = self.middle;
        let ghost h = self.high;
        self.low = self.low | other.middle;
        self.middle = self.middle | other.high;
        proof {
            assert forall|j: int| 0 <= j < 64 implies self.levels()[j] == merge_down3(
                levels3_64(l, m, h)[j],
                other.levels()[j],
            ) by {
                lemma_mhl3_64(l, m, h, other.low, other.middle, other.high, j as u64);
            }
            assert(self.levels() =~= Seq::new(
                levels3_64(l, m, h).len(),
                |i: int| merge_down3(levels3_64(l, m, h)[i], other.levels()[i]),
            ));
        }
    }
}

// ------------------------------------------------------------------
// Plane lemmas for one triple of 128-bit planes.
// ------------------------------------------------------------------
proof fn lemma_set3_128(l: u128, m: u128, h: u128, nl: u128, nm: u128, nh: u128, s: u128, v: u128)
    requires
        s < 128,
        v < 8,
        nh == (h & !(1u128 << s)) | (((v >> 2u128) & 1) << s),
        nm == (m & !(1u128 << s)) | (((v >> 1u128) & 1) << s),
        nl == (l & !(1u128 << s)) | ((v & 1) << s),
    ensures
        forall|j: u128|
            j < 128 && j != s ==> #[trigger] lvl3_128(nl, nm, nh, j) == lvl3_128(l, m, h, j),
        lvl3_128(nl, nm, nh, s) == v,
{
    assert((forall|j: u128|
        j < 128 && j != s ==> #[trigger] lvl3_128(nl, nm, nh, j) == lvl3_128(l, m, h, j))
        && lvl3_128(nl, nm, nh, s) == v) by (bit_vector)
        requires
            s < 128,
            v < 8,
            nh == (h & !(1u128 << s)) | (((v >> 2u128) & 1) << s),
            nm == (m & !(1u128 << s)) | (((v >> 1u128) & 1) << s),
            nl == (l & !(1u128 << s)) | ((v & 1) << s),
    ;
}

proof fn lemma_or3_128(l1: u128, m1: u128, h1: u128, l2: u128, m2: u128, h2: u128, j: u128)
    requires
        j < 128,
    ensures
        lvl3_128(l1 | l2, m1 | m2, h1 | h2, j) == (lvl3_128(l1, m1, h1, j) | lvl3_128(
            l2,
            m2,
            h2,
            j,
        )) as u8,
{
    assert(lvl3_128(l1 | l2, m1 | m2, h1 | h2, j) == (lvl3_128(l1, m1, h1, j) | lvl3_128(
        l2,
        m2,
        h2,
        j,
    )) as u8) by (bit_vector);
}

proof fn lemma_mhl3_128(l1: u128, m1: u128, h1: u128, l2: u128, m2: u128, h2: u128, j: u128)
    requires
        j < 128,
    ensures
        lvl3_128(l1 | m2, m1 | h2, h1, j) == merge_down3(
            lvl3_128(l1, m1, h1, j),
            lvl3_128(l2, m2, h2, j),
        ),
{
    assert(lvl3_128(l1 | m2, m1 | h2, h1, j) == merge_down3(
        lvl3_128(l1, m1, h1, j),
        lvl3_128(l2, m2, h2, j),
    )) by (bit_vector);
}

/// Connects a popcount of the or of the planes with the number of active
/// levels they encode.
proof fn lemma_active3_128(l: u128, m: u128, h: u128, n: int)
    requires
        0 <= n <= 128,
    ensures
        active(levels3_128(l, m, h).take(n)) == pop128(l | m | h, n as nat),
    decreases n,
{
    if n > 0 {
        lemma_active3_128(l, m, h, n - 1);
        lemma_active_take_step(levels3_128(l, m, h), n);
        let j = (n - 1) as u128;
        lemma_bit_or128(l, m, j);
        lemma_bit_or128(l | m, h, j);
        assert(lvl3_128(l, m, h, j) == 0 <==> !(bit128(l, j) || bit128(m, j) || bit128(h, j)));
    }
}

proof fn lemma_zero3_128()
    ensures
        forall|j: u128| #[trigger] lvl3_128(0, 0, 0, j) == 0u8,
{
    assert(forall|j: u128| #[trigger] lvl3_128(0, 0, 0, j) == 0u8) by (bit_vector);
}

/// M = 128, three 128-bit planes, taking advantage of wide registers.
#[derive(Debug, Eq, PartialEq, Hash, Copy, Clone, Default)]
pub struct M128 {
    low: u128,
    middle: u128,
    high: u128,
}

impl Sketch for M128 {
    closed spec fn spec_streams() -> u32 {
        128
    }

    closed spec fn spec_hash_mask() -> u64 {
        0x01ff_ffff_ffff_ffff
    }

    closed spec fn spec_idx_shift() -> u32 {
        57
    }

    closed spec fn levels(&self) -> Seq<u8> {
        levels3_128(self.low, self.middle, self.high)
    }

    proof fn facts(&self)
    {
        assert forall|h: u64| #[trigger] (h >> (Self::spec_idx_shift() as u64))
            < Self::spec_streams() as u64 by {
            lemma_stream_bound(h, 57, 128);
        }
    }

    fn new() -> (s: Self)
    {
        let s = M128 { low: 0, middle: 0, high: 0 };
        proof {
            lemma_zero3_128();
            assert(s.levels() =~= Seq::new(Self::spec_streams() as nat, |i: int| 0u8));
        }
        s
    }

    fn streams() -> u32 {
        128
    }

    fn hash_mask() -> u64 {
        0x01ff_ffff_ffff_ffff
    }

    fn idx_shift() -> u32 {
        57
    }

    fn val(&self, stream: u32) -> (r: u8)
    {
        let s = stream as u128;
        let high_bit = ((self.high >> s) & 1) as u8;
        let middle_bit = ((self.middle >> s) & 1) as u8;
        let low_bit = ((self.low >> s) & 1) as u8;
        proof {
            let h = self.high;
            let m = self.middle;
            let l = self.low;
            assert(((((h >> s) & 1) as u8) << 2u8) | ((((m >> s) & 1) as u8) << 1u8) | (((l >> s)
                & 1) as u8) == lvl3_128(l, m, h, s)) by (bit_vector)
                requires
                    s < 128,
            ;
        }
        high_bit << 2u8 | middle_bit << 1u8 | low_bit
    }

    fn set(&mut self, stream: u32, value: u8)
    {
        let ghost l = self.low;
        let ghost m = self.middle;
        let ghost h = self.high;
        let s = stream as u128;
        let value = value as u128;
        let value_high_bit = (value >> 2u128) & 1;
        let value_middle_bit = (value >> 1u128) & 1;
        let value_low_bit = value & 1;
        // reset the bits at the index, then write the value's bits
        self.high = (self.high & !(1u128 << s)) | (value_high_bit << s);
        self.middle = (self.middle & !(1u128 << s)) | (value_middle_bit << s);
        self.low = (self.low & !(1u128 << s)) | (value_low_bit << s);
        proof {
            lemma_set3_128(l, m, h, self.low, self.middle, self.high, s, value);
            assert(self.levels() =~= levels3_128(l, m, h).update(stream as int, value as u8));
        }
    }

    fn count(&self) -> (r: u32)
    {
        let used_streams = self.low | self.middle | self.high;
        let r = popcount128(used_streams);
        proof {
            lemma_active3_128(self.low, self.middle, self.high, 128);
            assert(self.levels().take(128) =~= self.levels());
        }
        r
    }

    fn merge(&mut self, other: &Self)
    {
        let ghost l = self.low;
        let ghost m = self.middle;
        let ghost h = self.high;
        self.high = self.high | other.high;
        self.middle = self.middle | other.middle;
        self.low = self.low | other.low;
        proof {
            assert forall|j: int| 0 <= j < 128 implies self.levels()[j] == (levels3_128(
                l,
                m,
                h,
            )[j] | other.levels()[j]) as u8 by {
                lemma_or3_128(l, m, h, other.low, other.middle, other.high, j as u128);
            }
            assert(self.levels() =~= or_levels(levels3_128(l, m, h), other.levels()));
        }
    }

    fn merge_high_into_lo(&mut self, other: &Self)
    {
        let ghost l = self.low;
        let ghost m = self.middle;
        let ghost h = self.high;
        self.low = self.low | other.middle;
        self.middle = self.middle | other.high;
        proof {
            assert forall|j: int| 0 <= j < 128 implies self.levels()[j] == merge_down3(
                levels3_128(l, m, h)[j],
                other.levels()[j],
            ) by {
                lemma_mhl3_128(l, m, h, other.low, other.middle, other.high, j as u128);
            }
            assert(self.levels() =~= Seq::new(
                levels3_128(l, m, h).len(),
                |i: int| merge_down3(levels3_128(l, m, h)[i], other.levels()[i]),
            ));
        }
    }
}

/// A register keeps the three planes of 128 substreams together for cache
/// locality inside the vectored stores.
#[derive(Default, Clone, Copy, Debug, Hash, Eq, PartialEq)]
struct BitRegister {
    high: u128,
    middle: u128,
    low: u128,
}

spec fn reg_levels3(r: BitRegister) -> Seq<u8> {
    levels3_128(r.low, r.middle, r.high)
}

spec fn all_levels3(regs: Seq<BitRegister>) -> Seq<u8>
    decreases regs.len(),
{
    if regs.len() == 0 {
        Seq::empty()
    } else {
        all_levels3(regs.drop_last()) + reg_levels3(regs.last())
    }
}

proof fn lemma_all3_len(regs: Seq<BitRegister>)
    ensures
        all_levels3(regs).len() == 128 * regs.len(),
    decreases regs.len(),
{
    if regs.len() > 0 {
        lemma_all3_len(regs.drop_last());
    }
}

proof fn lemma_all3_index(regs: Seq<BitRegister>, i: int)
    requires
        0 <= i < 128 * regs.len(),
    ensures
        all_levels3(regs)[i] == reg_levels3(regs[i / 128])[i % 128],
    decreases regs.len(),
{
    lemma_all3_len(regs);
    let prior = regs.drop_last();
    lemma_all3_len(prior);
    if i < 128 * prior.len() {
        lemma_all3_index(prior, i);
        assert(i / 128 < prior.len()) by (nonlinear_arith)
            requires
                0 <= i < 128 * prior.len(),
        ;
        assert(prior[i / 128] == regs[i / 128]);
        assert(all_levels3(regs)[i] == all_levels3(prior)[i]);
    } else {
        let k = regs.len() - 1;
        assert(i / 128 == k && i % 128 == i - 128 * k) by (nonlinear_arith)
            requires
                128 * k <= i < 128 * (k + 1),
        ;
        assert(all_levels3(regs)[i] == reg_levels3(regs.last())[i - 128 * prior.len()]);
    }
}

/// Appending one register appends its levels.
proof fn lemma_all3_push(regs: Seq<BitRegister>, r: BitRegister)
    ensures
        all_levels3(regs.push(r)) == all_levels3(regs) + reg_levels3(r),
{
    assert(regs.push(r).drop_last() =~= regs);
    assert(regs.push(r).last() == r);
}

spec fn or_reg3(a: BitRegister, b: BitRegister) -> BitRegister {
    BitRegister { high: a.high | b.high, middle: a.middle | b.middle, low: a.low | b.low }
}

spec fn mhl_reg3(a: BitRegister, b: BitRegister) -> BitRegister {
    BitRegister { high: a.high, middle: a.middle | b.high, low: a.low | b.middle }
}

proof fn lemma_reg_or3(a: BitRegister, b: BitRegister)
    ensures
        forall|j: int|
            0 <= j < 128 ==> #[trigger] reg_levels3(or_reg3(a, b))[j] == (reg_levels3(a)[j]
                | reg_levels3(b)[j]) as u8,
{
    assert forall|j: int| 0 <= j < 128 implies #[trigger] reg_levels3(or_reg3(a, b))[j] == (
    reg_levels3(a)[j] | reg_levels3(b)[j]) as u8 by {
        lemma_or3_128(a.low, a.middle, a.high, b.low, b.middle, b.high, j as u128);
    }
}

proof fn lemma_reg_mhl3(a: BitRegister, b: BitRegister)
    ensures
        forall|j: int|
            0 <= j < 128 ==> #[trigger] reg_levels3(mhl_reg3(a, b))[j] == merge_down3(
                reg_levels3(a)[j],
                reg_levels3(b)[j],
            ),
{
    assert forall|j: int| 0 <= j < 128 implies #[trigger] reg_levels3(mhl_reg3(a, b))[j]
        == merge_down3(reg_levels3(a)[j], reg_levels3(b)[j]) by {
        lemma_mhl3_128(a.low, a.middle, a.high, b.low, b.middle, b.high, j as u128);
    }
}

proof fn lemma_reg_active3(a: BitRegister)
    ensures
        active(reg_levels3(a)) == pop128(a.low | a.middle | a.high, 128),
{
    lemma_active3_128(a.low, a.middle, a.high, 128);
    assert(levels3_128(a.low, a.middle, a.high).take(128) =~= levels3_128(
        a.low,
        a.middle,
        a.high,
    ));
}

/// A vectored store made of 128-substream registers; the width is
/// `128 * REGISTERS`. It backs every sketch wider than 128 substreams.
#[derive(Debug, Eq, PartialEq, Hash, Copy, Clone)]
pub struct M128Reg<const REGISTERS: usize> {
    registers: [BitRegister; REGISTERS],
}

impl<const REGISTERS: usize> Default for M128Reg<REGISTERS> {
    fn default() -> (s: Self)
        ensures
            s.levels() == Seq::new((128 * REGISTERS) as nat, |i: int| 0u8),
    {
        Self::zeroed()
    }
}

impl<const REGISTERS: usize> M128Reg<REGISTERS> {
    /// The levels of all `128 * REGISTERS` substreams.
    pub closed spec fn levels(&self) -> Seq<u8> {
        all_levels3(self.registers@)
    }

    /// A store with every substream at level zero.
    pub fn zeroed() -> (s: Self)
        ensures
            s.levels() == Seq::new((128 * REGISTERS) as nat, |i: int| 0u8),
    {
        let s = Self { registers: [BitRegister { high: 0, middle: 0, low: 0 }; REGISTERS] };
        proof {
            lemma_all3_len(s.registers@);
            lemma_zero3_128();
            assert forall|i: int| 0 <= i < 128 * REGISTERS implies s.levels()[i] == 0u8 by {
                lemma_all3_index(s.registers@, i);
            }
            assert(s.levels() =~= Seq::new((128 * REGISTERS) as nat, |i: int| 0u8));
        }
        s
    }

    /// Fetches the level of substream `stream`.
    pub fn val(&self, stream: u32) -> (r: u8)
        requires
            (stream as int) < 128 * (REGISTERS as int),
        ensures
            r == self.levels()[stream as int],
    {
        proof {
            assert((stream as int) / 128 < REGISTERS as int) by (nonlinear_arith)
                requires
                    (stream as int) < 128 * (REGISTERS as int),
                    0 <= stream as int,
            ;
        }
        let register_index = stream as usize / 128;
        let bit_index = stream as usize % 128;
        let reg = self.registers[register_index];
        let s = bit_index as u128;
        let high_bit = ((reg.high >> s) & 1) as u8;
        let middle_bit = ((reg.middle >> s) & 1) as u8;
        let low_bit = ((reg.low >> s) & 1) as u8;
        proof {
            let h = reg.high;
            let m = reg.middle;
            let l = reg.low;
            assert(((((h >> s) & 1) as u8) << 2u8) | ((((m >> s) & 1) as u8) << 1u8) | (((l >> s)
                & 1) as u8) == lvl3_128(l, m, h, s)) by (bit_vector)
                requires
                    s < 128,
            ;
            lemma_all3_index(self.registers@, stream as int);
        }
        high_bit << 2u8 | middle_bit << 1u8 | low_bit
    }

    /// Sets the level of substream `stream` to `value`.
    pub fn set(&mut self, stream: u32, value: u8)
        requires
            (stream as int) < 128 * (REGISTERS as int),
            value <= 7,
        ensures
            final(self).levels() == old(self).levels().update(stream as int, value),
    {
        let ghost regs0 = self.registers@;
        proof {
            assert((stream as int) / 128 < REGISTERS as int) by (nonlinear_arith)
                requires
                    (stream as int) < 128 * (REGISTERS as int),
                    0 <= stream as int,
            ;
        }
        let register_index = stream as usize / 128;
        let bit_index = stream as usize % 128;
        let reg = self.registers[register_index];
        let b = bit_index as u128;
        let value128 = value as u128;
        let value_high_bit = (value128 >> 2u128) & 1;
        let value_middle_bit = (value128 >> 1u128) & 1;
        let value_low_bit = value128 & 1;
        // reset the bits at the index, then write the value's bits
        let new_high = (reg.high & !(1u128 << b)) | (value_high_bit << b);
        let new_middle = (reg.middle & !(1u128 << b)) | (value_middle_bit << b);
        let new_low = (reg.low & !(1u128 << b)) | (value_low_bit << b);
        self.registers[register_index] = BitRegister {
            high: new_high,
            middle: new_middle,
            low: new_low,
        };
        proof {
            let si = stream as int;
            lemma_set3_128(reg.low, reg.middle, reg.high, new_low, new_middle, new_high, b, value128);
            lemma_all3_len(regs0);
            lemma_all3_len(self.registers@);
            assert forall|i: int| 0 <= i < 128 * REGISTERS implies self.levels()[i]
                == all_levels3(regs0).update(si, value)[i] by {
                lemma_all3_index(regs0, i);
                lemma_all3_index(self.registers@, i);
                vstd::arithmetic::div_mod::lemma_fundamental_div_mod(i, 128);
                vstd::arithmetic::div_mod::lemma_fundamental_div_mod(si, 128);
                if i / 128 == si / 128 {
                    assert(reg_levels3(self.registers@[i / 128]) == levels3_128(
                        new_low,
                        new_middle,
                        new_high,
                    ));
                    if i % 128 == si % 128 {
                        assert(i == si);
                        assert(lvl3_128(new_low, new_middle, new_high, b) == value);
                    } else {
                        assert(lvl3_128(new_low, new_middle, new_high, (i % 128) as u128)
                            == lvl3_128(reg.low, reg.middle, reg.high, (i % 128) as u128));
                    }
                } else {
                    assert(self.registers@[i / 128] == regs0[i / 128]);
                }
            }
            assert(self.levels() =~= all_levels3(regs0).update(si, value));
        }
    }

    /// Returns the number of substreams whose level is non-zero.
    pub fn count(&self) -> (r: u32)
        requires
            REGISTERS <= 4096,
        ensures
            r == active(self.levels()),
    {
        let mut count: u32 = 0;
        let mut j: usize = 0;
        while j < REGISTERS
            invariant
                j <= REGISTERS,
                REGISTERS <= 4096,
                self.registers@.len() == REGISTERS,
                count == active(all_levels3(self.registers@.take(j as int))),
                count <= 128 * j,
            decreases REGISTERS - j,
        {
            let reg = self.registers[j];
            let p = popcount128(reg.low | reg.middle | reg.high);
            proof {
                lemma_pop128_le(reg.low | reg.middle | reg.high, 128);
            }
            count = count + p;
            proof {
                lemma_reg_active3(reg);
                assert(self.registers@.take(j as int + 1) =~= self.registers@.take(
                    j as int,
                ).push(reg));
                lemma_all3_push(self.registers@.take(j as int), reg);
                crate::bits::lemma_active_concat(
                    all_levels3(self.registers@.take(j as int)),
                    reg_levels3(reg),
                );
            }
            j = j + 1;
        }
        proof {
            assert(self.registers@.take(REGISTERS as int) =~= self.registers@);
        }
        count
    }

    /// Merges another store of the same generation by or-ing each register.
    pub fn merge(&mut self, other: &Self)
        ensures
            final(self).levels() == or_levels(old(self).levels(), other.levels()),
    {
        let ghost regs0 = self.registers@;
        let mut j: usize = 0;
        while j < REGISTERS
            invariant
                j <= REGISTERS,
                self.registers@.len() == REGISTERS,
                regs0.len() == REGISTERS,
                other.registers@.len() == REGISTERS,
                forall|k: int|
                    0 <= k < j ==> self.registers@[k] == or_reg3(regs0[k], other.registers@[k]),
                forall|k: int| j <= k < REGISTERS ==> self.registers@[k] == regs0[k],
            decreases REGISTERS - j,
        {
            let reg = self.registers[j];
            let other_reg = other.registers[j];
            self.registers[j] = BitRegister {
                high: reg.high | other_reg.high,
                middle: reg.middle | other_reg.middle,
                low: reg.low | other_reg.low,
            };
            j = j + 1;
        }
        proof {
            lemma_all3_len(regs0);
            lemma_all3_len(self.registers@);
            lemma_all3_len(other.registers@);
            assert forall|i: int| 0 <= i < 128 * REGISTERS implies self.levels()[i] == (
            all_levels3(regs0)[i] | all_levels3(other.registers@)[i]) as u8 by {
                lemma_all3_index(regs0, i);
                lemma_all3_index(self.registers@, i);
                lemma_all3_index(other.registers@, i);
                assert(0 <= i / 128 < REGISTERS as int) by (nonlinear_arith)
                    requires
                        0 <= i < 128 * (REGISTERS as int),
                ;
                lemma_reg_or3(regs0[i / 128], other.registers@[i / 128]);
            }
            assert(self.levels() =~= or_levels(all_levels3(regs0), all_levels3(other.registers@)));
        }
    }

    /// Merges a store that is one generation behind, register by register.
    pub fn merge_high_into_lo(&mut self, other: &Self)
        ensures
            final(self).levels() == Seq::new(
                old(self).levels().len(),
                |i: int| merge_down3(old(self).levels()[i], other.levels()[i]),
            ),
    {
        let ghost regs0 = self.registers@;
        let mut j: usize = 0;
        while j < REGISTERS
            invariant
                j <= REGISTERS,
                self.registers@.len() == REGISTERS,
                regs0.len() == REGISTERS,
                other.registers@.len() == REGISTERS,
                forall|k: int|
                    0 <= k < j ==> self.registers@[k] == mhl_reg3(regs0[k], other.registers@[k]),
                forall|k: int| j <= k < REGISTERS ==> self.registers@[k] == regs0[k],
            decreases REGISTERS - j,
        {
            let reg = self.registers[j];
            let b = other.registers[j];
            self.registers[j] = BitRegister {
                high: reg.high,
                middle: reg.middle | b.high,
                low: reg.low | b.middle,
            };
            j = j + 1;
        }
        proof {
            lemma_all3_len(regs0);
            lemma_all3_len(self.registers@);
            lemma_all3_len(other.registers@);
            assert forall|i: int| 0 <= i < 128 * REGISTERS implies self.levels()[i] == merge_down3(
                all_levels3(regs0)[i],
                all_levels3(other.registers@)[i],
            ) by {
                lemma_all3_index(regs0, i);
                lemma_all3_index(self.registers@, i);
                lemma_all3_index(other.registers@, i);
                assert(0 <= i / 128 < REGISTERS as int) by (nonlinear_arith)
                    requires
                        0 <= i < 128 * (REGISTERS as int),
                ;
                lemma_reg_mhl3(regs0[i / 128], other.registers@[i / 128]);
            }
            assert(self.levels() =~= Seq::new(
                all_levels3(regs0).len(),
                |i: int| merge_down3(all_levels3(regs0)[i], all_levels3(other.registers@)[i]),
            ));
        }
    }
}

/// Structural facts shared by every vectored store.
proof fn lemma_m128reg_facts<const REGISTERS: usize>(s: &M128Reg<REGISTERS>)
    ensures
        M128Reg::levels(s).len() == 128 * REGISTERS,
        forall|i: int| 0 <= i < 128 * REGISTERS ==> M128Reg::levels(s)[i] <= 7,
{
    lemma_all3_len(s.registers@);
    assert forall|i: int| 0 <= i < 128 * REGISTERS implies M128Reg::levels(s)[i] <= 7 by {
        lemma_all3_index(s.registers@, i);
        assert(0 <= i / 128 < REGISTERS as int) by (nonlinear_arith)
            requires
                0 <= i < 128 * (REGISTERS as int),
        ;
    }
}

/// M = 256, backed by 2 128-bit registers.
pub type M256 = M128Reg<2>;

impl Sketch for M256 {
    closed spec fn spec_streams() -> u32 {
        256
    }

    closed spec fn spec_hash_mask() -> u64 {
        0x00ff_ffff_ffff_ffff
    }

    closed spec fn spec_idx_shift() -> u32 {
        56
    }

    closed spec fn levels(&self) -> Seq<u8> {
        M128Reg::<2>::levels(self)
    }

    proof fn facts(&self)
    {
        lemma_m128reg_facts(self);
        assert forall|h: u64| #[trigger] (h >> (Self::spec_idx_shift() as u64))
            < Self::spec_streams() as u64 by {
            lemma_stream_bound(h, 56, 256);
        }
    }

    fn new() -> (s: Self)
    {
        let s: Self = M128Reg::zeroed();
        proof {
            assert(M128Reg::<2>::levels(&s) =~= Seq::new(
                Self::spec_streams() as nat,
                |i: int| 0u8,
            ));
        }
        s
    }

    fn streams() -> u32 {
        256
    }

    fn hash_mask() -> u64 {
        0x00ff_ffff_ffff_ffff
    }

    fn idx_shift() -> u32 {
        56
    }

    fn val(&self, stream: u32) -> u8 {
        self.val(stream)
    }

    fn set(&mut self, stream: u32, value: u8) {
        self.set(stream, value);
    }

    fn count(&self) -> u32 {
        self.count()
    }

    fn merge(&mut self, other: &Self) {
        self.merge(other);
    }

    fn merge_high_into_lo(&mut self, other: &Self) {
        self.merge_high_into_lo(other);
    }
}

/// M = 512, backed by 4 128-bit registers.
pub type M512 = M128Reg<4>;

impl Sketch for M512 {
    closed spec fn spec_streams() -> u32 {
        512
    }

    closed spec fn spec_hash_mask() -> u64 {
        0x007f_ffff_ffff_ffff
    }

    closed spec fn spec_idx_shift() -> u32 {
        55
    }

    closed spec fn levels(&self) -> Seq<u8> {
        M128Reg::<4>::levels(self)
    }

    proof fn facts(&self)
    {
        lemma_m128reg_facts(self);
        assert forall|h: u64| #[trigger] (h >> (Self::spec_idx_shift() as u64))
            < Self::spec_streams() as u64 by {
            lemma_stream_bound(h, 55, 512);
        }
    }

    fn new() -> (s: Self)
    {
        let s: Self = M128Reg::zeroed();
        proof {
            assert(M128Reg::<4>::levels(&s) =~= Seq::new(
                Self::spec_streams() as nat,
                |i: int| 0u8,
            ));
        }
        s
    }

    fn streams() -> u32 {
        512
    }

    fn hash_mask() -> u64 {
        0x007f_ffff_ffff_ffff
    }

    fn idx_shift() -> u32 {
        55
    }

    fn val(&self, stream: u32) -> u8 {
        self.val(stream)
    }

    fn set(&mut self, stream: u32, value: u8) {
        self.set(stream, value);
    }

    fn count(&self) -> u32 {
        self.count()
    }

    fn merge(&mut self, other: &Self) {
        self.merge(other);
    }

    fn merge_high_into_lo(&mut self, other: &Self) {
        self.merge_high_into_lo(other);
    }
}

/// M = 1024, backed by 8 128-bit registers.
pub type M1024 = M128Reg<8>;

impl Sketch for M1024 {
    closed spec fn spec_streams() -> u32 {
        1024
    }

    closed spec fn spec_hash_mask() -> u64 {
        0x003f_ffff_ffff_ffff
    }

    closed spec fn spec_idx_shift() -> u32 {
        54
    }

    closed spec fn levels(&self) -> Seq<u8> {
        M128Reg::<8>::levels(self)
    }

    proof fn facts(&self)
    {
        lemma_m128reg_facts(self);
        assert forall|h: u64| #[trigger] (h >> (Self::spec_idx_shift() as u64))
            < Self::spec_streams() as u64 by {
            lemma_stream_bound(h, 54, 1024);
        }
    }

    fn new() -> (s: Self)
    {
        let s: Self = M128Reg::zeroed();
        proof {
            assert(M128Reg::<8>::levels(&s) =~= Seq::new(
                Self::spec_streams() as nat,
                |i: int| 0u8,
            ));
        }
        s
    }

    fn streams() -> u32 {
        1024
    }

    fn hash_mask() -> u64 {
        0x003f_ffff_ffff_ffff
    }

    fn idx_shift() -> u32 {
        54
    }

    fn val(&self, stream: u32) -> u8 {
        self.val(stream)
    }

    fn set(&mut self, stream: u32, value: u8) {
        self.set(stream, value);
    }

    fn count(&self) -> u32 {
        self.count()
    }

    fn merge(&mut self, other: &Self) {
        self.merge(other);
    }

    fn merge_high_into_lo(&mut self, other: &Self) {
        self.merge_high_into_lo(other);
    }
}

/// M = 2048, backed by 16 128-bit registers.
pub type M2048 = M128Reg<16>;

impl Sketch for M2048 {
    closed spec fn spec_streams() -> u32 {
        2048
    }

    closed spec fn spec_hash_mask() -> u64 {
        0x001f_ffff_ffff_ffff
    }

    closed spec fn spec_idx_shift() -> u32 {
        53
    }

    closed spec fn levels(&self) -> Seq<u8> {
        M128Reg::<16>::levels(self)
    }

    proof fn facts(&self)
    {
        lemma_m128reg_facts(self);
        assert forall|h: u64| #[trigger] (h >> (Self::spec_idx_shift() as u64))
            < Self::spec_streams() as u64 by {
            lemma_stream_bound(h, 53, 2048);
        }
    }

    fn new() -> (s: Self)
    {
        let s: Self = M128Reg::zeroed();
        proof {
            assert(M128Reg::<16>::levels(&s) =~= Seq::new(
                Self::spec_streams() as nat,
                |i: int| 0u8,
            ));
        }
        s
    }

    fn streams() -> u32 {
        2048
    }

    fn hash_mask() -> u64 {
        0x001f_ffff_ffff_ffff
    }

    fn idx_shift() -> u32 {
        53
    }

    fn val(&self, stream: u32) -> u8 {
        self.val(stream)
    }

    fn set(&mut self, stream: u32, value: u8) {
        self.set(stream, value);
    }

    fn count(&self) -> u32 {
        self.count()
    }

    fn merge(&mut self, other: &Self) {
        self.merge(other);
    }

    fn merge_high_into_lo(&mut self, other: &Self) {
        self.merge_high_into_lo(other);
    }
}

/// M = 4096, backed by 32 128-bit registers.
pub type M4096 = M128Reg<32>;

impl Sketch for M4096 {
    closed spec fn spec_streams() -> u32 {
        4096
    }

    closed spec fn spec_hash_mask() -> u64 {
        0x000f_ffff_ffff_ffff
    }

    closed spec fn spec_idx_shift() -> u32 {
        52
    }

    closed spec fn levels(&self) -> Seq<u8> {
        M128Reg::<32>::levels(self)
    }

    proof fn facts(&self)
    {
        lemma_m128reg_facts(self);
        assert forall|h: u64| #[trigger] (h >> (Self::spec_idx_shift() as u64))
            < Self::spec_streams() as u64 by {
            lemma_stream_bound(h, 52, 4096);
        }
    }

    fn new() -> (s: Self)
    {
        let s: Self = M128Reg::zeroed();
        proof {
            assert(M128Reg::<32>::levels(&s) =~= Seq::new(
                Self::spec_streams() as nat,
                |i: int| 0u8,
            ));
        }
        s
    }

    fn streams() -> u32 {
        4096
    }

    fn hash_mask() -> u64 {
        0x000f_ffff_ffff_ffff
    }

    fn idx_shift() -> u32 {
        52
    }

    fn val(&self, stream: u32) -> u8 {
        self.val(stream)
    }

    fn set(&mut self, stream: u32, value: u8) {
        self.set(stream, value);
    }

    fn count(&self) -> u32 {
        self.count()
    }

    fn merge(&mut self, other: &Self) {
        self.merge(other);
    }

    fn merge_high_into_lo(&mut self, other: &Self) {
        self.merge_high_into_lo(other);
    }
}

} // verus!
