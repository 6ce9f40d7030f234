//! Storage for the two-bit sketch: each substream holds a level in `[0, 3]`,
//! kept as two parallel bit planes so that counting and aging work on whole
//! words instead of per-substream loops.

use vstd::prelude::*;

use crate::bits::{
    active, age_levels, bit64, bit128, dec1, lemma_active_le_len, lemma_active_take_step,
    lemma_bit_or64, lemma_bit_or128, lemma_pop128_le, lemma_stream_bound, or_levels, pop64,
    pop128, popcount64, popcount128,
};

verus! {

/// The level encoded at index `i` by a low plane and a high plane.
pub open spec fn lvl2_64(low: u64, high: u64, i: u64) -> u8 {
    (((if bit64(high, i) {
        2u8
    } else {
        0u8
    })) + (if bit64(low, i) {
        1u8
    } else {
        0u8
    })) as u8
}

/// All 64 levels encoded by a pair of 64-bit planes.
pub open spec fn levels2_64(low: u64, high: u64) -> Seq<u8> {
    Seq::new(64, |i: int| lvl2_64(low, high, i as u64))
}

/// The level encoded at index `i` by a low plane and a high plane.
pub open spec fn lvl2_128(low: u128, high: u128, i: u128) -> u8 {
    (((if bit128(high, i) {
        2u8
    } else {
        0u8
    })) + (if bit128(low, i) {
        1u8
    } else {
        0u8
    })) as u8
}

/// All 128 levels encoded by a pair of 128-bit planes.
pub open spec fn levels2_128(low: u128, high: u128) -> Seq<u8> {
    Seq::new(128, |i: int| lvl2_128(low, high, i as u128))
}

/// Reinterpreting a one-generation-older store: its high plane feeds our low
/// plane, our high plane stays.
pub open spec fn merge_down2(v: u8, w: u8) -> u8 {
    ((v & 2) | (v & 1) | ((w >> 1) & 1)) as u8
}

/// Sketch storage for the two-bit estimator. One implementation exists per
/// supported substream count, so that the estimator is generic without
/// branching on the width.
pub trait Sketch: Default + Sized {
    /// Number of substreams.
    spec fn spec_streams() -> u32;

    /// Mask keeping the digest bits that are not used for the substream index.
    spec fn spec_hash_mask() -> u64;

    /// How far the digest is shifted right to obtain the substream index.
    spec fn spec_idx_shift() -> u32;

    /// The levels of all substreams; the mathematical content of the store.
    spec fn levels(&self) -> Seq<u8>;

    /// Structural facts every implementation provides.
    proof fn facts(&self)
        ensures
            2 <= Self::spec_streams() <= 4096,
            Self::spec_idx_shift() < 64,
            self.levels().len() == Self::spec_streams(),
            forall|i: int| 0 <= i < self.levels().len() ==> self.levels()[i] <= 3,
            forall|h: u64|
                #[trigger] (h >> (Self::spec_idx_shift() as u64)) < Self::spec_streams() as u64,
    ;

    /// A zeroed store: every substream at level 0.
    fn new() -> (s: Self)
        ensures
            s.levels() == Seq::new(Self::spec_streams() as nat, |i: int| 0u8),
    ;

    /// Number of substreams.
    fn streams() -> (r: u32)
        ensures
            r == Self::spec_streams(),
    ;

    /// Mask keeping the digest bits that are not used for the substream index.
    fn hash_mask() -> (r: u64)
        ensures
            r == Self::spec_hash_mask(),
    ;

    /// How far the digest is shifted right to obtain the substream index.
    fn idx_shift() -> (r: u32)
        ensures
            r == Self::spec_idx_shift(),
    ;

    /// Fetches the level of substream `stream`.
    fn val(&self, stream: u32) -> (r: u8)
        requires
            stream < Self::spec_streams(),
        ensures
            r == self.levels()[stream as int],
    ;

    /// Sets the level of substream `stream` to `value`.
    fn set(&mut self, stream: u32, value: u8)
        requires
            stream < Self::spec_streams(),
            value <= 3,
        ensures
            final(self).levels() == old(self).levels().update(stream as int, value),
    ;

    /// Ages the store: every level drops by one, floored at zero. Returns the
    /// new number of active substreams.
    fn decrement(&mut self) -> (r: u32)
        ensures
            final(self).levels() == age_levels(old(self).levels()),
            r == active(final(self).levels()),
    ;

    /// Returns the number of substreams whose level is non-zero.
    fn count(&self) -> (r: u32)
        ensures
            r == active(self.levels()),
    ;

    /// Merges another store of the same generation: plane-wise or, which is
    /// the bitwise or of each pair of levels.
    fn merge(&mut self, other: &Self)
        ensures
            final(self).levels() == or_levels(old(self).levels(), other.levels()),
    ;

    /// Merges a store that is one generation behind: its high plane is or-ed
    /// into our low plane, our high plane is untouched.
    fn merge_high_into_lo(&mut self, other: &Self)
        ensures
            final(self).levels() == Seq::new(
                old(self).levels().len(),
                |i: int| merge_down2(old(self).levels()[i], other.levels()[i]),
            ),
    ;
}

// ------------------------------------------------------------------
// Plane lemmas for one pair of 64-bit planes.
// ------------------------------------------------------------------
proof fn lemma_set2_64(l: u64, h: u64, nl: u64, nh: u64, s: u64, v: u64)
    requires
        s < 64,
        v < 4,
        nh == (h & !(1u64 << s)) | (((v >> 1u64) & 1) << s),
        nl == (l & !(1u64 << s)) | ((v & 1) << s),
    ensures
        forall|j: u64| j < 64 && j != s ==> #[trigger] lvl2_64(nl, nh, j) == lvl2_64(l, h, j),
        lvl2_64(nl, nh, s) == v,
{
    assert((forall|j: u64| j < 64 && j != s ==> #[trigger] lvl2_64(nl, nh, j) == lvl2_64(l, h, j))
        && lvl2_64(nl, nh, s) == v) by (bit_vector)
        requires
            s < 64,
            v < 4,
            nh == (h & !(1u64 << s)) | (((v >> 1u64) & 1) << s),
            nl == (l & !(1u64 << s)) | ((v & 1) << s),
    ;
}

proof fn lemma_dec2_64(l: u64, h: u64, nl: u64, nh: u64)
    requires
        nl == h & !l,
        nh == h & !(h & !l),
    ensures
        forall|j: u64| j < 64 ==> #[trigger] lvl2_64(nl, nh, j) == dec1(lvl2_64(l, h, j)),
        nl | nh == h,
{
    assert((forall|j: u64| j < 64 ==> #[trigger] lvl2_64(nl, nh, j) == dec1(lvl2_64(l, h, j))) && (
    nl | nh) == h) by (bit_vector)
        requires
            nl == h & !l,
            nh == h & !(h & !l),
    ;
}

proof fn lemma_or2_64(l1: u64, h1: u64, l2: u64, h2: u64, j: u64)
    requires
        j < 64,
    ensures
        lvl2_64(l1 | l2, h1 | h2, j) == (lvl2_64(l1, h1, j) | lvl2_64(l2, h2, j)) as u8,
{
    assert(lvl2_64(l1 | l2, h1 | h2, j) == (lvl2_64(l1, h1, j) | lvl2_64(l2, h2, j)) as u8) by (
    bit_vector);
}

proof fn lemma_mhl2_64(l1: u64, h1: u64, l2: u64, h2: u64, j: u64)
    requires
        j < 64,
    ensures
        lvl2_64(l1 | h2, h1, j) == merge_down2(lvl2_64(l1, h1, j), lvl2_64(l2, h2, j)),
{
    assert(lvl2_64(l1 | h2, h1, j) == merge_down2(lvl2_64(l1, h1, j), lvl2_64(l2, h2, j))) by (
    bit_vector);
}

/// Connects a popcount of the or of the planes with the number of active
/// levels they encode.
proof fn lemma_active2_64(l: u64, h: u64, n: int)
    requires
        0 <= n <= 64,
    ensures
        active(levels2_64(l, h).take(n)) == pop64(l | h, n as nat),
    decreases n,
{
    if n > 0 {
        lemma_active2_64(l, h, n - 1);
        lemma_active_take_step(levels2_64(l, h), n);
        let j = (n - 1) as u64;
        lemma_bit_or64(l, h, j);
        assert(lvl2_64(l, h, j) == 0 <==> !(bit64(l, j) || bit64(h, j)));
    }
}

// ------------------------------------------------------------------
// Plane lemmas for one pair of 128-bit planes.
// ------------------------------------------------------------------
proof fn lemma_set2_128(l: u128, h: u128, nl: u128, nh: u128, s: u128, v: u128)
    requires
        s < 128,
        v < 4,
        nh == (h & !(1u128 << s)) | (((v >> 1u128) & 1) << s),
        nl == (l & !(1u128 << s)) | ((v & 1) << s),
    ensures
        forall|j: u128| j < 128 && j != s ==> #[trigger] lvl2_128(nl, nh, j) == lvl2_128(l, h, j),
        lvl2_128(nl, nh, s) == v,
{
    assert((forall|j: u128|
        j < 128 && j != s ==> #[trigger] lvl2_128(nl, nh, j) == lvl2_128(l, h, j)) && lvl2_128(
        nl,
        nh,
        s,
    ) == v) by (bit_vector)
        requires
            s < 128,
            v < 4,
            nh == (h & !(1u128 << s)) | (((v >> 1u128) & 1) << s),
            nl == (l & !(1u128 << s)) | ((v & 1) << s),
    ;
}

proof fn lemma_dec2_128(l: u128, h: u128, nl: u128, nh: u128)
    requires
        nl == h & !l,
        nh == h & !(h & !l),
    ensures
        forall|j: u128| j < 128 ==> #[trigger] lvl2_128(nl, nh, j) == dec1(lvl2_128(l, h, j)),
        nl | nh == h,
{
    assert((forall|j: u128| j < 128 ==> #[trigger] lvl2_128(nl, nh, j) == dec1(lvl2_128(l, h, j)))
        && (nl | nh) == h) by (bit_vector)
        requires
            nl == h & !l,
            nh == h & !(h & !l),
    ;
}

proof fn lemma_or2_128(l1: u128, h1: u128, l2: u128, h2: u128, j: u128)
    requires
        j < 128,
    ensures
        lvl2_128(l1 | l2, h1 | h2, j) == (lvl2_128(l1, h1, j) | lvl2_128(l2, h2, j)) as u8,
{
    assert(lvl2_128(l1 | l2, h1 | h2, j) == (lvl2_128(l1, h1, j) | lvl2_128(l2, h2, j)) as u8) by (
    bit_vector);
}

proof fn lemma_mhl2_128(l1: u128, h1: u128, l2: u128, h2: u128, j: u128)
    requires
        j < 128,
    ensures
        lvl2_128(l1 | h2, h1, j) == merge_down2(lvl2_128(l1, h1, j), lvl2_128(l2, h2, j)),
{
    assert(lvl2_128(l1 | h2, h1, j) == merge_down2(lvl2_128(l1, h1, j), lvl2_128(l2, h2, j))) by (
    bit_vector);
}

/// Connects a popcount of the or of the planes with the number of active
/// levels they encode.
proof fn lemma_active2_128(l: u128, h: u128, n: int)
    requires
        0 <= n <= 128,
    ensures
        active(levels2_128(l, h).take(n)) == pop128(l | h, n as nat),
    decreases n,
{
    if n > 0 {
        lemma_active2_128(l, h, n - 1);
        lemma_active_take_step(levels2_128(l, h), n);
        let j = (n - 1) as u128;
        lemma_bit_or128(l, h, j);
        assert(lvl2_128(l, h, j) == 0 <==> !(bit128(l, j) || bit128(h, j)));
    }
}

proof fn lemma_zero2_128()
    ensures
        forall|j: u128| #[trigger] lvl2_128(0, 0, j) == 0u8,
{
    assert(forall|j: u128| #[trigger] lvl2_128(0, 0, j) == 0u8) by (bit_vector);
}

/// M = 64, two 64-bit planes.
#[derive(Debug, Eq, PartialEq, Hash, Copy, Clone, Default)]
pub struct M64 {
    low: u64,
    high: u64,
}

impl Sketch for M64 {
    closed spec fn spec_streams() -> u32 {
        64
    }

    closed spec fn spec_hash_mask() -> u64 {
        0x03ff_ffff_ffff_ffff
    }

    closed spec fn spec_idx_shift() -> u32 {
        58
    }

    closed spec fn levels(&self) -> Seq<u8> {
        levels2_64(self.low, self.high)
    }

    proof fn facts(&self)
    {
        assert forall|h: u64| #[trigger] (h >> (Self::spec_idx_shift() as u64))
            < Self::spec_streams() as u64 by {
            lemma_stream_bound(h, 58, 64);
        }
    }

    fn new() -> (s: Self)
    {
        let s = M64 { low: 0, high: 0 };
        proof {
            assert(forall|j: u64| (0u64 >> j) & 1 == 0) by (bit_vector);
            assert(s.levels() =~= Seq::new(Self::spec_streams() as nat, |i: int| 0u8));
        }
        s
    }

    fn streams() -> u32 {
        64
    }

    fn hash_mask() -> u64 {
        0x03ff_ffff_ffff_ffff
    }

    fn idx_shift() -> u32 {
        58
    }

    fn val(&self, stream: u32) -> (r: u8)
    {
        let s = stream as u64;
        let high_bit = ((self.high >> s) & 1) as u8;
        let low_bit = ((self.low >> s) & 1) as u8;
        proof {
            let h = self.high;
            let l = self.low;
            assert(((((h >> s) & 1) as u8) << 1u8) | (((l >> s) & 1) as u8) == lvl2_64(l, h, s))
                by (bit_vector)
                requires
                    s < 64,
            ;
        }
        high_bit << 1u8 | low_bit
    }

    fn set(&mut self, stream: u32, value: u8)
    {
        let ghost l = self.low;
        let ghost h = self.high;
        let s = stream as u64;
        let value = value as u64;
        let value_high_bit = (value >> 1u64) & 1;
        let value_low_bit = value & 1;
        // reset the bits at the index, then write the value's bits
        self.high = (self.high & !(1u64 << s)) | (value_high_bit << s);
        self.low = (self.low & !(1u64 << s)) | (value_low_bit << s);
        proof {
            lemma_set2_64(l, h, self.low, self.high, s, value);
            assert(self.levels() =~= levels2_64(l, h).update(stream as int, value as u8));
        }
    }

    fn decrement(&mut self) -> (r: u32)
    {
        let ghost l = self.low;
        let ghost h = self.high;
        // each level drops by one: the new low plane marks levels that were 2
        // or 3, the new high plane those that were 3
        self.low = self.high & !self.low;
        self.high = self.high & !self.low;
        let r = popcount64(self.low | self.high);
        proof {
            lemma_dec2_64(l, h, self.low, self.high);
            assert(self.levels() =~= age_levels(levels2_64(l, h)));
            lemma_active2_64(self.low, self.high, 64);
            assert(self.levels().take(64) =~= self.levels());
        }
        r
    }

    fn count(&self) -> (r: u32)
    {
        let used_streams = self.low | self.high;
        let r = popcount64(used_streams);
        proof {
            lemma_active2_64(self.low, self.high, 64);
            assert(self.levels().take(64) =~= self.levels());
        }
        r
    }

    fn merge(&mut self, other: &Self)
    {
        let ghost l = self.low;
        let ghost h = self.high;
        self.high = self.high | other.high;
        self.low = self.low | other.low;
        proof {
            assert forall|j: int| 0 <= j < 64 implies self.levels()[j] == (levels2_64(l, h)[j]
                | other.levels()[j]) as u8 by {
                lemma_or2_64(l, h, other.low, other.high, j as u64);
            }
            assert(self.levels() =~= or_levels(levels2_64(l, h), other.levels()));
        }
    }

    fn merge_high_into_lo(&mut self, other: &Self)
    {
        let ghost l = self.low;
        let ghost h = self.high;
        self.low = self.low | other.high;
        proof {
            assert forall|j: int| 0 <= j < 64 implies self.levels()[j] == merge_down2(
                levels2_64(l, h)[j],
                other.levels()[j],
            ) by {
                lemma_mhl2_64(l, h, other.low, other.high, j as u64);
            }
            assert(self.levels() =~= Seq::new(
                levels2_64(l, h).len(),
                |i: int| merge_down2(levels2_64(l, h)[i], other.levels()[i]),
            ));
        }
    }
}

/// M = 128, two 128-bit planes, taking advantage of wide registers.
#[derive(Debug, Eq, PartialEq, Hash, Copy, Clone, Default)]
pub struct M128 {
    low: u128,
    high: u128,
}

impl Sketch for M128 {
    closed spec fn spec_streams() -> u32 {
        128
    }

    closed spec fn spec_hash_mask() -> u64 {
        0x01ff_ffff_ffff_ffff
    }

    closed spec fn spec_idx_shift() -> u32 {
        57
    }

    closed spec fn levels(&self) -> Seq<u8> {
        levels2_128(self.low, self.high)
    }

    proof fn facts(&self)
    {
        assert forall|h: u64| #[trigger] (h >> (Self::spec_idx_shift() as u64))
            < Self::spec_streams() as u64 by {
            lemma_stream_bound(h, 57, 128);
        }
    }

    fn new() -> (s: Self)
    {
        let s = M128 { low: 0, high: 0 };
        proof {
            lemma_zero2_128();
            assert(s.levels() =~= Seq::new(Self::spec_streams() as nat, |i: int| 0u8));
        }
        s
    }

    fn streams() -> u32 {
        128
    }

    fn hash_mask() -> u64 {
        0x01ff_ffff_ffff_ffff
    }

    fn idx_shift() -> u32 {
        57
    }

    fn val(&self, stream: u32) -> (r: u8)
    {
        let s = stream as u128;
        let high_bit = ((self.high >> s) & 1) as u8;
        let low_bit = ((self.low >> s) & 1) as u8;
        proof {
            let h = self.high;
            let l = self.low;
            assert(((((h >> s) & 1) as u8) << 1u8) | (((l >> s) & 1) as u8) == lvl2_128(l, h, s))
                by (bit_vector)
                requires
                    s < 128,
            ;
        }
        high_bit << 1u8 | low_bit
    }

    fn set(&mut self, stream: u32, value: u8)
    {
        let ghost l = self.low;
        let ghost h = self.high;
        let s = stream as u128;
        let value = value as u128;
        let value_high_bit = (value >> 1u128) & 1;
        let value_low_bit = value & 1;
        // reset the bits at the index, then write the value's bits
        self.high = (self.high & !(1u128 << s)) | (value_high_bit << s);
        self.low = (self.low & !(1u128 << s)) | (value_low_bit << s);
        proof {
            lemma_set2_128(l, h, self.low, self.high, s, value);
            assert(self.levels() =~= levels2_128(l, h).update(stream as int, value as u8));
        }
    }

    fn decrement(&mut self) -> (r: u32)
    {
        let ghost l = self.low;
        let ghost h = self.high;
        self.low = self.high & !self.low;
        self.high = self.high & !self.low;
        let r = popcount128(self.low | self.high);
        proof {
            lemma_dec2_128(l, h, self.low, self.high);
            assert(self.levels() =~= age_levels(levels2_128(l, h)));
            lemma_active2_128(self.low, self.high, 128);
            assert(self.levels().take(128) =~= self.levels());
        }
        r
    }

    fn count(&self) -> (r: u32)
    {
        let used_streams = self.low | self.high;
        let r = popcount128(used_streams);
        proof {
            lemma_active2_128(self.low, self.high, 128);
            assert(self.levels().take(128) =~= self.levels());
        }
        r
    }

    fn merge(&mut self, other: &Self)
    {
        let ghost l = self.low;
        let ghost h = self.high;
        self.high = self.high | other.high;
        self.low = self.low | other.low;
        proof {
            assert forall|j: int| 0 <= j < 128 implies self.levels()[j] == (levels2_128(l, h)[j]
                | other.levels()[j]) as u8 by {
                lemma_or2_128(l, h, other.low, other.high, j as u128);
            }
            assert(self.levels() =~= or_levels(levels2_128(l, h), other.levels()));
        }
    }

    fn merge_high_into_lo(&mut self, other: &Self)
    {
        let ghost l = self.low;
        let ghost h = self.high;
        self.low = self.low | other.high;
        proof {
            assert forall|j: int| 0 <= j < 128 implies self.levels()[j] == merge_down2(
                levels2_128(l, h)[j],
                other.levels()[j],
            ) by {
                lemma_mhl2_128(l, h, other.low, other.high, j as u128);
            }
            assert(self.levels() =~= Seq::new(
                levels2_128(l, h).len(),
                |i: int| merge_down2(levels2_128(l, h)[i], other.levels()[i]),
            ));
        }
    }
}

/// A register keeps the two planes of 128 substreams together for cache
/// locality inside the vectored stores.
#[derive(Default, Clone, Copy, Debug, Eq, PartialEq, Hash)]
struct HiLoRegister {
    high: u128,
    low: u128,
}

spec fn reg_levels2(r: HiLoRegister) -> Seq<u8> {
    levels2_128(r.low, r.high)
}

spec fn all_levels2(regs: Seq<HiLoRegister>) -> Seq<u8>
    decreases regs.len(),
{
    if regs.len() == 0 {
        Seq::empty()
    } else {
        all_levels2(regs.drop_last()) + reg_levels2(regs.last())
    }
}

proof fn lemma_all2_len(regs: Seq<HiLoRegister>)
    ensures
        all_levels2(regs).len() == 128 * regs.len(),
    decreases regs.len(),
{
    if regs.len() > 0 {
        lemma_all2_len(regs.drop_last());
    }
}

proof fn lemma_all2_index(regs: Seq<HiLoRegister>, i: int)
    requires
        0 <= i < 128 * regs.len(),
    ensures
        all_levels2(regs)[i] == reg_levels2(regs[i / 128])[i % 128],
    decreases regs.len(),
{
    lemma_all2_len(regs);
    let prior = regs.drop_last();
    lemma_all2_len(prior);
    if i < 128 * prior.len() {
        lemma_all2_index(prior, i);
        assert(i / 128 < prior.len()) by (nonlinear_arith)
            requires
                0 <= i < 128 * prior.len(),
        ;
        assert(prior[i / 128] == regs[i / 128]);
        assert(all_levels2(regs)[i] == all_levels2(prior)[i]);
    } else {
        let k = regs.len() - 1;
        assert(i / 128 == k && i % 128 == i - 128 * k) by (nonlinear_arith)
            requires
                128 * k <= i < 128 * (k + 1),
        ;
        assert(all_levels2(regs)[i] == reg_levels2(regs.last())[i - 128 * prior.len()]);
    }
}

/// Appending one register appends its levels.
proof fn lemma_all2_push(regs: Seq<HiLoRegister>, r: HiLoRegister)
    ensures
        all_levels2(regs.push(r)) == all_levels2(regs) + reg_levels2(r),
{
    assert(regs.push(r).drop_last() =~= regs);
    assert(regs.push(r).last() == r);
}

spec fn or_reg2(a: HiLoRegister, b: HiLoRegister) -> HiLoRegister {
    HiLoRegister { high: a.high | b.high, low: a.low | b.low }
}

spec fn mhl_reg2(a: HiLoRegister, b: HiLoRegister) -> HiLoRegister {
    HiLoRegister { high: a.high, low: a.low | b.high }
}

spec fn aged_reg2(a: HiLoRegister) -> HiLoRegister {
    HiLoRegister { high: a.high & !(a.high & !a.low), low: a.high & !a.low }
}

proof fn lemma_reg_or2(a: HiLoRegister, b: HiLoRegister)
    ensures
        forall|j: int|
            0 <= j < 128 ==> #[trigger] reg_levels2(or_reg2(a, b))[j] == (reg_levels2(a)[j]
                | reg_levels2(b)[j]) as u8,
{
    assert forall|j: int| 0 <= j < 128 implies #[trigger] reg_levels2(or_reg2(a, b))[j] == (
    reg_levels2(a)[j] | reg_levels2(b)[j]) as u8 by {
        lemma_or2_128(a.low, a.high, b.low, b.high, j as u128);
    }
}

proof fn lemma_reg_mhl2(a: HiLoRegister, b: HiLoRegister)
    ensures
        forall|j: int|
            0 <= j < 128 ==> #[trigger] reg_levels2(mhl_reg2(a, b))[j] == merge_down2(
                reg_levels2(a)[j],
                reg_levels2(b)[j],
            ),
{
    assert forall|j: int| 0 <= j < 128 implies #[trigger] reg_levels2(mhl_reg2(a, b))[j]
        == merge_down2(reg_levels2(a)[j], reg_levels2(b)[j]) by {
        lemma_mhl2_128(a.low, a.high, b.low, b.high, j as u128);
    }
}

proof fn lemma_reg_aged2(a: HiLoRegister)
    ensures
        forall|j: int|
            0 <= j < 128 ==> #[trigger] reg_levels2(aged_reg2(a))[j] == dec1(reg_levels2(a)[j]),
        active(reg_levels2(aged_reg2(a))) == pop128(a.high, 128),
{
    let nl = a.high & !a.low;
    let nh = a.high & !(a.high & !a.low);
    lemma_dec2_128(a.low, a.high, nl, nh);
    assert forall|j: int| 0 <= j < 128 implies #[trigger] reg_levels2(aged_reg2(a))[j] == dec1(
        reg_levels2(a)[j],
    ) by {
        assert(lvl2_128(nl, nh, j as u128) == dec1(lvl2_128(a.low, a.high, j as u128)));
    }
    lemma_active2_128(nl, nh, 128);
    assert(levels2_128(nl, nh).take(128) =~= levels2_128(nl, nh));
}

proof fn lemma_reg_active2(a: HiLoRegister)
    ensures
        active(reg_levels2(a)) == pop128(a.low | a.high, 128),
{
    lemma_active2_128(a.low, a.high, 128);
    assert(levels2_128(a.low, a.high).take(128) =~= levels2_128(a.low, a.high));
}

/// A vectored store made of 128-substream registers; the width is
/// `128 * REGISTERS`. It backs every sketch wider than 128 substreams.
#[derive(Debug, Eq, PartialEq, Hash, Copy, Clone)]
pub struct M128Reg<const REGISTERS: usize> {
    registers: [HiLoRegister; REGISTERS],
}

impl<const REGISTERS: usize> Default for M128Reg<REGISTERS> {
    fn default() -> (s: Self)
        ensures
            s.levels() == Seq::new((128 * REGISTERS) as nat, |i: int| 0u8),
    {
        Self::zeroed()
    }
}

impl<const REGISTERS: usize> M128Reg<REGISTERS> {
    /// The levels of all `128 * REGISTERS` substreams.
    pub closed spec fn levels(&self) -> Seq<u8> {
        all_levels2(self.registers@)
    }

    /// A store with every substream at level zero.
    pub fn zeroed() -> (s: Self)
        ensures
            s.levels() == Seq::new((128 * REGISTERS) as nat, |i: int| 0u8),
    {
        let s = Self { registers: [HiLoRegister { high: 0, low: 0 }; REGISTERS] };
        proof {
            lemma_all2_len(s.registers@);
            lemma_zero2_128();
            assert forall|i: int| 0 <= i < 128 * REGISTERS implies s.levels()[i] == 0u8 by {
                lemma_all2_index(s.registers@, i);
            }
            assert(s.levels() =~= Seq::new((128 * REGISTERS) as nat, |i: int| 0u8));
        }
        s
    }

    /// Fetches the level of substream `stream`.
    pub fn val(&self, stream: u32) -> (r: u8)
        requires
            (stream as int) < 128 * (REGISTERS as int),
        ensures
            r == self.levels()[stream as int],
    {
        proof {
            assert((stream as int) / 128 < REGISTERS as int) by (nonlinear_arith)
                requires
                    (stream as int) < 128 * (REGISTERS as int),
            ;
        }
        let register_index = stream as usize / 128;
        let bit_index = stream as usize % 128;
        let reg = self.registers[register_index];
        let s = bit_index as u128;
        let high_bit = ((reg.high >> s) & 1) as u8;
        let low_bit = ((reg.low >> s) & 1) as u8;
        proof {
            let h = reg.high;
            let l = reg.low;
            assert(((((h >> s) & 1) as u8) << 1u8) | (((l >> s) & 1) as u8) == lvl2_128(l, h, s))
                by (bit_vector)
                requires
                    s < 128,
            ;
            lemma_all2_index(self.registers@, stream as int);
        }
        high_bit << 1u8 | low_bit
    }

    /// Sets the level of substream `stream` to `value`.
    pub fn set(&mut self, stream: u32, value: u8)
        requires
            (stream as int) < 128 * (REGISTERS as int),
            value <= 3,
        ensures
            final(self).levels() == old(self).levels().update(stream as int, value),
    {
        let ghost regs0 = self.registers@;
        proof {
            assert((stream as int) / 128 < REGISTERS as int) by (nonlinear_arith)
                requires
                    (stream as int) < 128 * (REGISTERS as int),
            ;
        }
        let register_index = stream as usize / 128;
        let bit_index = stream as usize % 128;
        let reg = self.registers[register_index];
        let b = bit_index as u128;
        let value128 = value as u128;
        let value_high_bit = (value128 >> 1u128) & 1;
        let value_low_bit = value128 & 1;
        // reset the bits at the index, then write the value's bits
        let new_high = (reg.high & !(1u128 << b)) | (value_high_bit << b);
        let new_low = (reg.low & !(1u128 << b)) | (value_low_bit << b);
        self.registers[register_index] = HiLoRegister { high: new_high, low: new_low };
        proof {
            let si = stream as int;
            lemma_set2_128(reg.low, reg.high, new_low, new_high, b, value128);
            lemma_all2_len(regs0);
            lemma_all2_len(self.registers@);
            assert forall|i: int| 0 <= i < 128 * REGISTERS implies self.levels()[i]
                == all_levels2(regs0).update(si, value)[i] by {
                lemma_all2_index(regs0, i);
                lemma_all2_index(self.registers@, i);
                vstd::arithmetic::div_mod::lemma_fundamental_div_mod(i, 128);
                vstd::arithmetic::div_mod::lemma_fundamental_div_mod(si, 128);
                if i / 128 == si / 128 {
                    assert(reg_levels2(self.registers@[i / 128]) == levels2_128(
                        new_low,
                        new_high,
                    ));
                    if i % 128 == si % 128 {
                        assert(i == si);
                        assert(lvl2_128(new_low, new_high, b) == value);
                    } else {
                        assert(lvl2_128(new_low, new_high, (i % 128) as u128) == lvl2_128(
                            reg.low,
                            reg.high,
                            (i % 128) as u128,
                        ));
                    }
                } else {
                    assert(self.registers@[i / 128] == regs0[i / 128]);
                }
            }
            assert(self.levels() =~= all_levels2(regs0).update(si, value));
        }
    }

    /// Ages every substream by one level and returns the new active count.
    pub fn decrement(&mut self) -> (r: u32)
        requires
            REGISTERS <= 4096,
        ensures
            final(self).levels() == age_levels(old(self).levels()),
            r == active(final(self).levels()),
    {
        let ghost regs0 = self.registers@;
        proof {
            lemma_all2_len(regs0);
        }
        let mut count: u32 = 0;
        let mut j: usize = 0;
        while j < REGISTERS
            invariant
                j <= REGISTERS,
                REGISTERS <= 4096,
                self.registers@.len() == REGISTERS,
                regs0.len() == REGISTERS,
                forall|k: int| 0 <= k < j ==> self.registers@[k] == aged_reg2(regs0[k]),
                forall|k: int| j <= k < REGISTERS ==> self.registers@[k] == regs0[k],
                count == active(all_levels2(self.registers@.take(j as int))),
                count <= 128 * j,
            decreases REGISTERS - j,
        {
            let ghost pre = self.registers@;
            let reg = self.registers[j];
            let p = popcount128(reg.high);
            proof {
                lemma_pop128_le(reg.high, 128);
            }
            count = count + p;
            let new_low = reg.high & !reg.low;
            let new_high = reg.high & !new_low;
            self.registers[j] = HiLoRegister { high: new_high, low: new_low };
            proof {
                assert(self.registers@[j as int] == aged_reg2(regs0[j as int]));
                lemma_reg_aged2(reg);
                assert(self.registers@.take(j as int) =~= pre.take(j as int));
                assert(self.registers@.take(j as int + 1) =~= self.registers@.take(
                    j as int,
                ).push(aged_reg2(reg)));
                lemma_all2_push(self.registers@.take(j as int), aged_reg2(reg));
                crate::bits::lemma_active_concat(
                    all_levels2(self.registers@.take(j as int)),
                    reg_levels2(aged_reg2(reg)),
                );
                lemma_pop128_le(reg.high, 128);
                lemma_active_le_len(reg_levels2(aged_reg2(reg)));
            }
            j = j + 1;
        }
        proof {
            assert(self.registers@.take(REGISTERS as int) =~= self.registers@);
            lemma_all2_len(self.registers@);
            assert forall|i: int| 0 <= i < 128 * REGISTERS implies self.levels()[i] == dec1(
                all_levels2(regs0)[i],
            ) by {
                lemma_all2_index(regs0, i);
                lemma_all2_index(self.registers@, i);
                assert(0 <= i / 128 < REGISTERS as int) by (nonlinear_arith)
                    requires
                        0 <= i < 128 * (REGISTERS as int),
                ;
                lemma_reg_aged2(regs0[i / 128]);
            }
            assert(self.levels() =~= age_levels(all_levels2(regs0)));
        }
        count
    }

    /// Returns the number of substreams whose level is non-zero.
    pub fn count(&self) -> (r: u32)
        requires
            REGISTERS <= 4096,
        ensures
            r == active(self.levels()),
    {
        let mut count: u32 = 0;
        let mut j: usize = 0;
        while j < REGISTERS
            invariant
                j <= REGISTERS,
                REGISTERS <= 4096,
                self.registers@.len() == REGISTERS,
                count == active(all_levels2(self.registers@.take(j as int))),
                count <= 128 * j,
            decreases REGISTERS - j,
        {
            let reg = self.registers[j];
            let p = popcount128(reg.low | reg.high);
            proof {
                lemma_pop128_le(reg.low | reg.high, 128);
            }
            count = count + p;
            proof {
                lemma_reg_active2(reg);
                assert(self.registers@.take(j as int + 1) =~= self.registers@.take(
                    j as int,
                ).push(reg));
                lemma_all2_push(self.registers@.take(j as int), reg);
                crate::bits::lemma_active_concat(
                    all_levels2(self.registers@.take(j as int)),
                    reg_levels2(reg),
                );
            }
            j = j + 1;
        }
        proof {
            assert(self.registers@.take(REGISTERS as int) =~= self.registers@);
        }
        count
    }

    /// Merges another store of the same generation by or-ing each register.
    pub fn merge(&mut self, other: &Self)
        ensures
            final(self).levels() == or_levels(old(self).levels(), other.levels()),
    {
        let ghost regs0 = self.registers@;
        let mut j: usize = 0;
        while j < REGISTERS
            invariant
                j <= REGISTERS,
                self.registers@.len() == REGISTERS,
                regs0.len() == REGISTERS,
                other.registers@.len() == REGISTERS,
                forall|k: int|
                    0 <= k < j ==> self.registers@[k] == or_reg2(regs0[k], other.registers@[k]),
                forall|k: int| j <= k < REGISTERS ==> self.registers@[k] == regs0[k],
            decreases REGISTERS - j,
        {
            let reg = self.registers[j];
            let other_reg = other.registers[j];
            self.registers[j] = HiLoRegister {
                high: reg.high | other_reg.high,
                low: reg.low | other_reg.low,
            };
            j = j + 1;
        }
        proof {
            lemma_all2_len(regs0);
            lemma_all2_len(self.registers@);
            lemma_all2_len(other.registers@);
            assert forall|i: int| 0 <= i < 128 * REGISTERS implies self.levels()[i] == (
            all_levels2(regs0)[i] | all_levels2(other.registers@)[i]) as u8 by {
                lemma_all2_index(regs0, i);
                lemma_all2_index(self.registers@, i);
                lemma_all2_index(other.registers@, i);
                assert(0 <= i / 128 < REGISTERS as int) by (nonlinear_arith)
                    requires
                        0 <= i < 128 * (REGISTERS as int),
                ;
                lemma_reg_or2(regs0[i / 128], other.registers@[i / 128]);
            }
            assert(self.levels() =~= or_levels(all_levels2(regs0), all_levels2(other.registers@)));
        }
    }

    /// Merges a store that is one generation behind, register by register.
    pub fn merge_high_into_lo(&mut self, other: &Self)
        ensures
            final(self).levels() == Seq::new(
                old(self).levels().len(),
                |i: int| merge_down2(old(self).levels()[i], other.levels()[i]),
            ),
    {
        let ghost regs0 = self.registers@;
        let mut j: usize = 0;
        while j < REGISTERS
            invariant
                j <= REGISTERS,
                self.registers@.len() == REGISTERS,
                regs0.len() == REGISTERS,
                other.registers@.len() == REGISTERS,
                forall|k: int|
                    0 <= k < j ==> self.registers@[k] == mhl_reg2(regs0[k], other.registers@[k]),
                forall|k: int| j <= k < REGISTERS ==> self.registers@[k] == regs0[k],
            decreases REGISTERS - j,
        {
            let reg = self.registers[j];
            let other_reg = other.registers[j];
            self.registers[j] = HiLoRegister { high: reg.high, low: reg.low | other_reg.high };
            j = j + 1;
        }
        proof {
            lemma_all2_len(regs0);
            lemma_all2_len(self.registers@);
            lemma_all2_len(other.registers@);
            assert forall|i: int| 0 <= i < 128 * REGISTERS implies self.levels()[i] == merge_down2(
                all_levels2(regs0)[i],
                all_levels2(other.registers@)[i],
            ) by {
                lemma_all2_index(regs0, i);
                lemma_all2_index(self.registers@, i);
                lemma_all2_index(other.registers@, i);
                assert(0 <= i / 128 < REGISTERS as int) by (nonlinear_arith)
                    requires
                        0 <= i < 128 * (REGISTERS as int),
                ;
                lemma_reg_mhl2(regs0[i / 128], other.registers@[i / 128]);
            }
            assert(self.levels() =~= Seq::new(
                all_levels2(regs0).len(),
                |i: int| merge_down2(all_levels2(regs0)[i], all_levels2(other.registers@)[i]),
            ));
        }
    }
}


/// Structural facts shared by every vectored store.
proof fn lemma_m128reg_facts<const REGISTERS: usize>(s: &M128Reg<REGISTERS>)
    ensures
        M128Reg::levels(s).len() == 128 * REGISTERS,
        forall|i: int| 0 <= i < 128 * REGISTERS ==> M128Reg::levels(s)[i] <= 3,
{
    lemma_all2_len(s.registers@);
    assert forall|i: int| 0 <= i < 128 * REGISTERS implies M128Reg::levels(s)[i] <= 3 by {
        lemma_all2_index(s.registers@, i);
        assert(0 <= i / 128 < REGISTERS as int) by (nonlinear_arith)
            requires
                0 <= i < 128 * (REGISTERS as int),
        ;
    }
}

/// M = 256, backed by 2 128-bit registers.
pub type M256 = M128Reg<2>;

impl Sketch for M256 {
    closed spec fn spec_streams() -> u32 {
        256
    }

    closed spec fn spec_hash_mask() -> u64 {
        0x00ff_ffff_ffff_ffff
    }

    closed spec fn spec_idx_shift() -> u32 {
        56
    }

    closed spec fn levels(&self) -> Seq<u8> {
        M128Reg::<2>::levels(self)
    }

    proof fn facts(&self)
    {
        lemma_m128reg_facts(self);
        assert forall|h: u64| #[trigger] (h >> (Self::spec_idx_shift() as u64))
            < Self::spec_streams() as u64 by {
            lemma_stream_bound(h, 56, 256);
        }
    }

    fn new() -> (s: Self)
    {
        let s: Self = M128Reg::zeroed();
        proof {
            assert(M128Reg::<2>::levels(&s) =~= Seq::new(
                Self::spec_streams() as nat,
                |i: int| 0u8,
            ));
        }
        s
    }

    fn streams() -> u32 {
        256
    }

    fn hash_mask() -> u64 {
        0x00ff_ffff_ffff_ffff
    }

    fn idx_shift() -> u32 {
        56
    }

    fn val(&self, stream: u32) -> u8 {
        self.val(stream)
    }

    fn set(&mut self, stream: u32, value: u8) {
        self.set(stream, value);
    }

    fn decrement(&mut self) -> u32 {
        self.decrement()
    }

    fn count(&self) -> u32 {
        self.count()
    }

    fn merge(&mut self, other: &Self) {
        self.merge(other);
    }

    fn merge_high_into_lo(&mut self, other: &Self) {
        self.merge_high_into_lo(other);
    }
}

/// M = 512, backed by 4 128-bit registers.
pub type M512 = M128Reg<4>;

impl Sketch for M512 {
    closed spec fn spec_streams() -> u32 {
        512
    }

    closed spec fn spec_hash_mask() -> u64 {
        0x007f_ffff_ffff_ffff
    }

    closed spec fn spec_idx_shift() -> u32 {
        55
    }

    closed spec fn levels(&self) -> Seq<u8> {
        M128Reg::<4>::levels(self)
    }

    proof fn facts(&self)
    {
        lemma_m128reg_facts(self);
        assert forall|h: u64| #[trigger] (h >> (Self::spec_idx_shift() as u64))
            < Self::spec_streams() as u64 by {
            lemma_stream_bound(h, 55, 512);
        }
    }

    fn new() -> (s: Self)
    {
        let s: Self = M128Reg::zeroed();
        proof {
            assert(M128Reg::<4>::levels(&s) =~= Seq::new(
                Self::spec_streams() as nat,
                |i: int| 0u8,
            ));
        }
        s
    }

    fn streams() -> u32 {
        512
    }

    fn hash_mask() -> u64 {
        0x007f_ffff_ffff_ffff
    }

    fn idx_shift() -> u32 {
        55
    }

    fn val(&self, stream: u32) -> u8 {
        self.val(stream)
    }

    fn set(&mut self, stream: u32, value: u8) {
        self.set(stream, value);
    }

    fn decrement(&mut self) -> u32 {
        self.decrement()
    }

    fn count(&self) -> u32 {
        self.count()
    }

    fn merge(&mut self, other: &Self) {
        self.merge(other);
    }

    fn merge_high_into_lo(&mut self, other: &Self) {
        self.merge_high_into_lo(other);
    }
}

/// M = 1024, backed by 8 128-bit registers.
pub type M1024 = M128Reg<8>;

impl Sketch for M1024 {
    closed spec fn spec_streams() -> u32 {
        1024
    }

    closed spec fn spec_hash_mask() -> u64 {
        0x003f_ffff_ffff_ffff
    }

    closed spec fn spec_idx_shift() -> u32 {
        54
    }

    closed spec fn levels(&self) -> Seq<u8> {
        M128Reg::<8>::levels(self)
    }

    proof fn facts(&self)
    {
        lemma_m128reg_facts(self);
        assert forall|h: u64| #[trigger] (h >> (Self::spec_idx_shift() as u64))
            < Self::spec_streams() as u64 by {
            lemma_stream_bound(h, 54, 1024);
        }
    }

    fn new() -> (s: Self)
    {
        let s: Self = M128Reg::zeroed();
        proof {
            assert(M128Reg::<8>::levels(&s) =~= Seq::new(
                Self::spec_streams() as nat,
                |i: int| 0u8,
            ));
        }
        s
    }

    fn streams() -> u32 {
        1024
    }

    fn hash_mask() -> u64 {
        0x003f_ffff_ffff_ffff
    }

    fn idx_shift() -> u32 {
        54
    }

    fn val(&self, stream: u32) -> u8 {
        self.val(stream)
    }

    fn set(&mut self, stream: u32, value: u8) {
        self.set(stream, value);
    }

    fn decrement(&mut self) -> u32 {
        self.decrement()
    }

    fn count(&self) -> u32 {
        self.count()
    }

    fn merge(&mut self, other: &Self) {
        self.merge(other);
    }

    fn merge_high_into_lo(&mut self, other: &Self) {
        self.merge_high_into_lo(other);
    }
}

/// M = 2048, backed by 16 128-bit registers.
pub type M2048 = M128Reg<16>;

impl Sketch for M2048 {
    closed spec fn spec_streams() -> u32 {
        2048
    }

    closed spec fn spec_hash_mask() -> u64 {
        0x001f_ffff_ffff_ffff
    }

    closed spec fn spec_idx_shift() -> u32 {
        53
    }

    closed spec fn levels(&self) -> Seq<u8> {
        M128Reg::<16>::levels(self)
    }

    proof fn facts(&self)
    {
        lemma_m128reg_facts(self);
        assert forall|h: u64| #[trigger] (h >> (Self::spec_idx_shift() as u64))
            < Self::spec_streams() as u64 by {
            lemma_stream_bound(h, 53, 2048);
        }
    }

    fn new() -> (s: Self)
    {
        let s: Self = M128Reg::zeroed();
        proof {
            assert(M128Reg::<16>::levels(&s) =~= Seq::new(
                Self::spec_streams() as nat,
                |i: int| 0u8,
            ));
        }
        s
    }

    fn streams() -> u32 {
        2048
    }

    fn hash_mask() -> u64 {
        0x001f_ffff_ffff_ffff
    }

    fn idx_shift() -> u32 {
        53
    }

    fn val(&self, stream: u32) -> u8 {
        self.val(stream)
    }

    fn set(&mut self, stream: u32, value: u8) {
        self.set(stream, value);
    }

    fn decrement(&mut self) -> u32 {
        self.decrement()
    }

    fn count(&self) -> u32 {
        self.count()
    }

    fn merge(&mut self, other: &Self) {
        self.merge(other);
    }

    fn merge_high_into_lo(&mut self, other: &Self) {
        self.merge_high_into_lo(other);
    }
}

/// M = 4096, backed by 32 128-bit registers.
pub type M4096 = M128Reg<32>;

impl Sketch for M4096 {
    closed spec fn spec_streams() -> u32 {
        4096
    }

    closed spec fn spec_hash_mask() -> u64 {
        0x000f_ffff_ffff_ffff
    }

    closed spec fn spec_idx_shift() -> u32 {
        52
    }

    closed spec fn levels(&self) -> Seq<u8> {
        M128Reg::<32>::levels(self)
    }

    proof fn facts(&self)
    {
        lemma_m128reg_facts(self);
        assert forall|h: u64| #[trigger] (h >> (Self::spec_idx_shift() as u64))
            < Self::spec_streams() as u64 by {
            lemma_stream_bound(h, 52, 4096);
        }
    }

    fn new() -> (s: Self)
    {
        let s: Self = M128Reg::zeroed();
        proof {
            assert(M128Reg::<32>::levels(&s) =~= Seq::new(
                Self::spec_streams() as nat,
                |i: int| 0u8,
            ));
        }
        s
    }

    fn streams() -> u32 {
        4096
    }

    fn hash_mask() -> u64 {
        0x000f_ffff_ffff_ffff
    }

    fn idx_shift() -> u32 {
        52
    }

    fn val(&self, stream: u32) -> u8 {
        self.val(stream)
    }

    fn set(&mut self, stream: u32, value: u8) {
        self.set(stream, value);
    }

    fn decrement(&mut self) -> u32 {
        self.decrement()
    }

    fn count(&self) -> u32 {
        self.count()
    }

    fn merge(&mut self, other: &Self) {
        self.merge(other);
    }

    fn merge_high_into_lo(&mut self, other: &Self) {
        self.merge_high_into_lo(other);
    }
}

} // verus!
