//! Bit-level helpers shared by the sketch stores: single-bit views of words,
//! population counts, and the per-substream level model derived from bit
//! planes.

use vstd::prelude::*;

verus! {

/// Bit `i` of a 64-bit word.
pub open spec fn bit64(x: u64, i: u64) -> bool {
    (x >> i) & 1u64 == 1u64
}

/// Bit `i` of a 128-bit word.
pub open spec fn bit128(x: u128, i: u128) -> bool {
    (x >> i) & 1u128 == 1u128
}

/// The number of set bits among the low `n` bits of `x`.
pub open spec fn pop64(x: u64, n: nat) -> nat
    decreases n,
{
    if n == 0 {
        0
    } else {
        pop64(x, (n - 1) as nat) + if bit64(x, (n - 1) as u64) {
            1nat
        } else {
            0nat
        }
    }
}

/// The number of set bits among the low `n` bits of `x`.
pub open spec fn pop128(x: u128, n: nat) -> nat
    decreases n,
{
    if n == 0 {
        0
    } else {
        pop128(x, (n - 1) as nat) + if bit128(x, (n - 1) as u128) {
            1nat
        } else {
            0nat
        }
    }
}

pub proof fn lemma_pop64_le(x: u64, n: nat)
    ensures
        pop64(x, n) <= n,
    decreases n,
{
    if n > 0 {
        lemma_pop64_le(x, (n - 1) as nat);
    }
}

pub proof fn lemma_pop128_le(x: u128, n: nat)
    ensures
        pop128(x, n) <= n,
    decreases n,
{
    if n > 0 {
        lemma_pop128_le(x, (n - 1) as nat);
    }
}

/// Counts the set bits of a 64-bit word.
pub fn popcount64(x: u64) -> (r: u32)
    ensures
        r == pop64(x, 64),
{
    let mut r: u32 = 0;
    let mut i: u64 = 0;
    while i < 64
        invariant
            i <= 64,
            r == pop64(x, i as nat),
            r <= i,
        decreases 64 - i,
    {
        if (x >> i) & 1 == 1 {
            r = r + 1;
        }
        i = i + 1;
    }
    r
}

/// Counts the set bits of a 128-bit word.
pub fn popcount128(x: u128) -> (r: u32)
    ensures
        r == pop128(x, 128),
{
    let mut r: u32 = 0;
    let mut i: u128 = 0;
    while i < 128
        invariant
            i <= 128,
            r == pop128(x, i as nat),
            r <= i,
        decreases 128 - i,
    {
        if (x >> i) & 1 == 1 {
            r = r + 1;
        }
        i = i + 1;
    }
    r
}

/// How many substreams of `s` hold a non-zero level.
pub open spec fn active(s: Seq<u8>) -> nat
    decreases s.len(),
{
    if s.len() == 0 {
        0
    } else {
        active(s.drop_last()) + if s.last() == 0 {
            0nat
        } else {
            1nat
        }
    }
}

pub proof fn lemma_active_le_len(s: Seq<u8>)
    ensures
        active(s) <= s.len(),
    decreases s.len(),
{
    if s.len() > 0 {
        lemma_active_le_len(s.drop_last());
    }
}

pub proof fn lemma_active_concat(a: Seq<u8>, b: Seq<u8>)
    ensures
        active(a + b) == active(a) + active(b),
    decreases b.len(),
{
    if b.len() == 0 {
        assert(a + b =~= a);
    } else {
        assert((a + b).drop_last() =~= a + b.drop_last());
        assert((a + b).last() == b.last());
        lemma_active_concat(a, b.drop_last());
    }
}

/// `active` over a prefix, unrolled one step.
pub proof fn lemma_active_take_step(s: Seq<u8>, n: int)
    requires
        1 <= n <= s.len(),
    ensures
        active(s.take(n)) == active(s.take(n - 1)) + if s[n - 1] == 0 {
            0nat
        } else {
            1nat
        },
{
    assert(s.take(n).drop_last() =~= s.take(n - 1));
    assert(s.take(n).last() == s[n - 1]);
}

/// A store with no non-zero level has no active substream, and conversely.
pub proof fn lemma_active_zero(s: Seq<u8>)
    ensures
        active(s) == 0 <==> (forall|i: int| 0 <= i < s.len() ==> s[i] == 0),
    decreases s.len(),
{
    if s.len() > 0 {
        lemma_active_zero(s.drop_last());
        if active(s) == 0 {
            assert forall|i: int| 0 <= i < s.len() implies s[i] == 0 by {
                if i < s.len() - 1 {
                    assert(s.drop_last()[i] == s[i]);
                }
            }
        } else {
            if forall|i: int| 0 <= i < s.len() ==> s[i] == 0 {
                assert forall|i: int| 0 <= i < s.drop_last().len() implies s.drop_last()[i]
                    == 0 by {
                    assert(s.drop_last()[i] == s[i]);
                }
                assert(s.last() == s[s.len() - 1]);
            }
        }
    }
}

/// A bit of a bitwise or is the or of the bits.
pub proof fn lemma_bit_or64(a: u64, b: u64, j: u64)
    ensures
        bit64(a | b, j) == (bit64(a, j) || bit64(b, j)),
{
    assert(((a | b) >> j) & 1u64 == 1u64 <==> ((a >> j) & 1u64 == 1u64 || (b >> j) & 1u64
        == 1u64)) by (bit_vector);
}

/// A bit of a bitwise or is the or of the bits.
pub proof fn lemma_bit_or128(a: u128, b: u128, j: u128)
    ensures
        bit128(a | b, j) == (bit128(a, j) || bit128(b, j)),
{
    assert(((a | b) >> j) & 1u128 == 1u128 <==> ((a >> j) & 1u128 == 1u128 || (b >> j) & 1u128
        == 1u128)) by (bit_vector);
}

/// Taking the high bits of a digest as a substream index stays below the
/// substream count, for each supported width.
pub proof fn lemma_stream_bound(h: u64, sh: u64, w: u64)
    requires
        (sh == 58 && w == 64) || (sh == 57 && w == 128) || (sh == 56 && w == 256) || (sh == 55
            && w == 512) || (sh == 54 && w == 1024) || (sh == 53 && w == 2048) || (sh == 52 && w
            == 4096),
    ensures
        (h >> sh) < w,
{
    assert((h >> sh) < w) by (bit_vector)
        requires
            (sh == 58 && w == 64) || (sh == 57 && w == 128) || (sh == 56 && w == 256) || (sh == 55
                && w == 512) || (sh == 54 && w == 1024) || (sh == 53 && w == 2048) || (sh == 52
                && w == 4096),
    ;
}

/// One aging step of a single level: decrement, floored at zero.
pub open spec fn dec1(v: u8) -> u8 {
    if v == 0 {
        0u8
    } else {
        (v - 1) as u8
    }
}

/// One aging step of a whole store.
pub open spec fn age_levels(s: Seq<u8>) -> Seq<u8> {
    Seq::new(s.len(), |i: int| dec1(s[i]))
}

/// Plane-wise merge of two stores: the bitwise or of each pair of levels.
pub open spec fn or_levels(a: Seq<u8>, b: Seq<u8>) -> Seq<u8> {
    Seq::new(a.len(), |i: int| (a[i] | b[i]) as u8)
}

/// Law: on a freshly zeroed store, setting one substream's level stores
/// exactly that level there and leaves every other substream at zero.
/// Together with the store contracts for `set` and `val` this is the round
/// trip of the level encoding, for every width and every level.
pub proof fn lemma_level_round_trip(zeroed: Seq<u8>, stream: int, value: u8)
    requires
        forall|i: int| 0 <= i < zeroed.len() ==> zeroed[i] == 0,
        0 <= stream < zeroed.len(),
    ensures
        zeroed.update(stream, value)[stream] == value,
        forall|j: int|
            0 <= j < zeroed.len() && j != stream ==> zeroed.update(stream, value)[j] == 0,
{
}

/// Law: aging a store whose substreams all sit at one level lowers every
/// level by exactly one, floored at zero; once every level is zero, further
/// aging is a no-op and no substream is active.
pub proof fn lemma_aging_monotone(s: Seq<u8>, v: u8)
    requires
        forall|i: int| 0 <= i < s.len() ==> s[i] == v,
    ensures
        forall|i: int| 0 <= i < s.len() ==> age_levels(s)[i] == dec1(v),
        v == 0 ==> age_levels(s) == s,
        v == 0 ==> active(s) == 0,
{
    if v == 0 {
        assert(age_levels(s) =~= s);
        lemma_active_zero(s);
    }
}

/// Law: the plane-wise or of two stores takes, per substream, the maximum of
/// the two levels, whenever at each substream one of the two levels absorbs
/// the other (in particular for disjoint or nested level assignments). A
/// level pair whose bits are not nested is or-ed above both.
pub proof fn lemma_merge_is_max(a: Seq<u8>, b: Seq<u8>)
    requires
        a.len() == b.len(),
        forall|i: int| 0 <= i < a.len() ==> ((a[i] | b[i]) == a[i] || (a[i] | b[i]) == b[i]),
    ensures
        forall|i: int|
            0 <= i < a.len() ==> or_levels(a, b)[i] == (if a[i] >= b[i] {
                a[i]
            } else {
                b[i]
            }),
{
    assert(forall|x: u8, y: u8|
        ((x | y) == x || (x | y) == y) ==> (x >= y ==> (x | y) == x) && (x < y ==> (x | y) == y))
        by (bit_vector);
}

} // verus!
