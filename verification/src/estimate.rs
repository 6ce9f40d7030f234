//! The cardinality estimate: `2^t * w * ln(w / (w - c))`, evaluated in Q32
//! fixed-point integer arithmetic. The base-two logarithm of the ratio is
//! extracted bit by bit by repeated squaring, then scaled by `ln 2`; the
//! result is truncated to an integer and saturates at `u64::MAX` when the
//! store is full or the generation factor grows past what 64 bits hold.

use vstd::prelude::*;

use vstd::arithmetic::power2::{
    lemma2_to64, lemma_pow2_adds, lemma_pow2_pos, lemma_pow2_strictly_increases,
    lemma_pow2_unfold, pow2,
};

verus! {

/// `floor(ln 2 * 2^32)`.
pub const LN2_Q32: u64 = 2977044471;

/// How many halvings bring `z` below `2^33`.
pub open spec fn lg_int(z: u64) -> nat
    decreases z,
{
    if z < 0x2_0000_0000 {
        0
    } else {
        1 + lg_int(z / 2)
    }
}

/// The value `z` reaches once halved below `2^33`.
pub open spec fn norm_m(z: u64) -> u64
    decreases z,
{
    if z < 0x2_0000_0000 {
        z
    } else {
        norm_m(z / 2)
    }
}

/// `n` rounds of square-and-extract on the Q32 mantissa `m`, the extracted
/// bits gathered into `acc` from the most significant down.
pub open spec fn log2_frac_acc(m: u64, n: nat, acc: u64) -> u64
    decreases n,
{
    if n == 0 {
        acc
    } else {
        let m2 = ((m as int) * (m as int) / 0x1_0000_0000) as u64;
        if m2 >= 0x2_0000_0000 {
            log2_frac_acc((m2 / 2) as u64, (n - 1) as nat, (acc * 2 + 1) as u64)
        } else {
            log2_frac_acc(m2, (n - 1) as nat, (acc * 2) as u64)
        }
    }
}

/// `floor(log2(z / 2^32) * 2^32)` for `z >= 2^32`, to 32 fractional bits.
pub open spec fn spec_log2_q32(z: u64) -> u64 {
    (lg_int(z) * 0x1_0000_0000 + log2_frac_acc(norm_m(z), 32, 0)) as u64
}

/// `floor(ln(num / den) * 2^32)`, up to the precision of the digit
/// extraction.
pub open spec fn spec_ln_q32(num: u64, den: u64) -> u64 {
    ((spec_log2_q32(((num as int) * 0x1_0000_0000 / (den as int)) as u64) as int) * (
    LN2_Q32 as int) / 0x1_0000_0000) as u64
}

/// The two-bit and three-bit estimate: `2^t * w * ln(w / (w - c))`, truncated,
/// saturating at `u64::MAX` when the store is full or the value passes 64
/// bits.
pub open spec fn spec_estimate(w: u32, c: u32, t: u32) -> u64 {
    if c >= w {
        u64::MAX
    } else {
        let base = (w as int) * (spec_ln_q32(w as u64, (w - c) as u64) as int);
        if base == 0 {
            0u64
        } else if t >= 96 || base * pow2(t as nat) >= pow2(96) {
            u64::MAX
        } else {
            (base * pow2(t as nat) / 0x1_0000_0000) as u64
        }
    }
}

/// The saturation threshold `floor(0.988 * w)`: once this many substreams
/// are active, the store is aged and the generation advances.
pub open spec fn spec_alpha_threshold(w: u32) -> u32 {
    ((w as int) * 988 / 1000) as u32
}

/// The looser "nearly full" threshold `floor(0.99 * w)` used while merging.
pub open spec fn spec_merge_threshold(w: u32) -> u32 {
    ((w as int) * 99 / 100) as u32
}

/// The generation after one aging step: up by four, capped at the top of the
/// counter so that a verified caller can never overflow it.
pub open spec fn bump_t(t: u32) -> u32 {
    if t <= u32::MAX - 4 {
        (t + 4) as u32
    } else {
        u32::MAX
    }
}

/// Computes `spec_log2_q32(z)`.
pub fn log2_q32(z: u64) -> (r: u64)
    requires
        0x1_0000_0000 <= z < 0x2_0000_0000_0000,
    ensures
        r == spec_log2_q32(z),
{
    let mut m: u64 = z;
    let mut k: u32 = 0;
    proof {
        lemma2_to64();
    }
    while m >= 0x2_0000_0000
        invariant
            0x1_0000_0000 <= m <= z,
            z < 0x2_0000_0000_0000,
            lg_int(z) == k + lg_int(m),
            norm_m(z) == norm_m(m),
            (m as int) * pow2(k as nat) <= z,
            k <= 17,
        decreases m,
    {
        proof {
            lemma_pow2_unfold((k + 1) as nat);
            assert((m as int / 2) * (2 * pow2(k as nat)) <= (m as int) * pow2(k as nat)) by (
            nonlinear_arith)
                requires
                    m >= 2,
                    pow2(k as nat) >= 0,
            ;
            lemma_pow2_pos(k as nat);
            if k + 1 > 17 {
                lemma2_to64();
                lemma_pow2_strictly_increases(17, (k + 1) as nat);
                assert((m as int / 2) * pow2((k + 1) as nat) > 0x2_0000_0000_0000) by (
                nonlinear_arith)
                    requires
                        m / 2 >= 0x1_0000_0000,
                        pow2((k + 1) as nat) > pow2(17),
                        pow2(17) == 0x2_0000,
                ;
                assert(false);
            }
        }
        m = m / 2;
        k = k + 1;
    }
    let ghost m0 = m;
    let mut acc: u64 = 0;
    let mut j: u32 = 0;
    while j < 32
        invariant
            j <= 32,
            0x1_0000_0000 <= m < 0x2_0000_0000,
            acc < pow2(j as nat),
            log2_frac_acc(m0, 32, 0) == log2_frac_acc(m, (32 - j) as nat, acc),
        decreases 32 - j,
    {
        proof {
            assert((m as int) * (m as int) < 0x4_0000_0000_0000_0000) by (nonlinear_arith)
                requires
                    m < 0x2_0000_0000,
            ;
            assert((m as int) * (m as int) >= 0x1_0000_0000_0000_0000) by (nonlinear_arith)
                requires
                    m >= 0x1_0000_0000,
            ;
            assert(0x1_0000_0000_0000_0000int / 0x1_0000_0000int == 0x1_0000_0000int);
            assert((m as int) * (m as int) / 0x1_0000_0000 >= 0x1_0000_0000) by (nonlinear_arith)
                requires
                    (m as int) * (m as int) >= 0x1_0000_0000_0000_0000,
            ;
            lemma2_to64();
            lemma_pow2_unfold((j + 1) as nat);
            if j < 31 {
                lemma_pow2_strictly_increases(j as nat, 31);
            }
        }
        let m2 = ((m as u128) * (m as u128) / 0x1_0000_0000u128) as u64;
        if m2 >= 0x2_0000_0000 {
            acc = acc * 2 + 1;
            m = m2 / 2;
        } else {
            acc = acc * 2;
            m = m2;
        }
        j = j + 1;
    }
    proof {
        lemma2_to64();
    }
    (k as u64) * 0x1_0000_0000 + acc
}

/// The Q32 ratio of `num` over `den` sits between `2^32` and `2^48`.
proof fn lemma_ratio_q32_bounds(num: u64, den: u64)
    requires
        1 <= den <= num,
        num <= 0x1_0000,
    ensures
        0x1_0000_0000 <= (num as int) * 0x1_0000_0000 / (den as int) <= 0x1_0000_0000_0000,
{
    let n32 = (num as int) * 0x1_0000_0000;
    assert((den as int) * 0x1_0000_0000 <= n32 && n32 <= 0x1_0000_0000_0000) by (nonlinear_arith)
        requires
            1 <= den <= num,
            num <= 0x1_0000,
            n32 == (num as int) * 0x1_0000_0000,
    ;
    vstd::arithmetic::div_mod::lemma_div_is_ordered(
        (den as int) * 0x1_0000_0000,
        n32,
        den as int,
    );
    vstd::arithmetic::div_mod::lemma_div_multiples_vanish(0x1_0000_0000, den as int);
    vstd::arithmetic::div_mod::lemma_div_is_ordered(n32, 0x1_0000_0000_0000, den as int);
    vstd::arithmetic::div_mod::lemma_div_is_ordered_by_denominator(0x1_0000_0000_0000, 1, den as int);
    vstd::arithmetic::div_mod::lemma_div_basics(0x1_0000_0000_0000);
}

/// Computes `spec_ln_q32(num, den)`.
pub fn ln_q32(num: u64, den: u64) -> (r: u64)
    requires
        1 <= den <= num,
        num <= 0x1_0000,
    ensures
        r == spec_ln_q32(num, den),
{
    proof {
        lemma_ratio_q32_bounds(num, den);
    }
    let z = ((num as u128) * 0x1_0000_0000u128 / (den as u128)) as u64;
    let lg = log2_q32(z);
    proof {
        assert((lg as int) * (LN2_Q32 as int) / 0x1_0000_0000 < 0x1_0000_0000_0000_0000) by (
        nonlinear_arith)
            requires
                lg <= 0xffff_ffff_ffff_ffff,
        ;
    }
    ((lg as u128) * (LN2_Q32 as u128) / 0x1_0000_0000u128) as u64
}

/// The ln value stays well below `2^37` for the widths in use.
pub proof fn lemma_ln_q32_bound(num: u64, den: u64)
    requires
        1 <= den <= num,
        num <= 0x1_0000,
    ensures
        spec_ln_q32(num, den) < 0x20_0000_0000,
{
    let zi = (num as int) * 0x1_0000_0000 / (den as int);
    lemma_ratio_q32_bounds(num, den);
    let z = zi as u64;
    lemma2_to64();
    assert((z as int) < 0x2_0000_0000 * pow2(16));
    lemma_lg_int_bound_rec(z, 16);
    lemma_frac_bound(norm_m(z), 32, 0);
    let lg = spec_log2_q32(z);
    assert(lg_int(z) * 0x1_0000_0000 + log2_frac_acc(norm_m(z), 32, 0) < 0x11_0000_0000) by (
    nonlinear_arith)
        requires
            lg_int(z) <= 16,
            log2_frac_acc(norm_m(z), 32, 0) < 0x1_0000_0000,
    ;
    assert((lg as int) * (LN2_Q32 as int) / 0x1_0000_0000 <= lg) by (nonlinear_arith)
        requires
            0 <= (lg as int),
            0 <= LN2_Q32 < 0x1_0000_0000,
    ;
}

proof fn lemma_lg_int_bound_rec(z: u64, b: nat)
    requires
        (z as int) < 0x2_0000_0000 * pow2(b),
    ensures
        lg_int(z) <= b,
    decreases b,
{
    if z >= 0x2_0000_0000 {
        if b == 0 {
            assert(pow2(0) == 1) by {
                lemma2_to64();
            }
        } else {
            lemma_pow2_unfold(b);
            assert((z as int) / 2 < 0x2_0000_0000 * pow2((b - 1) as nat)) by (nonlinear_arith)
                requires
                    (z as int) < 0x2_0000_0000 * (2 * pow2((b - 1) as nat)),
            ;
            lemma_lg_int_bound_rec(z / 2, (b - 1) as nat);
        }
    }
}

/// The gathered fraction bits stay below `acc + 1` shifted up by `n`.
proof fn lemma_frac_bound(m: u64, n: nat, acc: u64)
    requires
        n <= 32,
        pow2(n) * ((acc as int) + 1) <= 0x1_0000_0000_0000_0000,
    ensures
        (log2_frac_acc(m, n, acc) as int) < pow2(n) * ((acc as int) + 1),
    decreases n,
{
    lemma_pow2_pos(n);
    if n == 0 {
        lemma2_to64();
    } else {
        let m2 = ((m as int) * (m as int) / 0x1_0000_0000) as u64;
        lemma_pow2_unfold(n);
        lemma_pow2_pos((n - 1) as nat);
        assert((acc as int) * 2 + 2 <= 0x1_0000_0000_0000_0000) by (nonlinear_arith)
            requires
                pow2(n) * ((acc as int) + 1) <= 0x1_0000_0000_0000_0000,
                pow2(n) == 2 * pow2((n - 1) as nat),
                pow2((n - 1) as nat) >= 1,
                acc >= 0,
        ;
        assert(pow2((n - 1) as nat) * ((acc * 2 + 1) as int + 1) == pow2(n) * ((acc as int) + 1))
            by (nonlinear_arith)
            requires
                pow2(n) == 2 * pow2((n - 1) as nat),
                (acc * 2 + 1) as int == (acc as int) * 2 + 1,
        ;
        if m2 >= 0x2_0000_0000 {
            lemma_frac_bound((m2 / 2) as u64, (n - 1) as nat, (acc * 2 + 1) as u64);
        } else {
            assert(pow2((n - 1) as nat) * ((acc * 2) as int + 1) <= pow2(n) * ((acc as int) + 1))
                by (nonlinear_arith)
                requires
                    pow2(n) == 2 * pow2((n - 1) as nat),
                    pow2((n - 1) as nat) >= 1,
                    (acc * 2) as int == (acc as int) * 2,
            ;
            lemma_frac_bound(m2, (n - 1) as nat, (acc * 2) as u64);
        }
    }
}

/// Computes `spec_estimate(w, c, t)`.
pub fn estimate(w: u32, c: u32, t: u32) -> (r: u64)
    requires
        c <= w,
        1 <= w <= 0x1_0000,
    ensures
        r == spec_estimate(w, c, t),
{
    if c >= w {
        return u64::MAX;
    }
    let l = ln_q32(w as u64, (w - c) as u64);
    proof {
        assert((w as int) * (l as int) < 0x1_0000_0000_0000_0000_0000) by (nonlinear_arith)
            requires
                w <= 0x1_0000,
                l < 0x1_0000_0000_0000_0000,
        ;
    }
    let base = (w as u128) * (l as u128);
    if base == 0 {
        return 0;
    }
    if t >= 96 {
        return u64::MAX;
    }
    let mut factor: u128 = 1;
    let mut i: u32 = 0;
    proof {
        lemma2_to64();
        lemma_pow2_adds(64, 32);
        assert(pow2(96) == 0x1_0000_0000_0000_0000_0000_0000);
        lemma_pow2_adds(64, 31);
        assert(pow2(95) == 0x8000_0000_0000_0000_0000_0000);
        lemma_pow2_strictly_increases(0, 95);
    }
    while i < t
        invariant
            i <= t,
            t < 96,
            factor == pow2(i as nat),
            factor <= pow2(95),
        decreases t - i,
    {
        proof {
            lemma_pow2_unfold((i + 1) as nat);
            if i + 1 < 95 {
                lemma_pow2_strictly_increases((i + 1) as nat, 95);
            }
            lemma2_to64();
            lemma_pow2_adds(64, 31);
            assert(pow2(95) == 0x8000_0000_0000_0000_0000_0000);
        }
        factor = factor * 2;
        i = i + 1;
    }
    let thr: u128 = 0x1_0000_0000_0000_0000_0000_0000u128;
    proof {
        lemma_pow2_adds(t as nat, (96 - t) as nat);
        lemma_pow2_pos(t as nat);
        vstd::arithmetic::div_mod::lemma_div_multiples_vanish(
            pow2((96 - t) as nat) as int,
            factor as int,
        );
        assert((thr as int) / (factor as int) == pow2((96 - t) as nat));
    }
    if base >= thr / factor {
        proof {
            assert((base as int) * pow2(t as nat) >= pow2(96)) by (nonlinear_arith)
                requires
                    (base as int) >= pow2((96 - t) as nat),
                    factor == pow2(t as nat),
                    factor > 0,
                    pow2(96) == pow2(t as nat) * pow2((96 - t) as nat),
            ;
        }
        return u64::MAX;
    }
    proof {
        assert((base as int) * pow2(t as nat) < pow2(96)) by (nonlinear_arith)
            requires
                (base as int) < pow2((96 - t) as nat),
                factor == pow2(t as nat),
                factor > 0,
                pow2(96) == pow2(t as nat) * pow2((96 - t) as nat),
        ;
        lemma2_to64();
        lemma_pow2_adds(64, 32);
        assert((base as int) * pow2(t as nat) / 0x1_0000_0000 < pow2(64)) by (nonlinear_arith)
            requires
                (base as int) * pow2(t as nat) < pow2(96),
                (base as int) * pow2(t as nat) >= 0,
                pow2(96) == pow2(64) * pow2(32),
                pow2(32) == 0x1_0000_0000,
                pow2(64) > 0,
        ;
    }
    ((base * factor) / 0x1_0000_0000u128) as u64
}

/// More halvings are needed for a larger value.
proof fn lemma_lg_int_mono(z1: u64, z2: u64)
    requires
        z1 <= z2,
    ensures
        lg_int(z1) <= lg_int(z2),
    decreases z2,
{
    if z1 >= 0x2_0000_0000 {
        vstd::arithmetic::div_mod::lemma_div_is_ordered(z1 as int, z2 as int, 2);
        lemma_lg_int_mono(z1 / 2, z2 / 2);
    }
}

/// The normalized mantissa of a value at or above `2^32` stays in
/// `[2^32, 2^33)`.
proof fn lemma_norm_bounds(z: u64)
    requires
        z >= 0x1_0000_0000,
    ensures
        0x1_0000_0000 <= norm_m(z) < 0x2_0000_0000,
    decreases z,
{
    if z >= 0x2_0000_0000 {
        lemma_norm_bounds(z / 2);
    }
}

/// Two values with the same integer part order their mantissas alike.
proof fn lemma_norm_mono(z1: u64, z2: u64)
    requires
        z1 <= z2,
        lg_int(z1) == lg_int(z2),
    ensures
        norm_m(z1) <= norm_m(z2),
    decreases z2,
{
    if z1 >= 0x2_0000_0000 {
        vstd::arithmetic::div_mod::lemma_div_is_ordered(z1 as int, z2 as int, 2);
        lemma_norm_mono(z1 / 2, z2 / 2);
    }
}

/// The gathered fraction bits never drop below `acc` shifted up by `n`.
proof fn lemma_frac_lower(m: u64, n: nat, acc: u64)
    requires
        n <= 32,
        pow2(n) * ((acc as int) + 1) <= 0x1_0000_0000_0000_0000,
    ensures
        (log2_frac_acc(m, n, acc) as int) >= (acc as int) * pow2(n),
    decreases n,
{
    lemma_pow2_pos(n);
    if n == 0 {
        lemma2_to64();
        assert((acc as int) * pow2(0) == acc as int) by (nonlinear_arith)
            requires
                pow2(0) == 1,
        ;
    } else {
        let m2 = ((m as int) * (m as int) / 0x1_0000_0000) as u64;
        lemma_pow2_unfold(n);
        lemma_pow2_pos((n - 1) as nat);
        assert((acc as int) * 2 + 2 <= 0x1_0000_0000_0000_0000 && pow2((n - 1) as nat) * ((
        acc as int) * 2 + 1 + 1) <= pow2(n) * ((acc as int) + 1) && ((acc as int) * 2 + 1) * pow2(
            (n - 1) as nat,
        ) >= (acc as int) * pow2(n) && ((acc as int) * 2) * pow2((n - 1) as nat) >= (acc as int)
            * pow2(n) && pow2((n - 1) as nat) * ((acc as int) * 2 + 1) <= pow2(n) * ((acc as int)
            + 1)) by (nonlinear_arith)
            requires
                pow2(n) * ((acc as int) + 1) <= 0x1_0000_0000_0000_0000,
                pow2(n) == 2 * pow2((n - 1) as nat),
                pow2((n - 1) as nat) >= 1,
                acc >= 0,
        ;
        if m2 >= 0x2_0000_0000 {
            lemma_frac_lower((m2 / 2) as u64, (n - 1) as nat, (acc * 2 + 1) as u64);
        } else {
            lemma_frac_lower(m2, (n - 1) as nat, (acc * 2) as u64);
        }
    }
}

/// A larger mantissa never yields smaller fraction bits.
proof fn lemma_frac_mono(m1: u64, m2: u64, n: nat, acc: u64)
    requires
        n <= 32,
        pow2(n) * ((acc as int) + 1) <= 0x1_0000_0000_0000_0000,
        0x1_0000_0000 <= m1 <= m2,
        m2 < 0x2_0000_0000,
    ensures
        log2_frac_acc(m1, n, acc) <= log2_frac_acc(m2, n, acc),
    decreases n,
{
    lemma_pow2_pos(n);
    if n > 0 {
        let sq1 = ((m1 as int) * (m1 as int) / 0x1_0000_0000) as u64;
        let sq2 = ((m2 as int) * (m2 as int) / 0x1_0000_0000) as u64;
        assert((m1 as int) * (m1 as int) <= (m2 as int) * (m2 as int) && (m2 as int) * (m2 as int)
            < 0x4_0000_0000_0000_0000 && (m1 as int) * (m1 as int) >= 0x1_0000_0000_0000_0000) by (
        nonlinear_arith)
            requires
                0x1_0000_0000 <= m1 <= m2,
                m2 < 0x2_0000_0000,
        ;
        vstd::arithmetic::div_mod::lemma_div_is_ordered(
            (m1 as int) * (m1 as int),
            (m2 as int) * (m2 as int),
            0x1_0000_0000,
        );
        assert((m1 as int) * (m1 as int) / 0x1_0000_0000 >= 0x1_0000_0000) by (nonlinear_arith)
            requires
                (m1 as int) * (m1 as int) >= 0x1_0000_0000_0000_0000,
        ;
        assert((m2 as int) * (m2 as int) / 0x1_0000_0000 < 0x4_0000_0000) by (nonlinear_arith)
            requires
                (m2 as int) * (m2 as int) < 0x4_0000_0000_0000_0000,
                (m2 as int) * (m2 as int) >= 0,
        ;
        lemma_pow2_unfold(n);
        lemma_pow2_pos((n - 1) as nat);
        assert((acc as int) * 2 + 2 <= 0x1_0000_0000_0000_0000 && pow2((n - 1) as nat) * ((
        acc as int) * 2 + 1 + 1) <= pow2(n) * ((acc as int) + 1) && pow2((n - 1) as nat) * ((
        acc as int) * 2 + 1) <= pow2(n) * ((acc as int) + 1)) by (nonlinear_arith)
            requires
                pow2(n) * ((acc as int) + 1) <= 0x1_0000_0000_0000_0000,
                pow2(n) == 2 * pow2((n - 1) as nat),
                pow2((n - 1) as nat) >= 1,
                acc >= 0,
        ;
        if sq1 >= 0x2_0000_0000 && sq2 >= 0x2_0000_0000 {
            vstd::arithmetic::div_mod::lemma_div_is_ordered(sq1 as int, sq2 as int, 2);
            lemma_frac_mono((sq1 / 2) as u64, (sq2 / 2) as u64, (n - 1) as nat, (acc * 2 + 1) as u64);
        } else if sq1 < 0x2_0000_0000 && sq2 < 0x2_0000_0000 {
            lemma_frac_mono(sq1, sq2, (n - 1) as nat, (acc * 2) as u64);
        } else {
            // the bits differ: the smaller mantissa yields the smaller bit,
            // and the bounds separate the two branches
            lemma_frac_bound(sq1, (n - 1) as nat, (acc * 2) as u64);
            lemma_frac_lower((sq2 / 2) as u64, (n - 1) as nat, (acc * 2 + 1) as u64);
            assert(pow2((n - 1) as nat) * ((acc as int) * 2 + 1) == ((acc as int) * 2 + 1) * pow2(
                (n - 1) as nat,
            )) by (nonlinear_arith);
        }
    }
}

/// The integer part of `lg_int` never exceeds 31 for a 64-bit value.
proof fn lemma_lg_int_31(z: u64)
    ensures
        lg_int(z) <= 31,
{
    lemma2_to64();
    lemma_pow2_adds(31, 2);
    assert((z as int) < 0x2_0000_0000 * pow2(31)) by (nonlinear_arith)
        requires
            z <= 0xffff_ffff_ffff_ffff,
            pow2(31) == 0x8000_0000,
    ;
    lemma_lg_int_bound_rec(z, 31);
}

/// A larger ratio never yields a smaller fixed-point logarithm.
proof fn lemma_log2_mono(z1: u64, z2: u64)
    requires
        0x1_0000_0000 <= z1 <= z2,
    ensures
        spec_log2_q32(z1) <= spec_log2_q32(z2),
{
    lemma2_to64();
    lemma_lg_int_mono(z1, z2);
    lemma_lg_int_31(z1);
    lemma_lg_int_31(z2);
    lemma_norm_bounds(z1);
    lemma_norm_bounds(z2);
    lemma_frac_bound(norm_m(z1), 32, 0);
    lemma_frac_bound(norm_m(z2), 32, 0);
    lemma_frac_lower(norm_m(z2), 32, 0);
    if lg_int(z1) == lg_int(z2) {
        lemma_norm_mono(z1, z2);
        lemma_frac_mono(norm_m(z1), norm_m(z2), 32, 0);
        assert(lg_int(z1) * 0x1_0000_0000 + log2_frac_acc(norm_m(z1), 32, 0) <= lg_int(z2)
            * 0x1_0000_0000 + log2_frac_acc(norm_m(z2), 32, 0));
    } else {
        assert(lg_int(z1) * 0x1_0000_0000 + log2_frac_acc(norm_m(z1), 32, 0) < (lg_int(z1) + 1)
            * 0x1_0000_0000) by (nonlinear_arith)
            requires
                (log2_frac_acc(norm_m(z1), 32, 0) as int) < pow2(32),
                pow2(32) == 0x1_0000_0000,
        ;
        assert((lg_int(z1) + 1) * 0x1_0000_0000 <= lg_int(z2) * 0x1_0000_0000) by (nonlinear_arith)
            requires
                lg_int(z1) + 1 <= lg_int(z2),
        ;
    }
}

/// A smaller denominator never yields a smaller fixed-point logarithm of the
/// ratio.
proof fn lemma_ln_mono(num: u64, den1: u64, den2: u64)
    requires
        1 <= den2 <= den1 <= num,
        num <= 0x1_0000,
    ensures
        spec_ln_q32(num, den1) <= spec_ln_q32(num, den2),
{
    lemma_ratio_q32_bounds(num, den1);
    lemma_ratio_q32_bounds(num, den2);
    let z1 = ((num as int) * 0x1_0000_0000 / (den1 as int)) as u64;
    let z2 = ((num as int) * 0x1_0000_0000 / (den2 as int)) as u64;
    vstd::arithmetic::div_mod::lemma_div_is_ordered_by_denominator(
        (num as int) * 0x1_0000_0000,
        den2 as int,
        den1 as int,
    );
    lemma_log2_mono(z1, z2);
    assert((spec_log2_q32(z1) as int) * (LN2_Q32 as int) <= (spec_log2_q32(z2) as int) * (
    LN2_Q32 as int)) by (nonlinear_arith)
        requires
            spec_log2_q32(z1) <= spec_log2_q32(z2),
            LN2_Q32 >= 0,
    ;
    vstd::arithmetic::div_mod::lemma_div_is_ordered(
        (spec_log2_q32(z1) as int) * (LN2_Q32 as int),
        (spec_log2_q32(z2) as int) * (LN2_Q32 as int),
        0x1_0000_0000,
    );
    assert((spec_log2_q32(z1) as int) * (LN2_Q32 as int) / 0x1_0000_0000 >= 0
        && (spec_log2_q32(z2) as int) * (LN2_Q32 as int) / 0x1_0000_0000 >= 0) by (nonlinear_arith)
        requires
            spec_log2_q32(z1) >= 0,
            spec_log2_q32(z2) >= 0,
            LN2_Q32 >= 0,
    ;
    assert((spec_log2_q32(z2) as int) * (LN2_Q32 as int) / 0x1_0000_0000 <= spec_log2_q32(z2)) by (
    nonlinear_arith)
        requires
            spec_log2_q32(z2) >= 0,
            0 <= LN2_Q32 < 0x1_0000_0000,
    ;
}

/// More active substreams never shrink the estimate: the estimation formula
/// is monotone in the active count, at a fixed width and generation.
pub proof fn lemma_estimate_mono(w: u32, c1: u32, c2: u32, t: u32)
    requires
        c1 <= c2 <= w,
        1 <= w <= 0x1_0000,
    ensures
        spec_estimate(w, c1, t) <= spec_estimate(w, c2, t),
{
    if c2 >= w || c1 >= c2 {
        return ;
    }
    lemma_ln_mono(w as u64, (w - c1) as u64, (w - c2) as u64);
    let l1 = spec_ln_q32(w as u64, (w - c1) as u64);
    let l2 = spec_ln_q32(w as u64, (w - c2) as u64);
    let base1 = (w as int) * (l1 as int);
    let base2 = (w as int) * (l2 as int);
    assert(0 <= base1 <= base2) by (nonlinear_arith)
        requires
            0 <= l1 <= l2,
            w >= 1,
            base1 == (w as int) * (l1 as int),
            base2 == (w as int) * (l2 as int),
    ;
    if base1 == 0 {
        return ;
    }
    if t >= 96 {
        return ;
    }
    lemma_pow2_pos(t as nat);
    assert(base1 * pow2(t as nat) <= base2 * pow2(t as nat)) by (nonlinear_arith)
        requires
            0 <= base1 <= base2,
            pow2(t as nat) > 0,
    ;
    if base2 * pow2(t as nat) >= pow2(96) {
        if base1 * pow2(t as nat) < pow2(96) {
            lemma2_to64();
            lemma_pow2_adds(64, 32);
            assert(base1 * pow2(t as nat) / 0x1_0000_0000 < pow2(64)) by (nonlinear_arith)
                requires
                    0 <= base1 * pow2(t as nat) < pow2(96),
                    pow2(96) == pow2(64) * pow2(32),
                    pow2(32) == 0x1_0000_0000,
                    pow2(64) > 0,
            ;
        }
        return ;
    }
    vstd::arithmetic::div_mod::lemma_div_is_ordered(
        base1 * pow2(t as nat),
        base2 * pow2(t as nat),
        0x1_0000_0000,
    );
    lemma2_to64();
    lemma_pow2_adds(64, 32);
    assert(base2 * pow2(t as nat) / 0x1_0000_0000 < pow2(64) && base1 * pow2(t as nat)
        / 0x1_0000_0000 >= 0) by (nonlinear_arith)
        requires
            0 <= base1 * pow2(t as nat),
            0 <= base2 * pow2(t as nat) < pow2(96),
            pow2(96) == pow2(64) * pow2(32),
            pow2(32) == 0x1_0000_0000,
            pow2(64) > 0,
    ;
}

/// The fixed 64-substream estimate: `u * 64 * 1.1 * ln(64 / (64 - c1))`,
/// truncated, saturating at `u64::MAX`.
pub open spec fn spec_estimate64(u: u64, c1: u32) -> u64 {
    if c1 >= 64 {
        u64::MAX
    } else {
        let bias = (spec_ln_q32(64, (64 - c1) as u64) as int) * 11 / 10;
        let prod = (u as int) * 64 * bias;
        if prod >= pow2(96) {
            u64::MAX
        } else {
            (prod / 0x1_0000_0000) as u64
        }
    }
}

/// Computes `spec_estimate64(u, c1)`.
pub fn estimate64(u: u64, c1: u32) -> (r: u64)
    ensures
        r == spec_estimate64(u, c1),
{
    if c1 >= 64 {
        return u64::MAX;
    }
    let l = ln_q32(64, (64 - c1) as u64);
    proof {
        lemma_ln_q32_bound(64, (64 - c1) as u64);
    }
    let bias = l * 11 / 10;
    proof {
        assert(((u as int) * 64) * (bias as int) < 0x8000_0000_0000_0000_0000_0000_0000_0000) by (
        nonlinear_arith)
            requires
                (u as int) * 64 < 0x400_0000_0000_0000_0000,
                bias < 0x400_0000_0000,
        ;
    }
    let prod = (u as u128) * 64 * (bias as u128);
    proof {
        lemma2_to64();
        lemma_pow2_adds(64, 32);
        assert(pow2(96) == 0x1_0000_0000_0000_0000_0000_0000);
        assert((prod as int) / 0x1_0000_0000 < pow2(64) ==> prod / 0x1_0000_0000u128 <= u64::MAX
            as u128);
        assert((prod as int) < pow2(96) ==> (prod as int) / 0x1_0000_0000 < pow2(64)) by (
        nonlinear_arith)
            requires
                pow2(96) == pow2(64) * pow2(32),
                pow2(32) == 0x1_0000_0000,
                pow2(64) > 0,
                (prod as int) >= 0,
        ;
    }
    if prod >= 0x1_0000_0000_0000_0000_0000_0000u128 {
        return u64::MAX;
    }
    (prod / 0x1_0000_0000u128) as u64
}

} // verus!
