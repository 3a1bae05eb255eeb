//! Weight values as 32-bit IEEE-754 bit patterns.
//!
//! The network stores every weight as the raw bit pattern of a 32-bit
//! IEEE-754 value. Fresh weights are drawn on the uniform grid
//! `k / 2^23 - 1` for `k` in `0 ..= 2^24`, which spans the closed interval
//! from minus one to one; every grid point is exactly representable, and
//! [`grid_weight_bits`] computes its bit pattern by integer arithmetic
//! alone. [`total_order_key`] maps a bit pattern to an unsigned key whose
//! order agrees with the numeric order of the encoded values.

use vstd::prelude::*;
use vstd::arithmetic::power2::{pow2, lemma_pow2_unfold, lemma_pow2_pos, lemma_pow2_adds, lemma_pow2_strictly_increases, lemma2_to64};

verus! {

/// Number of steps of the weight grid: `2^24` (the grid has `2^24 + 1` points).
pub const WEIGHT_GRID: u32 = 0x100_0000;

/// Holds when a 32-bit IEEE-754 bit pattern encodes a finite value whose
/// magnitude is at most one: its magnitude bits are at most the pattern of
/// positive one, `0x3f80_0000`. Patterns of infinities and NaNs have larger
/// magnitude bits, so they are excluded as well.
pub open spec fn weight_in_range(bits: u32) -> bool {
    (bits & 0x7fff_ffff) <= 0x3f80_0000
}

/// Position of the highest set bit of `m` (zero for `m <= 1`).
pub open spec fn msb(m: nat) -> nat
    decreases m,
{
    if m <= 1 {
        0
    } else {
        1 + msb((m / 2) as nat)
    }
}

/// The highest set bit brackets its number: `2^msb(m) <= m < 2^(msb(m)+1)`.
pub proof fn lemma_msb_bounds(m: nat)
    requires
        m >= 1,
    ensures
        pow2(msb(m)) <= m < pow2(msb(m) + 1),
    decreases m,
{
    if m <= 1 {
        lemma2_to64();
    } else {
        lemma_msb_bounds((m / 2) as nat);
        lemma_pow2_unfold(msb(m) + 1);
        lemma_pow2_unfold(msb(m));
    }
}

/// IEEE-754 single-precision bit pattern of the value `m / 2^23`, for `m` in
/// `0 ..= 2^23`: a zero or a normal number with biased exponent
/// `104 + msb(m)` and the bits of `m` below its leading one as the mantissa
/// field, written here in integer arithmetic.
pub open spec fn magnitude_bits_spec(m: nat) -> nat {
    if m == 0 {
        0
    } else {
        ((104 + msb(m)) * 0x80_0000 + (m * pow2((23 - msb(m)) as nat) - 0x80_0000)) as nat
    }
}

/// IEEE-754 single-precision bit pattern of the grid point `k / 2^23 - 1`,
/// for `k` in `0 ..= 2^24`: the magnitude pattern of the distance from the
/// grid centre, with the sign bit set below the centre.
pub open spec fn grid_weight_bits_spec(k: nat) -> nat {
    if k >= 0x80_0000 {
        magnitude_bits_spec((k - 0x80_0000) as nat)
    } else {
        0x8000_0000 + magnitude_bits_spec((0x80_0000 - k) as nat)
    }
}

/// A pattern that a fresh random weight can be: the bit pattern of some
/// point of the weight grid. Bounded patterns off the grid — a denormal, an
/// odd mantissa below the grid's step — are no fresh draw.
pub open spec fn fresh_weight(bits: u32) -> bool {
    exists|k: nat| k <= 0x100_0000 && bits == grid_weight_bits_spec(k)
}

/// Shifting a positive `m` of at most `2^23` up to its leading bit at
/// position 23 lands in `[2^23, 2^24)`, and the leading bit sits at position
/// 23 or below.
proof fn lemma_normalized_bounds(m: nat)
    requires
        1 <= m <= 0x80_0000,
    ensures
        msb(m) <= 23,
        0x80_0000 <= m * pow2((23 - msb(m)) as nat) < 0x100_0000,
{
    lemma_msb_bounds(m);
    let s = msb(m);
    lemma2_to64();
    if s > 23 {
        lemma_pow2_strictly_increases(23, s);
        assert(false);
    }
    lemma_pow2_adds(s, (23 - s) as nat);
    lemma_pow2_adds(s + 1, (23 - s) as nat);
    lemma_pow2_pos((23 - s) as nat);
    assert(0x80_0000 <= m * pow2((23 - s) as nat) < 0x100_0000) by (nonlinear_arith)
        requires
            pow2(s) <= m,
            m < pow2(s + 1),
            pow2(23) == pow2(s) * pow2((23 - s) as nat),
            pow2(s + 1) * pow2((23 - s) as nat) == pow2(24),
            pow2(24) == 0x100_0000,
            pow2(23) == 0x80_0000,
            pow2((23 - s) as nat) >= 1;
}

/// Only one left shift of a number lands in `[2^23, 2^24)`.
proof fn lemma_normalized_unique(m: nat, a: nat, b: nat)
    requires
        m >= 1,
        0x80_0000 <= m * pow2(a) < 0x100_0000,
        0x80_0000 <= m * pow2(b) < 0x100_0000,
    ensures
        a == b,
{
    if a < b {
        lemma_normalized_apart(m, a, b);
    } else if b < a {
        lemma_normalized_apart(m, b, a);
    }
}

/// Helper for [`lemma_normalized_unique`]: a strictly larger shift overshoots.
proof fn lemma_normalized_apart(m: nat, a: nat, b: nat)
    requires
        m >= 1,
        a < b,
        0x80_0000 <= m * pow2(a),
    ensures
        m * pow2(b) >= 0x100_0000,
{
    lemma_pow2_adds(a, (b - a) as nat);
    lemma_pow2_pos((b - a) as nat);
    assert(pow2((b - a) as nat) >= 2) by {
        lemma_pow2_unfold((b - a) as nat);
        lemma_pow2_pos((b - a - 1) as nat);
    }
    assert(m * pow2(b) == (m * pow2(a)) * pow2((b - a) as nat)) by (nonlinear_arith)
        requires pow2(b) == pow2(a) * pow2((b - a) as nat);
    assert((m * pow2(a)) * pow2((b - a) as nat) >= 0x80_0000 * 2) by (nonlinear_arith)
        requires m * pow2(a) >= 0x80_0000, pow2((b - a) as nat) >= 2;
}

/// IEEE-754 single-precision bit pattern of `m / 2^23`, for `m` in
/// `0 ..= 2^23`; the result never exceeds the pattern of positive one.
fn magnitude_bits(m: u32) -> (bits: u32)
    requires
        m <= 0x80_0000,
    ensures
        bits == magnitude_bits_spec(m as nat),
        bits <= 0x3f80_0000,
{
    if m == 0 {
        return 0;
    }
    let mut val: u32 = m;
    let mut exp: u32 = 127;
    proof {
        lemma2_to64();
        assert(m as nat * pow2(0) == m as nat);
    }
    while val < 0x80_0000
        invariant
            1 <= m <= 0x80_0000,
            1 <= val < 0x100_0000,
            104 <= exp <= 127,
            val as nat == m as nat * pow2((127 - exp) as nat),
        decreases exp,
    {
        proof {
            lemma_pow2_pos((127 - exp) as nat);
            // val < 2^23 and m * 2^(127-exp) == val, so 2^(127-exp) <= val < 2^23
            // and the exponent stays well above the lower bound of the invariant.
            assert(pow2((127 - exp) as nat) <= val) by (nonlinear_arith)
                requires
                    val as nat == m as nat * pow2((127 - exp) as nat),
                    m >= 1,
                    pow2((127 - exp) as nat) >= 1;
            lemma2_to64();
            if 127 - exp >= 23 {
                if 127 - exp > 23 {
                    lemma_pow2_strictly_increases(23, (127 - exp) as nat);
                }
                assert(false);
            }
            lemma_pow2_unfold((128 - exp) as nat);
            assert(m as nat * pow2((128 - exp) as nat) == 2 * (m as nat * pow2((127 - exp) as nat)))
                by (nonlinear_arith)
                requires
                    exp <= 127,
                    pow2((128 - exp) as nat) == 2 * pow2((127 - exp) as nat);
        }
        val = val * 2;
        exp = exp - 1;
    }
    proof {
        lemma_msb_bounds(m as nat);
        lemma_normalized_bounds(m as nat);
        let s = msb(m as nat);
        lemma2_to64();
        lemma_normalized_unique(m as nat, (127 - exp) as nat, (23 - s) as nat);
        assert(exp == 104 + s);
    }
    exp * 0x80_0000 + (val - 0x80_0000)
}

/// IEEE-754 single-precision bit pattern of the grid point `k / 2^23 - 1`,
/// for `k` in `0 ..= 2^24`; the result always satisfies [`weight_in_range`].
pub fn grid_weight_bits(k: u32) -> (bits: u32)
    requires
        k <= WEIGHT_GRID,
    ensures
        bits == grid_weight_bits_spec(k as nat),
        weight_in_range(bits),
{
    if k >= 0x80_0000 {
        let mag = magnitude_bits(k - 0x80_0000);
        proof {
            assert((mag & 0x7fff_ffff) <= 0x3f80_0000) by (bit_vector)
                requires mag <= 0x3f80_0000u32;
        }
        mag
    } else {
        let mag = magnitude_bits(0x80_0000 - k);
        proof {
            assert((0x8000_0000u32 | mag) == 0x8000_0000 + mag
                && ((0x8000_0000u32 | mag) & 0x7fff_ffff) <= 0x3f80_0000) by (bit_vector)
                requires mag <= 0x3f80_0000u32;
        }
        0x8000_0000u32 | mag
    }
}

/// A magnitude pattern never exceeds the pattern of positive one; only
/// `m == 2^23` reaches it.
proof fn lemma_magnitude_bits_le(m: nat)
    requires
        m <= 0x80_0000,
    ensures
        magnitude_bits_spec(m) <= 0x3f80_0000,
        m < 0x80_0000 ==> magnitude_bits_spec(m) < 0x3f80_0000,
{
    if m >= 1 {
        lemma_msb_bounds(m);
        lemma_normalized_bounds(m);
        let s = msb(m);
        lemma2_to64();
        if s == 23 {
            // only m == 2^23 has its leading bit at 23 here
            assert(m == 0x80_0000);
            assert(m * pow2((23 - s) as nat) == 0x80_0000) by (nonlinear_arith)
                requires
                    m == 0x80_0000,
                    pow2((23 - s) as nat) == 1;
            assert(magnitude_bits_spec(m) == 0x3f80_0000);
        } else {
            assert((104 + s) * 0x80_0000 <= 126 * 0x80_0000) by (nonlinear_arith)
                requires s <= 22;
        }
    }
}

/// The magnitude encoding is strictly monotone: a larger `m` in
/// `0 ..= 2^23` has a strictly larger pattern.
proof fn lemma_magnitude_bits_monotone(m1: nat, m2: nat)
    requires
        m1 < m2 <= 0x80_0000,
    ensures
        magnitude_bits_spec(m1) < magnitude_bits_spec(m2),
{
    lemma_msb_bounds(m2);
    lemma_normalized_bounds(m2);
    let s2 = msb(m2);
    if m1 == 0 {
        lemma2_to64();
        assert((104 + s2) * 0x80_0000 >= 104 * 0x80_0000) by (nonlinear_arith)
            requires s2 >= 0;
    } else {
        lemma_msb_bounds(m1);
        lemma_normalized_bounds(m1);
        let s1 = msb(m1);
        if s1 == s2 {
            lemma_pow2_pos((23 - s1) as nat);
            assert(m1 * pow2((23 - s1) as nat) < m2 * pow2((23 - s1) as nat))
                by (nonlinear_arith)
                requires
                    m1 < m2,
                    pow2((23 - s1) as nat) >= 1;
        } else {
            if s1 > s2 {
                // impossible: m1's leading bit would put it above m2
                lemma_pow2_strictly_increases(s2 + 1, s1 + 1);
                if s2 + 1 < s1 {
                    lemma_pow2_strictly_increases(s2 + 1, s1);
                }
                assert(pow2(s2 + 1) <= pow2(s1));
                assert(false);
            }
            // s1 < s2: the exponent field alone decides
            assert(magnitude_bits_spec(m1) < (105 + s1) * 0x80_0000);
            assert((105 + s1) * 0x80_0000 <= (104 + s2) * 0x80_0000)
                by (nonlinear_arith)
                requires s1 + 1 <= s2;
        }
    }
}

/// The grid encoding is injective and order-preserving: of two grid points
/// the later one encodes the strictly greater weight, as the strict order of
/// the patterns' total-order keys shows. All `2^24 + 1` grid weights are
/// therefore distinct.
pub proof fn lemma_grid_key_monotone(k1: nat, k2: nat)
    requires
        k1 < k2 <= 0x100_0000,
    ensures
        total_order_key_spec(grid_weight_bits_spec(k1) as u32)
            < total_order_key_spec(grid_weight_bits_spec(k2) as u32),
{
    assert(forall|b: u32| #[trigger] (!b) == 0xffff_ffff - b) by (bit_vector);
    assert(forall|b: u32|
        b < 0x8000_0000 ==> #[trigger] (b | 0x8000_0000) == b + 0x8000_0000) by (bit_vector);
    if k1 >= 0x80_0000 {
        // both non-negative: the keys follow the magnitudes
        let g1 = magnitude_bits_spec((k1 - 0x80_0000) as nat);
        let g2 = magnitude_bits_spec((k2 - 0x80_0000) as nat);
        lemma_magnitude_bits_le((k1 - 0x80_0000) as nat);
        lemma_magnitude_bits_le((k2 - 0x80_0000) as nat);
        lemma_magnitude_bits_monotone((k1 - 0x80_0000) as nat, (k2 - 0x80_0000) as nat);
        assert(grid_weight_bits_spec(k1) as u32 == g1);
        assert(grid_weight_bits_spec(k2) as u32 == g2);
    } else if k2 >= 0x80_0000 {
        // a negative pattern keys below every non-negative pattern
        let g1 = magnitude_bits_spec((0x80_0000 - k1) as nat);
        let g2 = magnitude_bits_spec((k2 - 0x80_0000) as nat);
        lemma_magnitude_bits_le((0x80_0000 - k1) as nat);
        lemma_magnitude_bits_le((k2 - 0x80_0000) as nat);
        assert(grid_weight_bits_spec(k1) as u32 == (0x8000_0000 + g1) as u32);
        assert(grid_weight_bits_spec(k2) as u32 == g2);
    } else {
        // both negative: a larger distance from the centre keys lower
        let g1 = magnitude_bits_spec((0x80_0000 - k1) as nat);
        let g2 = magnitude_bits_spec((0x80_0000 - k2) as nat);
        lemma_magnitude_bits_le((0x80_0000 - k1) as nat);
        lemma_magnitude_bits_le((0x80_0000 - k2) as nat);
        lemma_magnitude_bits_monotone((0x80_0000 - k2) as nat, (0x80_0000 - k1) as nat);
        assert(grid_weight_bits_spec(k1) as u32 == (0x8000_0000 + g1) as u32);
        assert(grid_weight_bits_spec(k2) as u32 == (0x8000_0000 + g2) as u32);
    }
}

/// Unsigned key that orders 32-bit IEEE-754 bit patterns by the values they
/// encode: patterns with the sign bit set are inverted wholesale, all others
/// get the sign bit set, so negative values sort below positive ones and
/// ties in the key happen only between equal patterns.
pub open spec fn total_order_key_spec(bits: u32) -> u32 {
    if bits >= 0x8000_0000 {
        !bits
    } else {
        bits | 0x8000_0000
    }
}

/// Executable form of [`total_order_key_spec`].
pub fn total_order_key(bits: u32) -> (key: u32)
    ensures
        key == total_order_key_spec(bits),
{
    if bits >= 0x8000_0000 {
        !bits
    } else {
        bits | 0x8000_0000
    }
}

} // verus!
