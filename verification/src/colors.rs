use vstd::arithmetic::div_mod::{lemma_basic_div, lemma_div_pos_is_pos, lemma_multiply_divide_lt};
use vstd::arithmetic::power2::{
    lemma2_to64, lemma2_to64_rest, lemma_pow2_adds, lemma_pow2_pos, lemma_pow2_strictly_increases,
    pow2,
};
use vstd::bits::{lemma_u64_shl_is_mul, lemma_u64_shr_is_div};
use vstd::prelude::*;

verus! {

/// An RGB color whose channels are IEEE-754 binary64 values, carried as their
/// raw 64-bit patterns: sign in bit 63, biased exponent in bits 52..=62,
/// fraction in bits 0..=51.  Channels are unbounded (a pattern may denote a
/// value outside `[0.0, 1.0]`, an infinity, or a NaN); they are clamped only
/// when a canvas is serialized, never on storage.
#[derive(Clone, Copy, PartialEq, Eq, Structural, Debug)]
pub struct Color {
    pub red: u64,
    pub green: u64,
    pub blue: u64,
}

impl Color {
    /// Black: every channel is the pattern of `+0.0`, which is all zero bits.
    pub open spec fn spec_black() -> Color {
        Color { red: 0, green: 0, blue: 0 }
    }

    /// Black, the color every canvas pixel starts as.
    pub fn black() -> (c: Color)
        ensures
            c == Color::spec_black(),
    {
        Color { red: 0, green: 0, blue: 0 }
    }
}

/// One channel clamped into the displayable range: a value below 0.0 becomes
/// +0.0 and a value above 1.0 becomes 1.0.  The comparisons follow IEEE-754:
/// a NaN compares false on both sides and passes through unchanged, negative
/// zero is not below +0.0 and stays itself, and for the remaining
/// non-negative patterns the unsigned bit-pattern order is the value order.
pub open spec fn clamp_bits(b: u64) -> u64 {
    if biased_exp(b) == 0x7ff && fraction(b) != 0 {
        b
    } else if sign_bit(b) == 1 {
        if biased_exp(b) == 0 && fraction(b) == 0 {
            b
        } else {
            0
        }
    } else if b > 0x3ff0_0000_0000_0000 {
        0x3ff0_0000_0000_0000
    } else {
        b
    }
}

impl Color {
    /// This color with each channel clamped into `[0.0, 1.0]`, the
    /// displayable range.  Storage is never clamped; serialization uses this.
    pub fn clamped(&self) -> (c: Color)
        ensures
            c == (Color {
                red: clamp_bits(self.red),
                green: clamp_bits(self.green),
                blue: clamp_bits(self.blue),
            }),
    {
        Color {
            red: clamp_channel(self.red),
            green: clamp_channel(self.green),
            blue: clamp_channel(self.blue),
        }
    }
}

/// One channel clamped into the displayable range.
fn clamp_channel(b: u64) -> (r: u64)
    ensures
        r == clamp_bits(b),
{
    let exp: u64 = (b >> 52) & 0x7ff;
    let frac: u64 = b & 0xf_ffff_ffff_ffff;
    if exp == 0x7ff && frac != 0 {
        b
    } else if (b >> 63) == 1 {
        if exp == 0 && frac == 0 {
            b
        } else {
            0
        }
    } else if b > 0x3ff0_0000_0000_0000 {
        0x3ff0_0000_0000_0000
    } else {
        b
    }
}

/// Law: quantization clamps on its own, so clamping a channel first changes
/// nothing about what is serialized.
pub proof fn lemma_quantum_of_clamped(b: u64)
    ensures
        quantum(clamp_bits(b)) == quantum(b),
{
    lemma2_to64();
    lemma2_to64_rest();
    assert(b >> 63u64 == 0 || b >> 63u64 == 1) by (bit_vector);
    let c = clamp_bits(b);
    if biased_exp(b) == 0x7ff && fraction(b) != 0 {
        // NaN passes through.
    } else if sign_bit(b) == 1 {
        if biased_exp(b) == 0 && fraction(b) == 0 {
            // Negative zero stays itself; both sides quantize by sign to 0.
        } else {
            // A negative value clamps to +0.0, which quantizes to 0.
            assert(0u64 >> 63u64 == 0) by (bit_vector);
            assert((0u64 >> 52u64) & 0x7ffu64 == 0) by (bit_vector);
            assert(0u64 & 0xf_ffff_ffff_ffffu64 == 0) by (bit_vector);
            lemma_quantize_small(0, 1074);
        }
    } else if b > 0x3ff0_0000_0000_0000 {
        // Everything above 1.0 clamps to exactly 1.0; both quantize to 255.
        assert(0x3ff0_0000_0000_0000u64 >> 63u64 == 0) by (bit_vector);
        assert((0x3ff0_0000_0000_0000u64 >> 52u64) & 0x7ffu64 == 1023) by (bit_vector);
        assert(b > 0x3ff0_0000_0000_0000u64 && b >> 63u64 == 0 ==> (b >> 52u64) & 0x7ffu64
            >= 1023) by (bit_vector);
    } else {
        // Already in range.
    }
}

/// Sign bit of a channel pattern: 1 means the denoted value is negative
/// (or negative zero, or a NaN with the sign bit set).
pub open spec fn sign_bit(b: u64) -> u64 {
    b >> 63u64
}

/// Biased exponent field of a channel pattern (11 bits).
pub open spec fn biased_exp(b: u64) -> u64 {
    (b >> 52u64) & 0x7ffu64
}

/// Fraction field of a channel pattern (52 bits).
pub open spec fn fraction(b: u64) -> u64 {
    b & 0xf_ffff_ffff_ffffu64
}

/// The integer significand of a finite channel pattern: when the sign bit is
/// clear the denoted value is `significand(b) / pow2(down_shift(b))`.  A
/// normal pattern has an implicit leading one bit; a subnormal one does not.
pub open spec fn significand(b: u64) -> int {
    if biased_exp(b) == 0 {
        fraction(b) as int
    } else {
        fraction(b) + 0x10_0000_0000_0000
    }
}

/// The power of two a finite significand is scaled down by.  Only patterns
/// denoting values below 1.0 (biased exponent at most 1022) are read through
/// this function, so the shift is at least 53.
pub open spec fn down_shift(b: u64) -> nat {
    if biased_exp(b) == 0 {
        1074nat
    } else {
        (1075 - biased_exp(b)) as nat
    }
}

/// What one serialized channel shows for the pattern `b`: the denoted value
/// clamped into `[0.0, 1.0]`, scaled by 255, and rounded half away from zero.
///
/// - a set sign bit clamps to 0 (negative values, negative zero, negative
///   infinity, and a NaN with the sign bit set all serialize as 0);
/// - a positive NaN serializes as 0 (it fails every clamp comparison and its
///   integer conversion is 0);
/// - positive infinity and every value at or above 1.0 clamp to 1.0, so 255;
/// - a positive value below 1.0 equals `m / 2^s` for `m = significand(b)` and
///   `s = down_shift(b)`, and rounding `255 * m / 2^s` half away from zero is
///   the floor of `(510 * m + 2^s) / 2^(s+1)`.
pub open spec fn quantum(b: u64) -> int {
    if sign_bit(b) == 1 {
        0
    } else if biased_exp(b) == 0x7ff {
        if fraction(b) == 0 {
            255
        } else {
            0
        }
    } else if biased_exp(b) >= 1023 {
        255
    } else {
        (510 * significand(b) + pow2(down_shift(b))) / (2 * pow2(down_shift(b)) as int)
    }
}

/// A serialized channel always fits in a byte.
pub proof fn lemma_quantum_in_range(b: u64)
    ensures
        0 <= quantum(b) <= 255,
{
    if sign_bit(b) != 1 && biased_exp(b) != 0x7ff && biased_exp(b) < 1023 {
        let m = significand(b);
        let s = down_shift(b);
        let p = pow2(s) as int;
        lemma_pow2_pos(s);
        lemma2_to64();
        lemma2_to64_rest();
        assert(b & 0xf_ffff_ffff_ffffu64 <= 0xf_ffff_ffff_ffffu64) by (bit_vector);
        if s > 53 {
            lemma_pow2_strictly_increases(53, s);
        }
        // 510 * m < 510 * p, so the dividend stays under 511 * p < 256 * (2 * p).
        assert(510 * m + p < (2 * p) * 256);
        lemma_multiply_divide_lt(510 * m + p, 2 * p, 256);
        lemma_div_pos_is_pos(510 * m + p, 2 * p);
    }
}

/// Quantize one channel pattern for serialization: clamp the denoted value
/// into `[0.0, 1.0]`, scale by 255, and round half away from zero.
pub fn quantize(b: u64) -> (q: u8)
    ensures
        q as int == quantum(b),
{
    let sign: u64 = b >> 63;
    let exp: u64 = (b >> 52) & 0x7ff;
    let frac: u64 = b & 0xf_ffff_ffff_ffff;
    if sign == 1 {
        0
    } else if exp == 0x7ff {
        if frac == 0 {
            255
        } else {
            0
        }
    } else if exp >= 1023 {
        255
    } else {
        proof {
            assert(b & 0xf_ffff_ffff_ffffu64 <= 0xf_ffff_ffff_ffffu64) by (bit_vector);
            lemma2_to64();
            lemma2_to64_rest();
        }
        let m: u64 = if exp == 0 {
            frac
        } else {
            frac + 0x10_0000_0000_0000
        };
        let s: u64 = if exp == 0 {
            1074
        } else {
            1075 - exp
        };
        if s >= 63 {
            proof {
                lemma_quantize_small(m as int, s as nat);
            }
            0
        } else {
            proof {
                lemma_pow2_strictly_increases(s as nat, 63);
                if s < 62 {
                    lemma_pow2_strictly_increases(s as nat, 62);
                }
                lemma_u64_shl_is_mul(1, s);
            }
            let num: u64 = 510 * m + (1u64 << s);
            let q64: u64 = num >> (s + 1);
            proof {
                lemma_u64_shr_is_div(num, (s + 1) as u64);
                lemma_pow2_adds(s as nat, 1);
                lemma_quantum_in_range(b);
            }
            q64 as u8
        }
    }
}

/// A positive value small enough that `down_shift` reaches 63 rounds to 0:
/// 510 times its significand stays below a single `2^s`, so the rounded
/// quotient vanishes.
proof fn lemma_quantize_small(m: int, s: nat)
    requires
        0 <= m <= 0x1f_ffff_ffff_ffff,
        s >= 63,
    ensures
        (510 * m + pow2(s)) / (2 * pow2(s) as int) == 0,
{
    lemma2_to64();
    lemma2_to64_rest();
    if s > 63 {
        lemma_pow2_strictly_increases(63, s);
    }
    lemma_pow2_pos(s);
    let p = pow2(s) as int;
    lemma_basic_div(510 * m + p, 2 * p);
}

} // verus!
