//! What happens to one sample: clamping to full scale, mixing with a sample
//! of the other source, and quantisation to 16-bit PCM.
//!
//! A sample is the bit pattern of a single-precision number; see
//! [`crate::binary32`]. Every function here gives, bit for bit, what the
//! same arithmetic on hardware numbers gives.
use crate::binary32::{
    abs_bits, is_nan, is_negative, lemma_pow2_monotone, magnitude, pow2_u64, product, product_of,
    sum, sum_of, HIDDEN_BIT, INFINITY, NEG_ONE, ONE, SIGN_BIT,
};
use vstd::arithmetic::div_mod::*;
use vstd::arithmetic::power2::*;
use vstd::prelude::*;

verus! {

/// Silence: the pattern of 0.0.
pub const SILENCE: u32 = 0;

/// The factor applied to the sum of two sources: the single-precision
/// number nearest to 0.7.
pub const ATTENUATION: u32 = 0x3f33_3333;

/// The scale of a non-negative sample: 32767.0.
pub const POSITIVE_FULL_SCALE: u32 = 0x46ff_fe00;

/// The scale of a negative sample: 32768.0.
pub const NEGATIVE_FULL_SCALE: u32 = 0x4700_0000;

/// The sample is a number between -1.0 and 1.0, both included.
pub open spec fn in_unit_range(v: u32) -> bool {
    abs_bits(v) <= ONE
}

/// The sample limited to [-1.0, 1.0]. A NaN becomes -1.0: the lower limit
/// is applied first and keeps the operand that is a number.
pub open spec fn clamp_unit(v: u32) -> u32 {
    if is_nan(v) {
        NEG_ONE
    } else if is_negative(v) {
        if abs_bits(v) > ONE {
            NEG_ONE
        } else {
            v
        }
    } else if v > ONE {
        ONE
    } else {
        v
    }
}

/// The integer part of a number, rounded toward zero. Infinity counts as
/// 2^128 with its sign.
pub open spec fn truncated(v: u32) -> int {
    let t = (magnitude(v) / pow2(149)) as int;
    if is_negative(v) {
        -t
    } else {
        t
    }
}

/// The number as a 16-bit integer: rounded toward zero, limited to the
/// 16-bit range, 0 for a NaN.
pub open spec fn to_pcm16(v: u32) -> i16 {
    if is_nan(v) {
        0
    } else if truncated(v) > 32767 {
        32767
    } else if truncated(v) < -32768 {
        i16::MIN
    } else {
        truncated(v) as i16
    }
}

/// The 16-bit PCM value of a sample: the sample is clamped to [-1.0, 1.0],
/// scaled by 32768 where it is below zero and by 32767 elsewhere, and
/// rounded toward zero.
pub open spec fn quantize(sample: u32) -> i16 {
    let c = clamp_unit(sample);
    if c > SIGN_BIT {
        to_pcm16(product(c, NEGATIVE_FULL_SCALE))
    } else {
        to_pcm16(product(c, POSITIVE_FULL_SCALE))
    }
}

/// Two simultaneous samples mixed into one: their sum, attenuated, clamped
/// to [-1.0, 1.0].
pub open spec fn mix_sample(mic: u32, system: u32) -> u32 {
    clamp_unit(product(sum(mic, system), ATTENUATION))
}

/// Clamping always lands in [-1.0, 1.0].
pub proof fn lemma_clamp_in_unit_range(v: u32)
    ensures
        in_unit_range(clamp_unit(v)),
        in_unit_range(v) ==> clamp_unit(v) == v,
{
}

/// Limits a sample to [-1.0, 1.0].
pub fn clamp(v: u32) -> (r: u32)
    ensures
        r == clamp_unit(v),
        in_unit_range(r),
{
    if v >= SIGN_BIT {
        if v - SIGN_BIT > ONE {
            NEG_ONE
        } else {
            v
        }
    } else if v > INFINITY {
        NEG_ONE
    } else if v > ONE {
        ONE
    } else {
        v
    }
}

/// Converts a number to a 16-bit integer, toward zero and saturating.
pub fn pcm16_of(v: u32) -> (r: i16)
    ensures
        r == to_pcm16(v),
{
    let abs = if v >= SIGN_BIT {
        v - SIGN_BIT
    } else {
        v
    };
    if abs > INFINITY {
        return 0;
    }
    let negative = v >= SIGN_BIT;
    let exponent = abs / HIDDEN_BIT;
    let fraction = (abs % HIDDEN_BIT) as u64;
    let (e, m): (u32, u64) = if exponent == 0 {
        (0, fraction)
    } else {
        (exponent - 1, HIDDEN_BIT as u64 + fraction)
    };
    assert(magnitude(v) == m as nat * pow2(e as nat));
    proof {
        lemma_pow2_pos(149);
        lemma_pow2_pos(e as nat);
        lemma2_to64();
    }
    // The integer part, or 65536 for everything at or above 65536.
    let whole: u64 = if m == 0 {
        proof {
            assert(m as nat * pow2(e as nat) == 0) by (nonlinear_arith)
                requires
                    m == 0,
            ;
        }
        0
    } else if e >= 149 {
        let k = e - 149;
        proof {
            lemma_pow2_adds(k as nat, 149);
            assert(m as nat * pow2(e as nat) == (m as nat * pow2(k as nat)) * pow2(149))
                by (nonlinear_arith)
                requires
                    pow2(e as nat) == pow2(k as nat) * pow2(149),
            ;
            lemma_div_by_multiple((m as nat * pow2(k as nat)) as int, pow2(149) as int);
        }
        if k >= 16 {
            proof {
                lemma_pow2_monotone(16, k as nat);
                assert(m as nat * pow2(k as nat) >= 65536) by (nonlinear_arith)
                    requires
                        m >= 1,
                        pow2(k as nat) >= 65536,
                ;
            }
            65536
        } else {
            proof {
                lemma_pow2_monotone(k as nat, 15);
                assert(m as nat * pow2(k as nat) <= 0x100_0000 * 0x8000) by (nonlinear_arith)
                    requires
                        m < 0x100_0000,
                        pow2(k as nat) <= 0x8000,
                ;
            }
            m * pow2_u64(k)
        }
    } else {
        let k = 149 - e;
        proof {
            lemma_pow2_adds(e as nat, k as nat);
            lemma_pow2_pos(k as nat);
            lemma_div_multiples_vanish_quotient(
                pow2(e as nat) as int,
                m as int,
                pow2(k as nat) as int,
            );
            assert(m as nat * pow2(e as nat) == pow2(e as nat) * m as nat) by (nonlinear_arith);
        }
        if k >= 64 {
            proof {
                lemma_pow2_monotone(64, k as nat);
                lemma2_to64_rest();
                lemma_basic_div(m as int, pow2(k as nat) as int);
            }
            0
        } else {
            m / pow2_u64(k)
        }
    };
    assert(whole == magnitude(v) / pow2(149) || (whole == 65536 && magnitude(v) / pow2(149)
        >= 65536));
    if negative {
        if whole >= 32768 {
            i16::MIN
        } else {
            -(whole as i16)
        }
    } else if whole >= 32767 {
        32767
    } else {
        whole as i16
    }
}

/// The 16-bit PCM value of a sample.
pub fn quantize_sample(sample: u32) -> (q: i16)
    ensures
        q == quantize(sample),
{
    let clamped = clamp(sample);
    if clamped > SIGN_BIT {
        pcm16_of(product_of(clamped, NEGATIVE_FULL_SCALE))
    } else {
        pcm16_of(product_of(clamped, POSITIVE_FULL_SCALE))
    }
}

/// Mixes a microphone sample with the system sample of the same index.
pub fn mix_samples(mic: u32, system: u32) -> (mixed: u32)
    ensures
        mixed == mix_sample(mic, system),
        in_unit_range(mixed),
{
    clamp(product_of(sum_of(mic, system), ATTENUATION))
}

} // verus!
