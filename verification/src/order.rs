//! Order is kept: a larger number never rounds, quantises or mixes to a
//! smaller one.
use crate::binary32::{
    abs_bits, is_infinite, is_nan, is_negative, magnitude, product, round_magnitude,
    round_signed, sum, value, with_sign, INFINITY, NEG_ONE, ONE, SIGN_BIT,
};
use crate::rounding::{
    distance, is_nearest_even, lemma_magnitude_increases, lemma_round_magnitude_is_nearest,
};
use crate::sample::{
    clamp_unit, in_unit_range, mix_sample, quantize, to_pcm16, truncated, ATTENUATION,
    NEGATIVE_FULL_SCALE, POSITIVE_FULL_SCALE,
};
use vstd::arithmetic::div_mod::*;
use vstd::arithmetic::mul::*;
use vstd::arithmetic::power2::*;
use vstd::prelude::*;

verus! {

/// Neither is a NaN, and the first number is not above the second.
pub open spec fn not_above(a: u32, b: u32) -> bool {
    !is_nan(a) && !is_nan(b) && value(a) <= value(b)
}

/// Among patterns up to infinity, the order of the patterns is the order
/// of their magnitudes.
pub proof fn lemma_magnitude_order(a: u32, b: u32)
    requires
        a <= INFINITY,
        b <= INFINITY,
    ensures
        a <= b <==> magnitude(a) <= magnitude(b),
        a < b <==> magnitude(a) < magnitude(b),
{
    if a < b {
        lemma_magnitude_increases(a, b);
    } else if b < a {
        lemma_magnitude_increases(b, a);
    }
}

/// Rounding keeps order: of two numbers with the same power of two, the
/// larger does not round to the smaller pattern.
pub proof fn lemma_round_keeps_order(m1: nat, m2: nat, e: int)
    requires
        m1 <= m2,
    ensures
        round_magnitude(m1, e) <= round_magnitude(m2, e),
{
    let p1 = round_magnitude(m1, e);
    let p2 = round_magnitude(m2, e);
    if 0 < m1 < m2 && p1 > p2 {
        lemma_round_magnitude_is_nearest(m1, e);
        lemma_round_magnitude_is_nearest(m2, e);
        lemma_magnitude_increases(p2, p1);
        assert(distance(p1, m1, e) <= distance(p2, m1, e));
        assert(distance(p2, m2, e) <= distance(p1, m2, e));
        if e >= 0 {
            let unit = pow2(e as nat);
            lemma_pow2_pos(e as nat);
            lemma_mul_strict_inequality(m1 as int, m2 as int, unit as int);
            assert(false);
        } else {
            let unit = pow2((-e) as nat);
            lemma_pow2_pos((-e) as nat);
            lemma_mul_strict_inequality(magnitude(p2) as int, magnitude(p1) as int, unit as int);
            assert(false);
        }
    }
}

/// The magnitude of zero is zero, and of no other pattern up to infinity.
pub proof fn lemma_magnitude_zero(a: u32)
    requires
        a <= INFINITY,
    ensures
        magnitude(a) == 0 <==> a == 0,
{
    lemma2_to64();
    assert(magnitude(0) == 0) by (nonlinear_arith)
        requires
            magnitude(0) == 0 * pow2(0),
    ;
    if a > 0 {
        lemma_magnitude_increases(0, a);
    }
}

/// Clamping keeps order.
pub proof fn lemma_clamp_keeps_order(a: u32, b: u32)
    requires
        not_above(a, b),
    ensures
        not_above(clamp_unit(a), clamp_unit(b)),
        in_unit_range(clamp_unit(a)),
        in_unit_range(clamp_unit(b)),
{
    lemma_magnitude_order(abs_bits(a), abs_bits(b));
    lemma_magnitude_order(abs_bits(a), ONE);
    lemma_magnitude_order(abs_bits(b), ONE);
    assert(magnitude(a) == magnitude(abs_bits(a)));
    assert(magnitude(b) == magnitude(abs_bits(b)));
    assert(magnitude(NEG_ONE) == magnitude(ONE));
}

/// The product of a finite number's magnitude with a scale, rounded, keeps
/// the order of the magnitudes.
pub proof fn lemma_scaled_keeps_order(m1: nat, m2: nat, k: nat)
    requires
        m1 <= m2,
    ensures
        round_magnitude(m1 * k, -149) <= round_magnitude(m2 * k, -149),
{
    lemma_mul_inequality(m1 as int, m2 as int, k as int);
    lemma_round_keeps_order(m1 * k, m2 * k, -149);
}

/// Conversion to 16 bits keeps order: among magnitudes upward, among their
/// negatives downward, and a negative number never lies above zero.
pub proof fn lemma_pcm_keeps_order(r1: u32, r2: u32)
    requires
        r1 <= r2 <= INFINITY,
    ensures
        0 <= to_pcm16(r1) <= to_pcm16(r2),
        to_pcm16(with_sign(true, r2)) <= to_pcm16(with_sign(true, r1)) <= 0,
        r1 == 0 ==> to_pcm16(with_sign(true, r1)) == 0,
{
    lemma_magnitude_order(r1, r2);
    lemma_magnitude_zero(r1);
    lemma_pow2_pos(149);
    if r1 == 0 {
        lemma_basic_div(0, pow2(149) as int);
    }
    lemma_div_is_ordered(magnitude(r1) as int, magnitude(r2) as int, pow2(149) as int);
    assert(magnitude(with_sign(true, r1)) == magnitude(r1));
    assert(magnitude(with_sign(true, r2)) == magnitude(r2));
    assert(truncated(r1) <= truncated(r2));
    assert(truncated(r1) >= 0);
}

/// Quantisation keeps order: of two samples that are numbers, the one
/// that is not above the other has a PCM value that is not above the
/// other's.
pub proof fn lemma_quantize_keeps_order(a: u32, b: u32)
    requires
        not_above(a, b),
    ensures
        quantize(a) <= quantize(b),
{
    let ca = clamp_unit(a);
    let cb = clamp_unit(b);
    lemma_clamp_keeps_order(a, b);
    lemma_magnitude_zero(abs_bits(ca));
    lemma_magnitude_zero(abs_bits(cb));
    assert(magnitude(ca) == magnitude(abs_bits(ca)));
    assert(magnitude(cb) == magnitude(abs_bits(cb)));
    let up = magnitude(POSITIVE_FULL_SCALE);
    let down = magnitude(NEGATIVE_FULL_SCALE);
    let ra_up = round_magnitude(magnitude(ca) * up, -149);
    let rb_up = round_magnitude(magnitude(cb) * up, -149);
    let ra_down = round_magnitude(magnitude(ca) * down, -149);
    let rb_down = round_magnitude(magnitude(cb) * down, -149);
    assert(product(ca, POSITIVE_FULL_SCALE) == with_sign(is_negative(ca), ra_up));
    assert(product(cb, POSITIVE_FULL_SCALE) == with_sign(is_negative(cb), rb_up));
    assert(product(ca, NEGATIVE_FULL_SCALE) == with_sign(is_negative(ca), ra_down));
    assert(product(cb, NEGATIVE_FULL_SCALE) == with_sign(is_negative(cb), rb_down));
    lemma_pcm_keeps_order(0, 0);
    lemma_pcm_keeps_order(0, ra_up);
    lemma_pcm_keeps_order(0, rb_up);
    lemma_pcm_keeps_order(0, ra_down);
    lemma_pcm_keeps_order(0, rb_down);
    assert(0 * up == 0) by (nonlinear_arith);
    if ca > SIGN_BIT && cb > SIGN_BIT {
        lemma_scaled_keeps_order(magnitude(cb), magnitude(ca), down);
        lemma_pcm_keeps_order(rb_down, ra_down);
    } else if ca > SIGN_BIT {
        assert(quantize(a) <= 0);
        if cb == SIGN_BIT {
            assert(rb_up == 0);
        }
        assert(quantize(b) >= 0);
    } else if cb > SIGN_BIT {
        assert(false);
    } else {
        assert(magnitude(ca) <= magnitude(cb));
        if ca == SIGN_BIT {
            assert(ra_up == 0);
        }
        if cb == SIGN_BIT {
            assert(magnitude(ca) == 0);
            assert(magnitude(ca) * up == 0) by (nonlinear_arith)
                requires
                    magnitude(ca) == 0,
            ;
            assert(rb_up == 0);
            assert(ra_up == 0);
        }
        lemma_scaled_keeps_order(magnitude(ca), magnitude(cb), up);
        lemma_pcm_keeps_order(ra_up, rb_up);
    }
}

/// The value of a signed pattern: its magnitude, with the sign.
pub proof fn lemma_value_of_signed(negative: bool, r: u32)
    requires
        r <= INFINITY,
    ensures
        !is_nan(with_sign(negative, r)),
        magnitude(with_sign(negative, r)) == magnitude(r),
        value(with_sign(negative, r)) == if negative {
            -(magnitude(r) as int)
        } else {
            magnitude(r) as int
        },
{
}

/// Rounding a signed number keeps order.
pub proof fn lemma_round_signed_keeps_order(s1: int, both1: bool, s2: int, both2: bool)
    requires
        s1 <= s2,
    ensures
        not_above(round_signed(s1, both1), round_signed(s2, both2)),
{
    lemma_magnitude_zero(0);
    assert(magnitude(SIGN_BIT) == magnitude(0));
    if s1 > 0 {
        lemma_round_keeps_order(s1 as nat, s2 as nat, 0);
        lemma_magnitude_order(round_magnitude(s1 as nat, 0), round_magnitude(s2 as nat, 0));
    } else if s2 < 0 {
        let r1 = round_magnitude((-s1) as nat, 0);
        let r2 = round_magnitude((-s2) as nat, 0);
        lemma_round_keeps_order((-s2) as nat, (-s1) as nat, 0);
        lemma_magnitude_order(r2, r1);
        lemma_value_of_signed(true, r1);
        lemma_value_of_signed(true, r2);
    } else {
        if s1 < 0 {
            lemma_value_of_signed(true, round_magnitude((-s1) as nat, 0));
        }
    }
}

/// The sum keeps order. Where the larger sum is no number, an infinity
/// met its opposite, and the smaller sum is no number or negative
/// infinity.
pub proof fn lemma_sum_keeps_order(a: u32, a2: u32, b: u32, b2: u32)
    requires
        not_above(a, a2),
        not_above(b, b2),
    ensures
        is_nan(sum(a2, b2)) ==> is_nan(sum(a, b)) || sum(a, b) == SIGN_BIT + INFINITY,
        !is_nan(sum(a, b)) && !is_nan(sum(a2, b2)) ==> value(sum(a, b)) <= value(sum(a2, b2)),
{
    let t = sum(a, b);
    let t2 = sum(a2, b2);
    lemma_magnitude_order(abs_bits(a), INFINITY);
    lemma_magnitude_order(abs_bits(a2), INFINITY);
    lemma_magnitude_order(abs_bits(b), INFINITY);
    lemma_magnitude_order(abs_bits(b2), INFINITY);
    assert(magnitude(a) == magnitude(abs_bits(a)));
    assert(magnitude(a2) == magnitude(abs_bits(a2)));
    assert(magnitude(b) == magnitude(abs_bits(b)));
    assert(magnitude(b2) == magnitude(abs_bits(b2)));
    lemma_magnitude_zero(INFINITY);
    if !is_infinite(a) && !is_infinite(b) && !is_infinite(a2) && !is_infinite(b2) {
        lemma_round_signed_keeps_order(
            value(a) + value(b),
            is_negative(a) && is_negative(b),
            value(a2) + value(b2),
            is_negative(a2) && is_negative(b2),
        );
    } else if !is_nan(t) && !is_nan(t2) {
        if !is_infinite(a) && !is_infinite(b) {
            // The smaller sum is finite, the larger is positive infinity.
            lemma_magnitude_order(abs_bits(t), INFINITY);
            assert(magnitude(t) == magnitude(abs_bits(t)));
        } else if !is_infinite(a2) && !is_infinite(b2) {
            // The larger sum is finite, the smaller is negative infinity.
            lemma_magnitude_order(abs_bits(t2), INFINITY);
            assert(magnitude(t2) == magnitude(abs_bits(t2)));
        }
    }
}

/// Attenuation and clamping keep order, a NaN counting as the lowest.
pub proof fn lemma_attenuate_keeps_order(t: u32, t2: u32)
    requires
        is_nan(t2) ==> is_nan(t) || t == SIGN_BIT + INFINITY,
        !is_nan(t) && !is_nan(t2) ==> value(t) <= value(t2),
    ensures
        not_above(
            clamp_unit(product(t, ATTENUATION)),
            clamp_unit(product(t2, ATTENUATION)),
        ),
{
    let u = product(t, ATTENUATION);
    let u2 = product(t2, ATTENUATION);
    let f = clamp_unit(u);
    let f2 = clamp_unit(u2);
    lemma_magnitude_order(abs_bits(f), ONE);
    lemma_magnitude_order(abs_bits(f2), ONE);
    assert(magnitude(f) == magnitude(abs_bits(f)));
    assert(magnitude(f2) == magnitude(abs_bits(f2)));
    assert(magnitude(NEG_ONE) == magnitude(ONE));
    if is_nan(t) || is_nan(t2) || t == SIGN_BIT + INFINITY {
        lemma_magnitude_order(ONE, INFINITY);
        assert(f == NEG_ONE);
    } else {
        let k = magnitude(ATTENUATION);
        let r = if is_infinite(t) {
            INFINITY
        } else {
            round_magnitude(magnitude(t) * k, -149)
        };
        let r2 = if is_infinite(t2) {
            INFINITY
        } else {
            round_magnitude(magnitude(t2) * k, -149)
        };
        assert(u == with_sign(is_negative(t), r));
        assert(u2 == with_sign(is_negative(t2), r2));
        lemma_value_of_signed(is_negative(t), r);
        lemma_value_of_signed(is_negative(t2), r2);
        lemma_magnitude_order(abs_bits(t), INFINITY);
        lemma_magnitude_order(abs_bits(t2), INFINITY);
        lemma_magnitude_order(abs_bits(t), abs_bits(t2));
        assert(magnitude(t) == magnitude(abs_bits(t)));
        assert(magnitude(t2) == magnitude(abs_bits(t2)));
        lemma_magnitude_order(r, r2);
        lemma_magnitude_zero(r);
        lemma_magnitude_zero(r2);
        assert(0 * k == 0) by (nonlinear_arith);
        if !is_infinite(t) && !is_infinite(t2) {
            if magnitude(t) <= magnitude(t2) {
                lemma_scaled_keeps_order(magnitude(t), magnitude(t2), k);
            } else {
                lemma_scaled_keeps_order(magnitude(t2), magnitude(t), k);
            }
        }
        if magnitude(t) == 0 {
            assert(magnitude(t) * k == 0) by (nonlinear_arith)
                requires
                    magnitude(t) == 0,
            ;
        }
        if magnitude(t2) == 0 {
            assert(magnitude(t2) * k == 0) by (nonlinear_arith)
                requires
                    magnitude(t2) == 0,
            ;
        }
        assert(not_above(u, u2));
        lemma_clamp_keeps_order(u, u2);
    }
}

/// Mixing keeps order: where neither source's sample rises, the mixed
/// sample does not rise; where neither falls, it does not fall.
pub proof fn lemma_mix_keeps_order(mic: u32, mic2: u32, system: u32, system2: u32)
    requires
        not_above(mic, mic2),
        not_above(system, system2),
    ensures
        not_above(mix_sample(mic, system), mix_sample(mic2, system2)),
{
    lemma_sum_keeps_order(mic, mic2, system, system2);
    lemma_attenuate_keeps_order(sum(mic, system), sum(mic2, system2));
}

} // verus!
