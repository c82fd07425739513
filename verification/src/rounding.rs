//! What rounding to nearest means, and the proof that
//! [`round_magnitude`](crate::binary32::round_magnitude) does it.
//!
//! Among the patterns from zero up to infinity, infinity counting as
//! 2^128, the rounded pattern is one whose magnitude is nearest to the
//! number; where two are equally near, it is the even one.
use crate::binary32::{
    div_round_even, grid, lemma_div_round_even_parts, lemma_mul_pow2_bound, lemma_pow2_monotone,
    lemma_round_magnitude_scaled, lemma_top_bit_bounds, magnitude, round_magnitude, top_bit,
    HIDDEN_BIT, INFINITY,
};
use vstd::arithmetic::div_mod::*;
use vstd::arithmetic::mul::*;
use vstd::arithmetic::power2::*;
use vstd::prelude::*;

verus! {

/// How far the magnitude of a pattern lies from `m * 2^e` units, in units
/// for `e >= 0` and in fractions of 2^e of a unit for `e < 0`.
pub open spec fn distance(p: u32, m: nat, e: int) -> int {
    let d = if e >= 0 {
        magnitude(p) - m * pow2(e as nat)
    } else {
        magnitude(p) * pow2((-e) as nat) - m
    };
    if d >= 0 {
        d
    } else {
        -d
    }
}

/// The pattern is the rounding of `m * 2^e` units to nearest, ties to
/// even: no pattern up to infinity is nearer, and one that is as near is
/// odd.
pub open spec fn is_nearest_even(p: u32, m: nat, e: int) -> bool {
    &&& p <= INFINITY
    &&& forall|q: u32| q <= INFINITY ==> distance(p, m, e) <= #[trigger] distance(q, m, e)
    &&& forall|q: u32|
        q <= INFINITY && q != p && #[trigger] distance(q, m, e) == distance(p, m, e) ==> p % 2
            == 0
}

/// The magnitude of the pattern `g * 2^23 + q`: `q` steps of the grid
/// `2^g`.
pub proof fn lemma_magnitude_on_grid(g: nat, q: nat)
    requires
        q <= 2 * HIDDEN_BIT,
        g > 0 ==> q >= HIDDEN_BIT,
        g * HIDDEN_BIT + q <= INFINITY,
    ensures
        magnitude((g * HIDDEN_BIT + q) as u32) == q * pow2(g),
{
    let p = (g * HIDDEN_BIT + q) as u32;
    lemma2_to64();
    if q < HIDDEN_BIT {
        assert(g == 0);
        assert(p == q);
    } else if q < 2 * HIDDEN_BIT {
        assert(p / HIDDEN_BIT == g + 1);
        assert(p % HIDDEN_BIT == q - HIDDEN_BIT);
    } else {
        assert(p / HIDDEN_BIT == g + 2);
        assert(p % HIDDEN_BIT == 0);
        lemma_pow2_unfold(g + 1);
        assert(0x80_0000 * (2 * pow2(g)) == 0x100_0000 * pow2(g)) by (nonlinear_arith);
    }
}

/// A larger pattern has a larger magnitude, up to infinity.
pub proof fn lemma_magnitude_increases(a: u32, b: u32)
    requires
        a < b <= INFINITY,
    ensures
        magnitude(a) < magnitude(b),
{
    let ea = (a / HIDDEN_BIT) as nat;
    let fa = (a % HIDDEN_BIT) as nat;
    let eb = (b / HIDDEN_BIT) as nat;
    let fb = (b % HIDDEN_BIT) as nat;
    lemma2_to64();
    assert(ea <= eb);
    assert(fa < 0x80_0000 && fb < 0x80_0000);
    if eb == 0 {
        assert(magnitude(a) == fa * pow2(0));
        assert(magnitude(b) == fb * pow2(0));
        assert(fa < fb);
        assert(fa * pow2(0) < fb * pow2(0)) by (nonlinear_arith)
            requires
                fa < fb,
                pow2(0) == 1,
        ;
    } else {
        let sb = (eb - 1) as nat;
        let pb = pow2(sb);
        lemma_pow2_pos(sb);
        assert(magnitude(b) == (0x80_0000 + fb) * pb);
        if ea == 0 {
            assert(magnitude(a) == fa * pow2(0));
            assert(fa * pow2(0) < (0x80_0000 + fb) * pb) by (nonlinear_arith)
                requires
                    fa < 0x80_0000,
                    pow2(0) == 1,
                    pb >= 1,
                    fb >= 0,
            ;
        } else {
            let sa = (ea - 1) as nat;
            let pa = pow2(sa);
            lemma_pow2_pos(sa);
            assert(magnitude(a) == (0x80_0000 + fa) * pa);
            if ea == eb {
                assert(fa < fb);
                assert((0x80_0000 + fa) * pa < (0x80_0000 + fb) * pa) by (nonlinear_arith)
                    requires
                        fa < fb,
                        pa > 0,
                ;
            } else {
                lemma_pow2_unfold(sa + 1);
                lemma_pow2_monotone(sa + 1, sb);
                assert((0x80_0000 + fa) * pa < (0x80_0000 + fb) * pb) by (nonlinear_arith)
                    requires
                        fa < 0x80_0000,
                        fb >= 0,
                        pa > 0,
                        pb >= 2 * pa,
                ;
            }
        }
    }
}

/// A pattern whose magnitude lies at or below the number is no nearer
/// than the largest such pattern; one at or above, no nearer than the
/// smallest. Stated for magnitudes scaled by `2^n`.
proof fn lemma_outside_is_farther(q: u32, lo: u32, m: nat, n: nat)
    requires
        q < lo <= INFINITY,
        magnitude(lo) * pow2(n) <= m,
    ensures
        magnitude(q) * pow2(n) < magnitude(lo) * pow2(n),
{
    lemma_magnitude_increases(q, lo);
    lemma_pow2_pos(n);
    lemma_mul_strict_inequality(magnitude(q) as int, magnitude(lo) as int, pow2(n) as int);
}

/// Rounding `m / 2^n` units gives the nearest pattern, ties to even.
proof fn lemma_nearest_below_unit(m: nat, n: nat)
    requires
        m > 0,
    ensures
        is_nearest_even(round_magnitude(m, -(n as int)), m, -(n as int)),
{
    let e = -(n as int);
    let p = round_magnitude(m, e);
    let t = top_bit(m);
    let g = grid(m, e);
    let scale = pow2(n);
    lemma_top_bit_bounds(m);
    lemma_pow2_pos(n);
    lemma2_to64();
    assert forall|q: u32| true implies #[trigger] distance(q, m, e) == if magnitude(q) * scale
        >= m {
        magnitude(q) * scale - m
    } else {
        m - magnitude(q) * scale
    } by {
        if n == 0 {
            assert(magnitude(q) * scale == magnitude(q)) by (nonlinear_arith)
                requires
                    scale == 1,
            ;
            assert(m * pow2(0) == m) by (nonlinear_arith)
                requires
                    pow2(0) == 1,
            ;
        }
    }
    if g >= 254 {
        // At or beyond 2^128: infinity is the nearest pattern.
        let d = (g - e) as nat;
        lemma_pow2_adds(g as nat, n);
        lemma_pow2_pos(d);
        lemma_pow2_monotone(254, g as nat);
        assert(t == g + n + 23);
        lemma_pow2_adds(23, d);
        assert(m >= 0x80_0000 * pow2(d));
        let floor = m / pow2(d);
        lemma_fundamental_div_mod(m as int, pow2(d) as int);
        lemma_mod_bound(m as int, pow2(d) as int);
        assert(floor >= 0x80_0000) by (nonlinear_arith)
            requires
                m >= 0x80_0000 * pow2(d),
                m == pow2(d) * floor + m % pow2(d),
                m % pow2(d) < pow2(d),
                pow2(d) > 0,
        ;
        assert(div_round_even(m, pow2(d)) >= floor);
        assert(g * HIDDEN_BIT + div_round_even(m, pow2(d)) >= INFINITY) by (nonlinear_arith)
            requires
                g >= 254,
                div_round_even(m, pow2(d)) >= 0x80_0000,
        ;
        assert(p == INFINITY);
        lemma_magnitude_on_grid(254, 0x80_0000);
        assert(magnitude(INFINITY) == 0x80_0000 * pow2(254));
        assert(magnitude(INFINITY) * scale <= m) by (nonlinear_arith)
            requires
                magnitude(INFINITY) == 0x80_0000 * pow2(254),
                pow2(254) <= pow2(g as nat),
                pow2(d) == pow2(g as nat) * scale,
                m >= 0x80_0000 * pow2(d),
                scale > 0,
        ;
        assert forall|q: u32| q <= INFINITY && q != p implies distance(p, m, e) < #[trigger] distance(
            q,
            m,
            e,
        ) by {
            lemma_outside_is_farther(q, INFINITY, m, n);
        }
    } else if g <= e {
        // The number is a pattern's magnitude.
        assert(n == 0 && g == 0);
        assert(m < 0x100_0000) by {
            lemma_pow2_monotone(t + 1, 24);
        }
        assert(m * pow2(0) == m) by (nonlinear_arith)
            requires
                pow2(0) == 1,
        ;
        assert(p == m);
        lemma_magnitude_on_grid(0, m);
        assert(m * pow2(0) == m) by (nonlinear_arith)
            requires
                pow2(0) == 1,
        ;
        assert(distance(p, m, e) == 0);
        assert forall|q: u32| q <= INFINITY && q != p implies distance(p, m, e) < #[trigger] distance(
            q,
            m,
            e,
        ) by {
            if q < p {
                lemma_magnitude_increases(q, p);
            } else {
                lemma_magnitude_increases(p, q);
            }
            assert(magnitude(q) * scale == magnitude(q)) by (nonlinear_arith)
                requires
                    scale == 1,
            ;
        }
    } else {
        // Between two neighbouring patterns.
        let d = (g - e) as nat;
        let step = pow2(d);
        lemma_pow2_pos(d);
        lemma_pow2_adds(g as nat, n);
        assert(step == pow2(g as nat) * scale);
        let floor = m / step;
        let rest = m % step;
        lemma_fundamental_div_mod(m as int, step as int);
        lemma_mod_bound(m as int, step as int);
        assert(m == floor * step + rest) by (nonlinear_arith)
            requires
                m == step * floor + rest,
        ;
        // The floor is a significand of the grid.
        if g > 0 {
            assert(t == d + 23);
            lemma_pow2_adds(23, d);
            lemma_pow2_adds(24, d);
            assert(floor >= 0x80_0000) by (nonlinear_arith)
                requires
                    m >= 0x80_0000 * step,
                    m == floor * step + rest,
                    rest < step,
            ;
            assert(floor < 0x100_0000) by (nonlinear_arith)
                requires
                    m < 0x100_0000 * step,
                    m == floor * step + rest,
                    step > 0,
            ;
        } else {
            assert(t + 1 <= 24 + d);
            lemma_pow2_monotone(t + 1, 24 + d);
            lemma_pow2_adds(24, d);
            assert(floor < 0x100_0000) by (nonlinear_arith)
                requires
                    m < 0x100_0000 * step,
                    m == floor * step + rest,
                    step > 0,
            ;
        }
        assert(g * HIDDEN_BIT + floor + 1 <= INFINITY) by (nonlinear_arith)
            requires
                0 <= g <= 253,
                floor < 0x100_0000,
        ;
        let lo = (g * HIDDEN_BIT + floor) as u32;
        let hi = (g * HIDDEN_BIT + floor + 1) as u32;
        lemma_magnitude_on_grid(g as nat, floor);
        lemma_magnitude_on_grid(g as nat, floor + 1);
        assert(magnitude(lo) * scale == floor * step) by (nonlinear_arith)
            requires
                magnitude(lo) == floor * pow2(g as nat),
                step == pow2(g as nat) * scale,
        ;
        assert(magnitude(hi) * scale == floor * step + step) by (nonlinear_arith)
            requires
                magnitude(hi) == (floor + 1) * pow2(g as nat),
                step == pow2(g as nat) * scale,
        ;
        assert(distance(lo, m, e) == rest);
        assert(distance(hi, m, e) == step - rest);
        assert(p == lo || p == hi);
        assert(p == lo <==> (2 * rest < step || (2 * rest == step && floor % 2 == 0)));
        assert(lo % 2 == floor % 2) by (nonlinear_arith)
            requires
                lo == g * 0x80_0000 + floor,
                g >= 0,
        ;
        assert(hi % 2 == (floor + 1) % 2) by (nonlinear_arith)
            requires
                hi == g * 0x80_0000 + floor + 1,
                g >= 0,
        ;
        assert forall|q: u32| q <= INFINITY && q != lo && q != hi implies distance(p, m, e)
            < #[trigger] distance(q, m, e) by {
            if q < lo {
                lemma_outside_is_farther(q, lo, m, n);
            } else {
                lemma_magnitude_increases(hi, q);
                lemma_mul_strict_inequality(
                    magnitude(hi) as int,
                    magnitude(q) as int,
                    scale as int,
                );
            }
        }
    }
}

/// Rounding is to nearest, ties to even: the pattern that
/// `round_magnitude` gives for a positive number is as near to it as any
/// pattern from zero to infinity, and where another is as near, the one
/// given is even.
pub proof fn lemma_round_magnitude_is_nearest(m: nat, e: int)
    requires
        m > 0,
    ensures
        is_nearest_even(round_magnitude(m, e), m, e),
{
    if e <= 0 {
        lemma_nearest_below_unit(m, (-e) as nat);
    } else {
        let whole = m * pow2(e as nat);
        lemma_pow2_pos(e as nat);
        lemma_mul_strictly_positive(m as int, pow2(e as nat) as int);
        lemma_round_magnitude_scaled(m, e as nat, 0);
        lemma_nearest_below_unit(whole, 0);
        lemma2_to64();
        assert(whole * pow2(0) == whole) by (nonlinear_arith)
            requires
                pow2(0) == 1,
        ;
        assert forall|q: u32| true implies #[trigger] distance(q, m, e) == distance(q, whole, 0) by {}
    }
}

/// Zero rounds to zero, and nothing else is as near.
pub proof fn lemma_zero_rounds_to_zero(e: int)
    ensures
        round_magnitude(0, e) == 0,
        is_nearest_even(0, 0, e),
{
    lemma2_to64();
    assert(magnitude(0) == 0) by (nonlinear_arith)
        requires
            magnitude(0) == 0 * pow2(0),
    ;
    assert(distance(0, 0, e) == 0) by (nonlinear_arith)
        requires
            magnitude(0) == 0,
            distance(0, 0, e) == if e >= 0 {
                if magnitude(0) - 0 * pow2(e as nat) >= 0 {
                    magnitude(0) - 0 * pow2(e as nat)
                } else {
                    -(magnitude(0) - 0 * pow2(e as nat))
                }
            } else {
                if magnitude(0) * pow2((-e) as nat) - 0 >= 0 {
                    magnitude(0) * pow2((-e) as nat) - 0
                } else {
                    -(magnitude(0) * pow2((-e) as nat) - 0)
                }
            },
    ;
}

} // verus!
