//! IEEE 754 single-precision numbers, handled by their bit patterns.
//!
//! A sample travels through this library as the 32-bit pattern of a
//! single-precision number. This module gives such a pattern its meaning
//! (sign, class, magnitude) and defines addition and multiplication with
//! round-to-nearest, ties-to-even, the rounding that hardware applies.
//!
//! Magnitudes are counted in units of 2^-149, the smallest positive
//! single-precision number, so that every finite pattern has an integer
//! magnitude.
use vstd::arithmetic::div_mod::*;
use vstd::arithmetic::mul::*;
use vstd::arithmetic::power2::*;
use vstd::bits::*;
use vstd::prelude::*;

verus! {

/// The sign bit of a pattern.
pub const SIGN_BIT: u32 = 0x8000_0000;

/// Positive infinity. Every larger pattern without the sign bit is a NaN.
pub const INFINITY: u32 = 0x7f80_0000;

/// The quiet NaN that stands for every NaN an operation produces.
pub const QUIET_NAN: u32 = 0x7fc0_0000;

/// The pattern of 1.0.
pub const ONE: u32 = 0x3f80_0000;

/// The pattern of -1.0.
pub const NEG_ONE: u32 = 0xbf80_0000;

/// The weight of the exponent field inside a pattern: 2^23.
pub const HIDDEN_BIT: u32 = 0x80_0000;

/// The pattern without its sign bit.
pub open spec fn abs_bits(b: u32) -> u32 {
    if b >= SIGN_BIT {
        (b - SIGN_BIT) as u32
    } else {
        b
    }
}

pub open spec fn is_negative(b: u32) -> bool {
    b >= SIGN_BIT
}

pub open spec fn is_nan(b: u32) -> bool {
    abs_bits(b) > INFINITY
}

pub open spec fn is_infinite(b: u32) -> bool {
    abs_bits(b) == INFINITY
}

pub open spec fn is_finite(b: u32) -> bool {
    abs_bits(b) < INFINITY
}

pub open spec fn is_zero(b: u32) -> bool {
    abs_bits(b) == 0
}

/// The biased exponent, 0 to 255.
pub open spec fn exponent_field(b: u32) -> nat {
    (abs_bits(b) / HIDDEN_BIT) as nat
}

/// The 23 stored bits of the significand.
pub open spec fn fraction_field(b: u32) -> nat {
    (abs_bits(b) % HIDDEN_BIT) as nat
}

/// The significand as an integer: the fraction, with the hidden bit for a
/// normal number.
pub open spec fn significand(b: u32) -> nat {
    if exponent_field(b) == 0 {
        fraction_field(b)
    } else {
        HIDDEN_BIT as nat + fraction_field(b)
    }
}

/// The power of two, in units of 2^-149, that the significand is scaled by.
pub open spec fn scale(b: u32) -> nat {
    if exponent_field(b) == 0 {
        0
    } else {
        (exponent_field(b) - 1) as nat
    }
}

/// The absolute value in units of 2^-149. Infinity counts as 2^128, one
/// binade above the largest finite number. Meaningless for a NaN.
pub open spec fn magnitude(b: u32) -> nat {
    significand(b) * pow2(scale(b))
}

/// The value in units of 2^-149, for a pattern that is not a NaN.
pub open spec fn value(b: u32) -> int {
    if is_negative(b) {
        -(magnitude(b) as int)
    } else {
        magnitude(b) as int
    }
}

/// The index of the highest set bit of `n`: the `k` with 2^k <= n < 2^(k+1).
pub open spec fn top_bit(n: nat) -> nat
    decreases n,
{
    if n <= 1 {
        0
    } else {
        1 + top_bit(n / 2)
    }
}

/// `n / d` rounded to the nearest integer; a tie goes to the even neighbour.
pub open spec fn div_round_even(n: nat, d: nat) -> nat {
    let q = n / d;
    let r = n % d;
    if 2 * r < d || (2 * r == d && q % 2 == 0) {
        q
    } else {
        q + 1
    }
}

/// The spacing, as a power of two in units of 2^-149, of the representable
/// numbers around `m * 2^e`: one unit up to 2^24 units, doubling with each
/// binade above.
pub open spec fn grid(m: nat, e: int) -> int {
    if top_bit(m) + e > 23 {
        top_bit(m) + e - 23
    } else {
        0
    }
}

/// The pattern of the non-negative single-precision number nearest to
/// `m * 2^e` units, ties to the even pattern. A number at or beyond the
/// midpoint between the largest finite number and 2^128 gives infinity.
///
/// On the grid `g` of its binade the number is `q = m * 2^(e-g)`, rounded to
/// an integer; the pattern is `g * 2^23 + q`, which also carries a `q` of
/// 2^24 into the next binade.
pub open spec fn round_magnitude(m: nat, e: int) -> u32 {
    if m == 0 {
        0
    } else {
        let g = grid(m, e);
        let q = if g <= e {
            m * pow2((e - g) as nat)
        } else {
            div_round_even(m, pow2((g - e) as nat))
        };
        if g * HIDDEN_BIT + q >= INFINITY {
            INFINITY
        } else {
            (g * HIDDEN_BIT + q) as u32
        }
    }
}

/// The pattern with the given sign and absolute pattern.
pub open spec fn with_sign(negative: bool, abs: u32) -> u32
    recommends
        abs < SIGN_BIT,
{
    if negative {
        (SIGN_BIT + abs) as u32
    } else {
        abs
    }
}

/// The pattern nearest to `s` units. An exact zero is negative only where
/// both terms of the sum were.
pub open spec fn round_signed(s: int, both_negative: bool) -> u32 {
    if s > 0 {
        round_magnitude(s as nat, 0)
    } else if s < 0 {
        with_sign(true, round_magnitude((-s) as nat, 0))
    } else if both_negative {
        SIGN_BIT
    } else {
        0
    }
}

/// The single-precision sum. Every NaN result is reported as `QUIET_NAN`.
pub open spec fn sum(a: u32, b: u32) -> u32 {
    if is_nan(a) || is_nan(b) {
        QUIET_NAN
    } else if is_infinite(a) && is_infinite(b) {
        if is_negative(a) == is_negative(b) {
            a
        } else {
            QUIET_NAN
        }
    } else if is_infinite(a) {
        a
    } else if is_infinite(b) {
        b
    } else {
        round_signed(value(a) + value(b), is_negative(a) && is_negative(b))
    }
}

/// The single-precision product. Every NaN result is reported as
/// `QUIET_NAN`.
pub open spec fn product(a: u32, b: u32) -> u32 {
    if is_nan(a) || is_nan(b) {
        QUIET_NAN
    } else if (is_infinite(a) && is_zero(b)) || (is_zero(a) && is_infinite(b)) {
        QUIET_NAN
    } else if is_infinite(a) || is_infinite(b) {
        with_sign(is_negative(a) != is_negative(b), INFINITY)
    } else {
        with_sign(
            is_negative(a) != is_negative(b),
            round_magnitude(magnitude(a) * magnitude(b), -149),
        )
    }
}

/// A positive number lies between the power of two of its top bit and the
/// next one.
pub proof fn lemma_top_bit_bounds(n: nat)
    requires
        n > 0,
    ensures
        pow2(top_bit(n)) <= n < pow2(top_bit(n) + 1),
    decreases n,
{
    if n <= 1 {
        lemma2_to64();
    } else {
        lemma_top_bit_bounds(n / 2);
        lemma_pow2_unfold(top_bit(n / 2) + 1);
        lemma_pow2_unfold(top_bit(n / 2) + 2);
    }
}

/// Powers of two grow with the exponent.
pub proof fn lemma_pow2_monotone(a: nat, b: nat)
    requires
        a <= b,
    ensures
        pow2(a) <= pow2(b),
{
    if a < b {
        lemma_pow2_strictly_increases(a, b);
    }
}

/// The top bit is the only `k` with 2^k <= n < 2^(k+1).
pub proof fn lemma_top_bit_unique(n: nat, k: nat)
    requires
        pow2(k) <= n < pow2(k + 1),
    ensures
        top_bit(n) == k,
{
    lemma_pow2_pos(k);
    lemma_top_bit_bounds(n);
    let t = top_bit(n);
    if t < k {
        lemma_pow2_monotone(t + 1, k);
    } else if t > k {
        lemma_pow2_monotone(k + 1, t);
    }
}

/// Rounding a number given as quotient and remainder.
pub proof fn lemma_div_round_even_parts(q: nat, r: nat, d: nat)
    requires
        r < d,
    ensures
        div_round_even(q * d + r, d) == if 2 * r < d || (2 * r == d && q % 2 == 0) {
            q
        } else {
            q + 1
        },
{
    lemma_fundamental_div_mod_converse((q * d + r) as int, d as int, q as int, r as int);
}

/// A 64-bit number has its top bit below 64.
pub proof fn lemma_top_bit_u64(m: u64)
    requires
        m > 0,
    ensures
        top_bit(m as nat) < 64,
        pow2(top_bit(m as nat)) <= m < pow2(top_bit(m as nat) + 1),
{
    lemma_top_bit_bounds(m as nat);
    lemma2_to64_rest();
    if top_bit(m as nat) >= 64 {
        lemma_pow2_monotone(64, top_bit(m as nat));
    }
}

/// 2^k as a machine integer.
pub(crate) fn pow2_u64(k: u32) -> (p: u64)
    requires
        k < 64,
    ensures
        p == pow2(k as nat),
        p > 0,
{
    proof {
        lemma_u64_pow2_no_overflow(k as nat);
        lemma_u64_shl_is_mul(1, k as u64);
    }
    1u64 << (k as u64)
}

/// The index of the highest set bit.
fn top_bit_of(m: u64) -> (t: u32)
    requires
        m > 0,
    ensures
        t == top_bit(m as nat),
        t < 64,
{
    let mut x = m;
    let mut t: u32 = 0;
    proof {
        lemma_top_bit_u64(m);
    }
    while x > 1
        invariant
            x > 0,
            t + top_bit(x as nat) == top_bit(m as nat),
            top_bit(m as nat) < 64,
        decreases x,
    {
        x = x / 2;
        t = t + 1;
    }
    t
}

/// The product of a number below 2^a and 2^b is below 2^(a+b).
pub proof fn lemma_mul_pow2_bound(m: nat, a: nat, b: nat)
    requires
        m < pow2(a),
    ensures
        m * pow2(b) < pow2(a + b),
{
    lemma_pow2_pos(b);
    lemma_mul_strict_inequality(m as int, pow2(a) as int, pow2(b) as int);
    lemma_pow2_adds(a, b);
}

/// Scaling by 2^k raises the top bit by k.
pub proof fn lemma_top_bit_scaled(m: nat, k: nat)
    requires
        m > 0,
    ensures
        top_bit(m * pow2(k)) == top_bit(m) + k,
{
    let t = top_bit(m);
    lemma_top_bit_bounds(m);
    lemma_pow2_pos(k);
    lemma_mul_inequality(pow2(t) as int, m as int, pow2(k) as int);
    lemma_mul_pow2_bound(m, t + 1, k);
    lemma_pow2_adds(t, k);
    lemma_top_bit_unique(m * pow2(k), t + k);
}

/// A common factor of numerator and denominator does not change the
/// rounded quotient.
pub proof fn lemma_div_round_even_scaled(n: nat, d: nat, c: nat)
    requires
        d > 0,
        c > 0,
    ensures
        div_round_even(n * c, d * c) == div_round_even(n, d),
{
    let q = n / d;
    let r = n % d;
    lemma_fundamental_div_mod(n as int, d as int);
    lemma_mod_bound(n as int, d as int);
    assert(n * c == q * (d * c) + r * c) by (nonlinear_arith)
        requires
            n == d * q + r,
    ;
    assert(r * c < d * c) by (nonlinear_arith)
        requires
            r < d,
            c > 0,
    ;
    lemma_div_round_even_parts(q, r * c, d * c);
    assert((2 * (r * c) < d * c) == (2 * r < d)) by (nonlinear_arith)
        requires
            c > 0,
    ;
    assert((2 * (r * c) == d * c) == (2 * r == d)) by (nonlinear_arith)
        requires
            c > 0,
    ;
}

/// Rounding sees the number, not how it is split into integer and power of
/// two.
pub proof fn lemma_round_magnitude_scaled(m: nat, k: nat, e: int)
    ensures
        round_magnitude(m * pow2(k), e) == round_magnitude(m, e + k),
{
    lemma_pow2_pos(k);
    if m == 0 {
        assert(m * pow2(k) == 0) by (nonlinear_arith)
            requires
                m == 0,
        ;
    } else {
        lemma_top_bit_scaled(m, k);
        lemma_mul_strictly_positive(m as int, pow2(k) as int);
        let g = grid(m, e + k);
        assert(grid(m * pow2(k), e) == g);
        if g <= e {
            lemma_pow2_adds(k, (e - g) as nat);
            lemma_mul_is_associative(m as int, pow2(k) as int, pow2((e - g) as nat) as int);
        } else if g <= e + k {
            let j = (e + k - g) as nat;
            let d = (g - e) as nat;
            lemma_pow2_adds(j, d);
            lemma_mul_is_associative(m as int, pow2(j) as int, pow2(d) as int);
            lemma_pow2_pos(d);
            lemma_div_round_even_parts(m * pow2(j), 0, pow2(d));
        } else {
            let d = (g - e - k) as nat;
            lemma_pow2_adds(d, k);
            lemma_pow2_pos(d);
            lemma_div_round_even_scaled(m, pow2(d), pow2(k));
        }
    }
}

/// A normal number absorbs a term that lies more than 25 binades below it:
/// the sum or difference rounds back to the number itself.
pub proof fn lemma_round_absorbs(ma: nat, mb: nat, d: nat, eb: nat, same_sign: bool)
    requires
        HIDDEN_BIT <= ma < 2 * HIDDEN_BIT,
        mb < 2 * HIDDEN_BIT,
        d >= 26,
        d + eb <= 253,
    ensures
        ma * pow2(d) > mb,
        round_magnitude(
            if same_sign {
                ma * pow2(d) + mb
            } else {
                (ma * pow2(d) - mb) as nat
            },
            eb as int,
        ) == (d + eb) * HIDDEN_BIT + ma,
{
    let p = pow2(d);
    let h = pow2((d - 1) as nat);
    lemma_pow2_unfold(d);
    lemma_pow2_monotone(26, d);
    lemma2_to64();
    lemma_pow2_adds(23, d);
    lemma_pow2_adds(24, d);
    lemma_pow2_adds(23, (d - 1) as nat);
    lemma_pow2_adds(24, (d - 1) as nat);
    assert(p == 2 * h);
    assert(p >= 0x400_0000);
    assert(ma * p >= 0x80_0000 * p) by (nonlinear_arith)
        requires
            ma >= 0x80_0000,
            p > 0,
    ;
    if same_sign || mb == 0 {
        let n = ma * p + mb;
        assert(n < 0x100_0000 * p) by (nonlinear_arith)
            requires
                n == ma * p + mb,
                ma < 0x100_0000,
                mb < p,
        ;
        lemma_top_bit_unique(n, 23 + d);
        lemma_div_round_even_parts(ma, mb, p);
    } else if ma > HIDDEN_BIT {
        let n = (ma * p - mb) as nat;
        assert(n == (ma - 1) * p + (p - mb)) by (nonlinear_arith)
            requires
                n == ma * p - mb,
        ;
        assert((ma - 1) * p >= 0x80_0000 * p) by (nonlinear_arith)
            requires
                ma - 1 >= 0x80_0000,
                p > 0,
        ;
        assert(ma * p <= 0x100_0000 * p) by (nonlinear_arith)
            requires
                ma <= 0x100_0000,
                p > 0,
        ;
        lemma_top_bit_unique(n, 23 + d);
        lemma_div_round_even_parts((ma - 1) as nat, (p - mb) as nat, p);
    } else {
        let n = (ma * p - mb) as nat;
        assert(n == 0xff_ffff * h + (h - mb)) by (nonlinear_arith)
            requires
                n == ma * p - mb,
                ma == 0x80_0000,
                p == 2 * h,
        ;
        assert(0xff_ffff * h >= 0x80_0000 * h) by (nonlinear_arith)
            requires
                h > 0,
        ;
        lemma_top_bit_unique(n, (22 + d) as nat);
        lemma_div_round_even_parts(0xff_ffff, (h - mb) as nat, h);
    }
}

/// Rounds `m * 2^e` units to the nearest single-precision magnitude.
pub fn round_pack(m: u64, e: i32) -> (r: u32)
    requires
        m < 0x8000_0000_0000_0000,
        -1000 <= e <= 1000,
    ensures
        r == round_magnitude(m as nat, e as int),
        r <= INFINITY,
{
    if m == 0 {
        return 0;
    }
    let t = top_bit_of(m) as i32;
    let g: i32 = if t + e > 23 {
        t + e - 23
    } else {
        0
    };
    proof {
        lemma_top_bit_u64(m);
    }
    if g >= 255 {
        return INFINITY;
    }
    let q: u64 = if g <= e {
        let k = (e - g) as u32;
        proof {
            lemma_mul_pow2_bound(m as nat, (t + 1) as nat, k as nat);
            lemma_pow2_monotone((t + 1 + k) as nat, 24);
            lemma2_to64();
        }
        m * pow2_u64(k)
    } else {
        let d = g - e;
        if d >= 64 {
            proof {
                lemma_pow2_monotone(64, d as nat);
                lemma2_to64_rest();
                lemma_div_round_even_parts(0, m as nat, pow2(d as nat));
            }
            0
        } else {
            let p = pow2_u64(d as u32);
            let fl = m / p;
            let rem = m % p;
            proof {
                lemma_pow2_monotone(d as nat, 63);
                lemma2_to64_rest();
                lemma_mod_bound(m as int, p as int);
            }
            if 2 * rem < p || (2 * rem == p && fl % 2 == 0) {
                fl
            } else {
                fl + 1
            }
        }
    };
    let p = (g as u64) * 0x80_0000 + q;
    if p >= 0x7f80_0000 {
        INFINITY
    } else {
        p as u32
    }
}

/// Sign, scale and significand of a pattern.
fn unpack(b: u32) -> (r: (bool, u32, u64))
    ensures
        r.0 == is_negative(b),
        r.1 == scale(b),
        r.2 == significand(b),
        r.1 <= 254,
        r.2 < 0x100_0000,
{
    let abs = if b >= SIGN_BIT {
        b - SIGN_BIT
    } else {
        b
    };
    let exponent = abs / HIDDEN_BIT;
    let fraction = abs % HIDDEN_BIT;
    if exponent == 0 {
        (b >= SIGN_BIT, 0, fraction as u64)
    } else {
        (b >= SIGN_BIT, exponent - 1, HIDDEN_BIT as u64 + fraction as u64)
    }
}

/// Puts a sign on an absolute pattern.
fn attach_sign(negative: bool, abs: u32) -> (r: u32)
    requires
        abs < SIGN_BIT,
    ensures
        r == with_sign(negative, abs),
{
    if negative {
        SIGN_BIT + abs
    } else {
        abs
    }
}

/// The single-precision product of two patterns.
pub fn product_of(a: u32, b: u32) -> (r: u32)
    ensures
        r == product(a, b),
{
    let (neg_a, ea, ma) = unpack(a);
    let (neg_b, eb, mb) = unpack(b);
    let abs_a = if neg_a {
        a - SIGN_BIT
    } else {
        a
    };
    let abs_b = if neg_b {
        b - SIGN_BIT
    } else {
        b
    };
    if abs_a > INFINITY || abs_b > INFINITY {
        return QUIET_NAN;
    }
    if abs_a == INFINITY || abs_b == INFINITY {
        if abs_a == 0 || abs_b == 0 {
            return QUIET_NAN;
        }
        return attach_sign(neg_a != neg_b, INFINITY);
    }
    assert(ma * mb < 0x1_0000_0000_0000) by (nonlinear_arith)
        requires
            ma < 0x100_0000,
            mb < 0x100_0000,
    ;
    let p = ma * mb;
    let e = ea as i32 + eb as i32 - 149;
    proof {
        let k = (ea + eb) as nat;
        lemma_pow2_adds(ea as nat, eb as nat);
        assert(magnitude(a) * magnitude(b) == p * pow2(k)) by (nonlinear_arith)
            requires
                magnitude(a) == ma * pow2(ea as nat),
                magnitude(b) == mb * pow2(eb as nat),
                pow2(k) == pow2(ea as nat) * pow2(eb as nat),
                p == ma * mb,
        ;
        lemma_round_magnitude_scaled(p as nat, k, -149);
    }
    attach_sign(neg_a != neg_b, round_pack(p, e))
}

/// A significand with its sign.
pub open spec fn signed(negative: bool, m: nat) -> int {
    if negative {
        -(m as int)
    } else {
        m as int
    }
}

/// Adds two finite numbers given by sign, scale and significand, the first
/// with the larger scale.
fn add_aligned(neg_a: bool, ea: u32, ma: u64, neg_b: bool, eb: u32, mb: u64) -> (r: u32)
    requires
        eb <= ea <= 253,
        ma < 0x100_0000,
        mb < 0x100_0000,
        ea > 0 ==> ma >= 0x80_0000,
    ensures
        r == round_signed(
            signed(neg_a, ma as nat * pow2(ea as nat)) + signed(neg_b, mb as nat * pow2(eb as nat)),
            neg_a && neg_b,
        ),
{
    let d = ea - eb;
    let ghost unit = pow2(eb as nat);
    let ghost wide = ma as nat * pow2(d as nat);
    proof {
        lemma_pow2_pos(eb as nat);
        lemma_pow2_adds(d as nat, eb as nat);
        assert(ma as nat * pow2(ea as nat) == wide * unit) by (nonlinear_arith)
            requires
                wide == ma as nat * pow2(d as nat),
                pow2(ea as nat) == pow2(d as nat) * unit,
        ;
    }
    if d > 38 {
        proof {
            lemma_round_absorbs(ma as nat, mb as nat, d as nat, eb as nat, neg_a == neg_b);
            let n = if neg_a == neg_b {
                wide + mb as nat
            } else {
                (wide - mb) as nat
            };
            if neg_a == neg_b {
                assert(n * unit == wide * unit + mb as nat * unit) by (nonlinear_arith)
                    requires
                        n == wide + mb as nat,
                ;
            } else {
                assert(n * unit == wide * unit - mb as nat * unit) by (nonlinear_arith)
                    requires
                        n == wide - mb as nat,
                ;
            }
            assert(n * unit > 0) by (nonlinear_arith)
                requires
                    n > 0,
                    unit > 0,
            ;
            lemma_round_magnitude_scaled(n, eb as nat, 0);
        }
        return attach_sign(neg_a, ea * HIDDEN_BIT + ma as u32);
    }
    proof {
        lemma2_to64();
        lemma2_to64_rest();
        lemma_mul_pow2_bound(ma as nat, 24, d as nat);
        lemma_pow2_monotone((24 + d) as nat, 62);
    }
    let aligned = ma * pow2_u64(d);
    if neg_a == neg_b {
        let total = aligned + mb;
        proof {
            assert(total as nat * unit == wide * unit + mb as nat * unit) by (nonlinear_arith)
                requires
                    total == wide + mb,
            ;
            assert(total > 0 ==> total as nat * unit > 0) by (nonlinear_arith)
                requires
                    unit > 0,
            ;
            assert(total == 0 ==> total as nat * unit == 0) by (nonlinear_arith);
            lemma_round_magnitude_scaled(total as nat, eb as nat, 0);
        }
        attach_sign(neg_a, round_pack(total, eb as i32))
    } else if aligned > mb {
        let total = aligned - mb;
        proof {
            assert(total as nat * unit == wide * unit - mb as nat * unit) by (nonlinear_arith)
                requires
                    total == wide - mb,
            ;
            assert(total as nat * unit > 0) by (nonlinear_arith)
                requires
                    total > 0,
                    unit > 0,
            ;
            lemma_round_magnitude_scaled(total as nat, eb as nat, 0);
        }
        attach_sign(neg_a, round_pack(total, eb as i32))
    } else if aligned < mb {
        let total = mb - aligned;
        proof {
            assert(total as nat * unit == mb as nat * unit - wide * unit) by (nonlinear_arith)
                requires
                    total == mb - wide,
            ;
            assert(total as nat * unit > 0) by (nonlinear_arith)
                requires
                    total > 0,
                    unit > 0,
            ;
            lemma_round_magnitude_scaled(total as nat, eb as nat, 0);
        }
        attach_sign(neg_b, round_pack(total, eb as i32))
    } else {
        0
    }
}

/// The single-precision sum of two patterns.
pub fn sum_of(a: u32, b: u32) -> (r: u32)
    ensures
        r == sum(a, b),
{
    let (neg_a, ea, ma) = unpack(a);
    let (neg_b, eb, mb) = unpack(b);
    let abs_a = if neg_a {
        a - SIGN_BIT
    } else {
        a
    };
    let abs_b = if neg_b {
        b - SIGN_BIT
    } else {
        b
    };
    if abs_a > INFINITY || abs_b > INFINITY {
        return QUIET_NAN;
    }
    if abs_a == INFINITY {
        if abs_b == INFINITY && neg_a != neg_b {
            return QUIET_NAN;
        }
        return a;
    }
    if abs_b == INFINITY {
        return b;
    }
    if ea >= eb {
        add_aligned(neg_a, ea, ma, neg_b, eb, mb)
    } else {
        add_aligned(neg_b, eb, mb, neg_a, ea, ma)
    }
}

} // verus!
