//! IEEE-754 arithmetic on raw bit patterns.
//!
//! The encoder carries `f64`/`f32` content as `u64`/`u32` bit patterns and
//! never touches machine floats. This module gives those patterns their
//! numeric meaning (sign, exponent, mantissa), decides integrality, floors
//! magnitudes, and rounds integers and decimal ratios to the nearest even
//! representable value, all in integer arithmetic.

use vstd::prelude::*;
use vstd::arithmetic::div_mod::{lemma_basic_div, lemma_small_mod};
use vstd::arithmetic::power2::{
    pow2, lemma2_to64, lemma2_to64_rest, lemma_pow2_adds, lemma_pow2_pos,
    lemma_pow2_strictly_increases, lemma_pow2_unfold,
};

verus! {

/// Powers of ten, for decimal scaling.
pub open spec fn pow10(e: nat) -> nat
    decreases e,
{
    if e == 0 {
        1
    } else {
        10 * pow10((e - 1) as nat)
    }
}

proof fn lemma_pow10_pos(n: nat)
    ensures
        pow10(n) >= 1,
    decreases n,
{
    if n > 0 {
        lemma_pow10_pos((n - 1) as nat);
    }
}

pub proof fn lemma_pow10_le(a: nat, b: nat)
    requires
        a <= b,
    ensures
        1 <= pow10(a) <= pow10(b),
    decreases b,
{
    lemma_pow10_pos(a);
    if a < b {
        lemma_pow10_le(a, (b - 1) as nat);
        lemma_pow10_pos((b - 1) as nat);
    }
}

/// 2^e as a `u64`.
pub fn pow2_u64(e: u64) -> (r: u64)
    requires
        e < 64,
    ensures
        r as nat == pow2(e as nat),
{
    let mut r: u64 = 1;
    let mut i: u64 = 0;
    proof {
        lemma2_to64();
    }
    while i < e
        invariant
            i <= e,
            e < 64,
            r as nat == pow2(i as nat),
        decreases e - i,
    {
        proof {
            lemma_pow2_unfold((i + 1) as nat);
            lemma_pow2_strictly_increases((i + 1) as nat, 64);
            lemma2_to64_rest();
        }
        r = r * 2;
        i = i + 1;
    }
    r
}

/// 2^e as a `u128`.
pub fn pow2_u128(e: u64) -> (r: u128)
    requires
        e < 128,
    ensures
        r as nat == pow2(e as nat),
{
    let mut r: u128 = 1;
    let mut i: u64 = 0;
    proof {
        lemma2_to64();
    }
    while i < e
        invariant
            i <= e,
            e < 128,
            r as nat == pow2(i as nat),
        decreases e - i,
    {
        proof {
            lemma_pow2_unfold((i + 1) as nat);
            lemma_pow2_strictly_increases((i + 1) as nat, 128);
            lemma_pow2_adds(64, 64);
            lemma2_to64_rest();
        }
        r = r * 2;
        i = i + 1;
    }
    r
}

/// 10^e as a `u128`.
pub fn pow10_u128(e: u64) -> (r: u128)
    requires
        e <= 22,
    ensures
        r as nat == pow10(e as nat),
{
    let mut r: u128 = 1;
    let mut i: u64 = 0;
    while i < e
        invariant
            i <= e,
            e <= 22,
            r as nat == pow10(i as nat),
        decreases e - i,
    {
        proof {
            lemma_pow10_le((i + 1) as nat, 22);
            assert(pow10(22) == 10_000_000_000_000_000_000_000) by {
                reveal_with_fuel(pow10, 23);
            }
        }
        r = r * 10;
        i = i + 1;
    }
    r
}

// --- Bit-field readers -------------------------------------------------

/// Sign bit of a binary64 pattern.
pub open spec fn f64_sign(b: u64) -> bool {
    b as nat / pow2(63) == 1
}

/// Biased exponent field of a binary64 pattern (11 bits).
pub open spec fn f64_biased_exp(b: u64) -> nat {
    (b as nat / pow2(52)) % pow2(11)
}

/// Fraction field of a binary64 pattern (52 bits).
pub open spec fn f64_frac(b: u64) -> nat {
    b as nat % pow2(52)
}

/// The integer mantissa: fraction plus the implicit leading bit when normal.
pub open spec fn f64_mant(b: u64) -> nat {
    if f64_biased_exp(b) == 0 {
        f64_frac(b)
    } else {
        pow2(52) + f64_frac(b)
    }
}

/// The power of two the mantissa is scaled by: magnitude = mant * 2^pexp.
pub open spec fn f64_pexp(b: u64) -> int {
    if f64_biased_exp(b) == 0 {
        -1074
    } else {
        f64_biased_exp(b) - 1075
    }
}

/// A finite pattern: not an infinity and not a NaN.
pub open spec fn f64_is_finite(b: u64) -> bool {
    f64_biased_exp(b) != 2047
}

pub open spec fn f64_is_nan(b: u64) -> bool {
    f64_biased_exp(b) == 2047 && f64_frac(b) != 0
}

/// A finite pattern denoting a mathematical integer.
pub open spec fn f64_is_integer(b: u64) -> bool {
    f64_is_finite(b) && (f64_pexp(b) >= 0 || f64_mant(b) % pow2((-f64_pexp(b)) as nat) == 0)
}

/// floor(|value|) of a finite pattern.
pub open spec fn f64_floor_mag(b: u64) -> nat {
    if f64_pexp(b) >= 0 {
        f64_mant(b) * pow2(f64_pexp(b) as nat)
    } else {
        f64_mant(b) / pow2((-f64_pexp(b)) as nat)
    }
}

/// Sign bit of a binary32 pattern.
pub open spec fn f32_sign(b: u32) -> bool {
    b as nat / pow2(31) == 1
}

/// Biased exponent field of a binary32 pattern (8 bits).
pub open spec fn f32_biased_exp(b: u32) -> nat {
    (b as nat / pow2(23)) % pow2(8)
}

/// Fraction field of a binary32 pattern (23 bits).
pub open spec fn f32_frac(b: u32) -> nat {
    b as nat % pow2(23)
}

// --- Decomposition and integer extraction ------------------------------

/// The facts about a binary64 pattern that the numeric conversions need.
pub struct FloatParts {
    /// Sign bit set.
    pub negative: bool,
    /// Exponent field all ones with a nonzero fraction.
    pub is_nan: bool,
    /// Exponent field all ones with a zero fraction.
    pub is_infinite: bool,
    /// floor(|value|), saturated at `u64::MAX`; 0 for NaN.
    pub mag: u64,
    /// The pattern is a mathematical integer whose magnitude fits in 64 bits.
    pub exact: bool,
}

impl FloatParts {
    /// What each field must say about the pattern `b`.
    pub open spec fn describes(self, b: u64) -> bool {
        &&& self.negative == f64_sign(b)
        &&& self.is_nan == f64_is_nan(b)
        &&& self.is_infinite == (f64_biased_exp(b) == 2047 && f64_frac(b) == 0)
        &&& f64_is_finite(b) ==> self.mag as nat == if f64_floor_mag(b) <= u64::MAX as nat {
            f64_floor_mag(b)
        } else {
            u64::MAX as nat
        }
        &&& self.is_nan ==> self.mag == 0
        &&& self.is_infinite ==> self.mag == u64::MAX
        &&& self.exact == (f64_is_integer(b) && f64_floor_mag(b) < pow2(64))
    }
}

/// Splits a binary64 pattern into its sign, its saturated integer floor,
/// and whether it is an exactly representable 64-bit-ranged integer.
pub fn f64_parts(b: u64) -> (r: FloatParts)
    ensures
        r.describes(b),
{
    proof {
        lemma2_to64();
        lemma2_to64_rest();
    }
    let sign: bool = b / 0x8000_0000_0000_0000u64 == 1;
    let be: u64 = (b / 0x10_0000_0000_0000u64) % 2048;
    let frac: u64 = b % 0x10_0000_0000_0000u64;
    if be == 2047 {
        FloatParts {
            negative: sign,
            is_nan: frac != 0,
            is_infinite: frac == 0,
            mag: if frac == 0 { u64::MAX } else { 0 },
            exact: false,
        }
    } else if be == 0 {
        // Subnormal or zero: the magnitude is below one.
        proof {
            lemma_pow2_strictly_increases(52, 1074);
            lemma_pow2_pos(1074);
            lemma_basic_div(frac as int, pow2(1074) as int);
            lemma_small_mod(frac as nat, pow2(1074));
        }
        FloatParts {
            negative: sign,
            is_nan: false,
            is_infinite: false,
            mag: 0,
            exact: frac == 0,
        }
    } else {
        let m: u64 = 0x10_0000_0000_0000u64 + frac;
        if be >= 1087 {
            // pexp >= 12: the magnitude is at least 2^64.
            proof {
                let p = (be - 1075) as nat;
                if p > 12 {
                    lemma_pow2_strictly_increases(12, p);
                }
                lemma_pow2_adds(52, 12);
                assert(m as nat * pow2(p) >= pow2(52) * pow2(12)) by (nonlinear_arith)
                    requires
                        m as nat >= pow2(52),
                        pow2(p) >= pow2(12),
                        pow2(12) > 0,
                ;
            }
            FloatParts {
                negative: sign,
                is_nan: false,
                is_infinite: false,
                mag: u64::MAX,
                exact: false,
            }
        } else if be >= 1075 {
            // pexp in [0, 11]: an exact integer m * 2^pexp below 2^64.
            let p: u64 = be - 1075;
            let scale: u64 = pow2_u64(p);
            proof {
                if p < 11 {
                    lemma_pow2_strictly_increases(p as nat, 11);
                }
                lemma_pow2_adds(53, 11);
                assert(m as nat * pow2(p as nat) < pow2(53) * pow2(11)) by (nonlinear_arith)
                    requires
                        (m as nat) < pow2(53),
                        pow2(p as nat) <= pow2(11),
                        pow2(p as nat) > 0,
                ;
            }
            FloatParts {
                negative: sign,
                is_nan: false,
                is_infinite: false,
                mag: m * scale,
                exact: true,
            }
        } else {
            // pexp in [-1074, -1]; for d > 52 the mantissa cannot divide evenly.
            let d: u64 = 1075 - be;
            if d >= 53 {
                proof {
                    if d > 53 {
                        lemma_pow2_strictly_increases(53, d as nat);
                    }
                    lemma_pow2_pos(d as nat);
                    lemma_basic_div(m as int, pow2(d as nat) as int);
                    lemma_small_mod(m as nat, pow2(d as nat));
                }
                FloatParts {
                    negative: sign,
                    is_nan: false,
                    is_infinite: false,
                    mag: 0,
                    exact: false,
                }
            } else {
                let scale: u64 = pow2_u64(d);
                FloatParts {
                    negative: sign,
                    is_nan: false,
                    is_infinite: false,
                    mag: m / scale,
                    exact: m % scale == 0,
                }
            }
        }
    }
}

// --- Round-to-nearest-even ----------------------------------------------

/// RNE of num/den once the ratio sits in [2^t, 2^(t+1)).
pub open spec fn rne_core(num: int, den: int) -> int {
    let q = num / den;
    let r = num % den;
    if 2 * r > den || (2 * r == den && q % 2 == 1) {
        q + 1
    } else {
        q
    }
}

/// Doubles `num` until num/den >= 2^t, decrementing the binary exponent.
pub open spec fn scale_up(num: int, den: int, s: int, t: nat) -> (int, int)
    decreases (if num <= pow2(t) * den { pow2(t) * den - num } else { 0 }) when 1 <= num && 1 <= den
{
    if num >= pow2(t) * den {
        (num, s)
    } else {
        scale_up(2 * num, den, s - 1, t)
    }
}

/// Doubles `den` until num/den < 2^(t+1), incrementing the binary exponent.
pub open spec fn scale_down(num: int, den: int, s: int, t: nat) -> (int, int)
    decreases (if den <= num { num - den } else { 0 }) when 1 <= num && 1 <= den via scale_down_dec
{
    if num < pow2(t + 1) * den {
        (den, s)
    } else {
        scale_down(num, 2 * den, s + 1, t)
    }
}

#[via_fn]
proof fn scale_down_dec(num: int, den: int, s: int, t: nat) {
    if 1 <= num && 1 <= den && num >= pow2(t + 1) * den {
        lemma_pow2_pos(t);
        lemma_pow2_unfold(t + 1);
        assert(2 * den <= num) by (nonlinear_arith)
            requires
                num >= pow2(t + 1) * den,
                pow2(t + 1) >= 2,
                den >= 1,
        ;
    }
}

proof fn lemma_scale_up_shape(num: int, den: int, s: int, t: nat)
    requires
        1 <= num,
        1 <= den,
    ensures
        ({
            let (n2, s2) = scale_up(num, den, s, t);
            &&& s2 <= s
            &&& n2 == num * pow2((s - s2) as nat)
            &&& n2 >= pow2(t) * den
            &&& (num >= pow2(t) * den ==> n2 == num && s2 == s)
            &&& (num < pow2(t) * den ==> n2 < pow2(t + 1) * den)
        }),
    decreases (if num <= pow2(t) * den { pow2(t) * den - num } else { 0 }),
{
    lemma_pow2_pos(t);
    if num >= pow2(t) * den {
        lemma2_to64();
        assert(num * pow2(0) == num) by (nonlinear_arith)
            requires
                pow2(0) == 1,
        ;
    } else {
        lemma_scale_up_shape(2 * num, den, s - 1, t);
        let (n2, s2) = scale_up(num, den, s, t);
        assert(scale_up(2 * num, den, s - 1, t) == (n2, s2));
        lemma_pow2_unfold((s - s2) as nat);
        assert(n2 == num * pow2((s - s2) as nat)) by (nonlinear_arith)
            requires
                n2 == (2 * num) * pow2((s - 1 - s2) as nat),
                pow2((s - s2) as nat) == 2 * pow2((s - 1 - s2) as nat),
        ;
        if 2 * num >= pow2(t) * den {
            lemma_pow2_unfold(t + 1);
            assert(n2 < pow2(t + 1) * den) by (nonlinear_arith)
                requires
                    n2 == 2 * num,
                    num < pow2(t) * den,
                    pow2(t + 1) == 2 * pow2(t),
            ;
        }
    }
}

proof fn lemma_scale_down_shape(num: int, den: int, s: int, t: nat)
    requires
        1 <= num,
        1 <= den,
    ensures
        ({
            let (d2, s2) = scale_down(num, den, s, t);
            &&& s2 >= s
            &&& d2 == den * pow2((s2 - s) as nat)
            &&& num < pow2(t + 1) * d2
            &&& (num < pow2(t + 1) * den ==> d2 == den && s2 == s)
            &&& (num >= pow2(t + 1) * den ==> num >= pow2(t) * d2)
        }),
    decreases (if den <= num { num - den } else { 0 }),
{
    lemma_pow2_pos(t);
    lemma_pow2_unfold(t + 1);
    if num < pow2(t + 1) * den {
        lemma2_to64();
        assert(den * pow2(0) == den) by (nonlinear_arith)
            requires
                pow2(0) == 1,
        ;
    } else {
        assert(den <= num) by (nonlinear_arith)
            requires
                num >= pow2(t + 1) * den,
                pow2(t + 1) >= 2,
                den >= 1,
        ;
        assert(2 * den <= num) by (nonlinear_arith)
            requires
                num >= pow2(t + 1) * den,
                pow2(t + 1) >= 2,
                den >= 1,
        ;
        lemma_scale_down_shape(num, 2 * den, s + 1, t);
        let (d2, s2) = scale_down(num, den, s, t);
        assert(scale_down(num, 2 * den, s + 1, t) == (d2, s2));
        lemma_pow2_unfold((s2 - s) as nat);
        assert(d2 == den * pow2((s2 - s) as nat)) by (nonlinear_arith)
            requires
                d2 == (2 * den) * pow2((s2 - s - 1) as nat),
                pow2((s2 - s) as nat) == 2 * pow2((s2 - s - 1) as nat),
        ;
        if num < pow2(t + 1) * (2 * den) {
            assert(num >= pow2(t) * (2 * den)) by (nonlinear_arith)
                requires
                    num >= pow2(t + 1) * den,
                    pow2(t + 1) == 2 * pow2(t),
            ;
        }
    }
}

/// RNE of the rational num/den into binary-float fields with `t` fraction
/// bits: the binary exponent offset and the rounded mantissa in
/// [2^t, 2^(t+1)).
pub open spec fn ratio_to_fields(num: int, den: int, t: nat) -> (int, int) {
    let up = scale_up(num, den, 0, t);
    let down = scale_down(up.0, den, up.1, t);
    let q = rne_core(up.0, down.0);
    if q == pow2(t + 1) {
        (down.1 + 1, pow2(t) as int)
    } else {
        (down.1, q)
    }
}

/// Exec mirror of `scale_up`, on u128.
fn scale_up_x(num: u128, den: u128, s: i64, t: u64) -> (r: (u128, i64))
    requires
        1 <= num,
        1 <= den,
        den as nat <= pow2(74),
        t <= 53,
        -130 <= s <= 130,
        num as nat * pow2((s + 130) as nat) >= pow2(t as nat) * den,
    ensures
        (r.0 as int, r.1 as int) == scale_up(num as int, den as int, s as int, t as nat),
    decreases (if num as int <= pow2(t as nat) * den { pow2(t as nat) * den - num } else { 0 }),
{
    let threshold: u128 = pow2_u128(t);
    let q: u128 = num / den;
    proof {
        lemma_pow2_pos(t as nat);
        assert((q >= threshold) == (num as int >= pow2(t as nat) * den as int)) by (nonlinear_arith)
            requires
                den >= 1,
                q == num / den,
                threshold as nat == pow2(t as nat),
        ;
    }
    if q >= threshold {
        (num, s)
    } else {
        proof {
            // num * 2 stays below 2^128: num < 2^t * den <= 2^53 * 2^74.
            if t < 53 {
                lemma_pow2_strictly_increases(t as nat, 53);
            }
            assert((num as nat) < pow2(53) * pow2(74)) by (nonlinear_arith)
                requires
                    (num as int) < pow2(t as nat) * den,
                    pow2(t as nat) <= pow2(53),
                    den as nat <= pow2(74),
                    pow2(t as nat) > 0,
                    den >= 1,
            ;
            lemma_pow2_adds(53, 74);
            lemma_pow2_adds(64, 63);
            lemma_pow2_adds(64, 64);
            lemma2_to64_rest();
            // s stays above -130: at -130 the fuel bound forces the base case.
            if s == -130 {
                lemma2_to64();
                assert(num as nat * pow2(0) == num as nat) by (nonlinear_arith)
                    requires
                        pow2(0) == 1,
                ;
                assert(false);
            }
            lemma_pow2_unfold((s + 130) as nat);
            assert((2 * num as nat) * pow2((s - 1 + 130) as nat) == num as nat * pow2(
                (s + 130) as nat,
            )) by (nonlinear_arith)
                requires
                    pow2((s + 130) as nat) == 2 * pow2((s - 1 + 130) as nat),
            ;
        }
        scale_up_x(2 * num, den, s - 1, t)
    }
}

/// Exec mirror of `scale_down`, on u128.
fn scale_down_x(num: u128, den: u128, s: i64, t: u64) -> (r: (u128, i64))
    requires
        1 <= num,
        1 <= den,
        t <= 53,
        -130 <= s <= 130,
        den as nat * pow2((130 - s) as nat) >= pow2(130),
    ensures
        (r.0 as int, r.1 as int) == scale_down(num as int, den as int, s as int, t as nat),
    decreases (if den as int <= num as int { num - den } else { 0 }),
{
    let threshold: u128 = pow2_u128(t + 1);
    let q: u128 = num / den;
    proof {
        lemma_pow2_pos((t + 1) as nat);
        assert((q < threshold) == ((num as int) < pow2((t + 1) as nat) * den as int))
            by (nonlinear_arith)
            requires
                den >= 1,
                q == num / den,
                threshold as nat == pow2((t + 1) as nat),
        ;
    }
    if q < threshold {
        (den, s)
    } else {
        proof {
            lemma2_to64();
            if t >= 1 {
                lemma_pow2_strictly_increases(1, (t + 1) as nat);
            }
            // den * 2 stays below 2^128: den <= num / 2^(t+1).
            assert(den as nat * 2 <= num as nat) by (nonlinear_arith)
                requires
                    num as int >= pow2((t + 1) as nat) * den,
                    pow2((t + 1) as nat) >= 2,
                    den >= 1,
            ;
            // s stays below 130: otherwise den would exceed the u128 range.
            if s == 130 {
                assert(den as nat * pow2(0) == den as nat) by (nonlinear_arith)
                    requires
                        pow2(0) == 1,
                ;
                assert(den as nat >= pow2(130));
                lemma_pow2_adds(64, 64);
                lemma_pow2_strictly_increases(128, 130);
                lemma2_to64_rest();
                assert(false);
            }
            lemma_pow2_unfold((130 - s) as nat);
            assert((2 * den as nat) * pow2((130 - (s + 1)) as nat) == den as nat * pow2(
                (130 - s) as nat,
            )) by (nonlinear_arith)
                requires
                    pow2((130 - s) as nat) == 2 * pow2((130 - (s + 1)) as nat),
            ;
        }
        scale_down_x(num, 2 * den, s + 1, t)
    }
}

/// Exec mirror of `ratio_to_fields`.
fn ratio_to_fields_x(num: u128, den: u128, t: u64) -> (r: (i64, u64))
    requires
        1 <= num,
        1 <= den,
        den as nat <= pow2(74),
        23 <= t <= 53,
        num as nat * pow2(130) >= pow2(t as nat) * den,
    ensures
        (r.0 as int, r.1 as int) == ratio_to_fields(num as int, den as int, t as nat),
        pow2(t as nat) <= r.1 as nat <= pow2((t + 1) as nat),
        -130 <= r.0 <= 131,
{
    proof {
        lemma_pow2_pos(130);
        lemma_pow2_pos(t as nat);
    }
    let up = scale_up_x(num, den, 0, t);
    let n1: u128 = up.0;
    let s1: i64 = up.1;
    proof {
        lemma_scale_up_shape(num as int, den as int, 0, t as nat);
        // s1 >= -130: n1 = num * 2^(-s1) and n1 < 2^128.
        assert(n1 as nat >= pow2((0 - s1) as nat)) by (nonlinear_arith)
            requires
                n1 as int == num as int * pow2((0 - s1) as nat),
                num >= 1,
        ;
        lemma_pow2_adds(64, 64);
        lemma2_to64_rest();
        if s1 < -130 {
            lemma_pow2_strictly_increases(128, (0 - s1) as nat);
            assert(false);
        }
        if s1 < 0 {
            lemma_pow2_strictly_increases(130, (130 - s1) as nat);
        }
        assert(den as nat * pow2((130 - s1) as nat) >= pow2(130)) by (nonlinear_arith)
            requires
                den >= 1,
                pow2((130 - s1) as nat) >= pow2(130),
        ;
    }
    let down = scale_down_x(n1, den, s1, t);
    let d2: u128 = down.0;
    let s2: i64 = down.1;
    proof {
        lemma_scale_down_shape(n1 as int, den as int, s1 as int, t as nat);
        // s2 <= 130: d2 = den * 2^(s2 - s1) and d2 < 2^128.
        assert(pow2((s2 - s1) as nat) <= d2 as nat) by (nonlinear_arith)
            requires
                d2 as int == den as int * pow2((s2 - s1) as nat),
                den >= 1,
        ;
        lemma_pow2_adds(64, 64);
        lemma2_to64_rest();
        if s2 > 130 {
            lemma_pow2_strictly_increases(128, (s2 - s1) as nat);
            assert(false);
        }
        // 2 * r0 stays in range: d2 is at most n1 / 2.
        lemma2_to64();
        if t > 23 {
            lemma_pow2_strictly_increases(23, t as nat);
        }
        assert(2 * d2 as nat <= n1 as nat) by (nonlinear_arith)
            requires
                n1 as int >= pow2(t as nat) * d2 as int,
                pow2(t as nat) >= 2,
                d2 >= 1,
        ;
    }
    let q0: u128 = n1 / d2;
    let r0: u128 = n1 % d2;
    proof {
        // q0 sits in [2^t, 2^(t+1)).
        assert(pow2(t as nat) <= q0 as nat && (q0 as nat) < pow2((t + 1) as nat)) by (nonlinear_arith)
            requires
                d2 >= 1,
                q0 == n1 / d2,
                n1 as int >= pow2(t as nat) * d2 as int,
                (n1 as int) < pow2((t + 1) as nat) * d2 as int,
        ;
        lemma_pow2_strictly_increases((t + 1) as nat, 64);
        lemma2_to64_rest();
        lemma2_to64();
    }
    let q: u64 = if 2 * r0 > d2 || (2 * r0 == d2 && (q0 % 2) == 1) {
        (q0 + 1) as u64
    } else {
        q0 as u64
    };
    let threshold: u64 = pow2_u64(t + 1);
    if q == threshold {
        (s2 + 1, pow2_u64(t))
    } else {
        (s2, q)
    }
}

// --- Integer and decimal to binary64 ------------------------------------

/// RNE of a positive ratio into binary64 bits, assembled with a sign.
pub open spec fn mag_ratio_f64_bits(neg: bool, num: int, den: int) -> u64 {
    let fields = ratio_to_fields(num, den, 52);
    (((if neg {
        pow2(63)
    } else {
        0
    }) + (fields.0 + 1075) * pow2(52) + (fields.1 - pow2(52))) as int) as u64
}

/// Bits of the binary64 nearest to the unsigned integer `v` (ties to even).
pub open spec fn u64_to_f64_bits(v: u64) -> u64 {
    if v == 0 {
        0
    } else {
        mag_ratio_f64_bits(false, v as int, 1)
    }
}

/// Bits of the binary64 nearest to the signed integer `v` (ties to even).
pub open spec fn i64_to_f64_bits(v: i64) -> u64 {
    if v >= 0 {
        u64_to_f64_bits(v as u64)
    } else {
        mag_ratio_f64_bits(true, -(v as int), 1)
    }
}

/// Shared assembly: RNE of num/den with a sign into binary64 bits. The
/// admitted ratios (64-bit integers, decimals scaled by at most 10^±22)
/// stay strictly inside the normal binary64 exponent range.
fn ratio_f64_bits_x(neg: bool, num: u128, den: u128) -> (r: u64)
    requires
        1 <= num,
        1 <= den,
        den as nat <= pow2(74),
        num as nat <= pow2(127),
    ensures
        r == mag_ratio_f64_bits(neg, num as int, den as int),
{
    proof {
        lemma_pow2_pos(52);
        lemma_pow2_pos(74);
        lemma_pow2_pos(130);
        lemma_pow2_adds(52, 74);
        lemma_pow2_strictly_increases(126, 130);
        assert(num as nat * pow2(130) >= pow2(52) * den as nat) by (nonlinear_arith)
            requires
                num >= 1,
                den as nat <= pow2(74),
                pow2(130) >= pow2(52) * pow2(74),
                pow2(52) > 0,
                pow2(74) > 0,
        ;
    }
    let fields = ratio_to_fields_x(num, den, 52);
    proof {
        lemma2_to64_rest();
        lemma2_to64();
    }
    let sign_part: u64 = if neg { 0x8000_0000_0000_0000u64 } else { 0 };
    let e_field: u64 = (fields.0 + 1075) as u64;
    if fields.1 == 0x20_0000_0000_0000u64 {
        // carried up to 2^53: the spec's mantissa is 2^52 with the next exponent
        sign_part + (e_field + 1) * 0x10_0000_0000_0000u64
    } else {
        sign_part + e_field * 0x10_0000_0000_0000u64 + (fields.1 - 0x10_0000_0000_0000u64)
    }
}

/// Exec: nearest binary64 to an unsigned 64-bit integer.
pub fn u64_to_f64_bits_x(v: u64) -> (r: u64)
    ensures
        r == u64_to_f64_bits(v),
{
    if v == 0 {
        0
    } else {
        proof {
            lemma_pow2_pos(74);
            lemma_pow2_adds(64, 63);
            lemma2_to64_rest();
            lemma_pow2_strictly_increases(64, 127);
            lemma_pow2_adds(64, 64);
        }
        ratio_f64_bits_x(false, v as u128, 1)
    }
}

/// Exec: nearest binary64 to a signed 64-bit integer.
pub fn i64_to_f64_bits_x(v: i64) -> (r: u64)
    ensures
        r == i64_to_f64_bits(v),
{
    if v >= 0 {
        u64_to_f64_bits_x(v as u64)
    } else {
        let mag: u64 = if v == i64::MIN {
            0x8000_0000_0000_0000u64
        } else {
            (-v) as u64
        };
        proof {
            lemma_pow2_pos(74);
            lemma_pow2_adds(64, 63);
            lemma2_to64_rest();
            lemma_pow2_strictly_increases(64, 127);
            lemma_pow2_adds(64, 64);
        }
        ratio_f64_bits_x(true, mag as u128, 1)
    }
}

/// Bits of the binary64 nearest to (-1)^neg * m * 10^k10, for a bounded
/// decimal mantissa and scale, rounding ties to even.
pub open spec fn dec_to_f64_bits(neg: bool, m: u64, k10: int) -> u64 {
    if m == 0 {
        if neg {
            pow2(63) as u64
        } else {
            0
        }
    } else if k10 >= 0 {
        mag_ratio_f64_bits(neg, m * pow10(k10 as nat), 1)
    } else {
        mag_ratio_f64_bits(neg, m as int, pow10((-k10) as nat) as int)
    }
}

/// Exec: nearest binary64 to a decimal m * 10^k10 with a sign.
/// The mantissa is limited to nineteen decimal digits.
pub fn dec_to_f64_bits_x(neg: bool, m: u64, k10: i64) -> (r: u64)
    requires
        -22 <= k10 <= 19,
        m < 10_000_000_000_000_000_000u64,
    ensures
        r == dec_to_f64_bits(neg, m, k10 as int),
{
    if m == 0 {
        proof {
            lemma2_to64_rest();
        }
        if neg {
            0x8000_0000_0000_0000u64
        } else {
            0
        }
    } else if k10 >= 0 {
        let scale: u128 = pow10_u128(k10 as u64);
        proof {
            assert(pow10(19) == 10_000_000_000_000_000_000) by {
                reveal_with_fuel(pow10, 20);
            }
            lemma_pow10_le(k10 as nat, 19);
            lemma_pow2_pos(74);
            lemma_pow2_adds(64, 63);
            lemma_pow2_adds(64, 64);
            lemma2_to64_rest();
            assert(1 <= m as nat * pow10(k10 as nat) <= pow10(19) * pow10(19)) by (nonlinear_arith)
                requires
                    m as nat <= pow10(19),
                    pow10(k10 as nat) <= pow10(19),
                    pow10(19) >= 1,
                    m >= 1,
                    pow10(k10 as nat) >= 1,
            ;
            assert(pow10(19) * pow10(19) <= pow2(127)) by (nonlinear_arith)
                requires
                    pow10(19) == 10_000_000_000_000_000_000,
                    pow2(127) == pow2(64) * pow2(63),
                    pow2(64) == 0x10000000000000000,
                    pow2(63) == 0x8000000000000000,
            ;
        }
        ratio_f64_bits_x(neg, m as u128 * scale, 1)
    } else {
        let den: u128 = pow10_u128((-k10) as u64);
        proof {
            assert(pow10(22) == 10_000_000_000_000_000_000_000) by {
                reveal_with_fuel(pow10, 23);
            }
            lemma_pow10_le((-k10) as nat, 22);
            lemma_pow2_adds(64, 10);
            lemma_pow2_adds(64, 63);
            lemma_pow2_strictly_increases(64, 127);
            lemma_pow2_adds(64, 64);
            lemma2_to64();
            lemma2_to64_rest();
        }
        ratio_f64_bits_x(neg, m as u128, den)
    }
}

// --- Width changes -------------------------------------------------------

/// floor(log2(n)) for n >= 1.
pub open spec fn flog2(n: nat) -> nat
    decreases n,
{
    if n < 2 {
        0
    } else {
        1 + flog2(n / 2)
    }
}

proof fn lemma_flog2_shape(n: nat)
    requires
        n >= 1,
    ensures
        pow2(flog2(n)) <= n < pow2(flog2(n) + 1),
    decreases n,
{
    if n < 2 {
        lemma2_to64();
    } else {
        lemma_flog2_shape(n / 2);
        lemma_pow2_unfold(flog2(n));
        lemma_pow2_unfold(flog2(n) + 1);
    }
}

fn flog2_x(n: u64) -> (r: u64)
    requires
        n >= 1,
    ensures
        r as nat == flog2(n as nat),
        r < 64,
    decreases n,
{
    if n < 2 {
        0
    } else {
        let rec: u64 = flog2_x(n / 2);
        proof {
            lemma_flog2_shape(n as nat);
            if flog2(n as nat) >= 64 {
                if flog2(n as nat) > 64 {
                    lemma_pow2_strictly_increases(64, flog2(n as nat));
                }
                lemma2_to64_rest();
                assert(false);
            }
        }
        1 + rec
    }
}

/// Exact widening of a binary32 pattern to binary64 bits.
pub open spec fn f32_to_f64_bits(b: u32) -> u64 {
    let sp: nat = if f32_sign(b) {
        pow2(63)
    } else {
        0
    };
    let e = f32_biased_exp(b);
    let f = f32_frac(b);
    if e == 255 {
        (sp + 2047 * pow2(52) + f * pow2(29)) as u64
    } else if e == 0 && f == 0 {
        sp as u64
    } else if e == 0 {
        let p = flog2(f);
        (sp + (p + 874) * pow2(52) + (f * pow2((52 - p) as nat) - pow2(52))) as u64
    } else {
        (sp + (e + 896) * pow2(52) + f * pow2(29)) as u64
    }
}

/// Exec mirror of `f32_to_f64_bits`.
pub fn f32_to_f64_bits_x(b: u32) -> (r: u64)
    ensures
        r == f32_to_f64_bits(b),
{
    proof {
        lemma2_to64();
        lemma2_to64_rest();
    }
    let sign: bool = b / 0x8000_0000u32 == 1;
    let e: u32 = (b / 0x80_0000u32) % 256;
    let f: u32 = b % 0x80_0000u32;
    let sp: u64 = if sign { 0x8000_0000_0000_0000u64 } else { 0 };
    if e == 255 {
        sp + 2047u64 * 0x10_0000_0000_0000u64 + (f as u64) * 0x2000_0000u64
    } else if e == 0 && f == 0 {
        sp
    } else if e == 0 {
        let p: u64 = flog2_x(f as u64);
        proof {
            lemma_flog2_shape(f as nat);
            if p >= 23 {
                if p > 23 {
                    lemma_pow2_strictly_increases(23, p as nat);
                }
                assert(false);
            }
            lemma_pow2_pos((52 - p) as nat);
            lemma_pow2_adds(p as nat, (52 - p) as nat);
            lemma_pow2_adds((p + 1) as nat, (52 - p) as nat);
            assert(f as nat * pow2((52 - p) as nat) < pow2((p + 1) as nat) * pow2((52 - p) as nat))
                by (nonlinear_arith)
                requires
                    (f as nat) < pow2((p + 1) as nat),
                    pow2((52 - p) as nat) > 0,
            ;
            assert(f as nat * pow2((52 - p) as nat) >= pow2(p as nat) * pow2((52 - p) as nat))
                by (nonlinear_arith)
                requires
                    f as nat >= pow2(p as nat),
                    pow2((52 - p) as nat) > 0,
            ;
        }
        let scale: u64 = pow2_u64(52 - p);
        sp + (p + 874) * 0x10_0000_0000_0000u64 + ((f as u64) * scale - 0x10_0000_0000_0000u64)
    } else {
        sp + ((e as u64) + 896) * 0x10_0000_0000_0000u64 + (f as u64) * 0x2000_0000u64
    }
}

/// RNE of an integer mantissa shifted right by d bits (d >= 1).
pub open spec fn rne_shift(m: nat, d: nat) -> nat {
    let q = m / pow2(d);
    let r = m % pow2(d);
    let half = pow2((d - 1) as nat);
    if r > half || (r == half && q % 2 == 1) {
        q + 1
    } else {
        q
    }
}

/// Nearest binary32 pattern to a binary64 pattern (ties to even);
/// overflow goes to infinity, NaN to the canonical quiet NaN.
pub open spec fn f64_to_f32_bits(b: u64) -> u32 {
    let sp: nat = if f64_sign(b) {
        pow2(31)
    } else {
        0
    };
    let e2 = f64_biased_exp(b);
    let f = f64_frac(b);
    if e2 == 2047 {
        if f == 0 {
            (sp + 255 * pow2(23)) as u32
        } else {
            (sp + 255 * pow2(23) + pow2(22)) as u32
        }
    } else if e2 == 0 {
        sp as u32
    } else {
        let m = pow2(52) + f;
        if e2 >= 897 {
            let q = rne_shift(m, 29);
            let qe: (int, int) = if q == pow2(24) {
                (pow2(23) as int, e2 - 1023 + 1)
            } else {
                (q as int, e2 - 1023)
            };
            if qe.1 > 127 {
                (sp + 255 * pow2(23)) as u32
            } else {
                (sp + (qe.1 + 127) * pow2(23) + (qe.0 - pow2(23))) as u32
            }
        } else {
            let sh = 926 - e2;
            if sh >= 54 {
                sp as u32
            } else {
                (sp + rne_shift(m, sh as nat)) as u32
            }
        }
    }
}

/// Exec mirror of `f64_to_f32_bits`.
pub fn f64_to_f32_bits_x(b: u64) -> (r: u32)
    ensures
        r == f64_to_f32_bits(b),
{
    proof {
        lemma2_to64();
        lemma2_to64_rest();
    }
    let sign: bool = b / 0x8000_0000_0000_0000u64 == 1;
    let e2: u64 = (b / 0x10_0000_0000_0000u64) % 2048;
    let f: u64 = b % 0x10_0000_0000_0000u64;
    let sp: u32 = if sign { 0x8000_0000u32 } else { 0 };
    if e2 == 2047 {
        if f == 0 {
            sp + 255u32 * 0x80_0000u32
        } else {
            sp + 255u32 * 0x80_0000u32 + 0x40_0000u32
        }
    } else if e2 == 0 {
        sp
    } else {
        let m: u64 = 0x10_0000_0000_0000u64 + f;
        if e2 >= 897 {
            let q0: u64 = m / 0x2000_0000u64;
            let r0: u64 = m % 0x2000_0000u64;
            let q: u64 = if r0 > 0x1000_0000u64 || (r0 == 0x1000_0000u64 && q0 % 2 == 1) {
                q0 + 1
            } else {
                q0
            };
            let carried: bool = q == 0x100_0000u64;
            let q1: u64 = if carried { 0x80_0000u64 } else { q };
            let e1: i64 = if carried {
                e2 as i64 - 1023 + 1
            } else {
                e2 as i64 - 1023
            };
            if e1 > 127 {
                sp + 255u32 * 0x80_0000u32
            } else {
                sp + ((e1 + 127) as u32) * 0x80_0000u32 + ((q1 - 0x80_0000u64) as u32)
            }
        } else {
            let sh: u64 = 926 - e2;
            if sh >= 54 {
                sp
            } else {
                let scale: u64 = pow2_u64(sh);
                let half: u64 = pow2_u64(sh - 1);
                let q0: u64 = m / scale;
                let r0: u64 = m % scale;
                let q: u64 = if r0 > half || (r0 == half && q0 % 2 == 1) {
                    q0 + 1
                } else {
                    q0
                };
                proof {
                    // q <= 2^23: m < 2^53 and sh >= 30.
                    if sh > 30 {
                        lemma_pow2_strictly_increases(30, sh as nat);
                    }
                    lemma_pow2_pos(sh as nat);
                    vstd::arithmetic::div_mod::lemma_div_is_ordered_by_denominator(
                        m as int,
                        pow2(30) as int,
                        pow2(sh as nat) as int,
                    );
                }
                sp + (q as u32)
            }
        }
    }
}

} // verus!
