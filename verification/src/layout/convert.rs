//! Type-directed numeric conversion.
//!
//! Every field element is converted into a raw `u64` pattern for its target
//! type: the value itself for unsigned targets, two's complement for signed
//! targets, an IEEE-754 pattern for float targets. In strict mode any
//! conversion that would change the value is refused; in lenient mode
//! integers truncate (as a bit pattern) and floats cast with saturation.

use vstd::prelude::*;
use vstd::arithmetic::div_mod::{lemma_fundamental_div_mod, lemma_fundamental_div_mod_converse};
use vstd::arithmetic::power2::{
    pow2, lemma2_to64, lemma2_to64_rest, lemma_pow2_adds, lemma_pow2_pos,
    lemma_pow2_strictly_increases,
};
use crate::layout::floatbits::{
    f64_floor_mag, f64_is_finite, f64_is_integer, f64_is_nan, f64_parts, f64_sign,
    f64_to_f32_bits, f64_to_f32_bits_x, f32_to_f64_bits, f32_to_f64_bits_x, i64_to_f64_bits,
    i64_to_f64_bits_x, pow2_u64, u64_to_f64_bits, u64_to_f64_bits_x,
};
use crate::layout::value::{DataValue, DataValueV};

verus! {

/// The numeric target type of a field.
#[derive(Clone, Copy, Debug, PartialEq, Eq, Structural)]
pub enum NumType {
    U8,
    U16,
    U32,
    U64,
    I8,
    I16,
    I32,
    I64,
    F32,
    F64,
}

impl NumType {
    /// Byte width of the encoded value.
    pub open spec fn spec_width(self) -> nat {
        match self {
            NumType::U8 | NumType::I8 => 1,
            NumType::U16 | NumType::I16 => 2,
            NumType::U32 | NumType::I32 | NumType::F32 => 4,
            NumType::U64 | NumType::I64 | NumType::F64 => 8,
        }
    }

    /// Bit width of the encoded value.
    pub open spec fn spec_bits(self) -> nat {
        8 * self.spec_width()
    }

    pub open spec fn is_unsigned(self) -> bool {
        matches!(self, NumType::U8 | NumType::U16 | NumType::U32 | NumType::U64)
    }

    pub open spec fn is_signed(self) -> bool {
        matches!(self, NumType::I8 | NumType::I16 | NumType::I32 | NumType::I64)
    }

    pub open spec fn is_float(self) -> bool {
        matches!(self, NumType::F32 | NumType::F64)
    }

    pub fn width(self) -> (w: u8)
        ensures
            w as nat == self.spec_width(),
    {
        match self {
            NumType::U8 | NumType::I8 => 1,
            NumType::U16 | NumType::I16 => 2,
            NumType::U32 | NumType::I32 | NumType::F32 => 4,
            NumType::U64 | NumType::I64 | NumType::F64 => 8,
        }
    }
}

/// Why a single element failed to convert.
#[derive(Clone, Copy, Debug, PartialEq, Eq, Structural)]
pub enum ConvErr {
    /// A string reached a numeric slot.
    TypeMismatch,
    /// Strict mode refused a value-changing conversion.
    Lossy,
}

/// x mod 2^bits: the two's complement encoding of an integer.
pub open spec fn mod_bits(x: int, bits: nat) -> nat {
    (x % (pow2(bits) as int)) as nat
}

/// The signed reading of a raw pattern of the given bit width.
pub open spec fn signed_value(r: nat, bits: nat) -> int {
    if r < pow2((bits - 1) as nat) {
        r as int
    } else {
        r - pow2(bits)
    }
}

/// The integer a raw pattern denotes under an integer target type.
pub open spec fn raw_value_as_int(t: NumType, r: nat) -> int {
    if t.is_unsigned() {
        r as int
    } else {
        signed_value(r, t.spec_bits())
    }
}

/// The binary64 pattern `b` denotes exactly the unsigned integer `u`.
pub open spec fn f64_represents_u64(b: u64, u: u64) -> bool {
    f64_is_integer(b) && f64_floor_mag(b) == u && (!f64_sign(b) || u == 0)
}

/// The binary64 pattern `b` denotes exactly the signed integer `i`.
pub open spec fn f64_represents_i64(b: u64, i: i64) -> bool {
    f64_is_integer(b) && (if i >= 0 {
        f64_floor_mag(b) == i && (!f64_sign(b) || i == 0)
    } else {
        f64_floor_mag(b) == -(i as int) && f64_sign(b)
    })
}

/// The saturated floor magnitude used by lenient float-to-int casts:
/// NaN counts as zero, infinities as the largest magnitude.
pub open spec fn f64_cast_mag(b: u64) -> nat {
    if !f64_is_finite(b) {
        if f64_is_nan(b) {
            0
        } else {
            (pow2(64) - 1) as nat
        }
    } else if f64_floor_mag(b) <= u64::MAX as nat {
        f64_floor_mag(b)
    } else {
        (pow2(64) - 1) as nat
    }
}

/// Conversion of an unsigned source value.
pub open spec fn convert_u64_spec(u: u64, t: NumType, strict: bool) -> Result<u64, ConvErr> {
    if t.is_unsigned() {
        if (u as nat) < pow2(t.spec_bits()) {
            Ok(u)
        } else if strict {
            Err(ConvErr::Lossy)
        } else {
            Ok(mod_bits(u as int, t.spec_bits()) as u64)
        }
    } else if t.is_signed() {
        if (u as nat) < pow2((t.spec_bits() - 1) as nat) {
            Ok(u)
        } else if strict {
            Err(ConvErr::Lossy)
        } else {
            Ok(mod_bits(u as int, t.spec_bits()) as u64)
        }
    } else if t == NumType::F64 {
        let b = u64_to_f64_bits(u);
        if !strict || f64_represents_u64(b, u) {
            Ok(b)
        } else {
            Err(ConvErr::Lossy)
        }
    } else {
        let n = f64_to_f32_bits(u64_to_f64_bits(u));
        if !strict || f64_represents_u64(f32_to_f64_bits(n), u) {
            Ok(n as u64)
        } else {
            Err(ConvErr::Lossy)
        }
    }
}

/// Conversion of a signed source value.
pub open spec fn convert_i64_spec(i: i64, t: NumType, strict: bool) -> Result<u64, ConvErr> {
    if t.is_unsigned() {
        if 0 <= i && (i as nat) < pow2(t.spec_bits()) {
            Ok(i as u64)
        } else if strict {
            Err(ConvErr::Lossy)
        } else {
            Ok(mod_bits(i as int, t.spec_bits()) as u64)
        }
    } else if t.is_signed() {
        if -(pow2((t.spec_bits() - 1) as nat) as int) <= i as int && (i as int) < pow2(
            (t.spec_bits() - 1) as nat,
        ) {
            Ok(mod_bits(i as int, t.spec_bits()) as u64)
        } else if strict {
            Err(ConvErr::Lossy)
        } else {
            Ok(mod_bits(i as int, t.spec_bits()) as u64)
        }
    } else if t == NumType::F64 {
        let b = i64_to_f64_bits(i);
        if !strict || f64_represents_i64(b, i) {
            Ok(b)
        } else {
            Err(ConvErr::Lossy)
        }
    } else {
        let n = f64_to_f32_bits(i64_to_f64_bits(i));
        if !strict || f64_represents_i64(f32_to_f64_bits(n), i) {
            Ok(n as u64)
        } else {
            Err(ConvErr::Lossy)
        }
    }
}

/// Conversion of a binary64 source value.
pub open spec fn convert_f64_spec(b: u64, t: NumType, strict: bool) -> Result<u64, ConvErr> {
    if t == NumType::F64 {
        Ok(b)
    } else if t == NumType::F32 {
        let n = f64_to_f32_bits(b);
        if !strict || f32_to_f64_bits(n) == b {
            Ok(n as u64)
        } else {
            Err(ConvErr::Lossy)
        }
    } else if strict {
        if !(f64_is_integer(b) && f64_floor_mag(b) < pow2(64)) {
            Err(ConvErr::Lossy)
        } else {
            let mag = f64_floor_mag(b);
            let value: int = if f64_sign(b) {
                -(mag as int)
            } else {
                mag as int
            };
            if t.is_unsigned() {
                if 0 <= value && value < pow2(t.spec_bits()) {
                    Ok(mag as u64)
                } else {
                    Err(ConvErr::Lossy)
                }
            } else {
                if -(pow2((t.spec_bits() - 1) as nat) as int) <= value && value < pow2(
                    (t.spec_bits() - 1) as nat,
                ) {
                    Ok(mod_bits(value, t.spec_bits()) as u64)
                } else {
                    Err(ConvErr::Lossy)
                }
            }
        }
    } else {
        // Saturating cast: truncate toward zero, clamp into the target range.
        let mag = f64_cast_mag(b);
        let neg = f64_sign(b) && !f64_is_nan(b);
        if t.is_unsigned() {
            if neg && mag > 0 {
                Ok(0u64)
            } else if mag < pow2(t.spec_bits()) {
                Ok(mag as u64)
            } else {
                Ok((pow2(t.spec_bits()) - 1) as u64)
            }
        } else {
            let half = pow2((t.spec_bits() - 1) as nat);
            if neg {
                if mag >= half {
                    Ok(half as u64)
                } else {
                    Ok(mod_bits(-(mag as int), t.spec_bits()) as u64)
                }
            } else {
                if mag < half {
                    Ok(mag as u64)
                } else {
                    Ok((half - 1) as u64)
                }
            }
        }
    }
}

/// The conversion table: source value and target type to raw pattern.
pub open spec fn convert_spec(v: DataValueV, t: NumType, strict: bool) -> Result<u64, ConvErr> {
    match v {
        DataValueV::U64(u) => convert_u64_spec(u, t, strict),
        DataValueV::I64(i) => convert_i64_spec(i, t, strict),
        DataValueV::F64(b) => convert_f64_spec(b, t, strict),
        DataValueV::Bool(x) => convert_u64_spec(
            if x {
                1u64
            } else {
                0u64
            },
            t,
            strict,
        ),
        DataValueV::Str(_) => Err(ConvErr::TypeMismatch),
    }
}

proof fn lemma_mod_bits_small(x: int, bits: nat)
    requires
        0 <= x < pow2(bits),
    ensures
        mod_bits(x, bits) == x,
{
    lemma_pow2_pos(bits);
    lemma_fundamental_div_mod_converse(x, pow2(bits) as int, 0, x);
}

/// Two's complement encoding of a negative integer: 2^bits - 1 - ((-x-1) mod 2^bits).
proof fn lemma_mod_bits_neg(x: int, bits: nat)
    requires
        x < 0,
    ensures
        mod_bits(x, bits) == pow2(bits) - 1 - (((-x - 1) as nat) % pow2(bits)),
{
    lemma_pow2_pos(bits);
    let p = pow2(bits) as int;
    let m = -x - 1;
    lemma_fundamental_div_mod(m, p);
    let c = p - 1 - (m % p);
    assert(x == (-(1 + m / p)) * p + c) by (nonlinear_arith)
        requires
            x == -1 - m,
            m == p * (m / p) + m % p,
            c == p - 1 - (m % p),
    ;
    lemma_fundamental_div_mod_converse(x, p, -(1 + m / p), c);
}

/// Exec two's complement encoding into `bits` bits.
pub fn encode_twos(i: i64, bits: u8) -> (r: u64)
    requires
        8 <= bits <= 64,
    ensures
        r as nat == mod_bits(i as int, bits as nat),
{
    proof {
        lemma2_to64_rest();
        lemma_pow2_pos(bits as nat);
    }
    if i >= 0 {
        let u: u64 = i as u64;
        if bits == 64 {
            proof {
                lemma_mod_bits_small(i as int, 64);
            }
            u
        } else {
            let p: u64 = pow2_u64(bits as u64);
            proof {
                lemma_fundamental_div_mod(u as int, p as int);
            }
            u % p
        }
    } else {
        let m: u64 = (-(i + 1)) as u64;
        proof {
            lemma_mod_bits_neg(i as int, bits as nat);
        }
        if bits == 64 {
            proof {
                lemma_mod_bits_small(m as int, 64);
            }
            u64::MAX - m
        } else {
            let p: u64 = pow2_u64(bits as u64);
            p - 1 - (m % p)
        }
    }
}

/// Exec conversion of an unsigned source.
fn convert_u64(u: u64, t: NumType, strict: bool) -> (r: Result<u64, ConvErr>)
    ensures
        r == convert_u64_spec(u, t, strict),
{
    proof {
        lemma2_to64_rest();
    }
    let bits: u8 = 8 * t.width();
    proof {
        lemma_pow2_pos(bits as nat);
        lemma_pow2_pos((bits - 1) as nat);
    }
    match t {
        NumType::U8 | NumType::U16 | NumType::U32 | NumType::U64 => {
            let fits: bool = if bits == 64 {
                true
            } else {
                u < pow2_u64(bits as u64)
            };
            if fits {
                Ok(u)
            } else if strict {
                Err(ConvErr::Lossy)
            } else {
                let p: u64 = pow2_u64(bits as u64);
                proof {
                    lemma_fundamental_div_mod(u as int, p as int);
                }
                Ok(u % p)
            }
        },
        NumType::I8 | NumType::I16 | NumType::I32 | NumType::I64 => {
            let fits: bool = u < pow2_u64((bits - 1) as u64);
            if fits {
                Ok(u)
            } else if strict {
                Err(ConvErr::Lossy)
            } else {
                if bits == 64 {
                    proof {
                        lemma_mod_bits_small(u as int, 64);
                    }
                    Ok(u)
                } else {
                    let p: u64 = pow2_u64(bits as u64);
                    proof {
                        lemma_fundamental_div_mod(u as int, p as int);
                    }
                    Ok(u % p)
                }
            }
        },
        NumType::F64 => {
            let b: u64 = u64_to_f64_bits_x(u);
            if !strict {
                Ok(b)
            } else {
                let parts = f64_parts(b);
                if parts.exact && parts.mag == u && (!parts.negative || u == 0) {
                    Ok(b)
                } else {
                    Err(ConvErr::Lossy)
                }
            }
        },
        NumType::F32 => {
            let n: u32 = f64_to_f32_bits_x(u64_to_f64_bits_x(u));
            if !strict {
                Ok(n as u64)
            } else {
                let wide: u64 = f32_to_f64_bits_x(n);
                let parts = f64_parts(wide);
                if parts.exact && parts.mag == u && (!parts.negative || u == 0) {
                    Ok(n as u64)
                } else {
                    Err(ConvErr::Lossy)
                }
            }
        },
    }
}

/// Exec conversion of a signed source.
fn convert_i64(i: i64, t: NumType, strict: bool) -> (r: Result<u64, ConvErr>)
    ensures
        r == convert_i64_spec(i, t, strict),
{
    proof {
        lemma2_to64_rest();
    }
    let bits: u8 = 8 * t.width();
    proof {
        lemma_pow2_pos(bits as nat);
        lemma_pow2_pos((bits - 1) as nat);
    }
    match t {
        NumType::U8 | NumType::U16 | NumType::U32 | NumType::U64 => {
            let fits: bool = if i < 0 {
                false
            } else if bits == 64 {
                true
            } else {
                (i as u64) < pow2_u64(bits as u64)
            };
            if fits {
                proof {
                    lemma_mod_bits_small(i as int, bits as nat);
                }
                Ok(i as u64)
            } else if strict {
                Err(ConvErr::Lossy)
            } else {
                Ok(encode_twos(i, bits))
            }
        },
        NumType::I8 | NumType::I16 | NumType::I32 | NumType::I64 => {
            let half: u64 = pow2_u64((bits - 1) as u64);
            let fits: bool = if i >= 0 {
                (i as u64) < half
            } else {
                let m: u64 = (-(i + 1)) as u64;
                m < half
            };
            if fits || !strict {
                Ok(encode_twos(i, bits))
            } else {
                Err(ConvErr::Lossy)
            }
        },
        NumType::F64 => {
            let b: u64 = i64_to_f64_bits_x(i);
            if !strict {
                Ok(b)
            } else {
                let parts = f64_parts(b);
                let ok: bool = if i >= 0 {
                    parts.exact && parts.mag == i as u64 && (!parts.negative || i == 0)
                } else {
                    let m: u64 = if i == i64::MIN {
                        0x8000_0000_0000_0000u64
                    } else {
                        (-i) as u64
                    };
                    parts.exact && parts.mag == m && parts.negative
                };
                if ok {
                    Ok(b)
                } else {
                    Err(ConvErr::Lossy)
                }
            }
        },
        NumType::F32 => {
            let n: u32 = f64_to_f32_bits_x(i64_to_f64_bits_x(i));
            if !strict {
                Ok(n as u64)
            } else {
                let wide: u64 = f32_to_f64_bits_x(n);
                let parts = f64_parts(wide);
                let ok: bool = if i >= 0 {
                    parts.exact && parts.mag == i as u64 && (!parts.negative || i == 0)
                } else {
                    let m: u64 = if i == i64::MIN {
                        0x8000_0000_0000_0000u64
                    } else {
                        (-i) as u64
                    };
                    parts.exact && parts.mag == m && parts.negative
                };
                if ok {
                    Ok(n as u64)
                } else {
                    Err(ConvErr::Lossy)
                }
            }
        },
    }
}

/// Exec conversion of a binary64 source.
fn convert_f64(b: u64, t: NumType, strict: bool) -> (r: Result<u64, ConvErr>)
    ensures
        r == convert_f64_spec(b, t, strict),
{
    proof {
        lemma2_to64_rest();
    }
    match t {
        NumType::F64 => Ok(b),
        NumType::F32 => {
            let n: u32 = f64_to_f32_bits_x(b);
            if !strict {
                Ok(n as u64)
            } else {
                let wide: u64 = f32_to_f64_bits_x(n);
                if wide == b {
                    Ok(n as u64)
                } else {
                    Err(ConvErr::Lossy)
                }
            }
        },
        _ => {
            let bits: u8 = 8 * t.width();
            proof {
                lemma_pow2_pos(bits as nat);
                lemma_pow2_pos((bits - 1) as nat);
                if bits < 64 {
                    lemma_pow2_strictly_increases((bits - 1) as nat, 63);
                }
                lemma_pow2_strictly_increases((bits - 1) as nat, bits as nat);
            }
            let parts = f64_parts(b);
            let unsigned: bool = match t {
                NumType::U8 | NumType::U16 | NumType::U32 | NumType::U64 => true,
                _ => false,
            };
            if strict {
                if !parts.exact {
                    Err(ConvErr::Lossy)
                } else if unsigned {
                    let in_range: bool = if parts.negative && parts.mag > 0 {
                        false
                    } else if bits == 64 {
                        true
                    } else {
                        parts.mag < pow2_u64(bits as u64)
                    };
                    if in_range {
                        Ok(parts.mag)
                    } else {
                        Err(ConvErr::Lossy)
                    }
                } else {
                    let half: u64 = pow2_u64((bits - 1) as u64);
                    if parts.negative && parts.mag > 0 {
                        if parts.mag > half {
                            Err(ConvErr::Lossy)
                        } else if parts.mag == half {
                            proof {
                                lemma_pow2_adds((bits - 1) as nat, 1);
                                lemma2_to64();
                                lemma_fundamental_div_mod_converse(
                                    -(half as int),
                                    pow2(bits as nat) as int,
                                    -1,
                                    half as int,
                                );
                            }
                            Ok(half)
                        } else {
                            Ok(encode_twos(-(parts.mag as i64), bits))
                        }
                    } else {
                        if parts.mag < half {
                            proof {
                                lemma_mod_bits_small(parts.mag as int, bits as nat);
                            }
                            Ok(parts.mag)
                        } else {
                            Err(ConvErr::Lossy)
                        }
                    }
                }
            } else {
                // Saturating cast.
                let neg: bool = parts.negative && !parts.is_nan;
                if unsigned {
                    if neg && parts.mag > 0 {
                        Ok(0u64)
                    } else {
                        let fits: bool = if bits == 64 {
                            true
                        } else {
                            parts.mag < pow2_u64(bits as u64)
                        };
                        if fits {
                            Ok(parts.mag)
                        } else {
                            Ok(pow2_u64(bits as u64) - 1)
                        }
                    }
                } else {
                    let half: u64 = pow2_u64((bits - 1) as u64);
                    if neg {
                        if parts.mag >= half {
                            Ok(half)
                        } else if parts.mag == 0 {
                            proof {
                                lemma_mod_bits_small(0, bits as nat);
                            }
                            Ok(0u64)
                        } else {
                            Ok(encode_twos(-(parts.mag as i64), bits))
                        }
                    } else {
                        if parts.mag < half {
                            Ok(parts.mag)
                        } else {
                            Ok(half - 1)
                        }
                    }
                }
            }
        },
    }
}

/// The integer value a finite binary64 pattern floors to, with its sign.
pub open spec fn f64_int_value(b: u64) -> int {
    if f64_sign(b) {
        -(f64_floor_mag(b) as int)
    } else {
        f64_floor_mag(b) as int
    }
}

pub open spec fn bool_as_u64(x: bool) -> u64 {
    if x {
        1u64
    } else {
        0u64
    }
}

/// A float result read back at binary64 width: f32 results widen exactly.
pub open spec fn float_target_widened(t: NumType, r: u64) -> u64 {
    if t == NumType::F32 {
        f32_to_f64_bits(r as u32)
    } else {
        r
    }
}

/// The raw result `r` denotes exactly the source value `v` under type `t`:
/// decoding it yields the input back.
pub open spec fn conversion_exact(v: DataValueV, t: NumType, r: u64) -> bool {
    match v {
        DataValueV::U64(u) => if t.is_float() {
            f64_represents_u64(float_target_widened(t, r), u)
        } else {
            raw_value_as_int(t, r as nat) == u
        },
        DataValueV::I64(i) => if t.is_float() {
            f64_represents_i64(float_target_widened(t, r), i)
        } else {
            raw_value_as_int(t, r as nat) == i
        },
        DataValueV::F64(b) => if t == NumType::F64 {
            r == b
        } else if t == NumType::F32 {
            f32_to_f64_bits(r as u32) == b
        } else {
            f64_is_integer(b) && raw_value_as_int(t, r as nat) == f64_int_value(b)
        },
        DataValueV::Bool(x) => if t.is_float() {
            f64_represents_u64(float_target_widened(t, r), bool_as_u64(x))
        } else {
            raw_value_as_int(t, r as nat) == bool_as_u64(x)
        },
        DataValueV::Str(_) => false,
    }
}

/// A two's complement encoding of an in-range integer reads back as itself.
pub proof fn lemma_twos_roundtrip(i: int, bits: nat)
    requires
        bits >= 1,
        -(pow2((bits - 1) as nat) as int) <= i < pow2((bits - 1) as nat) as int,
    ensures
        signed_value(mod_bits(i, bits), bits) == i,
{
    lemma_pow2_pos(bits);
    vstd::arithmetic::power2::lemma_pow2_unfold(bits);
    let p = pow2(bits) as int;
    if i >= 0 {
        lemma_fundamental_div_mod_converse(i, p, 0, i);
    } else {
        lemma_fundamental_div_mod_converse(i, p, -1, i + p);
    }
}

/// Strict mode is lossless: whenever a strict conversion succeeds, the raw
/// result denotes exactly the input value, so the inverse round trip gives
/// the input back.
pub proof fn lemma_strict_conversion_lossless(v: DataValueV, t: NumType)
    ensures
        convert_spec(v, t, true) matches Ok(r) ==> conversion_exact(v, t, r),
{
    lemma_pow2_pos(t.spec_bits());
    lemma_pow2_pos((t.spec_bits() - 1) as nat);
    vstd::arithmetic::power2::lemma_pow2_unfold(t.spec_bits());
    lemma2_to64();
    if convert_spec(v, t, true) matches Ok(r) {
        match v {
            DataValueV::U64(u) => {},
            DataValueV::I64(i) => {
                if t.is_signed() {
                    lemma_twos_roundtrip(i as int, t.spec_bits());
                }
            },
            DataValueV::F64(b) => {
                if t.is_signed() {
                    let mag = f64_floor_mag(b);
                    let value: int = if f64_sign(b) {
                        -(mag as int)
                    } else {
                        mag as int
                    };
                    lemma_twos_roundtrip(value, t.spec_bits());
                }
            },
            DataValueV::Bool(x) => {},
            DataValueV::Str(_) => {},
        }
    }
}

/// Element-wise conversion of a sequence, stopping at the first failure.
pub open spec fn convert_all_spec(vals: Seq<DataValueV>, t: NumType, strict: bool) -> Result<
    Seq<u64>,
    ConvErr,
>
    decreases vals.len(),
{
    if vals.len() == 0 {
        Ok(Seq::empty())
    } else {
        match convert_spec(vals[0], t, strict) {
            Err(c) => Err(c),
            Ok(r) => match convert_all_spec(vals.drop_first(), t, strict) {
                Err(c) => Err(c),
                Ok(rest) => Ok(seq![r] + rest),
            },
        }
    }
}

/// Converts one value into the raw pattern of the target type, refusing
/// value-changing conversions in strict mode.
pub fn convert_value(v: &DataValue, t: NumType, strict: bool) -> (r: Result<u64, ConvErr>)
    ensures
        r == convert_spec(v@, t, strict),
{
    match v {
        DataValue::U64(u) => convert_u64(*u, t, strict),
        DataValue::I64(i) => convert_i64(*i, t, strict),
        DataValue::F64(b) => convert_f64(*b, t, strict),
        DataValue::Bool(x) => convert_u64(
            if *x {
                1u64
            } else {
                0u64
            },
            t,
            strict,
        ),
        DataValue::Str(_) => Err(ConvErr::TypeMismatch),
    }
}

} // verus!
