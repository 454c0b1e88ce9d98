//! The parameterized CRC-32 engine.
//!
//! The register starts at `start`; each input byte (bit-reversed when
//! `ref_in`) is XORed into the top byte and shifted through the polynomial
//! eight times; the final register is optionally bit-reversed (`ref_out`)
//! and XORed with `xor_out`.

use vstd::prelude::*;
use vstd::arithmetic::power2::{pow2, lemma2_to64, lemma_pow2_unfold};

verus! {

/// The four CRC-32 parameters plus the two reflection flags.
#[derive(Clone, Copy, Debug, PartialEq, Eq, Structural)]
pub struct CrcParams {
    pub polynomial: u32,
    pub start: u32,
    pub xor_out: u32,
    pub ref_in: bool,
    pub ref_out: bool,
}

/// The low `n` bits of `x`, in reverse order.
pub open spec fn reflect_bits(x: nat, n: nat) -> nat
    decreases n,
{
    if n == 0 {
        0
    } else {
        (x % 2) * pow2((n - 1) as nat) + reflect_bits(x / 2, (n - 1) as nat)
    }
}

pub proof fn lemma_reflect_bits_bound(x: nat, n: nat)
    ensures
        reflect_bits(x, n) < pow2(n),
    decreases n,
{
    if n == 0 {
        lemma2_to64();
    } else {
        lemma_reflect_bits_bound(x / 2, (n - 1) as nat);
        lemma_pow2_unfold(n);
        assert((x % 2) * pow2((n - 1) as nat) <= pow2((n - 1) as nat)) by (nonlinear_arith)
            requires
                x % 2 <= 1,
        ;
    }
}

/// Exec mirror of `reflect_bits` for a byte.
pub fn reflect8(x: u8) -> (r: u8)
    ensures
        r as nat == reflect_bits(x as nat, 8),
{
    proof {
        lemma_reflect_bits_bound(x as nat, 8);
        lemma2_to64();
    }
    reflect_rec_u32(x as u32, 8) as u8
}

/// Exec mirror of `reflect_bits` for a 32-bit register.
pub fn reflect32(x: u32) -> (r: u32)
    ensures
        r as nat == reflect_bits(x as nat, 32),
{
    reflect_rec_u32(x, 32)
}

fn reflect_rec_u32(x: u32, n: u8) -> (r: u32)
    requires
        n <= 32,
    ensures
        r as nat == reflect_bits(x as nat, n as nat),
        (r as nat) < pow2(n as nat),
    decreases n,
{
    proof {
        lemma_reflect_bits_bound(x as nat, n as nat);
        lemma2_to64();
    }
    if n == 0 {
        0
    } else {
        let low: u32 = x % 2;
        let rest: u32 = reflect_rec_u32(x / 2, n - 1);
        proof {
            lemma_pow2_unfold(n as nat);
        }
        let scale: u32 = pow2_u32(n - 1);
        low * scale + rest
    }
}

/// 2^e as a `u32`.
fn pow2_u32(e: u8) -> (r: u32)
    requires
        e < 32,
    ensures
        r as nat == pow2(e as nat),
{
    let mut r: u32 = 1;
    let mut i: u8 = 0;
    proof {
        lemma2_to64();
    }
    while i < e
        invariant
            i <= e,
            e < 32,
            r as nat == pow2(i as nat),
        decreases e - i,
    {
        proof {
            lemma_pow2_unfold((i + 1) as nat);
            if i + 1 < 32 {
                vstd::arithmetic::power2::lemma_pow2_strictly_increases((i + 1) as nat, 32);
            }
            lemma2_to64();
        }
        r = r * 2;
        i = i + 1;
    }
    r
}

/// One shift of the CRC register through the polynomial.
pub open spec fn crc_bit_step(reg: u32, poly: u32) -> u32 {
    if reg >= 0x8000_0000u32 {
        (((reg % 0x8000_0000u32) * 2) as u32) ^ poly
    } else {
        ((reg % 0x8000_0000u32) * 2) as u32
    }
}

/// One input byte folded into the register: XOR into the top byte, then
/// eight polynomial shifts.
pub open spec fn crc_push_byte(reg: u32, byte: u8, params: CrcParams) -> u32 {
    let d: u32 = if params.ref_in {
        reflect_bits(byte as nat, 8) as u32
    } else {
        byte as u32
    };
    let r0 = reg ^ ((d * 0x100_0000) as u32);
    let r1 = crc_bit_step(r0, params.polynomial);
    let r2 = crc_bit_step(r1, params.polynomial);
    let r3 = crc_bit_step(r2, params.polynomial);
    let r4 = crc_bit_step(r3, params.polynomial);
    let r5 = crc_bit_step(r4, params.polynomial);
    let r6 = crc_bit_step(r5, params.polynomial);
    let r7 = crc_bit_step(r6, params.polynomial);
    crc_bit_step(r7, params.polynomial)
}

/// The register after folding in every byte of `s`, front first.
pub open spec fn crc_accum(reg: u32, s: Seq<u8>, params: CrcParams) -> u32
    decreases s.len(),
{
    if s.len() == 0 {
        reg
    } else {
        crc_accum(crc_push_byte(reg, s[0], params), s.drop_first(), params)
    }
}

/// The CRC-32 of `s` under the given parameters.
pub open spec fn crc32_spec(params: CrcParams, s: Seq<u8>) -> u32 {
    let post = crc_accum(params.start, s, params);
    let refl: u32 = if params.ref_out {
        reflect_bits(post as nat, 32) as u32
    } else {
        post
    };
    refl ^ params.xor_out
}

fn crc_bit_step_x(reg: u32, poly: u32) -> (r: u32)
    ensures
        r == crc_bit_step(reg, poly),
{
    if reg >= 0x8000_0000u32 {
        ((reg % 0x8000_0000u32) * 2) ^ poly
    } else {
        (reg % 0x8000_0000u32) * 2
    }
}

fn crc_push_byte_x(reg: u32, byte: u8, params: CrcParams) -> (r: u32)
    ensures
        r == crc_push_byte(reg, byte, params),
{
    let d: u32 = if params.ref_in {
        reflect8(byte) as u32
    } else {
        byte as u32
    };
    proof {
        lemma_reflect_bits_bound(byte as nat, 8);
        lemma2_to64();
    }
    let r0: u32 = reg ^ (d * 0x100_0000);
    let r1: u32 = crc_bit_step_x(r0, params.polynomial);
    let r2: u32 = crc_bit_step_x(r1, params.polynomial);
    let r3: u32 = crc_bit_step_x(r2, params.polynomial);
    let r4: u32 = crc_bit_step_x(r3, params.polynomial);
    let r5: u32 = crc_bit_step_x(r4, params.polynomial);
    let r6: u32 = crc_bit_step_x(r5, params.polynomial);
    let r7: u32 = crc_bit_step_x(r6, params.polynomial);
    crc_bit_step_x(r7, params.polynomial)
}

/// Computes the parameterized CRC-32 over `bytes[from..to]`.
pub fn crc32_range(params: &CrcParams, bytes: &Vec<u8>, from: usize, to: usize) -> (r: u32)
    requires
        from <= to <= bytes@.len(),
    ensures
        r == crc32_spec(*params, bytes@.subrange(from as int, to as int)),
{
    let ghost input = bytes@.subrange(from as int, to as int);
    let mut reg: u32 = params.start;
    let mut i: usize = from;
    while i < to
        invariant
            from <= i <= to <= bytes@.len(),
            input == bytes@.subrange(from as int, to as int),
            crc_accum(params.start, input, *params) == crc_accum(
                reg,
                bytes@.subrange(i as int, to as int),
                *params,
            ),
        decreases to - i,
    {
        proof {
            assert(bytes@.subrange(i as int, to as int).drop_first() =~= bytes@.subrange(
                i + 1,
                to as int,
            ));
        }
        reg = crc_push_byte_x(reg, bytes[i], *params);
        i = i + 1;
    }
    proof {
        assert(bytes@.subrange(to as int, to as int) =~= Seq::<u8>::empty());
    }
    let refl: u32 = if params.ref_out {
        reflect32(reg)
    } else {
        reg
    };
    refl ^ params.xor_out
}

} // verus!
