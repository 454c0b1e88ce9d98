//! Byte-level serialization of scalar raw values.
//!
//! A converted scalar is a `u64` raw pattern whose low `width` bytes are
//! meaningful (two's complement for signed types, IEEE-754 patterns for
//! floats). This module lays those bytes out in either endianness and
//! reads them back.

use vstd::prelude::*;
use vstd::arithmetic::power2::{
    pow2, lemma2_to64, lemma2_to64_rest, lemma_pow2_adds, lemma_pow2_pos,
    lemma_pow2_strictly_increases,
};

verus! {

/// Byte order for multi-byte scalars.
#[derive(Clone, Copy, Debug, PartialEq, Eq, Structural)]
pub enum Endianness {
    Little,
    Big,
}

/// The `w` low-order bytes of `v`, least significant first.
pub open spec fn le_bytes(v: nat, w: nat) -> Seq<u8>
    decreases w,
{
    if w == 0 {
        Seq::empty()
    } else {
        seq![(v % 256) as u8] + le_bytes(v / 256, (w - 1) as nat)
    }
}

/// The `w` low-order bytes of `v` in the given byte order.
pub open spec fn scalar_bytes(v: nat, w: nat, e: Endianness) -> Seq<u8> {
    match e {
        Endianness::Little => le_bytes(v, w),
        Endianness::Big => le_bytes(v, w).reverse(),
    }
}

/// The unsigned value of little-endian bytes.
pub open spec fn le_value(s: Seq<u8>) -> nat
    decreases s.len(),
{
    if s.len() == 0 {
        0
    } else {
        (s[0] + 256 * le_value(s.drop_first())) as nat
    }
}

/// The unsigned value of bytes in the given byte order.
pub open spec fn bytes_value(s: Seq<u8>, e: Endianness) -> nat {
    match e {
        Endianness::Little => le_value(s),
        Endianness::Big => le_value(s.reverse()),
    }
}

pub proof fn lemma_le_bytes_len(v: nat, w: nat)
    ensures
        le_bytes(v, w).len() == w,
    decreases w,
{
    if w > 0 {
        lemma_le_bytes_len(v / 256, (w - 1) as nat);
    }
}

/// Encoding then decoding gives the value back, modulo the width.
pub proof fn lemma_le_roundtrip(v: nat, w: nat)
    requires
        v < pow2(8 * w),
    ensures
        le_value(le_bytes(v, w)) == v,
    decreases w,
{
    if w == 0 {
        lemma2_to64();
    } else {
        lemma_pow2_adds(8, 8 * (w - 1) as nat);
        lemma2_to64();
        lemma_pow2_pos(8 * (w - 1) as nat);
        assert(v / 256 < pow2(8 * ((w - 1) as nat))) by (nonlinear_arith)
            requires
                v < 256 * pow2(8 * ((w - 1) as nat)),
                v >= 0,
        ;
        lemma_le_roundtrip(v / 256, (w - 1) as nat);
        lemma_le_bytes_len(v / 256, (w - 1) as nat);
        assert(le_bytes(v, w).drop_first() =~= le_bytes(v / 256, (w - 1) as nat));
    }
}

/// A little-endian value is bounded by the width.
pub proof fn lemma_le_value_bound(s: Seq<u8>)
    ensures
        le_value(s) < pow2(8 * s.len()),
    decreases s.len(),
{
    if s.len() == 0 {
        lemma2_to64();
    } else {
        lemma_le_value_bound(s.drop_first());
        lemma_pow2_adds(8, 8 * (s.len() - 1) as nat);
        lemma2_to64();
        assert(s[0] + 256 * le_value(s.drop_first()) < 256 * pow2(8 * (s.len() - 1) as nat))
            by (nonlinear_arith)
            requires
                s[0] < 256,
                le_value(s.drop_first()) < pow2(8 * (s.len() - 1) as nat),
        ;
    }
}

/// Appends the scalar encoding of `v` (width `w`, order `e`) to `out`.
pub fn push_scalar_bytes(out: &mut Vec<u8>, v: u64, w: u8, e: Endianness)
    requires
        w <= 8,
    ensures
        final(out)@ == old(out)@ + scalar_bytes(v as nat, w as nat, e),
{
    let mut tmp: Vec<u8> = Vec::new();
    let mut cur: u64 = v;
    let mut k: u8 = 0;
    proof {
        lemma_le_bytes_len(v as nat, w as nat);
    }
    while k < w
        invariant
            k <= w,
            w <= 8,
            le_bytes(v as nat, w as nat) == tmp@ + le_bytes(cur as nat, (w - k) as nat),
            tmp@.len() == k,
        decreases w - k,
    {
        tmp.push((cur % 256) as u8);
        cur = cur / 256;
        k = k + 1;
        proof {
            assert(le_bytes(v as nat, w as nat) =~= tmp@ + le_bytes(cur as nat, (w - k) as nat));
        }
    }
    proof {
        assert(le_bytes(v as nat, w as nat) =~= tmp@);
    }
    match e {
        Endianness::Little => {
            let mut i: usize = 0;
            while i < tmp.len()
                invariant
                    i <= tmp@.len(),
                    tmp@ == le_bytes(v as nat, w as nat),
                    out@ == old(out)@ + tmp@.take(i as int),
                decreases tmp@.len() - i,
            {
                out.push(tmp[i]);
                i = i + 1;
                proof {
                    assert(old(out)@ + tmp@.take(i as int) =~= (old(out)@ + tmp@.take(
                        i - 1,
                    )).push(tmp@[i - 1]));
                }
            }
            proof {
                assert(tmp@.take(tmp@.len() as int) =~= tmp@);
            }
        },
        Endianness::Big => {
            let mut i: usize = 0;
            let n: usize = tmp.len();
            while i < n
                invariant
                    i <= n,
                    n == tmp@.len(),
                    tmp@ == le_bytes(v as nat, w as nat),
                    out@ == old(out)@ + tmp@.reverse().take(i as int),
                decreases n - i,
            {
                out.push(tmp[n - 1 - i]);
                i = i + 1;
                proof {
                    assert(tmp@.reverse()[i - 1] == tmp@[n - i]);
                    assert(old(out)@ + tmp@.reverse().take(i as int) =~= (old(out)@
                        + tmp@.reverse().take(i - 1)).push(tmp@.reverse()[i - 1]));
                }
            }
            proof {
                assert(tmp@.reverse().take(n as int) =~= tmp@.reverse());
            }
        },
    }
}

/// Reads the scalar at `[off, off + w)` of `bytes` back as its raw value.
pub fn read_scalar(bytes: &Vec<u8>, off: usize, w: u8, e: Endianness) -> (r: u64)
    requires
        w <= 8,
        off + w <= bytes@.len(),
    ensures
        r as nat == bytes_value(bytes@.subrange(off as int, off + w), e),
{
    let ghost window = bytes@.subrange(off as int, off + w);
    let ghost le_window = if e == Endianness::Big {
        window.reverse()
    } else {
        window
    };
    let mut acc: u64 = 0;
    let mut k: u8 = w;
    let n: usize = bytes.len();
    proof {
        assert(le_window.subrange(w as int, w as int) =~= Seq::<u8>::empty());
        lemma2_to64();
    }
    while k > 0
        invariant
            k <= w,
            w <= 8,
            off + w <= n,
            n == bytes@.len(),
            le_window == (if e == Endianness::Big {
                bytes@.subrange(off as int, off + w).reverse()
            } else {
                bytes@.subrange(off as int, off + w)
            }),
            le_window.len() == w,
            acc as nat == le_value(le_window.subrange(k as int, w as int)),
            (acc as nat) < pow2(8 * (w - k) as nat),
        decreases k,
    {
        let b: u8 = match e {
            Endianness::Little => bytes[off + (k as usize) - 1],
            Endianness::Big => bytes[off + (w as usize) - (k as usize)],
        };
        proof {
            assert(le_window[k - 1] == b) by {
                if e == Endianness::Big {
                    assert(bytes@.subrange(off as int, off + w).reverse()[k - 1] == bytes@.subrange(
                        off as int,
                        off + w,
                    )[w - k]);
                }
            }
            lemma_pow2_adds(8, 8 * (w - k) as nat);
            lemma2_to64();
            lemma2_to64_rest();
            if 8 * ((w - k) as nat) < 56 {
                lemma_pow2_strictly_increases(8 * ((w - k) as nat), 56);
            }
            assert(256 * (acc as nat) + 255 < 256 * pow2(8 * (w - k) as nat)) by (nonlinear_arith)
                requires
                    (acc as nat) < pow2(8 * (w - k) as nat),
            ;
            assert(le_window.subrange(k - 1, w as int).drop_first() =~= le_window.subrange(
                k as int,
                w as int,
            ));
        }
        acc = b as u64 + 256 * acc;
        k = k - 1;
    }
    proof {
        assert(le_window.subrange(0, w as int) =~= le_window);
    }
    acc
}

} // verus!
