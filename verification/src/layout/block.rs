//! Blocks: ordered fields encoded into a padded byte buffer with an
//! optional CRC slot.

use vstd::prelude::*;
use vstd::arithmetic::div_mod::lemma_small_mod;
use vstd::arithmetic::power2::{
    pow2, lemma2_to64, lemma2_to64_rest, lemma_pow2_adds, lemma_pow2_pos,
    lemma_pow2_strictly_increases,
};
use vstd::string::StringSliceAdditionalSpecFns;
use vstd::utf8::encode_utf8;
use crate::data::source::{dup_table, dup_values};
use crate::data::DataSource;
use crate::layout::convert::{convert_all_spec, convert_spec, convert_value, ConvErr, NumType};
use crate::layout::crc::{crc32_range, crc32_spec};
use crate::layout::encode::{
    lemma_le_bytes_len, push_scalar_bytes, scalar_bytes, Endianness,
};
use crate::layout::error::{layout_err_kind, ErrKind, LayoutError};
use crate::layout::field::{BitmapEntry, Field, FieldValue, SizeDim};
use crate::layout::floatbits::pow2_u64;
use crate::layout::settings::Settings;
use crate::layout::used_values::{ReportValue, ReportValueV, UsedValueSink};
use crate::layout::value::{views1, views2, DataValue, DataValueV, ValueSource, ValueSourceV};

verus! {

/// Where a block's CRC is written.
#[derive(Debug, Clone, Copy, PartialEq, Eq, Structural)]
pub enum CrcLocation {
    /// The last CRC-sized bytes of the block.
    EndData,
    /// An absolute target address inside the block.
    Absolute(u32),
}

/// A contiguous memory region: start address, total length, fill byte,
/// ordered fields, and an optional CRC slot.
#[derive(Debug, Clone)]
pub struct Block {
    pub start_address: u32,
    pub length: usize,
    pub padding: u8,
    pub data: Vec<(String, Field)>,
    pub crc: Option<CrcLocation>,
}

// --- Sequence-level encoding specs --------------------------------------

/// The bytes of a sequence of raw scalars.
pub open spec fn raws_bytes(raws: Seq<u64>, w: nat, e: Endianness) -> Seq<u8>
    decreases raws.len(),
{
    if raws.len() == 0 {
        Seq::empty()
    } else {
        scalar_bytes(raws[0] as nat, w, e) + raws_bytes(raws.drop_first(), w, e)
    }
}

pub proof fn lemma_raws_bytes_append(s1: Seq<u64>, s2: Seq<u64>, w: nat, e: Endianness)
    ensures
        raws_bytes(s1 + s2, w, e) == raws_bytes(s1, w, e) + raws_bytes(s2, w, e),
    decreases s1.len(),
{
    if s1.len() == 0 {
        assert(s1 + s2 =~= s2);
        assert(raws_bytes(s1, w, e) + raws_bytes(s2, w, e) =~= raws_bytes(s2, w, e));
    } else {
        lemma_raws_bytes_append(s1.drop_first(), s2, w, e);
        assert((s1 + s2).drop_first() =~= s1.drop_first() + s2);
        assert(scalar_bytes(s1[0] as nat, w, e) + (raws_bytes(s1.drop_first(), w, e) + raws_bytes(
            s2,
            w,
            e,
        )) =~= (scalar_bytes(s1[0] as nat, w, e) + raws_bytes(s1.drop_first(), w, e)) + raws_bytes(
            s2,
            w,
            e,
        ));
    }
}

pub proof fn lemma_raws_bytes_len(raws: Seq<u64>, w: nat, e: Endianness)
    ensures
        raws_bytes(raws, w, e).len() == raws.len() * w,
    decreases raws.len(),
{
    if raws.len() == 0 {
    } else {
        lemma_raws_bytes_len(raws.drop_first(), w, e);
        lemma_le_bytes_len(raws[0] as nat, w);
        assert(raws.len() * w == (raws.len() - 1) * w + w) by (nonlinear_arith);
    }
}

/// The error kind of a failed element conversion, at a field path.
pub open spec fn conv_err_kind(field: Seq<char>, c: ConvErr) -> ErrKind {
    match c {
        ConvErr::TypeMismatch => ErrKind::TypeMismatch { field },
        ConvErr::Lossy => ErrKind::LossyConversion { field },
    }
}

/// A 1D slot of `count` elements: converted values, zero-padded.
pub open spec fn sized_1d_bytes(
    field: Seq<char>,
    vals: Seq<DataValueV>,
    count: nat,
    exact: bool,
    ty: NumType,
    strict: bool,
    e: Endianness,
) -> Result<Seq<u8>, ErrKind> {
    if exact && vals.len() != count {
        Err(ErrKind::SizeMismatch { field, expected: count, actual: vals.len() })
    } else if vals.len() > count {
        Err(ErrKind::SizeMismatch { field, expected: count, actual: vals.len() })
    } else {
        match convert_all_spec(vals, ty, strict) {
            Err(c) => Err(conv_err_kind(field, c)),
            Ok(rs) => Ok(
                raws_bytes(
                    rs + Seq::new((count - vals.len()) as nat, |i: int| 0u64),
                    ty.spec_width(),
                    e,
                ),
            ),
        }
    }
}

/// A single converted scalar.
pub open spec fn single_elem_bytes(
    field: Seq<char>,
    v: DataValueV,
    ty: NumType,
    strict: bool,
    e: Endianness,
) -> Result<Seq<u8>, ErrKind> {
    match convert_spec(v, ty, strict) {
        Err(c) => Err(conv_err_kind(field, c)),
        Ok(r) => Ok(scalar_bytes(r as nat, ty.spec_width(), e)),
    }
}

/// A string slot: UTF-8 bytes, zero-padded to `size` with a final NUL.
pub open spec fn string_field_bytes(
    field: Seq<char>,
    chars: Seq<char>,
    dim: Option<SizeDim>,
    ty: NumType,
) -> Result<Seq<u8>, ErrKind> {
    if ty != NumType::U8 {
        Err(ErrKind::TypeMismatch { field })
    } else {
        let bytes = encode_utf8(chars);
        match dim {
            None => Ok(bytes),
            Some(SizeDim::One(n)) => if bytes.len() + 1 <= n {
                Ok(bytes + Seq::new((n - bytes.len()) as nat, |i: int| 0u8))
            } else {
                Err(ErrKind::SizeMismatch { field, expected: n as nat, actual: bytes.len() })
            },
            Some(SizeDim::Two(_, _)) => Err(
                ErrKind::SizeMismatch { field, expected: 0, actual: 0 },
            ),
        }
    }
}

/// Row-major 2D rows, each padded or matched to `cols`.
pub open spec fn rows_bytes(
    field: Seq<char>,
    rows: Seq<Seq<DataValueV>>,
    cols: nat,
    exact: bool,
    ty: NumType,
    strict: bool,
    e: Endianness,
) -> Result<Seq<u8>, ErrKind>
    decreases rows.len(),
{
    if rows.len() == 0 {
        Ok(Seq::empty())
    } else {
        match sized_1d_bytes(field, rows[0], cols, exact, ty, strict, e) {
            Err(k) => Err(k),
            Ok(rb) => match rows_bytes(field, rows.drop_first(), cols, exact, ty, strict, e) {
                Err(k) => Err(k),
                Ok(more) => Ok(rb + more),
            },
        }
    }
}

/// A 2D slot of `r` rows by `c` columns, missing rows zero-filled.
pub open spec fn table_bytes(
    field: Seq<char>,
    rows: Seq<Seq<DataValueV>>,
    r: nat,
    c: nat,
    exact: bool,
    ty: NumType,
    strict: bool,
    e: Endianness,
) -> Result<Seq<u8>, ErrKind> {
    if exact && rows.len() != r {
        Err(ErrKind::SizeMismatch { field, expected: r, actual: rows.len() })
    } else if rows.len() > r {
        Err(ErrKind::SizeMismatch { field, expected: r, actual: rows.len() })
    } else {
        match rows_bytes(field, rows, c, exact, ty, strict, e) {
            Err(k) => Err(k),
            Ok(bs) => Ok(
                bs + raws_bytes(
                    Seq::new(((r - rows.len()) * c) as nat, |i: int| 0u64),
                    ty.spec_width(),
                    e,
                ),
            ),
        }
    }
}

// --- Bitmap specs --------------------------------------------------------

pub open spec fn sum_bits(entries: Seq<BitmapEntry>) -> nat
    decreases entries.len(),
{
    if entries.len() == 0 {
        0
    } else {
        (entries[0].bits + sum_bits(entries.drop_first())) as nat
    }
}

/// The masked value of one bitmap entry.
pub open spec fn entry_masked_spec<D: DataSource>(
    field: Seq<char>,
    en: BitmapEntry,
    src: Option<&D>,
    strict: bool,
) -> Result<nat, ErrKind> {
    match en.name {
        Some(nm) => match src {
            None => Err(ErrKind::MissingDataSource { field }),
            Some(d) => match d.spec_single(nm@) {
                Err(k) => Err(ErrKind::Data { field, kind: k }),
                Ok(v) => match convert_spec(v, NumType::U64, strict) {
                    Err(c) => Err(conv_err_kind(field, c)),
                    Ok(u) => Ok((u as nat) % pow2(en.bits as nat)),
                },
            },
        },
        None => Ok(
            (match en.value {
                Some(v) => v as nat,
                None => 0,
            }) % pow2(en.bits as nat),
        ),
    }
}

/// Folds bitmap entries into the accumulator, most significant first.
pub open spec fn bitmap_acc_spec<D: DataSource>(
    field: Seq<char>,
    entries: Seq<BitmapEntry>,
    src: Option<&D>,
    strict: bool,
    acc: nat,
) -> Result<nat, ErrKind>
    decreases entries.len(),
{
    if entries.len() == 0 {
        Ok(acc)
    } else {
        match entry_masked_spec(field, entries[0], src, strict) {
            Err(k) => Err(k),
            Ok(m) => bitmap_acc_spec(
                field,
                entries.drop_first(),
                src,
                strict,
                acc * pow2(entries[0].bits as nat) + m,
            ),
        }
    }
}

/// A bitmap field: sub-fields packed MSB-first into one unsigned scalar.
pub open spec fn bitmap_field_bytes<D: DataSource>(
    field: Seq<char>,
    ty: NumType,
    entries: Seq<BitmapEntry>,
    src: Option<&D>,
    strict: bool,
    e: Endianness,
) -> Result<Seq<u8>, ErrKind> {
    if !ty.is_unsigned() {
        Err(ErrKind::TypeMismatch { field })
    } else if sum_bits(entries) != ty.spec_bits() {
        Err(ErrKind::BitmapWidthMismatch { field })
    } else {
        match bitmap_acc_spec(field, entries, src, strict, 0) {
            Err(k) => Err(k),
            Ok(acc) => Ok(scalar_bytes(acc, ty.spec_width(), e)),
        }
    }
}

/// What the sink receives for a bitmap field: one part per sub-entry,
/// most significant first, with its start bit. Meaningful where every
/// entry resolves.
pub open spec fn bitmap_records<D: DataSource>(
    path: Seq<char>,
    entries: Seq<BitmapEntry>,
    src: Option<&D>,
    strict: bool,
    start: nat,
) -> Seq<(Seq<char>, ReportValueV)>
    decreases entries.len(),
{
    if entries.len() == 0 {
        Seq::empty()
    } else {
        let m: nat = match entry_masked_spec(path, entries[0], src, strict) {
            Ok(m) => m,
            Err(_) => 0,
        };
        seq![
            (
                path,
                ReportValueV::BitmapPart {
                    start_bit: start,
                    bits: entries[0].bits as nat,
                    name: match entries[0].name {
                        Some(n) => Some(n@),
                        None => None,
                    },
                    value: m as u64,
                },
            ),
        ] + bitmap_records(path, entries.drop_first(), src, strict, (start + entries[0].bits) as nat)
    }
}

// --- Field routing -------------------------------------------------------

/// The bytes one field contributes, or the error that stops the build.
pub open spec fn field_bytes_spec<D: DataSource>(
    field: Seq<char>,
    f: Field,
    src: Option<&D>,
    strict: bool,
    e: Endianness,
) -> Result<Seq<u8>, ErrKind> {
    if f.size is Some && f.size_exact is Some {
        Err(ErrKind::DuplicateSizeSpec { field })
    } else {
        let dim = if f.size is Some {
            f.size
        } else {
            f.size_exact
        };
        let exact = f.size_exact is Some;
        match f.bitmap {
            Some(entries) => bitmap_field_bytes(field, f.ty, entries@, src, strict, e),
            None => match f.value {
                Some(FieldValue::Scalar(DataValue::Str(s))) => string_field_bytes(
                    field,
                    s@,
                    dim,
                    f.ty,
                ),
                Some(FieldValue::Scalar(v)) => match dim {
                    None => single_elem_bytes(field, v@, f.ty, strict, e),
                    Some(SizeDim::One(n)) => sized_1d_bytes(
                        field,
                        seq![v@],
                        n as nat,
                        exact,
                        f.ty,
                        strict,
                        e,
                    ),
                    Some(SizeDim::Two(_, _)) => Err(
                        ErrKind::SizeMismatch { field, expected: 0, actual: 0 },
                    ),
                },
                Some(FieldValue::Array(a)) => match dim {
                    None => sized_1d_bytes(field, views1(a@), a@.len(), false, f.ty, strict, e),
                    Some(SizeDim::One(n)) => sized_1d_bytes(
                        field,
                        views1(a@),
                        n as nat,
                        exact,
                        f.ty,
                        strict,
                        e,
                    ),
                    Some(SizeDim::Two(_, _)) => Err(
                        ErrKind::SizeMismatch { field, expected: 0, actual: 0 },
                    ),
                },
                Some(FieldValue::Table(t)) => match dim {
                    Some(SizeDim::Two(r, c)) => table_bytes(
                        field,
                        views2(t@),
                        r as nat,
                        c as nat,
                        exact,
                        f.ty,
                        strict,
                        e,
                    ),
                    _ => Err(ErrKind::SizeMismatch { field, expected: 0, actual: 0 }),
                },
                None => match f.name {
                    None => Err(ErrKind::MissingDataSource { field }),
                    Some(nm) => match src {
                        None => Err(ErrKind::MissingDataSource { field }),
                        Some(d) => match dim {
                            None => match d.spec_single(nm@) {
                                Err(k) => Err(ErrKind::Data { field, kind: k }),
                                Ok(DataValueV::Str(s)) => string_field_bytes(
                                    field,
                                    s,
                                    None::<SizeDim>,
                                    f.ty,
                                ),
                                Ok(v) => single_elem_bytes(field, v, f.ty, strict, e),
                            },
                            Some(SizeDim::One(n)) => match d.spec_1d(nm@) {
                                Err(k) => Err(ErrKind::Data { field, kind: k }),
                                Ok(ValueSourceV::Single(DataValueV::Str(s))) => string_field_bytes(
                                    field,
                                    s,
                                    dim,
                                    f.ty,
                                ),
                                Ok(ValueSourceV::Single(v)) => sized_1d_bytes(
                                    field,
                                    seq![v],
                                    n as nat,
                                    exact,
                                    f.ty,
                                    strict,
                                    e,
                                ),
                                Ok(ValueSourceV::Array(a)) => sized_1d_bytes(
                                    field,
                                    a,
                                    n as nat,
                                    exact,
                                    f.ty,
                                    strict,
                                    e,
                                ),
                            },
                            Some(SizeDim::Two(r, c)) => match d.spec_2d(nm@) {
                                Err(k) => Err(ErrKind::Data { field, kind: k }),
                                Ok(t) => table_bytes(
                                    field,
                                    t,
                                    r as nat,
                                    c as nat,
                                    exact,
                                    f.ty,
                                    strict,
                                    e,
                                ),
                            },
                        },
                    },
                },
            },
        }
    }
}

/// What the sink receives for one successfully encoded field: the
/// resolved value under the field's dotted path, or the bitmap parts.
/// Meaningful where `field_bytes_spec` succeeds.
pub open spec fn field_records_spec<D: DataSource>(
    path: Seq<char>,
    f: Field,
    src: Option<&D>,
    strict: bool,
) -> Seq<(Seq<char>, ReportValueV)> {
    if f.size is Some && f.size_exact is Some {
        Seq::empty()
    } else {
        let dim = if f.size is Some {
            f.size
        } else {
            f.size_exact
        };
        match f.bitmap {
            Some(entries) => bitmap_records(path, entries@, src, strict, 0),
            None => match f.value {
                Some(FieldValue::Scalar(DataValue::Str(s))) => seq![
                    (path, ReportValueV::Scalar(DataValueV::Str(s@))),
                ],
                Some(FieldValue::Scalar(v)) => match dim {
                    Some(SizeDim::Two(_, _)) => Seq::empty(),
                    _ => seq![(path, ReportValueV::Scalar(v@))],
                },
                Some(FieldValue::Array(a)) => match dim {
                    Some(SizeDim::Two(_, _)) => Seq::empty(),
                    _ => seq![(path, ReportValueV::Array(views1(a@)))],
                },
                Some(FieldValue::Table(t)) => match dim {
                    Some(SizeDim::Two(_, _)) => seq![(path, ReportValueV::Table(views2(t@)))],
                    _ => Seq::empty(),
                },
                None => match f.name {
                    None => Seq::empty(),
                    Some(nm) => match src {
                        None => Seq::empty(),
                        Some(d) => match dim {
                            None => match d.spec_single(nm@) {
                                Err(_) => Seq::empty(),
                                Ok(v) => seq![(path, ReportValueV::Scalar(v))],
                            },
                            Some(SizeDim::One(_)) => match d.spec_1d(nm@) {
                                Err(_) => Seq::empty(),
                                Ok(ValueSourceV::Single(v)) => seq![
                                    (path, ReportValueV::Scalar(v)),
                                ],
                                Ok(ValueSourceV::Array(a)) => seq![
                                    (path, ReportValueV::Array(a)),
                                ],
                            },
                            Some(SizeDim::Two(_, _)) => match d.spec_2d(nm@) {
                                Err(_) => Seq::empty(),
                                Ok(t) => seq![(path, ReportValueV::Table(t))],
                            },
                        },
                    },
                },
            },
        }
    }
}

/// What the sink receives over a whole block, field by field.
pub open spec fn fields_records_spec<D: DataSource>(
    entries: Seq<(String, Field)>,
    src: Option<&D>,
    strict: bool,
) -> Seq<(Seq<char>, ReportValueV)>
    decreases entries.len(),
{
    if entries.len() == 0 {
        Seq::empty()
    } else {
        field_records_spec(entries[0].0@, entries[0].1, src, strict) + fields_records_spec(
            entries.drop_first(),
            src,
            strict,
        )
    }
}

/// How a sink's contents change when `delta` is appended, respecting
/// whether it retains records.
pub open spec fn sink_after(
    before: Seq<(Seq<char>, ReportValueV)>,
    retains: bool,
    delta: Seq<(Seq<char>, ReportValueV)>,
) -> Seq<(Seq<char>, ReportValueV)> {
    if retains {
        before + delta
    } else {
        before
    }
}

/// The concatenated bytes of every field, in declaration order.
pub open spec fn fields_bytes_spec<D: DataSource>(
    entries: Seq<(String, Field)>,
    src: Option<&D>,
    strict: bool,
    e: Endianness,
) -> Result<Seq<u8>, ErrKind>
    decreases entries.len(),
{
    if entries.len() == 0 {
        Ok(Seq::empty())
    } else {
        match field_bytes_spec(entries[0].0@, entries[0].1, src, strict, e) {
            Err(k) => Err(k),
            Ok(fb) => match fields_bytes_spec(entries.drop_first(), src, strict, e) {
                Err(k) => Err(k),
                Ok(rest) => Ok(fb + rest),
            },
        }
    }
}

// --- Block assembly ------------------------------------------------------

// --- Block-level laws ----------------------------------------------------

/// Each built block has exactly `length` bytes.
pub proof fn lemma_block_length<D: DataSource>(
    b: Block,
    src: Option<&D>,
    settings: Settings,
    strict: bool,
)
    ensures
        block_bytes_spec(b, src, settings, strict) matches Ok(out) ==> out.0.len() == b.length,
{
}

/// The block is the encoded fields followed by fill bytes: without a
/// CRC the bytes are exactly that concatenation; with a CRC only the
/// four slot bytes differ from it.
#[verifier::rlimit(100)]
#[verifier::spinoff_prover]
pub proof fn lemma_block_layout<D: DataSource>(
    b: Block,
    src: Option<&D>,
    settings: Settings,
    strict: bool,
)
    ensures
        block_bytes_spec(b, src, settings, strict) matches Ok(out) ==> ({
            let fields = fields_bytes_spec(b.data@, src, strict, settings.endianness);
            &&& fields matches Ok(data)
            &&& data.len() <= b.length
            &&& out.1 == b.length - data.len()
            &&& ((b.crc is None || settings.crc is None) ==> out.0 == data + Seq::new(
                out.1,
                |i: int| b.padding,
            ))
            &&& ((b.crc is Some && settings.crc is Some) ==> ({
                let off: int = match b.crc->Some_0 {
                    CrcLocation::EndData => b.length - 4,
                    CrcLocation::Absolute(a) => a - b.start_address,
                };
                forall|j: int|
                    0 <= j < b.length && !(off <= j < off + 4) ==> out.0[j] == (data + Seq::new(
                        out.1,
                        |i: int| b.padding,
                    ))[j]
            }))
        }),
{
    if let Ok(out) = block_bytes_spec(b, src, settings, strict) {
        let fields = fields_bytes_spec(b.data@, src, strict, settings.endianness);
        if let Ok(data) = fields {
            let padded = data + Seq::new((b.length - data.len()) as nat, |i: int| b.padding);
            match (b.crc, settings.crc) {
                (Some(loc), Some(cs)) => {
                    let off: int = match loc {
                        CrcLocation::EndData => b.length - 4,
                        CrcLocation::Absolute(a) => a - b.start_address,
                    };
                    if 0 <= off && off + 4 <= b.length {
                        let zeroed = zero_slot(padded, off);
                        let crc = crc32_spec(cs.params, zeroed);
                        lemma_le_bytes_len(crc as nat, 4);
                        assert(scalar_bytes(crc as nat, 4, settings.endianness).len() == 4);
                        assert(forall|j: int|
                            0 <= j < b.length && !(off <= j < off + 4) ==> out.0[j] == padded[j]);
                    }
                },
                _ => {
                    assert(out.0 =~= padded);
                },
            }
        }
    }
}

/// When a CRC is configured, the four slot bytes hold the CRC of the
/// block with the slot zeroed, in the configured endianness.
pub proof fn lemma_crc_slot<D: DataSource>(
    b: Block,
    src: Option<&D>,
    settings: Settings,
    strict: bool,
)
    ensures
        block_bytes_spec(b, src, settings, strict) matches Ok(out) ==> ((b.crc is Some
            && settings.crc is Some) ==> ({
            let loc = b.crc->Some_0;
            let cs = settings.crc->Some_0;
            let off: int = match loc {
                CrcLocation::EndData => b.length - 4,
                CrcLocation::Absolute(a) => a - b.start_address,
            };
            &&& 0 <= off
            &&& off + 4 <= b.length
            &&& out.0.subrange(off, off + 4) == scalar_bytes(
                crc32_spec(cs.params, zero_slot(out.0, off)) as nat,
                4,
                settings.endianness,
            )
        })),
{
    if let Ok(out) = block_bytes_spec(b, src, settings, strict) {
        if b.crc is Some && settings.crc is Some {
            let loc = b.crc->Some_0;
            let cs = settings.crc->Some_0;
            let off: int = match loc {
                CrcLocation::EndData => b.length - 4,
                CrcLocation::Absolute(a) => a - b.start_address,
            };
            if let Ok(data) = fields_bytes_spec(b.data@, src, strict, settings.endianness) {
                let padded = data + Seq::new((b.length - data.len()) as nat, |i: int| b.padding);
                let zeroed = zero_slot(padded, off);
                let crc = crc32_spec(cs.params, zeroed);
                let enc = scalar_bytes(crc as nat, 4, settings.endianness);
                lemma_le_bytes_len(crc as nat, 4);
                assert(enc.len() == 4);
                assert(out.0 == splice_bytes(zeroed, off, enc));
                assert(zero_slot(out.0, off) =~= zeroed);
                assert(out.0.subrange(off, off + 4) =~= enc);
            }
        }
    }
}

/// Decoding an emitted integer scalar from its bytes, in the same
/// endianness, returns the original value: the strict conversion result
/// read back equals the source value.
pub proof fn lemma_emitted_scalar_decodes(v: DataValueV, t: NumType, e: Endianness)
    requires
        t.is_unsigned() || t.is_signed(),
        convert_spec(v, t, true) is Ok,
    ensures
        ({
            let raw = convert_spec(v, t, true)->Ok_0;
            let read = crate::layout::encode::bytes_value(
                scalar_bytes(raw as nat, t.spec_width(), e),
                e,
            );
            &&& read == raw as nat
            &&& crate::layout::convert::conversion_exact(v, t, raw)
        }),
{
    let raw = convert_spec(v, t, true)->Ok_0;
    crate::layout::convert::lemma_strict_conversion_lossless(v, t);
    // the raw pattern fits the type's bit width
    lemma_pow2_pos(t.spec_bits());
    lemma_pow2_pos((t.spec_bits() - 1) as nat);
    vstd::arithmetic::power2::lemma_pow2_unfold(t.spec_bits());
    assert((raw as nat) < pow2(t.spec_bits())) by {
        match v {
            DataValueV::U64(_) => {},
            DataValueV::I64(_) => {},
            DataValueV::F64(_) => {},
            DataValueV::Bool(_) => {},
            DataValueV::Str(_) => {},
        }
    }
    assert(t.spec_bits() == 8 * t.spec_width());
    let bytes = scalar_bytes(raw as nat, t.spec_width(), e);
    crate::layout::encode::lemma_le_roundtrip(raw as nat, t.spec_width());
    match e {
        Endianness::Little => {},
        Endianness::Big => {
            let le = crate::layout::encode::le_bytes(raw as nat, t.spec_width());
            assert(le.reverse().reverse() =~= le);
        },
    }
}

/// `s` with the four CRC slot bytes zeroed.
pub open spec fn zero_slot(s: Seq<u8>, off: int) -> Seq<u8> {
    Seq::new(s.len(), |i: int| if off <= i < off + 4 { 0u8 } else { s[i] })
}

/// `s` with `ins` written at `off`.
pub open spec fn splice_bytes(s: Seq<u8>, off: int, ins: Seq<u8>) -> Seq<u8> {
    Seq::new(s.len(), |i: int| if off <= i < off + ins.len() { ins[i - off] } else { s[i] })
}

/// The finished block: field bytes, trailing padding, and the CRC slot.
/// The second component counts the trailing padding bytes.
pub open spec fn block_bytes_spec<D: DataSource>(
    b: Block,
    src: Option<&D>,
    settings: Settings,
    strict: bool,
) -> Result<(Seq<u8>, nat), ErrKind> {
    match fields_bytes_spec(b.data@, src, strict, settings.endianness) {
        Err(k) => Err(k),
        Ok(data) => if data.len() > b.length {
            Err(ErrKind::BlockOverflow)
        } else {
            let pad = (b.length - data.len()) as nat;
            let padded = data + Seq::new(pad, |i: int| b.padding);
            match (b.crc, settings.crc) {
                (Some(loc), Some(cs)) => {
                    let off: int = match loc {
                        CrcLocation::EndData => b.length - 4,
                        CrcLocation::Absolute(a) => a - b.start_address,
                    };
                    if off < 0 || off + 4 > b.length {
                        Err(ErrKind::CrcRangeInvalid)
                    } else {
                        let zeroed = zero_slot(padded, off);
                        let crc = crc32_spec(cs.params, zeroed);
                        Ok(
                            (
                                splice_bytes(
                                    zeroed,
                                    off,
                                    scalar_bytes(crc as nat, 4, settings.endianness),
                                ),
                                pad,
                            ),
                        )
                    }
                },
                _ => Ok((padded, pad)),
            }
        },
    }
}

// --- Exec helpers --------------------------------------------------------

proof fn lemma_convert_all_append(s1: Seq<DataValueV>, s2: Seq<DataValueV>, t: NumType, strict: bool)
    ensures
        convert_all_spec(s1 + s2, t, strict) == (match convert_all_spec(s1, t, strict) {
            Err(c) => Err::<Seq<u64>, ConvErr>(c),
            Ok(r1) => match convert_all_spec(s2, t, strict) {
                Err(c) => Err(c),
                Ok(r2) => Ok(r1 + r2),
            },
        }),
    decreases s1.len(),
{
    if s1.len() == 0 {
        assert(s1 + s2 =~= s2);
        if let Ok(r2) = convert_all_spec(s2, t, strict) {
            assert(Seq::<u64>::empty() + r2 =~= r2);
        }
    } else {
        lemma_convert_all_append(s1.drop_first(), s2, t, strict);
        assert((s1 + s2).drop_first() =~= s1.drop_first() + s2);
        if let Ok(r) = convert_spec(s1[0], t, strict) {
            if let Ok(ra) = convert_all_spec(s1.drop_first(), t, strict) {
                if let Ok(r2) = convert_all_spec(s2, t, strict) {
                    assert(seq![r] + (ra + r2) =~= (seq![r] + ra) + r2);
                }
            }
        }
    }
}

proof fn lemma_convert_all_single(v: DataValueV, t: NumType, strict: bool)
    ensures
        convert_all_spec(seq![v], t, strict) == (match convert_spec(v, t, strict) {
            Err(c) => Err::<Seq<u64>, ConvErr>(c),
            Ok(r) => Ok(seq![r]),
        }),
{
    assert(seq![v].drop_first() =~= Seq::<DataValueV>::empty());
    assert(convert_all_spec(Seq::<DataValueV>::empty(), t, strict) == Ok::<Seq<u64>, ConvErr>(
        Seq::empty(),
    ));
    if let Ok(r) = convert_spec(v, t, strict) {
        assert(seq![r] + Seq::<u64>::empty() =~= seq![r]);
    }
}

proof fn lemma_raws_bytes_single(r: u64, w: nat, e: Endianness)
    ensures
        raws_bytes(seq![r], w, e) == scalar_bytes(r as nat, w, e),
{
    assert(seq![r].drop_first() =~= Seq::<u64>::empty());
    assert(raws_bytes(seq![r].drop_first(), w, e) == Seq::<u8>::empty());
    assert(scalar_bytes(r as nat, w, e) + Seq::<u8>::empty() =~= scalar_bytes(r as nat, w, e));
}

/// Appends `count` zero scalars of width `w`.
fn push_zero_raws(buf: &mut Vec<u8>, count: usize, w: u8, e: Endianness)
    requires
        w <= 8,
    ensures
        final(buf)@ == old(buf)@ + raws_bytes(Seq::new(count as nat, |i: int| 0u64), w as nat, e),
{
    let mut k: usize = 0;
    proof {
        assert(old(buf)@ + raws_bytes(Seq::new(0, |i: int| 0u64), w as nat, e) =~= old(buf)@);
    }
    while k < count
        invariant
            k <= count,
            w <= 8,
            buf@ == old(buf)@ + raws_bytes(Seq::new(k as nat, |i: int| 0u64), w as nat, e),
        decreases count - k,
    {
        push_scalar_bytes(buf, 0, w, e);
        k = k + 1;
        proof {
            let zs = Seq::new(k as nat, |i: int| 0u64);
            let zs0 = Seq::new((k - 1) as nat, |i: int| 0u64);
            assert(zs =~= zs0 + seq![0u64]);
            lemma_raws_bytes_append(zs0, seq![0u64], w as nat, e);
            lemma_raws_bytes_single(0, w as nat, e);
            assert(buf@ =~= old(buf)@ + raws_bytes(zs, w as nat, e));
        }
    }
}

/// Converts and appends every element of `vals`.
fn push_elems(buf: &mut Vec<u8>, vals: &Vec<DataValue>, ty: NumType, strict: bool, e: Endianness) -> (r:
    Result<(), ConvErr>)
    ensures
        match r {
            Ok(_) => convert_all_spec(views1(vals@), ty, strict) matches Ok(rs) && final(buf)@ == old(
                buf,
            )@ + raws_bytes(rs, ty.spec_width(), e),
            Err(c) => convert_all_spec(views1(vals@), ty, strict) == Err::<Seq<u64>, ConvErr>(c),
        },
{
    let w: u8 = ty.width();
    let mut i: usize = 0;
    let ghost all = views1(vals@);
    let ghost mut rs: Seq<u64> = Seq::empty();
    proof {
        assert(all.take(0) =~= Seq::<DataValueV>::empty());
        assert(old(buf)@ + raws_bytes(rs, w as nat, e) =~= old(buf)@);
    }
    while i < vals.len()
        invariant
            i <= vals@.len(),
            all == views1(vals@),
            all.len() == vals@.len(),
            convert_all_spec(all.take(i as int), ty, strict) == Ok::<Seq<u64>, ConvErr>(rs),
            buf@ == old(buf)@ + raws_bytes(rs, ty.spec_width(), e),
            w == ty.spec_width(),
        decreases vals@.len() - i,
    {
        let c = convert_value(&vals[i], ty, strict);
        proof {
            assert(all.take(i + 1) =~= all.take(i as int) + seq![all[i as int]]);
            lemma_convert_all_append(all.take(i as int), seq![all[i as int]], ty, strict);
            lemma_convert_all_single(all[i as int], ty, strict);
            assert(all[i as int] == vals@[i as int]@);
        }
        match c {
            Err(cv) => {
                proof {
                    assert(all =~= all.take(i + 1) + all.skip(i + 1));
                    lemma_convert_all_append(all.take(i + 1), all.skip(i + 1), ty, strict);
                }
                return Err(cv);
            },
            Ok(raw) => {
                push_scalar_bytes(buf, raw, w, e);
                proof {
                    lemma_raws_bytes_append(rs, seq![raw], ty.spec_width(), e);
                    lemma_raws_bytes_single(raw, ty.spec_width(), e);
                    assert(buf@ =~= old(buf)@ + raws_bytes(rs + seq![raw], ty.spec_width(), e));
                    rs = rs + seq![raw];
                }
                i = i + 1;
            },
        }
    }
    proof {
        assert(all.take(vals@.len() as int) =~= all);
    }
    Ok(())
}

impl DataValue {
    /// A copy whose view equals this value's view.
    pub fn duplicate(&self) -> (r: DataValue)
        ensures
            r@ == self@,
    {
        match self {
            DataValue::U64(u) => DataValue::U64(*u),
            DataValue::I64(i) => DataValue::I64(*i),
            DataValue::F64(b) => DataValue::F64(*b),
            DataValue::Bool(x) => DataValue::Bool(*x),
            DataValue::Str(s) => DataValue::Str(s.clone()),
        }
    }
}

/// Encodes a bitmap field: resolves each sub-entry, masks it to its bit
/// count, and packs the entries MSB-first into one unsigned scalar.
#[verifier::rlimit(100)]
#[verifier::spinoff_prover]
fn encode_bitmap<D: DataSource, S: UsedValueSink>(
    path: &str,
    ty: NumType,
    entries: &Vec<BitmapEntry>,
    src: Option<&D>,
    strict: bool,
    e: Endianness,
    out: &mut Vec<u8>,
    sink: &mut S,
) -> (r: Result<(), LayoutError>)
    ensures
        match r {
            Ok(_) => bitmap_field_bytes(path@, ty, entries@, src, strict, e) matches Ok(fb)
                && final(out)@ == old(out)@ + fb && final(sink).recorded() == sink_after(
                old(sink).recorded(),
                old(sink).retains(),
                bitmap_records(path@, entries@, src, strict, 0),
            ),
            Err(err) => bitmap_field_bytes(path@, ty, entries@, src, strict, e) matches Err(k)
                && k == layout_err_kind(err) && final(out)@ == old(out)@ && (!old(sink).retains()
                ==> final(sink).recorded() == old(sink).recorded()),
        },
        final(sink).retains() == old(sink).retains(),
{
    let unsigned: bool = match ty {
        NumType::U8 | NumType::U16 | NumType::U32 | NumType::U64 => true,
        _ => false,
    };
    if !unsigned {
        return Err(LayoutError::TypeMismatch { field: path.to_owned() });
    }
    let w: u8 = ty.width();
    // Total the bit counts; anything over 64 cannot match the type width.
    let mut total: u64 = 0;
    let mut i: usize = 0;
    proof {
        assert(entries@.skip(0) =~= entries@);
    }
    while i < entries.len()
        invariant
            i <= entries@.len(),
            total <= 64,
            sum_bits(entries@) == total + sum_bits(entries@.skip(i as int)),
            ty.is_unsigned(),
            w == ty.spec_width(),
            ty.spec_bits() == 8 * ty.spec_width(),
            out@ == old(out)@,
            sink.recorded() == old(sink).recorded(),
            sink.retains() == old(sink).retains(),
        decreases entries@.len() - i,
    {
        proof {
            assert(entries@.skip(i as int).drop_first() =~= entries@.skip(i + 1));
            assert(entries@.skip(i as int)[0] == entries@[i as int]);
        }
        let b: u8 = entries[i].bits;
        if total + (b as u64) > 64 {
            proof {
                lemma_sum_bits_nonneg(entries@.skip(i + 1));
                assert(sum_bits(entries@) > 64);
                assert(ty.spec_bits() <= 64);
            }
            return Err(LayoutError::BitmapWidthMismatch { field: path.to_owned() });
        }
        total = total + (b as u64);
        i = i + 1;
    }
    proof {
        assert(entries@.skip(entries@.len() as int) =~= Seq::<BitmapEntry>::empty());
    }
    if total != 8 * (w as u64) {
        return Err(LayoutError::BitmapWidthMismatch { field: path.to_owned() });
    }
    // Fold the entries into the accumulator, most significant first.
    let mut acc: u64 = 0;
    let mut start: u64 = 0;
    let ghost mut consumed: nat = 0;
    let ghost mut recs: Seq<(Seq<char>, ReportValueV)> = Seq::empty();
    let mut j: usize = 0;
    proof {
        lemma2_to64();
        assert(entries@.skip(0) =~= entries@);
        assert(recs + bitmap_records(path@, entries@, src, strict, 0) =~= bitmap_records(
            path@,
            entries@,
            src,
            strict,
            0,
        ));
    }
    while j < entries.len()
        invariant
            j <= entries@.len(),
            sum_bits(entries@) == 8 * ty.spec_width(),
            ty.spec_bits() == 8 * ty.spec_width(),
            w == ty.spec_width(),
            ty.is_unsigned(),
            consumed + sum_bits(entries@.skip(j as int)) == sum_bits(entries@),
            start == consumed,
            (acc as nat) < pow2(consumed),
            out@ == old(out)@,
            sink.retains() == old(sink).retains(),
            sink.recorded() == sink_after(old(sink).recorded(), sink.retains(), recs),
            bitmap_records(path@, entries@, src, strict, 0) == recs + bitmap_records(
                path@,
                entries@.skip(j as int),
                src,
                strict,
                consumed,
            ),
            bitmap_acc_spec(path@, entries@, src, strict, 0) == bitmap_acc_spec(
                path@,
                entries@.skip(j as int),
                src,
                strict,
                acc as nat,
            ),
        decreases entries@.len() - j,
    {
        proof {
            assert(entries@.skip(j as int).drop_first() =~= entries@.skip(j + 1));
            assert(entries@.skip(j as int)[0] == entries@[j as int]);
            lemma_sum_bits_nonneg(entries@.skip(j + 1));
            lemma_pow2_pos(entries@[j as int].bits as nat);
        }
        let en = &entries[j];
        let b: u8 = en.bits;
        let raw: u64 = match &en.name {
            Some(nm) => {
                match src {
                    None => {
                        return Err(LayoutError::MissingDataSource { field: path.to_owned() });
                    },
                    Some(d) => {
                        match d.retrieve_single_value(nm.as_str()) {
                            Err(de) => {
                                return Err(
                                    LayoutError::Data { field: path.to_owned(), source: de },
                                );
                            },
                            Ok(v) => {
                                match convert_value(&v, NumType::U64, strict) {
                                    Err(ConvErr::TypeMismatch) => {
                                        return Err(
                                            LayoutError::TypeMismatch { field: path.to_owned() },
                                        );
                                    },
                                    Err(ConvErr::Lossy) => {
                                        return Err(
                                            LayoutError::LossyConversion {
                                                field: path.to_owned(),
                                            },
                                        );
                                    },
                                    Ok(u) => u,
                                }
                            },
                        }
                    },
                }
            },
            None => {
                match &en.value {
                    Some(v) => *v,
                    None => 0,
                }
            },
        };
        let m: u64 = if b >= 64 {
            proof {
                lemma2_to64_rest();
                lemma_small_mod(raw as nat, pow2(64));
            }
            raw
        } else {
            raw % pow2_u64(b as u64)
        };
        proof {
            assert((m as nat) == (raw as nat) % pow2(b as nat));
            assert((m as nat) < pow2(b as nat)) by {
                lemma_pow2_pos(b as nat);
            }
            // acc * 2^b + m stays under 2^(consumed + b) <= 2^64
            lemma_pow2_adds(consumed, b as nat);
            assert((acc as nat) * pow2(b as nat) + m < pow2(consumed + b as nat))
                by (nonlinear_arith)
                requires
                    (acc as nat) < pow2(consumed),
                    (m as nat) < pow2(b as nat),
                    pow2(consumed + b as nat) == pow2(consumed) * pow2(b as nat),
                    pow2(b as nat) > 0,
            ;
            assert(consumed + b as nat <= 64);
            if consumed + (b as nat) < 64 {
                lemma_pow2_strictly_increases(consumed + b as nat, 64);
            }
            lemma_pow2_adds(64, 0);
            lemma2_to64_rest();
        }
        proof {
            assert(entry_masked_spec(path@, entries@[j as int], src, strict) == Ok::<
                nat,
                ErrKind,
            >(m as nat));
        }
        let part = ReportValue::BitmapPart {
            start_bit: start as u8,
            bits: b,
            name: match &en.name {
                Some(nm) => Some(nm.clone()),
                None => None,
            },
            value: m,
        };
        let ghost part_entry = (path@, part@);
        proof {
            // the recorded part is the next spec record
            let step = bitmap_records(path@, entries@.skip(j as int), src, strict, consumed);
            assert(step == seq![part_entry] + bitmap_records(
                path@,
                entries@.skip(j + 1),
                src,
                strict,
                (consumed + entries@[j as int].bits) as nat,
            ));
            assert(bitmap_records(path@, entries@, src, strict, 0) == recs.push(part_entry)
                + bitmap_records(
                path@,
                entries@.skip(j + 1),
                src,
                strict,
                (consumed + entries@[j as int].bits) as nat,
            )) by {
                assert(recs + (seq![part_entry] + bitmap_records(
                    path@,
                    entries@.skip(j + 1),
                    src,
                    strict,
                    (consumed + entries@[j as int].bits) as nat,
                )) =~= recs.push(part_entry) + bitmap_records(
                    path@,
                    entries@.skip(j + 1),
                    src,
                    strict,
                    (consumed + entries@[j as int].bits) as nat,
                ));
            }
        }
        sink.record(path, part);
        proof {
            if sink.retains() {
                assert(sink.recorded() =~= sink_after(
                    old(sink).recorded(),
                    sink.retains(),
                    recs.push(part_entry),
                ));
            }
            recs = recs.push(part_entry);
        }
        let scale: u64 = if b >= 64 {
            1
        } else {
            pow2_u64(b as u64)
        };
        proof {
            if b >= 64 {
                // then acc == 0, since consumed == 0 here
                assert(consumed == 0);
                assert(acc == 0);
                lemma2_to64();
            }
        }
        acc = acc * scale + m;
        proof {
            if b >= 64 {
                assert(acc as nat == 0 * pow2(64) + m) by {
                    lemma2_to64_rest();
                }
            }
            consumed = consumed + b as nat;
        }
        start = start + (b as u64);
        j = j + 1;
    }
    proof {
        assert(entries@.skip(entries@.len() as int) =~= Seq::<BitmapEntry>::empty());
        assert(recs + Seq::<(Seq<char>, ReportValueV)>::empty() =~= recs);
    }
    push_scalar_bytes(out, acc, w, e);
    Ok(())
}

proof fn lemma_sum_bits_nonneg(entries: Seq<BitmapEntry>)
    ensures
        sum_bits(entries) >= 0,
{
}

/// Emits a 1D slot: size-checked elements, converted and zero-padded.
fn emit_1d(
    path: &str,
    vals: &Vec<DataValue>,
    n: usize,
    exact: bool,
    ty: NumType,
    strict: bool,
    e: Endianness,
    out: &mut Vec<u8>,
) -> (r: Result<(), LayoutError>)
    ensures
        match r {
            Ok(_) => sized_1d_bytes(path@, views1(vals@), n as nat, exact, ty, strict, e) matches
                Ok(fb) && final(out)@ == old(out)@ + fb,
            Err(err) => sized_1d_bytes(path@, views1(vals@), n as nat, exact, ty, strict, e)
                matches Err(k) && k == layout_err_kind(err) && final(out)@ == old(out)@,
        },
{
    proof {
        assert(views1(vals@).len() == vals@.len());
    }
    if exact && vals.len() != n {
        return Err(
            LayoutError::SizeMismatch { field: path.to_owned(), expected: n, actual: vals.len() },
        );
    }
    if vals.len() > n {
        return Err(
            LayoutError::SizeMismatch { field: path.to_owned(), expected: n, actual: vals.len() },
        );
    }
    let mut tmp: Vec<u8> = Vec::new();
    match push_elems(&mut tmp, vals, ty, strict, e) {
        Err(ConvErr::TypeMismatch) => Err(LayoutError::TypeMismatch { field: path.to_owned() }),
        Err(ConvErr::Lossy) => Err(LayoutError::LossyConversion { field: path.to_owned() }),
        Ok(_) => {
            push_zero_raws(&mut tmp, n - vals.len(), ty.width(), e);
            proof {
                if let Ok(rs) = convert_all_spec(views1(vals@), ty, strict) {
                    lemma_raws_bytes_append(
                        rs,
                        Seq::new((n - vals@.len()) as nat, |i: int| 0u64),
                        ty.spec_width(),
                        e,
                    );
                }
            }
            out.append(&mut tmp);
            Ok(())
        },
    }
}

/// Emits a string slot: UTF-8 bytes, zero-padded to the size with a NUL.
fn emit_string(path: &str, s: &str, dim: Option<SizeDim>, ty: NumType, out: &mut Vec<u8>) -> (r:
    Result<(), LayoutError>)
    ensures
        match r {
            Ok(_) => string_field_bytes(path@, s@, dim, ty) matches Ok(fb) && final(out)@ == old(
                out,
            )@ + fb,
            Err(err) => string_field_bytes(path@, s@, dim, ty) matches Err(k) && k
                == layout_err_kind(err) && final(out)@ == old(out)@,
        },
{
    let is_u8: bool = match ty {
        NumType::U8 => true,
        _ => false,
    };
    if !is_u8 {
        return Err(LayoutError::TypeMismatch { field: path.to_owned() });
    }
    let bytes: &[u8] = s.as_bytes();
    let pad_to: usize = match dim {
        None => bytes.len(),
        Some(SizeDim::One(n)) => {
            if !(bytes.len() < n) {
                return Err(
                    LayoutError::SizeMismatch {
                        field: path.to_owned(),
                        expected: n,
                        actual: bytes.len(),
                    },
                );
            }
            n
        },
        Some(SizeDim::Two(_, _)) => {
            return Err(
                LayoutError::SizeMismatch { field: path.to_owned(), expected: 0, actual: 0 },
            );
        },
    };
    let mut i: usize = 0;
    let ghost base = out@;
    proof {
        assert(base + bytes@.take(0) =~= base);
    }
    while i < bytes.len()
        invariant
            i <= bytes@.len(),
            bytes@ == s.spec_bytes(),
            out@ == base + bytes@.take(i as int),
        decreases bytes@.len() - i,
    {
        out.push(bytes[i]);
        i = i + 1;
        proof {
            assert(base + bytes@.take(i as int) =~= (base + bytes@.take(i - 1)).push(
                bytes@[i - 1],
            ));
        }
    }
    proof {
        assert(bytes@.take(bytes@.len() as int) =~= bytes@);
    }
    let mut k: usize = bytes.len();
    while k < pad_to
        invariant
            bytes@.len() <= k <= pad_to || (bytes@.len() == k && pad_to <= k),
            bytes@ == s.spec_bytes(),
            out@ == base + bytes@ + Seq::new((k - bytes@.len()) as nat, |i: int| 0u8),
        decreases pad_to - k,
    {
        out.push(0u8);
        k = k + 1;
        proof {
            assert(base + bytes@ + Seq::new((k - bytes@.len()) as nat, |i: int| 0u8) =~= (base
                + bytes@ + Seq::new((k - 1 - bytes@.len()) as nat, |i: int| 0u8)).push(0u8));
        }
    }
    proof {
        if dim matches Some(SizeDim::One(n)) {
            assert(out@ =~= base + (bytes@ + Seq::new((pad_to - bytes@.len()) as nat, |i: int| 0u8)));
        } else {
            assert(out@ =~= base + (bytes@ + Seq::new(0, |i: int| 0u8)));
            assert(bytes@ + Seq::new(0, |i: int| 0u8) =~= bytes@);
        }
    }
    Ok(())
}

/// Emits a 2D slot: each row padded or matched to `c` columns, missing
/// rows zero-filled.
fn emit_table(
    path: &str,
    t: &Vec<Vec<DataValue>>,
    rcount: usize,
    c: usize,
    exact: bool,
    ty: NumType,
    strict: bool,
    e: Endianness,
    out: &mut Vec<u8>,
) -> (r: Result<(), LayoutError>)
    ensures
        match r {
            Ok(_) => table_bytes(path@, views2(t@), rcount as nat, c as nat, exact, ty, strict, e)
                matches Ok(fb) && final(out)@ == old(out)@ + fb,
            Err(err) => table_bytes(
                path@,
                views2(t@),
                rcount as nat,
                c as nat,
                exact,
                ty,
                strict,
                e,
            ) matches Err(k) && k == layout_err_kind(err) && final(out)@ == old(out)@,
        },
{
    proof {
        assert(views2(t@).len() == t@.len());
    }
    if exact && t.len() != rcount {
        return Err(
            LayoutError::SizeMismatch { field: path.to_owned(), expected: rcount, actual: t.len() },
        );
    }
    if t.len() > rcount {
        return Err(
            LayoutError::SizeMismatch { field: path.to_owned(), expected: rcount, actual: t.len() },
        );
    }
    let ghost rows = views2(t@);
    let mut tmp: Vec<u8> = Vec::new();
    let mut i: usize = 0;
    proof {
        assert(rows.skip(0) =~= rows);
        assert(Seq::<u8>::empty() + tmp@ =~= tmp@);
    }
    while i < t.len()
        invariant
            i <= t@.len(),
            rows == views2(t@),
            rows.len() == t@.len(),
            out@ == old(out)@,
            exact ==> t@.len() == rcount,
            t@.len() <= rcount,
            rows_bytes(path@, rows, c as nat, exact, ty, strict, e) == (match rows_bytes(
                path@,
                rows.skip(i as int),
                c as nat,
                exact,
                ty,
                strict,
                e,
            ) {
                Err(k) => Err::<Seq<u8>, ErrKind>(k),
                Ok(rest) => Ok(tmp@ + rest),
            }),
        decreases t@.len() - i,
    {
        proof {
            assert(rows.skip(i as int).drop_first() =~= rows.skip(i + 1));
            assert(rows.skip(i as int)[0] == rows[i as int]);
            assert(rows[i as int] == views1(t@[i as int]@));
        }
        let ghost tmp_before = tmp@;
        match emit_1d(path, &t[i], c, exact, ty, strict, e, &mut tmp) {
            Err(err) => {
                return Err(err);
            },
            Ok(_) => {
                proof {
                    if let Ok(rb) = sized_1d_bytes(
                        path@,
                        views1(t@[i as int]@),
                        c as nat,
                        exact,
                        ty,
                        strict,
                        e,
                    ) {
                        assert(tmp@ == tmp_before + rb);
                        if let Ok(rest) = rows_bytes(
                            path@,
                            rows.skip(i + 1),
                            c as nat,
                            exact,
                            ty,
                            strict,
                            e,
                        ) {
                            assert(tmp_before + (rb + rest) =~= (tmp_before + rb) + rest);
                        }
                    }
                }
                i = i + 1;
            },
        }
    }
    proof {
        assert(rows.skip(rows.len() as int) =~= Seq::<Seq<DataValueV>>::empty());
    }
    // Zero-fill the missing rows.
    let w: u8 = ty.width();
    let mut k: usize = t.len();
    let ghost data_part = tmp@;
    proof {
        assert(Seq::new(0, |i: int| 0u64) =~= Seq::<u64>::empty());
        assert(data_part + raws_bytes(Seq::new(0, |i: int| 0u64), w as nat, e) =~= data_part);
    }
    while k < rcount
        invariant
            t@.len() <= k <= rcount || (t@.len() == k && rcount <= k),
            w == ty.spec_width(),
            w <= 8,
            tmp@ == data_part + raws_bytes(
                Seq::new(((k - t@.len()) * c) as nat, |i: int| 0u64),
                w as nat,
                e,
            ),
        decreases rcount - k,
    {
        push_zero_raws(&mut tmp, c, w, e);
        k = k + 1;
        proof {
            let a = ((k - 1 - t@.len()) * c) as nat;
            let b = c as nat;
            assert(((k - t@.len()) * c) as nat == a + b) by (nonlinear_arith)
                requires
                    k >= t@.len() + 1,
                    a == (k - 1 - t@.len()) * c,
                    b == c,
            ;
            assert(Seq::new(a + b, |i: int| 0u64) =~= Seq::new(a, |i: int| 0u64) + Seq::new(
                b,
                |i: int| 0u64,
            ));
            lemma_raws_bytes_append(
                Seq::new(a, |i: int| 0u64),
                Seq::new(b, |i: int| 0u64),
                w as nat,
                e,
            );
            assert(tmp@ =~= data_part + raws_bytes(
                Seq::new(((k - t@.len()) * c) as nat, |i: int| 0u64),
                w as nat,
                e,
            ));
        }
    }
    out.append(&mut tmp);
    Ok(())
}

/// Emits one converted scalar.
fn emit_single(
    path: &str,
    v: &DataValue,
    ty: NumType,
    strict: bool,
    e: Endianness,
    out: &mut Vec<u8>,
) -> (r: Result<(), LayoutError>)
    ensures
        match r {
            Ok(_) => single_elem_bytes(path@, v@, ty, strict, e) matches Ok(fb) && final(out)@
                == old(out)@ + fb,
            Err(err) => single_elem_bytes(path@, v@, ty, strict, e) matches Err(k) && k
                == layout_err_kind(err) && final(out)@ == old(out)@,
        },
{
    match convert_value(v, ty, strict) {
        Err(ConvErr::TypeMismatch) => Err(LayoutError::TypeMismatch { field: path.to_owned() }),
        Err(ConvErr::Lossy) => Err(LayoutError::LossyConversion { field: path.to_owned() }),
        Ok(raw) => {
            push_scalar_bytes(out, raw, ty.width(), e);
            Ok(())
        },
    }
}

/// Emits a lone value into a 1D slot of `n` elements.
fn emit_single_in_1d(
    path: &str,
    v: &DataValue,
    n: usize,
    exact: bool,
    ty: NumType,
    strict: bool,
    e: Endianness,
    out: &mut Vec<u8>,
) -> (r: Result<(), LayoutError>)
    ensures
        match r {
            Ok(_) => sized_1d_bytes(path@, seq![v@], n as nat, exact, ty, strict, e) matches Ok(fb)
                && final(out)@ == old(out)@ + fb,
            Err(err) => sized_1d_bytes(path@, seq![v@], n as nat, exact, ty, strict, e) matches
                Err(k) && k == layout_err_kind(err) && final(out)@ == old(out)@,
        },
{
    let mut one: Vec<DataValue> = Vec::new();
    one.push(v.duplicate());
    proof {
        assert(views1(one@) =~= seq![v@]);
    }
    emit_1d(path, &one, n, exact, ty, strict, e, out)
}

/// Records one resolved value and restates the sink change as an
/// appended singleton.
fn record_one<S: UsedValueSink>(sink: &mut S, path: &str, value: ReportValue)
    ensures
        final(sink).recorded() == sink_after(
            old(sink).recorded(),
            old(sink).retains(),
            seq![(path@, value@)],
        ),
        final(sink).retains() == old(sink).retains(),
{
    let ghost entry = (path@, value@);
    sink.record(path, value);
    proof {
        if old(sink).retains() {
            assert(old(sink).recorded().push(entry) =~= old(sink).recorded() + seq![entry]);
        }
    }
}

/// Encodes one field into `out`, recording the resolved value.
#[verifier::rlimit(100)]
#[verifier::spinoff_prover]
fn encode_field<D: DataSource, S: UsedValueSink>(
    path: &str,
    f: &Field,
    src: Option<&D>,
    strict: bool,
    e: Endianness,
    out: &mut Vec<u8>,
    sink: &mut S,
) -> (r: Result<(), LayoutError>)
    ensures
        match r {
            Ok(_) => field_bytes_spec(path@, *f, src, strict, e) matches Ok(fb) && final(out)@
                == old(out)@ + fb && final(sink).recorded() == sink_after(
                old(sink).recorded(),
                old(sink).retains(),
                field_records_spec(path@, *f, src, strict),
            ),
            Err(err) => field_bytes_spec(path@, *f, src, strict, e) matches Err(k) && k
                == layout_err_kind(err) && final(out)@ == old(out)@ && (!old(sink).retains()
                ==> final(sink).recorded() == old(sink).recorded()),
        },
        final(sink).retains() == old(sink).retains(),
{
    if f.size.is_some() && f.size_exact.is_some() {
        return Err(LayoutError::DuplicateSizeSpec { field: path.to_owned() });
    }
    let dim: Option<SizeDim> = if f.size.is_some() {
        f.size
    } else {
        f.size_exact
    };
    let exact: bool = f.size_exact.is_some();
    match &f.bitmap {
        Some(entries) => encode_bitmap(path, f.ty, entries, src, strict, e, out, sink),
        None => match &f.value {
            Some(FieldValue::Scalar(DataValue::Str(s))) => {
                let r = emit_string(path, s.as_str(), dim, f.ty, out);
                if r.is_ok() {
                    record_one(sink, path, ReportValue::Scalar(DataValue::Str(s.clone())));
                }
                r
            },
            Some(FieldValue::Scalar(v)) => match dim {
                None => {
                    let r = emit_single(path, v, f.ty, strict, e, out);
                    if r.is_ok() {
                        record_one(sink, path, ReportValue::Scalar(v.duplicate()));
                    }
                    r
                },
                Some(SizeDim::One(n)) => {
                    let r = emit_single_in_1d(path, v, n, exact, f.ty, strict, e, out);
                    if r.is_ok() {
                        record_one(sink, path, ReportValue::Scalar(v.duplicate()));
                    }
                    r
                },
                Some(SizeDim::Two(_, _)) => Err(
                    LayoutError::SizeMismatch { field: path.to_owned(), expected: 0, actual: 0 },
                ),
            },
            Some(FieldValue::Array(a)) => match dim {
                None => {
                    let r = emit_1d(path, a, a.len(), false, f.ty, strict, e, out);
                    if r.is_ok() {
                        record_one(sink, path, ReportValue::Array(dup_values(a)));
                    }
                    r
                },
                Some(SizeDim::One(n)) => {
                    let r = emit_1d(path, a, n, exact, f.ty, strict, e, out);
                    if r.is_ok() {
                        record_one(sink, path, ReportValue::Array(dup_values(a)));
                    }
                    r
                },
                Some(SizeDim::Two(_, _)) => Err(
                    LayoutError::SizeMismatch { field: path.to_owned(), expected: 0, actual: 0 },
                ),
            },
            Some(FieldValue::Table(t)) => match dim {
                Some(SizeDim::Two(rr, cc)) => {
                    let r = emit_table(path, t, rr, cc, exact, f.ty, strict, e, out);
                    if r.is_ok() {
                        record_one(sink, path, ReportValue::Table(dup_table(t)));
                    }
                    r
                },
                _ => Err(
                    LayoutError::SizeMismatch { field: path.to_owned(), expected: 0, actual: 0 },
                ),
            },
            None => match &f.name {
                None => Err(LayoutError::MissingDataSource { field: path.to_owned() }),
                Some(nm) => match src {
                    None => Err(LayoutError::MissingDataSource { field: path.to_owned() }),
                    Some(d) => match dim {
                        None => match d.retrieve_single_value(nm.as_str()) {
                            Err(de) => Err(
                                LayoutError::Data { field: path.to_owned(), source: de },
                            ),
                            Ok(DataValue::Str(s)) => {
                                let r = emit_string(path, s.as_str(), None, f.ty, out);
                                if r.is_ok() {
                                    record_one(
                                        sink,
                                        path,
                                        ReportValue::Scalar(DataValue::Str(s.clone())),
                                    );
                                }
                                r
                            },
                            Ok(v) => {
                                let r = emit_single(path, &v, f.ty, strict, e, out);
                                if r.is_ok() {
                                    record_one(sink, path, ReportValue::Scalar(v));
                                }
                                r
                            },
                        },
                        Some(SizeDim::One(n)) => match d.retrieve_1d_array_or_string(nm.as_str()) {
                            Err(de) => Err(
                                LayoutError::Data { field: path.to_owned(), source: de },
                            ),
                            Ok(ValueSource::Single(DataValue::Str(s))) => {
                                let r = emit_string(path, s.as_str(), dim, f.ty, out);
                                if r.is_ok() {
                                    record_one(
                                        sink,
                                        path,
                                        ReportValue::Scalar(DataValue::Str(s.clone())),
                                    );
                                }
                                r
                            },
                            Ok(ValueSource::Single(v)) => {
                                let r = emit_single_in_1d(path, &v, n, exact, f.ty, strict, e, out);
                                if r.is_ok() {
                                    record_one(sink, path, ReportValue::Scalar(v));
                                }
                                r
                            },
                            Ok(ValueSource::Array(a)) => {
                                let r = emit_1d(path, &a, n, exact, f.ty, strict, e, out);
                                if r.is_ok() {
                                    record_one(sink, path, ReportValue::Array(a));
                                }
                                r
                            },
                        },
                        Some(SizeDim::Two(rr, cc)) => match d.retrieve_2d_array(nm.as_str()) {
                            Err(de) => Err(
                                LayoutError::Data { field: path.to_owned(), source: de },
                            ),
                            Ok(t) => {
                                let r = emit_table(path, &t, rr, cc, exact, f.ty, strict, e, out);
                                if r.is_ok() {
                                    record_one(sink, path, ReportValue::Table(t));
                                }
                                r
                            },
                        },
                    },
                },
            },
        },
    }
}

impl Block {
    /// Builds the block: encodes the fields in declaration order, pads the
    /// remainder with the fill byte, and writes the CRC if one is
    /// configured. Returns the bytes and the count of trailing padding.
    #[verifier::rlimit(100)]
    #[verifier::spinoff_prover]
    pub fn build_bytestream<D: DataSource, S: UsedValueSink>(
        &self,
        source: Option<&D>,
        settings: &Settings,
        strict: bool,
        sink: &mut S,
    ) -> (r: Result<(Vec<u8>, u32), LayoutError>)
        requires
            self.start_address + self.length <= u32::MAX,
        ensures
            match r {
                Ok(out) => block_bytes_spec(*self, source, *settings, strict) matches Ok(sb)
                    && out.0@ == sb.0 && out.1 as nat == sb.1 && final(sink).recorded()
                    == sink_after(
                    old(sink).recorded(),
                    old(sink).retains(),
                    fields_records_spec(self.data@, source, strict),
                ),
                Err(err) => block_bytes_spec(*self, source, *settings, strict) matches Err(k) && k
                    == layout_err_kind(err) && (!old(sink).retains() ==> final(sink).recorded()
                    == old(sink).recorded()),
            },
            final(sink).retains() == old(sink).retains(),
    {
        let e: Endianness = settings.endianness;
        let mut buf: Vec<u8> = Vec::new();
        let mut i: usize = 0;
        let ghost entries = self.data@;
        let ghost mut frecs: Seq<(Seq<char>, ReportValueV)> = Seq::empty();
        proof {
            assert(entries.skip(0) =~= entries);
            assert(Seq::<u8>::empty() + buf@ =~= buf@);
            assert(frecs + fields_records_spec(entries, source, strict) =~= fields_records_spec(
                entries,
                source,
                strict,
            ));
        }
        while i < self.data.len()
            invariant
                i <= entries.len(),
                entries == self.data@,
                e == settings.endianness,
                sink.retains() == old(sink).retains(),
                sink.recorded() == sink_after(old(sink).recorded(), sink.retains(), frecs),
                fields_records_spec(entries, source, strict) == frecs + fields_records_spec(
                    entries.skip(i as int),
                    source,
                    strict,
                ),
                fields_bytes_spec(entries, source, strict, e) == (match fields_bytes_spec(
                    entries.skip(i as int),
                    source,
                    strict,
                    e,
                ) {
                    Err(k) => Err::<Seq<u8>, ErrKind>(k),
                    Ok(rest) => Ok(buf@ + rest),
                }),
            decreases entries.len() - i,
        {
            proof {
                assert(entries.skip(i as int).drop_first() =~= entries.skip(i + 1));
                assert(entries.skip(i as int)[0] == entries[i as int]);
            }
            let ghost buf_before = buf@;
            let entry = &self.data[i];
            let ghost sink_rec_before = sink.recorded();
            match encode_field(entry.0.as_str(), &entry.1, source, strict, e, &mut buf, sink) {
                Err(err) => {
                    return Err(err);
                },
                Ok(_) => {
                    proof {
                        if let Ok(fb) = field_bytes_spec(
                            entries[i as int].0@,
                            entries[i as int].1,
                            source,
                            strict,
                            e,
                        ) {
                            assert(buf@ == buf_before + fb);
                            if let Ok(rest) = fields_bytes_spec(
                                entries.skip(i + 1),
                                source,
                                strict,
                                e,
                            ) {
                                assert(buf_before + (fb + rest) =~= (buf_before + fb) + rest);
                            }
                        }
                        // fold this field's records into the running list
                        let fr = field_records_spec(
                            entries[i as int].0@,
                            entries[i as int].1,
                            source,
                            strict,
                        );
                        if sink.retains() {
                            assert(sink.recorded() =~= sink_after(
                                old(sink).recorded(),
                                sink.retains(),
                                frecs + fr,
                            ));
                        }
                        assert(frecs + (fr + fields_records_spec(
                            entries.skip(i + 1),
                            source,
                            strict,
                        )) =~= (frecs + fr) + fields_records_spec(entries.skip(i + 1), source, strict));
                        frecs = frecs + fr;
                    }
                    i = i + 1;
                },
            }
        }
        proof {
            assert(entries.skip(entries.len() as int) =~= Seq::<(String, Field)>::empty());
            assert(buf@ + Seq::<u8>::empty() =~= buf@);
        }
        // Enforce the block length and fill the remainder.
        if buf.len() > self.length {
            return Err(LayoutError::BlockOverflow);
        }
        let data_len: usize = buf.len();
        let pad: usize = self.length - data_len;
        let ghost data_part = buf@;
        let mut k: usize = 0;
        proof {
            assert(data_part + Seq::new(0, |i: int| self.padding) =~= data_part);
        }
        while k < pad
            invariant
                k <= pad,
                buf@ == data_part + Seq::new(k as nat, |i: int| self.padding),
            decreases pad - k,
        {
            let fill: u8 = self.padding;
            buf.push(fill);
            k = k + 1;
            proof {
                assert(data_part + Seq::new(k as nat, |i: int| self.padding) =~= (data_part
                    + Seq::new((k - 1) as nat, |i: int| self.padding)).push(self.padding));
            }
        }
        let ghost padded = buf@;
        proof {
            assert(padded.len() == self.length);
        }
        // Write the CRC if both the block and the settings configure one.
        let crc_plan: Option<(usize, crate::layout::settings::CrcSettings)> = match (
            self.crc,
            settings.crc,
        ) {
            (Some(loc), Some(cs)) => {
                let off: usize = match loc {
                    CrcLocation::EndData => {
                        if self.length < 4 {
                            return Err(LayoutError::CrcRangeInvalid);
                        }
                        self.length - 4
                    },
                    CrcLocation::Absolute(a) => {
                        if a < self.start_address {
                            return Err(LayoutError::CrcRangeInvalid);
                        }
                        let o: usize = (a - self.start_address) as usize;
                        if o > self.length || self.length - o < 4 {
                            return Err(LayoutError::CrcRangeInvalid);
                        }
                        o
                    },
                };
                Some((off, cs))
            },
            _ => None,
        };
        match crc_plan {
            None => Ok((buf, pad as u32)),
            Some((off, cs)) => {
                // Zero the slot, CRC the whole buffer, then write the CRC.
                let n: usize = buf.len();
                let mut z: usize = 0;
                while z < 4
                    invariant
                        z <= 4,
                        off + 4 <= n,
                        n == buf@.len(),
                        buf@.len() == padded.len(),
                        forall|j: int|
                            0 <= j < buf@.len() ==> buf@[j] == (if off <= j < off + z {
                                0u8
                            } else {
                                padded[j]
                            }),
                    decreases 4 - z,
                {
                    buf[off + z] = 0u8;
                    z = z + 1;
                }
                proof {
                    assert(buf@ =~= zero_slot(padded, off as int));
                }
                let ghost zeroed = buf@;
                let crc: u32 = crc32_range(&cs.params, &buf, 0, n);
                proof {
                    assert(buf@.subrange(0, n as int) =~= buf@);
                }
                let mut enc: Vec<u8> = Vec::new();
                push_scalar_bytes(&mut enc, crc as u64, 4, e);
                proof {
                    lemma_le_bytes_len(crc as nat, 4);
                }
                let mut z2: usize = 0;
                while z2 < 4
                    invariant
                        z2 <= 4,
                        off + 4 <= n,
                        n == buf@.len(),
                        buf@.len() == zeroed.len(),
                        enc@ == scalar_bytes(crc32_spec(cs.params, zeroed) as nat, 4, e),
                        enc@.len() == 4,
                        forall|j: int|
                            0 <= j < buf@.len() ==> buf@[j] == (if off <= j < off + z2 {
                                enc@[j - off]
                            } else {
                                zeroed[j]
                            }),
                    decreases 4 - z2,
                {
                    buf[off + z2] = enc[z2];
                    z2 = z2 + 1;
                }
                proof {
                    assert(buf@ =~= splice_bytes(
                        zeroed,
                        off as int,
                        scalar_bytes(crc32_spec(cs.params, zeroed) as nat, 4, e),
                    ));
                }
                Ok((buf, pad as u32))
            },
        }
    }
}

} // verus!
