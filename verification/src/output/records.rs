//! The record serializer: Intel HEX and Motorola S-records.
//!
//! Each takes `(effective_address, bytes)` segments and emits ASCII
//! record lines of at most `width` payload bytes.

use vstd::prelude::*;
use crate::data::tokenize::{hex_digit_val, is_hex_digit, string_of};

verus! {

/// One contiguous run of output bytes at its effective address.
#[derive(Debug, Clone)]
pub struct Segment {
    pub address: u32,
    pub data: Vec<u8>,
}

// --- Hex text ------------------------------------------------------------

/// The uppercase hex digit for a value below 16.
pub open spec fn hex_digit_char(n: nat) -> char {
    if n < 10 {
        ((48 + n) as u8) as char
    } else {
        ((55 + n) as u8) as char
    }
}

/// Two uppercase hex digits of a byte.
pub open spec fn byte_hex(b: u8) -> Seq<char> {
    seq![hex_digit_char(b as nat / 16), hex_digit_char(b as nat % 16)]
}

/// The hex text of a byte string.
pub open spec fn bytes_hex(s: Seq<u8>) -> Seq<char>
    decreases s.len(),
{
    if s.len() == 0 {
        Seq::empty()
    } else {
        byte_hex(s[0]) + bytes_hex(s.drop_first())
    }
}

pub open spec fn sum_bytes(s: Seq<u8>) -> nat
    decreases s.len(),
{
    if s.len() == 0 {
        0
    } else {
        (s[0] + sum_bytes(s.drop_first())) as nat
    }
}

proof fn lemma_bytes_hex_shape(s: Seq<u8>)
    ensures
        bytes_hex(s).len() == 2 * s.len(),
        forall|i: int|
            0 <= i < s.len() ==> bytes_hex(s)[2 * i] == hex_digit_char(#[trigger] s[i] as nat / 16)
                && bytes_hex(s)[2 * i + 1] == hex_digit_char(s[i] as nat % 16),
    decreases s.len(),
{
    if s.len() > 0 {
        lemma_bytes_hex_shape(s.drop_first());
        assert(forall|i: int| 1 <= i < s.len() ==> s.drop_first()[i - 1] == #[trigger] s[i]);
    }
}

/// Appends the two hex digits of `b`.
fn push_byte_hex(out: &mut Vec<char>, b: u8)
    ensures
        final(out)@ == old(out)@ + byte_hex(b),
{
    let hi: u8 = b / 16;
    let lo: u8 = b % 16;
    let c1: char = if hi < 10 {
        (48 + hi) as char
    } else {
        (55 + hi) as char
    };
    let c2: char = if lo < 10 {
        (48 + lo) as char
    } else {
        (55 + lo) as char
    };
    out.push(c1);
    out.push(c2);
    proof {
        assert(out@ =~= old(out)@ + byte_hex(b));
    }
}

// --- Intel HEX -----------------------------------------------------------

/// The Intel HEX checksum: two's complement of the byte sum.
pub open spec fn ihex_checksum(addr16: nat, rtype: u8, payload: Seq<u8>) -> u8 {
    let total = payload.len() + addr16 / 256 + addr16 % 256 + rtype + sum_bytes(payload);
    (((256 - (total % 256)) % 256) as u8)
}

/// One Intel HEX record line.
#[verifier::opaque]
pub open spec fn ihex_line(addr16: nat, rtype: u8, payload: Seq<u8>) -> Seq<char> {
    seq![':'] + byte_hex(payload.len() as u8) + byte_hex((addr16 / 256) as u8) + byte_hex(
        (addr16 % 256) as u8,
    ) + byte_hex(rtype) + bytes_hex(payload) + byte_hex(ihex_checksum(addr16, rtype, payload))
}

/// Builds one Intel HEX record line as text.
fn emit_ihex_line(addr16: u32, rtype: u8, payload: &Vec<u8>, from: usize, to: usize) -> (r: String)
    requires
        addr16 < 0x10000,
        from <= to <= payload@.len(),
        to - from <= 255,
    ensures
        r@ == ihex_line(addr16 as nat, rtype, payload@.subrange(from as int, to as int)),
{
    let ghost chunk = payload@.subrange(from as int, to as int);
    let mut line: Vec<char> = Vec::new();
    line.push(':');
    let count: u8 = (to - from) as u8;
    let hi: u8 = (addr16 / 256) as u8;
    let lo: u8 = (addr16 % 256) as u8;
    push_byte_hex(&mut line, count);
    push_byte_hex(&mut line, hi);
    push_byte_hex(&mut line, lo);
    push_byte_hex(&mut line, rtype);
    let ghost head = line@;
    let mut sum: u32 = (count as u32) + (hi as u32) + (lo as u32) + (rtype as u32);
    let mut i: usize = from;
    proof {
        assert(chunk.take(0) =~= Seq::<u8>::empty());
        assert(head + bytes_hex(chunk.take(0)) =~= head);
    }
    while i < to
        invariant
            from <= i <= to <= payload@.len(),
            chunk == payload@.subrange(from as int, to as int),
            line@ == head + bytes_hex(chunk.take((i - from) as int)),
            sum as nat == count + hi + lo + rtype + sum_bytes(chunk.take((i - from) as int)),
            sum <= 255 * (4 + i - from),
            to - from <= 255,
        decreases to - i,
    {
        let b: u8 = payload[i];
        proof {
            assert(chunk[i - from] == payload@[i as int]);
            lemma_bytes_hex_append(chunk.take((i - from) as int), seq![b]);
            assert(chunk.take((i - from) as int) + seq![b] =~= chunk.take((i - from + 1) as int));
            lemma_bytes_hex_single(b);
            lemma_sum_bytes_snoc(chunk.take((i - from) as int), b);
            assert(chunk.take((i - from + 1) as int) =~= chunk.take((i - from) as int).push(b));
        }
        push_byte_hex(&mut line, b);
        sum = sum + (b as u32);
        i = i + 1;
    }
    proof {
        assert(chunk.take((to - from) as int) =~= chunk);
    }
    let ck: u8 = ((256 - (sum % 256)) % 256) as u8;
    push_byte_hex(&mut line, ck);
    proof {
        reveal(ihex_line);
        assert(line@ =~= ihex_line(addr16 as nat, rtype, chunk));
    }
    string_of(&line)
}

proof fn lemma_bytes_hex_append(s1: Seq<u8>, s2: Seq<u8>)
    ensures
        bytes_hex(s1 + s2) == bytes_hex(s1) + bytes_hex(s2),
    decreases s1.len(),
{
    if s1.len() == 0 {
        assert(s1 + s2 =~= s2);
        assert(bytes_hex(s1) + bytes_hex(s2) =~= bytes_hex(s2));
    } else {
        lemma_bytes_hex_append(s1.drop_first(), s2);
        assert((s1 + s2).drop_first() =~= s1.drop_first() + s2);
        assert(byte_hex(s1[0]) + (bytes_hex(s1.drop_first()) + bytes_hex(s2)) =~= (byte_hex(s1[0])
            + bytes_hex(s1.drop_first())) + bytes_hex(s2));
    }
}

proof fn lemma_sum_bytes_snoc(s: Seq<u8>, b: u8)
    ensures
        sum_bytes(s.push(b)) == sum_bytes(s) + b,
    decreases s.len(),
{
    if s.len() == 0 {
        assert(s.push(b)[0] == b);
        assert(s.push(b).drop_first() =~= Seq::<u8>::empty());
        assert(sum_bytes(s.push(b).drop_first()) == 0);
    } else {
        lemma_sum_bytes_snoc(s.drop_first(), b);
        assert(s.push(b)[0] == s[0]);
        assert(s.push(b).drop_first() =~= s.drop_first().push(b));
        assert(sum_bytes(s.push(b).drop_first()) == sum_bytes(s.drop_first().push(b)));
    }
}

proof fn lemma_bytes_hex_single(b: u8)
    ensures
        bytes_hex(seq![b]) == byte_hex(b),
{
    assert(seq![b][0] == b);
    assert(seq![b].drop_first() =~= Seq::<u8>::empty());
    assert(bytes_hex(seq![b].drop_first()) == Seq::<char>::empty());
    assert(byte_hex(b) + Seq::<char>::empty() =~= byte_hex(b));
}

/// The 16-bit big-endian bytes of an upper address word.
pub open spec fn be16(v: nat) -> Seq<u8> {
    seq![(v / 256) as u8, (v % 256) as u8]
}

/// The Intel HEX lines of one segment from `off` on, given the upper
/// address word already in effect; data records stop at 64 KiB
/// boundaries and an extended linear address record precedes any chunk
/// whose upper word differs.
pub open spec fn ihex_seg_lines(
    addr: nat,
    data: Seq<u8>,
    off: nat,
    width: nat,
    upper: nat,
) -> (Seq<Seq<char>>, nat)
    decreases data.len() - off when 1 <= width && off <= data.len()
{
    if off >= data.len() {
        (Seq::empty(), upper)
    } else {
        let cur = addr + off;
        let cu = cur / 0x10000;
        let low = cur % 0x10000;
        let room = (0x10000 - low) as nat;
        let n1 = if width <= data.len() - off {
            width
        } else {
            (data.len() - off) as nat
        };
        let n = if n1 <= room {
            n1
        } else {
            room
        };
        let rec = ihex_line(low, 0, data.subrange(off as int, (off + n) as int));
        let pre: Seq<Seq<char>> = if cu != upper {
            seq![ihex_line(0, 4, be16(cu))]
        } else {
            Seq::empty()
        };
        let rest = ihex_seg_lines(addr, data, off + n, width, cu);
        (pre + seq![rec] + rest.0, rest.1)
    }
}

/// The Intel HEX lines of all segments, in order, without the EOF line.
pub open spec fn ihex_body_lines(segs: Seq<Segment>, width: nat, upper: nat) -> Seq<Seq<char>>
    decreases segs.len(),
{
    if segs.len() == 0 {
        Seq::empty()
    } else {
        let first = ihex_seg_lines(segs[0].address as nat, segs[0].data@, 0, width, upper);
        first.0 + ihex_body_lines(segs.drop_first(), width, first.1)
    }
}

/// The full Intel HEX document: data records (with extended linear
/// address records as the upper word changes) and the EOF record.
pub open spec fn ihex_lines_spec(segs: Seq<Segment>, width: nat) -> Seq<Seq<char>> {
    ihex_body_lines(segs, width, 0) + seq![ihex_line(0, 1, Seq::empty())]
}

/// Emits one segment's data records; returns the upper word in effect.
#[verifier::rlimit(100)]
#[verifier::spinoff_prover]
fn emit_ihex_segment(seg: &Segment, off: usize, width: usize, upper: u32, out: &mut Vec<String>) -> (r:
    u32)
    requires
        1 <= width <= 255,
        off <= seg.data@.len(),
        seg.address + seg.data@.len() <= 0x1_0000_0000,
    ensures
        ({
            let spec = ihex_seg_lines(seg.address as nat, seg.data@, off as nat, width as nat, upper as nat);
            final(out)@.map_values(|s: String| s@) == old(out)@.map_values(|s: String| s@) + spec.0
                && r as nat == spec.1
        }),
    decreases seg.data@.len() - off,
{
    if off >= seg.data.len() {
        proof {
            assert(old(out)@.map_values(|s: String| s@) + Seq::<Seq<char>>::empty() =~= out@.map_values(
                |s: String| s@,
            ));
        }
        return upper;
    }
    let cur: u32 = seg.address + (off as u32);
    let cu: u32 = cur / 0x10000;
    let low: u32 = cur % 0x10000;
    let room: u32 = 0x10000 - low;
    let rem: usize = seg.data.len() - off;
    let n1: usize = if width <= rem {
        width
    } else {
        rem
    };
    let n: usize = if (n1 as u32) <= room {
        n1
    } else {
        room as usize
    };
    let ghost prev = out@;
    if cu != upper {
        let mut ela: Vec<u8> = Vec::new();
        ela.push((cu / 256) as u8);
        ela.push((cu % 256) as u8);
        proof {
            assert(ela@ =~= be16(cu as nat));
            assert(ela@.subrange(0, 2) =~= ela@);
        }
        let line = emit_ihex_line(0, 4, &ela, 0, 2);
        out.push(line);
    }
    let line = emit_ihex_line(low, 0, &seg.data, off, off + n);
    out.push(line);
    proof {
        let specs = ihex_seg_lines(
            seg.address as nat,
            seg.data@,
            off as nat,
            width as nat,
            upper as nat,
        );
        let pre: Seq<Seq<char>> = if cu as nat != upper as nat {
            seq![ihex_line(0, 4, be16(cu as nat))]
        } else {
            Seq::empty()
        };
        assert(out@.map_values(|s: String| s@) =~= prev.map_values(|s: String| s@) + (pre + seq![
            ihex_line(low as nat, 0, seg.data@.subrange(off as int, (off + n) as int)),
        ]));
    }
    let ghost mid = out@;
    let r = emit_ihex_segment(seg, off + n, width, cu, out);
    proof {
        let specs = ihex_seg_lines(
            seg.address as nat,
            seg.data@,
            off as nat,
            width as nat,
            upper as nat,
        );
        let rest = ihex_seg_lines(
            seg.address as nat,
            seg.data@,
            (off + n) as nat,
            width as nat,
            cu as nat,
        );
        assert(out@.map_values(|s: String| s@) =~= prev.map_values(|s: String| s@) + specs.0);
    }
    r
}

/// Serializes segments as Intel HEX lines.
pub fn serialize_ihex(segs: &Vec<Segment>, width: usize) -> (r: Vec<String>)
    requires
        1 <= width <= 255,
        forall|i: int|
            0 <= i < segs@.len() ==> (#[trigger] segs@[i]).address + segs@[i].data@.len()
                <= 0x1_0000_0000,
    ensures
        r@.map_values(|s: String| s@) == ihex_lines_spec(segs@, width as nat),
{
    let mut out: Vec<String> = Vec::new();
    let mut upper: u32 = 0;
    let mut i: usize = 0;
    proof {
        assert(segs@.skip(0) =~= segs@);
        assert(Seq::<Seq<char>>::empty() + out@.map_values(|s: String| s@) =~= out@.map_values(
            |s: String| s@,
        ));
    }
    while i < segs.len()
        invariant
            i <= segs@.len(),
            forall|k: int|
                0 <= k < segs@.len() ==> (#[trigger] segs@[k]).address + segs@[k].data@.len()
                    <= 0x1_0000_0000,
            1 <= width <= 255,
            ihex_body_lines(segs@, width as nat, 0) == out@.map_values(|s: String| s@)
                + ihex_body_lines(segs@.skip(i as int), width as nat, upper as nat),
        decreases segs@.len() - i,
    {
        proof {
            assert(segs@.skip(i as int).drop_first() =~= segs@.skip(i + 1));
            assert(segs@.skip(i as int)[0] == segs@[i as int]);
        }
        let ghost prev = out@;
        let nu = emit_ihex_segment(&segs[i], 0, width, upper, &mut out);
        proof {
            let first = ihex_seg_lines(
                segs@[i as int].address as nat,
                segs@[i as int].data@,
                0,
                width as nat,
                upper as nat,
            );
            assert(prev.map_values(|s: String| s@) + (first.0 + ihex_body_lines(
                segs@.skip(i + 1),
                width as nat,
                first.1,
            )) =~= out@.map_values(|s: String| s@) + ihex_body_lines(
                segs@.skip(i + 1),
                width as nat,
                first.1,
            ));
        }
        upper = nu;
        i = i + 1;
    }
    proof {
        assert(segs@.skip(segs@.len() as int) =~= Seq::<Segment>::empty());
        assert(ihex_body_lines(segs@, width as nat, 0) =~= out@.map_values(|s: String| s@));
    }
    let mut eofp: Vec<u8> = Vec::new();
    proof {
        assert(eofp@.subrange(0, 0) =~= Seq::<u8>::empty());
    }
    let eof = emit_ihex_line(0, 1, &eofp, 0, 0);
    let ghost prev = out@;
    out.push(eof);
    proof {
        assert(out@.map_values(|s: String| s@) =~= prev.map_values(|s: String| s@) + seq![
            ihex_line(0, 1, Seq::empty()),
        ]);
    }
    out
}

// --- Intel HEX parsing (the round-trip law) ------------------------------

/// The byte at hex positions `2i`, `2i+1` of the payload text.
pub open spec fn parsed_byte(line: Seq<char>, off: int) -> nat {
    hex_digit_val(line[off]) * 16 + hex_digit_val(line[off + 1])
}

/// Parses one Intel HEX record line: the record type, the 16-bit
/// address, and the payload, provided the shape and checksum hold.
#[verifier::opaque]
pub open spec fn parse_ihex_line(line: Seq<char>) -> Option<(u8, nat, Seq<u8>)> {
    if line.len() < 11 || line[0] != ':' || (line.len() - 11) % 2 != 0 {
        None
    } else if !(forall|i: int| 1 <= i < line.len() ==> is_hex_digit(#[trigger] line[i])) {
        None
    } else {
        let count = parsed_byte(line, 1);
        if line.len() != 11 + 2 * count {
            None
        } else {
            let addr = parsed_byte(line, 3) * 256 + parsed_byte(line, 5);
            let rtype = parsed_byte(line, 7);
            let payload = Seq::new(count, |i: int| parsed_byte(line, 9 + 2 * i) as u8);
            let ck = parsed_byte(line, (9 + 2 * count) as int);
            if (count + addr / 256 + addr % 256 + rtype + sum_bytes(payload) + ck) % 256 == 0 {
                Some((rtype as u8, addr, payload))
            } else {
                None
            }
        }
    }
}

proof fn lemma_hex_digit_roundtrip(n: nat)
    requires
        n < 16,
    ensures
        is_hex_digit(hex_digit_char(n)),
        hex_digit_val(hex_digit_char(n)) == n,
{
}

/// Parsing an emitted record line gives back its type, address and
/// payload: one record round-trips exactly.
pub proof fn lemma_ihex_line_roundtrip(addr16: nat, rtype: u8, payload: Seq<u8>)
    requires
        addr16 < 0x10000,
        payload.len() <= 255,
    ensures
        parse_ihex_line(ihex_line(addr16, rtype, payload)) == Some(
            (rtype, addr16, payload),
        ),
{
    reveal(ihex_line);
    reveal(parse_ihex_line);
    let line = ihex_line(addr16, rtype, payload);
    lemma_bytes_hex_shape(payload);
    assert(line.len() == 11 + 2 * payload.len());
    // every hex digit of the line is a valid hex character
    assert forall|i: int| 1 <= i < line.len() implies is_hex_digit(#[trigger] line[i]) by {
        lemma_line_digits(addr16, rtype, payload, i);
    }
    // the count, address and type fields read back
    lemma_field_byte(addr16, rtype, payload, 1, payload.len() as u8);
    lemma_field_byte(addr16, rtype, payload, 3, (addr16 / 256) as u8);
    lemma_field_byte(addr16, rtype, payload, 5, (addr16 % 256) as u8);
    lemma_field_byte(addr16, rtype, payload, 7, rtype);
    let count = parsed_byte(line, 1);
    assert(count == payload.len());
    let parsed = Seq::new(count, |i: int| parsed_byte(line, 9 + 2 * i) as u8);
    assert forall|i: int| 0 <= i < payload.len() implies parsed[i] == payload[i] by {
        assert(line[9 + 2 * i] == bytes_hex(payload)[2 * i]);
        assert(line[9 + 2 * i + 1] == bytes_hex(payload)[2 * i + 1]);
        lemma_hex_digit_roundtrip(payload[i] as nat / 16);
        lemma_hex_digit_roundtrip(payload[i] as nat % 16);
    }
    assert(parsed =~= payload);
    lemma_field_byte(
        addr16,
        rtype,
        payload,
        9 + 2 * payload.len() as int,
        ihex_checksum(addr16, rtype, payload),
    );
    let total = payload.len() + addr16 / 256 + addr16 % 256 + rtype + sum_bytes(payload);
    let ck = ihex_checksum(addr16, rtype, payload);
    assert((total + ck) % 256 == 0) by (nonlinear_arith)
        requires
            ck == ((256 - (total % 256)) % 256),
            total >= 0,
    ;
    assert(parsed_byte(line, 3) * 256 + parsed_byte(line, 5) == addr16);
}

/// Every character after the colon is a hex digit.
proof fn lemma_line_digits(addr16: nat, rtype: u8, payload: Seq<u8>, i: int)
    requires
        addr16 < 0x10000,
        payload.len() <= 255,
        1 <= i < ihex_line(addr16, rtype, payload).len(),
    ensures
        is_hex_digit(ihex_line(addr16, rtype, payload)[i]),
{
    reveal(ihex_line);
    let line = ihex_line(addr16, rtype, payload);
    lemma_bytes_hex_shape(payload);
    if i < 9 {
        lemma_hex_digit_roundtrip((payload.len() as u8) as nat / 16);
        lemma_hex_digit_roundtrip((payload.len() as u8) as nat % 16);
        lemma_hex_digit_roundtrip(((addr16 / 256) as u8) as nat / 16);
        lemma_hex_digit_roundtrip(((addr16 / 256) as u8) as nat % 16);
        lemma_hex_digit_roundtrip(((addr16 % 256) as u8) as nat / 16);
        lemma_hex_digit_roundtrip(((addr16 % 256) as u8) as nat % 16);
        lemma_hex_digit_roundtrip(rtype as nat / 16);
        lemma_hex_digit_roundtrip(rtype as nat % 16);
    } else if i < 9 + 2 * payload.len() {
        let j = (i - 9) / 2;
        assert(line[9 + 2 * j] == bytes_hex(payload)[2 * j]);
        assert(line[9 + 2 * j + 1] == bytes_hex(payload)[2 * j + 1]);
        lemma_hex_digit_roundtrip(payload[j] as nat / 16);
        lemma_hex_digit_roundtrip(payload[j] as nat % 16);
        assert(i == 9 + 2 * j || i == 9 + 2 * j + 1);
    } else {
        let ck = ihex_checksum(addr16, rtype, payload);
        lemma_hex_digit_roundtrip(ck as nat / 16);
        lemma_hex_digit_roundtrip(ck as nat % 16);
    }
}

/// The byte written at field offset `off` reads back as itself.
proof fn lemma_field_byte(addr16: nat, rtype: u8, payload: Seq<u8>, off: int, b: u8)
    requires
        addr16 < 0x10000,
        payload.len() <= 255,
        ({
            let line = ihex_line(addr16, rtype, payload);
            &&& 1 <= off
            &&& off + 2 <= line.len()
            &&& line[off] == hex_digit_char(b as nat / 16)
            &&& line[off + 1] == hex_digit_char(b as nat % 16)
        }),
    ensures
        parsed_byte(ihex_line(addr16, rtype, payload), off) == b,
{
    reveal(ihex_line);
    lemma_hex_digit_roundtrip(b as nat / 16);
    lemma_hex_digit_roundtrip(b as nat % 16);
}

// --- The document round trip ---------------------------------------------

/// The bytes one segment covers, keyed by absolute address.
pub open spec fn seg_mem(addr: nat, data: Seq<u8>) -> Map<int, u8> {
    Map::new(|a: int| addr <= a < addr + data.len(), |a: int| data[a - addr])
}

/// The memory image of a segment list; a later segment overrides an
/// earlier one where they overlap.
pub open spec fn segs_mem(segs: Seq<Segment>) -> Map<int, u8>
    decreases segs.len(),
{
    if segs.len() == 0 {
        Map::empty()
    } else {
        seg_mem(segs[0].address as nat, segs[0].data@).union_prefer_right(
            segs_mem(segs.drop_first()),
        )
    }
}

/// Writes a data record's payload into the image: byte `i` lands at
/// `upper * 2^16` plus the 16-bit address, which wraps within the page.
pub open spec fn write_bytes(acc: Map<int, u8>, upper: nat, a16: nat, payload: Seq<u8>) -> Map<
    int,
    u8,
>
    decreases payload.len(),
{
    if payload.len() == 0 {
        acc
    } else {
        write_bytes(
            acc.insert((upper * 0x10000 + (a16 % 0x10000)) as int, payload[0]),
            upper,
            a16 + 1,
            payload.drop_first(),
        )
    }
}

/// Replays parsed record lines into a memory image: data records write
/// bytes, extended linear address records switch the upper word, the
/// EOF record is inert. Returns the image and the final upper word; an
/// unparsable or unknown record refuses the document.
pub open spec fn ihex_decode_mem(lines: Seq<Seq<char>>, upper: nat, acc: Map<int, u8>) -> Option<
    (Map<int, u8>, nat),
>
    decreases lines.len(),
{
    if lines.len() == 0 {
        Some((acc, upper))
    } else {
        match parse_ihex_line(lines[0]) {
            None => None,
            Some((rtype, addr, payload)) => {
                if rtype == 0 {
                    ihex_decode_mem(
                        lines.drop_first(),
                        upper,
                        write_bytes(acc, upper, addr, payload),
                    )
                } else if rtype == 4 {
                    if payload.len() == 2 {
                        ihex_decode_mem(
                            lines.drop_first(),
                            (payload[0] * 256 + payload[1]) as nat,
                            acc,
                        )
                    } else {
                        None
                    }
                } else if rtype == 1 {
                    ihex_decode_mem(lines.drop_first(), upper, acc)
                } else {
                    None
                }
            },
        }
    }
}

proof fn lemma_decode_append(l1: Seq<Seq<char>>, l2: Seq<Seq<char>>, upper: nat, acc: Map<int, u8>)
    ensures
        ihex_decode_mem(l1 + l2, upper, acc) == (match ihex_decode_mem(l1, upper, acc) {
            None => None::<(Map<int, u8>, nat)>,
            Some(p) => ihex_decode_mem(l2, p.1, p.0),
        }),
    decreases l1.len(),
{
    if l1.len() == 0 {
        assert(l1 + l2 =~= l2);
    } else {
        assert((l1 + l2)[0] == l1[0]);
        assert((l1 + l2).drop_first() =~= l1.drop_first() + l2);
        if let Some((rtype, addr, payload)) = parse_ihex_line(l1[0]) {
            if rtype == 0 {
                lemma_decode_append(
                    l1.drop_first(),
                    l2,
                    upper,
                    write_bytes(acc, upper, addr, payload),
                );
            } else if rtype == 4 && payload.len() == 2 {
                lemma_decode_append(
                    l1.drop_first(),
                    l2,
                    (payload[0] * 256 + payload[1]) as nat,
                    acc,
                );
            } else if rtype == 1 {
                lemma_decode_append(l1.drop_first(), l2, upper, acc);
            }
        }
    }
}

/// A non-wrapping data record writes exactly its span of bytes.
proof fn lemma_write_bytes_chunk(acc: Map<int, u8>, upper: nat, a16: nat, payload: Seq<u8>)
    requires
        a16 + payload.len() <= 0x10000,
    ensures
        write_bytes(acc, upper, a16, payload) == acc.union_prefer_right(
            seg_mem(upper * 0x10000 + a16, payload),
        ),
    decreases payload.len(),
{
    let cur = upper * 0x10000 + a16;
    if payload.len() == 0 {
        assert(acc.union_prefer_right(seg_mem(cur, payload)) =~= acc);
    } else {
        lemma_write_bytes_chunk(
            acc.insert(cur as int, payload[0]),
            upper,
            a16 + 1,
            payload.drop_first(),
        );
        assert(a16 % 0x10000 == a16);
        assert(acc.insert(cur as int, payload[0]).union_prefer_right(
            seg_mem(upper * 0x10000 + (a16 + 1), payload.drop_first()),
        ) =~= acc.union_prefer_right(seg_mem(cur, payload)));
    }
}

/// Decoding the records of one segment suffix extends the image by
/// exactly those bytes.
#[verifier::rlimit(100)]
#[verifier::spinoff_prover]
proof fn lemma_decode_segment(
    addr: nat,
    data: Seq<u8>,
    off: nat,
    width: nat,
    upper: nat,
    acc: Map<int, u8>,
)
    requires
        1 <= width <= 255,
        off <= data.len(),
        addr + data.len() <= 0x1_0000_0000,
    ensures
        ({
            let emitted = ihex_seg_lines(addr, data, off, width, upper);
            ihex_decode_mem(emitted.0, upper, acc) == Some(
                (acc.union_prefer_right(seg_mem(addr + off, data.skip(off as int))), emitted.1),
            )
        }),
    decreases data.len() - off,
{
    let emitted = ihex_seg_lines(addr, data, off, width, upper);
    if off >= data.len() {
        assert(acc.union_prefer_right(seg_mem(addr + off, data.skip(off as int))) =~= acc);
    } else {
        let cur = addr + off;
        let cu = cur / 0x10000;
        let low = cur % 0x10000;
        let room = (0x10000 - low) as nat;
        let n1 = if width <= data.len() - off {
            width
        } else {
            (data.len() - off) as nat
        };
        let n = if n1 <= room {
            n1
        } else {
            room
        };
        let chunk = data.subrange(off as int, (off + n) as int);
        let rec = ihex_line(low, 0, chunk);
        let pre: Seq<Seq<char>> = if cu != upper {
            seq![ihex_line(0, 4, be16(cu))]
        } else {
            Seq::empty()
        };
        let rest = ihex_seg_lines(addr, data, off + n, width, cu);
        lemma_ihex_line_roundtrip(low, 0, chunk);
        let l01 = pre + seq![rec];
        lemma_decode_append(l01, rest.0, upper, acc);
        assert(emitted.0 =~= l01 + rest.0);
        // the data record writes the chunk at the absolute address
        lemma_write_bytes_chunk(acc, cu, low, chunk);
        assert(cu * 0x10000 + low == cur) by (nonlinear_arith)
            requires
                cu == cur / 0x10000,
                low == cur % 0x10000,
        ;
        let written = acc.union_prefer_right(seg_mem(cur, chunk));
        // the optional extended-address record, then the data record
        assert(parse_ihex_line(rec) == Some((0u8, low as nat, chunk)));
        assert(seq![rec][0] == rec);
        assert(seq![rec].drop_first() =~= Seq::<Seq<char>>::empty());
        assert(ihex_decode_mem(Seq::<Seq<char>>::empty(), cu as nat, write_bytes(acc, cu as nat, low as nat, chunk))
            == Some((write_bytes(acc, cu as nat, low as nat, chunk), cu as nat)));
        assert(write_bytes(acc, cu as nat, low as nat, chunk) == written);
        assert(ihex_decode_mem(seq![rec], cu, acc) == Some((written, cu as nat)));
        if cu != upper {
            lemma_ihex_line_roundtrip(0, 4, be16(cu));
            assert(cu < 0x10000) by (nonlinear_arith)
                requires
                    cur < 0x1_0000_0000,
                    cu == cur / 0x10000,
            ;
            assert(be16(cu as nat)[0] * 256 + be16(cu as nat)[1] == cu);
            assert(l01[0] == ihex_line(0, 4, be16(cu)));
            assert(l01.drop_first() =~= seq![rec]);
            assert(ihex_decode_mem(l01, upper, acc) == ihex_decode_mem(seq![rec], cu as nat, acc));
        } else {
            assert(l01 =~= seq![rec]);
        }
        assert(ihex_decode_mem(l01, upper, acc) == Some((written, cu as nat)));
        // recurse over the remaining chunks
        lemma_decode_segment(addr, data, off + n, width, cu, written);
        // the chunk plus the rest is the whole suffix
        assert(written.union_prefer_right(
            seg_mem(addr + (off + n), data.skip((off + n) as int)),
        ) =~= acc.union_prefer_right(seg_mem(addr + off, data.skip(off as int))));
        assert(ihex_decode_mem(emitted.0, upper, acc) == ihex_decode_mem(rest.0, cu as nat, written));
    }
}

proof fn lemma_decode_body(segs: Seq<Segment>, width: nat, upper: nat, acc: Map<int, u8>)
    requires
        1 <= width <= 255,
        forall|i: int|
            0 <= i < segs.len() ==> (#[trigger] segs[i]).address + segs[i].data@.len()
                <= 0x1_0000_0000,
    ensures
        ihex_decode_mem(ihex_body_lines(segs, width, upper), upper, acc) matches Some(p) && p.0
            == acc.union_prefer_right(segs_mem(segs)),
    decreases segs.len(),
{
    if segs.len() == 0 {
        assert(acc.union_prefer_right(segs_mem(segs)) =~= acc);
    } else {
        let first = ihex_seg_lines(segs[0].address as nat, segs[0].data@, 0, width, upper);
        lemma_decode_append(first.0, ihex_body_lines(segs.drop_first(), width, first.1), upper, acc);
        lemma_decode_segment(segs[0].address as nat, segs[0].data@, 0, width, upper, acc);
        assert(segs[0].data@.skip(0) =~= segs[0].data@);
        let acc1 = acc.union_prefer_right(seg_mem(segs[0].address as nat, segs[0].data@));
        lemma_decode_body(segs.drop_first(), width, first.1, acc1);
        assert(acc1.union_prefer_right(segs_mem(segs.drop_first())) =~= acc.union_prefer_right(
            segs_mem(segs),
        ));
    }
}

/// The round trip: decoding a serialized Intel HEX document rebuilds
/// exactly the memory image of the original segments.
pub proof fn lemma_ihex_roundtrip(segs: Seq<Segment>, width: nat)
    requires
        1 <= width <= 255,
        forall|i: int|
            0 <= i < segs.len() ==> (#[trigger] segs[i]).address + segs[i].data@.len()
                <= 0x1_0000_0000,
    ensures
        ihex_decode_mem(ihex_lines_spec(segs, width), 0, Map::empty()) matches Some(p) && p.0
            == segs_mem(segs),
{
    lemma_decode_body(segs, width, 0, Map::empty());
    let body = ihex_body_lines(segs, width, 0);
    let eof = seq![ihex_line(0, 1, Seq::<u8>::empty())];
    lemma_decode_append(body, eof, 0, Map::empty());
    assert(ihex_lines_spec(segs, width) =~= body + eof);
    lemma_ihex_line_roundtrip(0, 1, Seq::empty());
    if let Some(p) = ihex_decode_mem(body, 0, Map::empty()) {
        assert(parse_ihex_line(eof[0]) == Some((1u8, 0 as nat, Seq::<u8>::empty())));
        assert(eof.drop_first() =~= Seq::<Seq<char>>::empty());
        assert(ihex_decode_mem(Seq::<Seq<char>>::empty(), p.1, p.0) == Some((p.0, p.1)));
        assert(ihex_decode_mem(eof, p.1, p.0) == Some((p.0, p.1)));
        assert(Map::<int, u8>::empty().union_prefer_right(segs_mem(segs)) =~= segs_mem(segs));
    }
}

// --- Motorola S-records --------------------------------------------------

/// The address byte count an S-record file uses, chosen by the largest
/// effective address: 2 up to 0xFFFF, 3 up to 0xFFFFFF, else 4.
pub open spec fn srec_addr_len(max_addr: nat) -> nat {
    if max_addr <= 0xFFFF {
        2
    } else if max_addr <= 0xFFFFFF {
        3
    } else {
        4
    }
}

/// The big-endian address bytes for the chosen width.
pub open spec fn srec_addr_bytes(addr: nat, alen: nat) -> Seq<u8> {
    if alen == 2 {
        seq![(addr / 0x100 % 256) as u8, (addr % 256) as u8]
    } else if alen == 3 {
        seq![(addr / 0x10000 % 256) as u8, (addr / 0x100 % 256) as u8, (addr % 256) as u8]
    } else {
        seq![
            (addr / 0x1000000 % 256) as u8,
            (addr / 0x10000 % 256) as u8,
            (addr / 0x100 % 256) as u8,
            (addr % 256) as u8,
        ]
    }
}

/// One S-record line: type character, count, address, payload, and the
/// one's-complement checksum.
pub open spec fn srec_line(tchar: char, addr: nat, alen: nat, payload: Seq<u8>) -> Seq<char> {
    let count = (alen + payload.len() + 1) as nat;
    let body = srec_addr_bytes(addr, alen) + payload;
    let ck = (255 - ((count + sum_bytes(body)) % 256)) as u8;
    seq!['S', tchar] + byte_hex(count as u8) + bytes_hex(body) + byte_hex(ck)
}

/// The data-record type character for an address width.
pub open spec fn srec_data_char(alen: nat) -> char {
    if alen == 2 {
        '1'
    } else if alen == 3 {
        '2'
    } else {
        '3'
    }
}

/// The terminator type character for an address width.
pub open spec fn srec_end_char(alen: nat) -> char {
    if alen == 2 {
        '9'
    } else if alen == 3 {
        '8'
    } else {
        '7'
    }
}

/// The data lines of one segment from `off` on.
pub open spec fn srec_seg_lines(addr: nat, data: Seq<u8>, off: nat, width: nat, alen: nat) -> Seq<
    Seq<char>,
>
    decreases data.len() - off when 1 <= width && off <= data.len()
{
    if off >= data.len() {
        Seq::empty()
    } else {
        let n = if width <= data.len() - off {
            width
        } else {
            (data.len() - off) as nat
        };
        seq![srec_line(srec_data_char(alen), addr + off, alen, data.subrange(off as int, (off + n) as int))]
            + srec_seg_lines(addr, data, off + n, width, alen)
    }
}

pub open spec fn srec_body_lines(segs: Seq<Segment>, width: nat, alen: nat) -> Seq<Seq<char>>
    decreases segs.len(),
{
    if segs.len() == 0 {
        Seq::empty()
    } else {
        srec_seg_lines(segs[0].address as nat, segs[0].data@, 0, width, alen) + srec_body_lines(
            segs.drop_first(),
            width,
            alen,
        )
    }
}

/// The largest address any emitted record names.
pub open spec fn max_end_address(segs: Seq<Segment>) -> nat
    decreases segs.len(),
{
    if segs.len() == 0 {
        0
    } else {
        let first = if segs[0].data@.len() == 0 {
            segs[0].address as nat
        } else {
            (segs[0].address + segs[0].data@.len() - 1) as nat
        };
        let rest = max_end_address(segs.drop_first());
        if first >= rest {
            first
        } else {
            rest
        }
    }
}

/// The full S-record document: data records at the auto-selected
/// address width and the matching terminator.
pub open spec fn srec_lines_spec(segs: Seq<Segment>, width: nat) -> Seq<Seq<char>> {
    let alen = srec_addr_len(max_end_address(segs));
    srec_body_lines(segs, width, alen) + seq![srec_line(srec_end_char(alen), 0, alen, Seq::empty())]
}

/// Builds one S-record line as text.
fn emit_srec_line(tchar: char, addr: u32, alen: u8, payload: &Vec<u8>, from: usize, to: usize) -> (r:
    String)
    requires
        2 <= alen <= 4,
        from <= to <= payload@.len(),
        to - from <= 250,
    ensures
        r@ == srec_line(tchar, addr as nat, alen as nat, payload@.subrange(from as int, to as int)),
{
    let ghost chunk = payload@.subrange(from as int, to as int);
    let mut body: Vec<u8> = Vec::new();
    if alen == 4 {
        body.push((addr / 0x1000000 % 256) as u8);
    }
    if alen >= 3 {
        body.push((addr / 0x10000 % 256) as u8);
    }
    body.push((addr / 0x100 % 256) as u8);
    body.push((addr % 256) as u8);
    proof {
        assert(body@ =~= srec_addr_bytes(addr as nat, alen as nat));
    }
    let mut i: usize = from;
    while i < to
        invariant
            from <= i <= to <= payload@.len(),
            chunk == payload@.subrange(from as int, to as int),
            body@ == srec_addr_bytes(addr as nat, alen as nat) + chunk.take((i - from) as int),
        decreases to - i,
    {
        body.push(payload[i]);
        i = i + 1;
        proof {
            assert(srec_addr_bytes(addr as nat, alen as nat) + chunk.take((i - from) as int)
                =~= (srec_addr_bytes(addr as nat, alen as nat) + chunk.take(
                (i - from - 1) as int,
            )).push(chunk[i - from - 1]));
        }
    }
    proof {
        assert(chunk.take((to - from) as int) =~= chunk);
        assert(body@ =~= srec_addr_bytes(addr as nat, alen as nat) + chunk);
    }
    let count: u8 = (alen as usize + (to - from) + 1) as u8;
    let mut sum: u32 = count as u32;
    let mut j: usize = 0;
    let blen: usize = body.len();
    proof {
        assert(body@.take(0) =~= Seq::<u8>::empty());
    }
    while j < blen
        invariant
            j <= blen,
            blen == body@.len(),
            blen <= 255,
            sum as nat == count + sum_bytes(body@.take(j as int)),
            sum <= 255 * (1 + j),
        decreases blen - j,
    {
        proof {
            lemma_sum_bytes_snoc(body@.take(j as int), body@[j as int]);
            assert(body@.take(j + 1) =~= body@.take(j as int).push(body@[j as int]));
        }
        sum = sum + (body[j] as u32);
        j = j + 1;
    }
    proof {
        assert(body@.take(blen as int) =~= body@);
    }
    let ck: u8 = (255 - (sum % 256)) as u8;
    let mut line: Vec<char> = Vec::new();
    line.push('S');
    line.push(tchar);
    push_byte_hex(&mut line, count);
    let ghost head = line@;
    let mut k: usize = 0;
    proof {
        assert(head + bytes_hex(body@.take(0)) =~= head);
    }
    while k < blen
        invariant
            k <= blen,
            blen == body@.len(),
            line@ == head + bytes_hex(body@.take(k as int)),
        decreases blen - k,
    {
        proof {
            lemma_bytes_hex_append(body@.take(k as int), seq![body@[k as int]]);
            assert(body@.take(k as int) + seq![body@[k as int]] =~= body@.take(k + 1));
            lemma_bytes_hex_single(body@[k as int]);
        }
        push_byte_hex(&mut line, body[k]);
        k = k + 1;
    }
    proof {
        assert(body@.take(blen as int) =~= body@);
    }
    push_byte_hex(&mut line, ck);
    proof {
        assert(line@ =~= srec_line(tchar, addr as nat, alen as nat, chunk));
    }
    string_of(&line)
}

/// Serializes segments as Motorola S-record lines.
pub fn serialize_srec(segs: &Vec<Segment>, width: usize) -> (r: Vec<String>)
    requires
        1 <= width <= 250,
        forall|i: int|
            0 <= i < segs@.len() ==> (#[trigger] segs@[i]).address + segs@[i].data@.len()
                <= 0x1_0000_0000,
    ensures
        r@.map_values(|s: String| s@) == srec_lines_spec(segs@, width as nat),
{
    // pick the address width from the largest address
    let mut maxa: u32 = 0;
    let mut i: usize = 0;
    proof {
        assert(segs@.skip(0) =~= segs@);
    }
    while i < segs.len()
        invariant
            i <= segs@.len(),
            forall|k: int|
                0 <= k < segs@.len() ==> (#[trigger] segs@[k]).address + segs@[k].data@.len()
                    <= 0x1_0000_0000,
            max_end_address(segs@) == (if maxa as nat >= max_end_address(segs@.skip(i as int)) {
                maxa as nat
            } else {
                max_end_address(segs@.skip(i as int))
            }),
        decreases segs@.len() - i,
    {
        proof {
            assert(segs@.skip(i as int).drop_first() =~= segs@.skip(i + 1));
            assert(segs@.skip(i as int)[0] == segs@[i as int]);
        }
        let seg = &segs[i];
        let end: u32 = if seg.data.len() == 0 {
            seg.address
        } else {
            seg.address + ((seg.data.len() - 1) as u32)
        };
        if end > maxa {
            maxa = end;
        }
        i = i + 1;
    }
    proof {
        assert(segs@.skip(segs@.len() as int) =~= Seq::<Segment>::empty());
    }
    let alen: u8 = if maxa <= 0xFFFF {
        2
    } else if maxa <= 0xFFFFFF {
        3
    } else {
        4
    };
    let tchar: char = if alen == 2 {
        '1'
    } else if alen == 3 {
        '2'
    } else {
        '3'
    };
    let echar: char = if alen == 2 {
        '9'
    } else if alen == 3 {
        '8'
    } else {
        '7'
    };
    let mut out: Vec<String> = Vec::new();
    let mut si: usize = 0;
    proof {
        assert(segs@.skip(0) =~= segs@);
        assert(Seq::<Seq<char>>::empty() + out@.map_values(|s: String| s@) =~= out@.map_values(
            |s: String| s@,
        ));
    }
    while si < segs.len()
        invariant
            si <= segs@.len(),
            forall|k: int|
                0 <= k < segs@.len() ==> (#[trigger] segs@[k]).address + segs@[k].data@.len()
                    <= 0x1_0000_0000,
            1 <= width <= 250,
            2 <= alen <= 4,
            alen as nat == srec_addr_len(max_end_address(segs@)),
            tchar == srec_data_char(alen as nat),
            echar == srec_end_char(alen as nat),
            srec_body_lines(segs@, width as nat, alen as nat) == out@.map_values(|s: String| s@)
                + srec_body_lines(segs@.skip(si as int), width as nat, alen as nat),
        decreases segs@.len() - si,
    {
        proof {
            assert(segs@.skip(si as int).drop_first() =~= segs@.skip(si + 1));
            assert(segs@.skip(si as int)[0] == segs@[si as int]);
        }
        let ghost prev = out@;
        emit_srec_segment(&segs[si], 0, width, alen, tchar, &mut out);
        proof {
            let first = srec_seg_lines(
                segs@[si as int].address as nat,
                segs@[si as int].data@,
                0,
                width as nat,
                alen as nat,
            );
            assert(prev.map_values(|s: String| s@) + (first + srec_body_lines(
                segs@.skip(si + 1),
                width as nat,
                alen as nat,
            )) =~= out@.map_values(|s: String| s@) + srec_body_lines(
                segs@.skip(si + 1),
                width as nat,
                alen as nat,
            ));
        }
        si = si + 1;
    }
    proof {
        assert(segs@.skip(segs@.len() as int) =~= Seq::<Segment>::empty());
        assert(srec_body_lines(segs@, width as nat, alen as nat) =~= out@.map_values(
            |s: String| s@,
        ));
    }
    let empty: Vec<u8> = Vec::new();
    proof {
        assert(empty@.subrange(0, 0) =~= Seq::<u8>::empty());
    }
    let endline = emit_srec_line(echar, 0, alen, &empty, 0, 0);
    let ghost prev = out@;
    out.push(endline);
    proof {
        assert(out@.map_values(|s: String| s@) =~= prev.map_values(|s: String| s@) + seq![
            srec_line(srec_end_char(alen as nat), 0, alen as nat, Seq::empty()),
        ]);
    }
    out
}

// --- The S-record round trip ---------------------------------------------

/// The value of big-endian bytes.
pub open spec fn be_value(s: Seq<u8>) -> nat
    decreases s.len(),
{
    if s.len() == 0 {
        0
    } else {
        (be_value(s.drop_last()) * 256 + s.last()) as nat
    }
}

proof fn lemma_be_value_addr(addr: nat, alen: nat)
    requires
        2 <= alen <= 4,
        addr < srec_addr_space(alen),
    ensures
        be_value(srec_addr_bytes(addr, alen)) == addr,
{
    let bs = srec_addr_bytes(addr, alen);
    if alen == 2 {
        let b0 = (addr / 0x100 % 256) as u8;
        let b1 = (addr % 256) as u8;
        assert(bs.drop_last() =~= seq![b0]);
        assert(seq![b0].drop_last() =~= Seq::<u8>::empty());
        assert(seq![b0].last() == b0);
        assert(be_value(Seq::<u8>::empty()) == 0);
        assert(be_value(seq![b0]) == b0);
        assert(be_value(bs) == b0 * 256 + b1);
    } else if alen == 3 {
        let b0 = (addr / 0x10000 % 256) as u8;
        let b1 = (addr / 0x100 % 256) as u8;
        let b2 = (addr % 256) as u8;
        assert(bs.drop_last() =~= seq![b0, b1]);
        assert(seq![b0, b1].drop_last() =~= seq![b0]);
        assert(seq![b0].drop_last() =~= Seq::<u8>::empty());
        assert(seq![b0].last() == b0);
        assert(be_value(Seq::<u8>::empty()) == 0);
        assert(be_value(seq![b0]) == b0);
        assert(be_value(seq![b0, b1]) == b0 * 256 + b1);
        assert(be_value(bs) == (b0 * 256 + b1) * 256 + b2);
    } else {
        let b0 = (addr / 0x1000000 % 256) as u8;
        let b1 = (addr / 0x10000 % 256) as u8;
        let b2 = (addr / 0x100 % 256) as u8;
        let b3 = (addr % 256) as u8;
        assert(bs.drop_last() =~= seq![b0, b1, b2]);
        assert(seq![b0, b1, b2].drop_last() =~= seq![b0, b1]);
        assert(seq![b0, b1].drop_last() =~= seq![b0]);
        assert(seq![b0].drop_last() =~= Seq::<u8>::empty());
        assert(seq![b0].last() == b0);
        assert(be_value(Seq::<u8>::empty()) == 0);
        assert(be_value(seq![b0]) == b0);
        assert(be_value(seq![b0, b1]) == b0 * 256 + b1);
        assert(be_value(seq![b0, b1, b2]) == (b0 * 256 + b1) * 256 + b2);
        assert(be_value(bs) == ((b0 * 256 + b1) * 256 + b2) * 256 + b3);
    }
}

/// The size of the address space an S-record width covers.
pub open spec fn srec_addr_space(alen: nat) -> nat {
    if alen == 2 {
        0x10000
    } else if alen == 3 {
        0x1000000
    } else {
        0x100000000
    }
}

/// Writes a data record's payload into the image at its address.
pub open spec fn swrite_bytes(acc: Map<int, u8>, addr: nat, payload: Seq<u8>) -> Map<int, u8>
    decreases payload.len(),
{
    if payload.len() == 0 {
        acc
    } else {
        swrite_bytes(acc.insert(addr as int, payload[0]), addr + 1, payload.drop_first())
    }
}

proof fn lemma_swrite_bytes_chunk(acc: Map<int, u8>, addr: nat, payload: Seq<u8>)
    ensures
        swrite_bytes(acc, addr, payload) == acc.union_prefer_right(seg_mem(addr, payload)),
    decreases payload.len(),
{
    if payload.len() == 0 {
        assert(acc.union_prefer_right(seg_mem(addr, payload)) =~= acc);
    } else {
        lemma_swrite_bytes_chunk(acc.insert(addr as int, payload[0]), addr + 1, payload.drop_first());
        assert(acc.insert(addr as int, payload[0]).union_prefer_right(
            seg_mem(addr + 1, payload.drop_first()),
        ) =~= acc.union_prefer_right(seg_mem(addr, payload)));
    }
}

/// Parses one S-record line against the file's address width: the type
/// character, the address, and the payload, provided the shape and the
/// one's-complement checksum hold.
#[verifier::opaque]
pub open spec fn parse_srec_line(line: Seq<char>, alen: nat) -> Option<(char, nat, Seq<u8>)> {
    if line.len() < 6 || line[0] != 'S' || (line.len() - 4) % 2 != 0 {
        None
    } else if !(forall|i: int| 2 <= i < line.len() ==> is_hex_digit(#[trigger] line[i])) {
        None
    } else {
        let count = parsed_byte(line, 2);
        if line.len() != 4 + 2 * count || count < alen + 1 {
            None
        } else {
            let body = Seq::new((count - 1) as nat, |i: int| parsed_byte(line, 4 + 2 * i) as u8);
            let abytes = body.take(alen as int);
            let payload = body.skip(alen as int);
            let ck = parsed_byte(line, line.len() - 2);
            if (count + sum_bytes(body) + ck) % 256 == 255 {
                Some((line[1], be_value(abytes), payload))
            } else {
                None
            }
        }
    }
}

/// Parsing an emitted S-record line gives back its type character,
/// address and payload.
pub proof fn lemma_srec_line_roundtrip(tchar: char, addr: nat, alen: nat, payload: Seq<u8>)
    requires
        2 <= alen <= 4,
        addr < srec_addr_space(alen),
        alen + payload.len() + 1 <= 255,
    ensures
        parse_srec_line(srec_line(tchar, addr, alen, payload), alen) == Some(
            (tchar, addr, payload),
        ),
{
    reveal(parse_srec_line);
    let line = srec_line(tchar, addr, alen, payload);
    let body = srec_addr_bytes(addr, alen) + payload;
    let count = (alen + payload.len() + 1) as nat;
    lemma_bytes_hex_shape(body);
    assert(body.len() == alen + payload.len());
    assert(line.len() == 4 + 2 * count);
    assert forall|i: int| 2 <= i < line.len() implies is_hex_digit(#[trigger] line[i]) by {
        lemma_srec_digits(tchar, addr, alen, payload, i);
    }
    lemma_srec_field_byte(tchar, addr, alen, payload, 2, count as u8);
    assert(parsed_byte(line, 2) == count);
    let parsed_body = Seq::new((count - 1) as nat, |i: int| parsed_byte(line, 4 + 2 * i) as u8);
    assert forall|i: int| 0 <= i < body.len() implies parsed_body[i] == body[i] by {
        assert(line[4 + 2 * i] == bytes_hex(body)[2 * i]);
        assert(line[4 + 2 * i + 1] == bytes_hex(body)[2 * i + 1]);
        lemma_hex_digit_roundtrip(body[i] as nat / 16);
        lemma_hex_digit_roundtrip(body[i] as nat % 16);
    }
    assert(parsed_body =~= body);
    assert(parsed_body.take(alen as int) =~= srec_addr_bytes(addr, alen));
    assert(parsed_body.skip(alen as int) =~= payload);
    lemma_be_value_addr(addr, alen);
    let ck = (255 - ((count + sum_bytes(body)) % 256)) as u8;
    lemma_srec_field_byte(tchar, addr, alen, payload, line.len() - 2, ck);
    let total = count + sum_bytes(body);
    assert((total + ck) % 256 == 255) by (nonlinear_arith)
        requires
            ck == 255 - (total % 256),
            total >= 0,
    ;
}

/// Every character after the type is a hex digit.
proof fn lemma_srec_digits(tchar: char, addr: nat, alen: nat, payload: Seq<u8>, i: int)
    requires
        2 <= alen <= 4,
        alen + payload.len() + 1 <= 255,
        2 <= i < srec_line(tchar, addr, alen, payload).len(),
    ensures
        is_hex_digit(srec_line(tchar, addr, alen, payload)[i]),
{
    let line = srec_line(tchar, addr, alen, payload);
    let body = srec_addr_bytes(addr, alen) + payload;
    let count = (alen + payload.len() + 1) as nat;
    let ck = (255 - ((count + sum_bytes(body)) % 256)) as u8;
    lemma_bytes_hex_shape(body);
    if i < 4 {
        lemma_hex_digit_roundtrip((count as u8) as nat / 16);
        lemma_hex_digit_roundtrip((count as u8) as nat % 16);
    } else if i < 4 + 2 * body.len() {
        let j = (i - 4) / 2;
        assert(line[4 + 2 * j] == bytes_hex(body)[2 * j]);
        assert(line[4 + 2 * j + 1] == bytes_hex(body)[2 * j + 1]);
        lemma_hex_digit_roundtrip(body[j] as nat / 16);
        lemma_hex_digit_roundtrip(body[j] as nat % 16);
        assert(i == 4 + 2 * j || i == 4 + 2 * j + 1);
    } else {
        lemma_hex_digit_roundtrip(ck as nat / 16);
        lemma_hex_digit_roundtrip(ck as nat % 16);
    }
}

/// The byte written at field offset `off` reads back as itself.
proof fn lemma_srec_field_byte(tchar: char, addr: nat, alen: nat, payload: Seq<u8>, off: int, b: u8)
    requires
        2 <= alen <= 4,
        alen + payload.len() + 1 <= 255,
        ({
            let line = srec_line(tchar, addr, alen, payload);
            &&& 2 <= off
            &&& off + 2 <= line.len()
            &&& line[off] == hex_digit_char(b as nat / 16)
            &&& line[off + 1] == hex_digit_char(b as nat % 16)
        }),
    ensures
        parsed_byte(srec_line(tchar, addr, alen, payload), off) == b,
{
    lemma_hex_digit_roundtrip(b as nat / 16);
    lemma_hex_digit_roundtrip(b as nat % 16);
}

/// Replays parsed S-record lines into a memory image: data records
/// write bytes, the terminator is inert; an unparsable or unknown
/// record refuses the document.
pub open spec fn srec_decode_mem(lines: Seq<Seq<char>>, alen: nat, acc: Map<int, u8>) -> Option<
    Map<int, u8>,
>
    decreases lines.len(),
{
    if lines.len() == 0 {
        Some(acc)
    } else {
        match parse_srec_line(lines[0], alen) {
            None => None,
            Some((t, addr, payload)) => {
                if t == srec_data_char(alen) {
                    srec_decode_mem(lines.drop_first(), alen, swrite_bytes(acc, addr, payload))
                } else if t == srec_end_char(alen) {
                    srec_decode_mem(lines.drop_first(), alen, acc)
                } else {
                    None
                }
            },
        }
    }
}

proof fn lemma_srec_decode_append(
    l1: Seq<Seq<char>>,
    l2: Seq<Seq<char>>,
    alen: nat,
    acc: Map<int, u8>,
)
    ensures
        srec_decode_mem(l1 + l2, alen, acc) == (match srec_decode_mem(l1, alen, acc) {
            None => None::<Map<int, u8>>,
            Some(m) => srec_decode_mem(l2, alen, m),
        }),
    decreases l1.len(),
{
    if l1.len() == 0 {
        assert(l1 + l2 =~= l2);
    } else {
        assert((l1 + l2)[0] == l1[0]);
        assert((l1 + l2).drop_first() =~= l1.drop_first() + l2);
        if let Some((t, addr, payload)) = parse_srec_line(l1[0], alen) {
            if t == srec_data_char(alen) {
                lemma_srec_decode_append(l1.drop_first(), l2, alen, swrite_bytes(acc, addr, payload));
            } else if t == srec_end_char(alen) {
                lemma_srec_decode_append(l1.drop_first(), l2, alen, acc);
            }
        }
    }
}

/// Decoding the records of one segment suffix extends the image by
/// exactly those bytes.
#[verifier::rlimit(100)]
#[verifier::spinoff_prover]
proof fn lemma_srec_decode_segment(
    addr: nat,
    data: Seq<u8>,
    off: nat,
    width: nat,
    alen: nat,
    acc: Map<int, u8>,
)
    requires
        1 <= width <= 250,
        2 <= alen <= 4,
        off <= data.len(),
        addr + data.len() <= srec_addr_space(alen),
    ensures
        srec_decode_mem(srec_seg_lines(addr, data, off, width, alen), alen, acc) == Some(
            acc.union_prefer_right(seg_mem(addr + off, data.skip(off as int))),
        ),
    decreases data.len() - off,
{
    let emitted = srec_seg_lines(addr, data, off, width, alen);
    if off >= data.len() {
        assert(acc.union_prefer_right(seg_mem(addr + off, data.skip(off as int))) =~= acc);
    } else {
        let n = if width <= data.len() - off {
            width
        } else {
            (data.len() - off) as nat
        };
        let chunk = data.subrange(off as int, (off + n) as int);
        let rec = srec_line(srec_data_char(alen), addr + off, alen, chunk);
        let rest = srec_seg_lines(addr, data, off + n, width, alen);
        lemma_srec_line_roundtrip(srec_data_char(alen), addr + off, alen, chunk);
        lemma_srec_decode_append(seq![rec], rest, alen, acc);
        assert(emitted =~= seq![rec] + rest);
        lemma_swrite_bytes_chunk(acc, addr + off, chunk);
        let written = acc.union_prefer_right(seg_mem(addr + off, chunk));
        assert(srec_decode_mem(seq![rec], alen, acc) == Some(written)) by {
            assert(seq![rec][0] == rec);
            assert(seq![rec].drop_first() =~= Seq::<Seq<char>>::empty());
            assert(srec_decode_mem(
                Seq::<Seq<char>>::empty(),
                alen,
                swrite_bytes(acc, addr + off, chunk),
            ) == Some(swrite_bytes(acc, addr + off, chunk)));
        }
        lemma_srec_decode_segment(addr, data, off + n, width, alen, written);
        assert(written.union_prefer_right(seg_mem(addr + (off + n), data.skip((off + n) as int)))
            =~= acc.union_prefer_right(seg_mem(addr + off, data.skip(off as int))));
    }
}

proof fn lemma_srec_decode_body(segs: Seq<Segment>, width: nat, alen: nat, acc: Map<int, u8>)
    requires
        1 <= width <= 250,
        2 <= alen <= 4,
        forall|i: int|
            0 <= i < segs.len() ==> (#[trigger] segs[i]).address + segs[i].data@.len()
                <= srec_addr_space(alen),
    ensures
        srec_decode_mem(srec_body_lines(segs, width, alen), alen, acc) == Some(
            acc.union_prefer_right(segs_mem(segs)),
        ),
    decreases segs.len(),
{
    if segs.len() == 0 {
        assert(acc.union_prefer_right(segs_mem(segs)) =~= acc);
    } else {
        let first = srec_seg_lines(segs[0].address as nat, segs[0].data@, 0, width, alen);
        lemma_srec_decode_append(
            first,
            srec_body_lines(segs.drop_first(), width, alen),
            alen,
            acc,
        );
        lemma_srec_decode_segment(segs[0].address as nat, segs[0].data@, 0, width, alen, acc);
        assert(segs[0].data@.skip(0) =~= segs[0].data@);
        let acc1 = acc.union_prefer_right(seg_mem(segs[0].address as nat, segs[0].data@));
        lemma_srec_decode_body(segs.drop_first(), width, alen, acc1);
        assert(acc1.union_prefer_right(segs_mem(segs.drop_first())) =~= acc.union_prefer_right(
            segs_mem(segs),
        ));
    }
}

/// A list of in-range segments has an in-range maximum address.
proof fn lemma_max_end_bound(segs: Seq<Segment>)
    requires
        forall|k: int|
            0 <= k < segs.len() ==> (#[trigger] segs[k]).address + segs[k].data@.len()
                <= 0x1_0000_0000,
    ensures
        max_end_address(segs) < 0x1_0000_0000,
    decreases segs.len(),
{
    if segs.len() > 0 {
        assert(forall|k: int|
            0 <= k < segs.len() - 1 ==> #[trigger] segs.drop_first()[k] == segs[k + 1]);
        lemma_max_end_bound(segs.drop_first());
    }
}

/// Every segment's last address stays within the chosen address width.
proof fn lemma_seg_within_width(segs: Seq<Segment>, i: int)
    requires
        0 <= i < segs.len(),
        forall|k: int|
            0 <= k < segs.len() ==> (#[trigger] segs[k]).address + segs[k].data@.len()
                <= 0x1_0000_0000,
    ensures
        segs[i].address + segs[i].data@.len() <= srec_addr_space(srec_addr_len(max_end_address(segs))),
    decreases segs.len(),
{
    let me = max_end_address(segs);
    lemma_max_end_bound(segs);
    if i == 0 {
        assert(me < srec_addr_space(srec_addr_len(me)));
    } else {
        assert(forall|k: int|
            0 <= k < segs.len() - 1 ==> #[trigger] segs.drop_first()[k] == segs[k + 1]);
        lemma_seg_within_width(segs.drop_first(), i - 1);
        // a larger maximum never narrows the width
        let sub = max_end_address(segs.drop_first());
        assert(sub <= me);
        assert(srec_addr_space(srec_addr_len(sub)) <= srec_addr_space(srec_addr_len(me)));
    }
}

/// The round trip: decoding a serialized S-record document rebuilds
/// exactly the memory image of the original segments.
pub proof fn lemma_srec_roundtrip(segs: Seq<Segment>, width: nat)
    requires
        1 <= width <= 250,
        forall|i: int|
            0 <= i < segs.len() ==> (#[trigger] segs[i]).address + segs[i].data@.len()
                <= 0x1_0000_0000,
    ensures
        ({
            let alen = srec_addr_len(max_end_address(segs));
            srec_decode_mem(srec_lines_spec(segs, width), alen, Map::empty()) == Some(
                segs_mem(segs),
            )
        }),
{
    let alen = srec_addr_len(max_end_address(segs));
    assert forall|i: int| 0 <= i < segs.len() implies (#[trigger] segs[i]).address
        + segs[i].data@.len() <= srec_addr_space(alen) by {
        lemma_seg_within_width(segs, i);
    }
    lemma_srec_decode_body(segs, width, alen, Map::empty());
    let body = srec_body_lines(segs, width, alen);
    let eof = seq![srec_line(srec_end_char(alen), 0, alen, Seq::<u8>::empty())];
    lemma_srec_decode_append(body, eof, alen, Map::empty());
    assert(srec_lines_spec(segs, width) =~= body + eof);
    lemma_srec_line_roundtrip(srec_end_char(alen), 0, alen, Seq::empty());
    if let Some(m) = srec_decode_mem(body, alen, Map::empty()) {
        assert(srec_decode_mem(eof, alen, m) == Some(m)) by {
            assert(eof[0] == srec_line(srec_end_char(alen), 0, alen, Seq::<u8>::empty()));
            assert(eof.drop_first() =~= Seq::<Seq<char>>::empty());
            assert(srec_decode_mem(Seq::<Seq<char>>::empty(), alen, m) == Some(m));
        }
        assert(Map::<int, u8>::empty().union_prefer_right(segs_mem(segs)) =~= segs_mem(segs));
    }
}

/// Emits one segment's S-record data lines.
fn emit_srec_segment(
    seg: &Segment,
    off: usize,
    width: usize,
    alen: u8,
    tchar: char,
    out: &mut Vec<String>,
)
    requires
        1 <= width <= 250,
        2 <= alen <= 4,
        off <= seg.data@.len(),
        seg.address + seg.data@.len() <= 0x1_0000_0000,
        tchar == srec_data_char(alen as nat),
    ensures
        final(out)@.map_values(|s: String| s@) == old(out)@.map_values(|s: String| s@)
            + srec_seg_lines(seg.address as nat, seg.data@, off as nat, width as nat, alen as nat),
    decreases seg.data@.len() - off,
{
    if off >= seg.data.len() {
        proof {
            assert(old(out)@.map_values(|s: String| s@) + Seq::<Seq<char>>::empty() =~= out@.map_values(
                |s: String| s@,
            ));
        }
        return ;
    }
    let rem: usize = seg.data.len() - off;
    let n: usize = if width <= rem {
        width
    } else {
        rem
    };
    let ghost prev = out@;
    let line = emit_srec_line(tchar, seg.address + (off as u32), alen, &seg.data, off, off + n);
    out.push(line);
    proof {
        assert(out@.map_values(|s: String| s@) =~= prev.map_values(|s: String| s@) + seq![
            srec_line(
                srec_data_char(alen as nat),
                (seg.address + off) as nat,
                alen as nat,
                seg.data@.subrange(off as int, (off + n) as int),
            ),
        ]);
    }
    let ghost mid = out@;
    emit_srec_segment(seg, off + n, width, alen, tchar, out);
    proof {
        assert(out@.map_values(|s: String| s@) =~= prev.map_values(|s: String| s@)
            + srec_seg_lines(
            seg.address as nat,
            seg.data@,
            off as nat,
            width as nat,
            alen as nat,
        ));
    }
}

} // verus!
