//! The record serializers: exact Intel HEX and S-record line text.

use mint_cli::layout::encode::{push_scalar_bytes, read_scalar, Endianness};
use mint_cli::output::records::{serialize_ihex, serialize_srec, Segment};

#[test]
fn ihex_emits_data_and_eof_records() {
    let segs = vec![Segment { address: 0x0000, data: vec![1, 2, 3, 4] }];
    let lines = serialize_ihex(&segs, 16);
    assert_eq!(lines.len(), 2);
    assert_eq!(lines[0], ":0400000001020304F2");
    assert_eq!(lines[1], ":00000001FF");
}

#[test]
fn ihex_splits_records_at_the_width() {
    let segs = vec![Segment { address: 0x0010, data: (0..8u8).collect() }];
    let lines = serialize_ihex(&segs, 4);
    assert_eq!(lines.len(), 3);
    assert_eq!(lines[0], ":0400100000010203E6");
    assert_eq!(lines[1], ":0400140004050607D2");
    assert_eq!(lines[2], ":00000001FF");
}

#[test]
fn ihex_emits_extended_linear_address_for_high_segments() {
    let segs = vec![Segment { address: 0x80000, data: vec![0xAB] }];
    let lines = serialize_ihex(&segs, 16);
    assert_eq!(lines.len(), 3);
    // upper word 0x0008 first
    assert_eq!(lines[0], ":020000040008F2");
    assert_eq!(lines[1], ":01000000AB54");
    assert_eq!(lines[2], ":00000001FF");
}

#[test]
fn srec_uses_16_bit_addresses_for_small_images() {
    let segs = vec![Segment { address: 0x0010, data: vec![0x48] }];
    let lines = serialize_srec(&segs, 16);
    assert_eq!(lines.len(), 2);
    assert_eq!(lines[0], "S104001048A3");
    assert_eq!(lines[1], "S9030000FC");
}

#[test]
fn srec_widens_addresses_with_the_image() {
    let segs = vec![Segment { address: 0x123456, data: vec![0xFF] }];
    let lines = serialize_srec(&segs, 16);
    assert_eq!(lines.len(), 2);
    assert!(lines[0].starts_with("S205123456FF"));
    assert!(lines[1].starts_with("S804000000"));

    let segs = vec![Segment { address: 0x01000000, data: vec![0x00] }];
    let lines = serialize_srec(&segs, 16);
    assert!(lines[0].starts_with("S3"));
    assert!(lines[1].starts_with("S7"));
}

#[test]
fn scalar_bytes_round_trip_in_both_orders() {
    for e in [Endianness::Little, Endianness::Big] {
        let mut buf: Vec<u8> = Vec::new();
        push_scalar_bytes(&mut buf, 0x1122334455667788, 8, e);
        assert_eq!(read_scalar(&buf, 0, 8, e), 0x1122334455667788);
    }
    let mut buf: Vec<u8> = Vec::new();
    push_scalar_bytes(&mut buf, 0xBEEF, 2, Endianness::Big);
    assert_eq!(buf, vec![0xBE, 0xEF]);
    let mut buf2: Vec<u8> = Vec::new();
    push_scalar_bytes(&mut buf2, 0xBEEF, 2, Endianness::Little);
    assert_eq!(buf2, vec![0xEF, 0xBE]);
}
