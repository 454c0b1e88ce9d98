//! Block building: bitmaps, strings, CRC placement, and endianness.

use mint_cli::data::source::{MapDataSource, RawEntry, VersionData};
use mint_cli::layout::block::{Block, CrcLocation};
use mint_cli::layout::convert::NumType;
use mint_cli::layout::crc::{crc32_range, CrcParams};
use mint_cli::layout::encode::Endianness;
use mint_cli::layout::field::{BitmapEntry, Field, FieldValue, SizeDim};
use mint_cli::layout::settings::{CrcArea, CrcSettings, Settings};
use mint_cli::layout::used_values::{NoopValueSink, RecordingSink, ReportValue};
use mint_cli::layout::value::DataValue;

fn iso_hdlc() -> CrcParams {
    CrcParams {
        polynomial: 0x04C11DB7,
        start: 0xFFFFFFFF,
        xor_out: 0xFFFFFFFF,
        ref_in: true,
        ref_out: true,
    }
}

fn default_source() -> MapDataSource {
    let avail = vec![VersionData {
        name: "Default".to_string(),
        entries: vec![
            ("EnableDebug".to_string(), RawEntry::Scalar(DataValue::U64(1))),
            ("RegionCode".to_string(), RawEntry::Scalar(DataValue::U64(7))),
            (
                "Coeffs".to_string(),
                RawEntry::List(vec![
                    DataValue::U64(10),
                    DataValue::U64(20),
                    DataValue::U64(30),
                ]),
            ),
            ("DeviceName".to_string(), RawEntry::Scalar(DataValue::Str("UnitA".to_string()))),
        ],
    }];
    MapDataSource::with_stack(&avail, &vec!["Default".to_string()]).expect("datasource loads")
}

#[test]
fn crc32_matches_the_standard_check_value() {
    let input: Vec<u8> = b"123456789".to_vec();
    let crc = crc32_range(&iso_hdlc(), &input, 0, input.len());
    assert_eq!(crc, 0xCBF43926);
}

#[test]
fn bitmap_packs_msb_first() {
    let flags = Field {
        name: None,
        value: None,
        ty: NumType::U8,
        size: None,
        size_exact: None,
        bitmap: Some(vec![
            BitmapEntry { bits: 1, name: Some("EnableDebug".to_string()), value: None },
            BitmapEntry { bits: 3, name: None, value: Some(0) },
            BitmapEntry { bits: 4, name: Some("RegionCode".to_string()), value: None },
        ]),
    };
    let block = Block {
        start_address: 0x1000,
        length: 4,
        padding: 0x00,
        data: vec![("flags".to_string(), flags)],
        crc: None,
    };
    let settings = Settings { endianness: Endianness::Little, virtual_offset: 0, crc: None };
    let ds = default_source();
    let mut sink = RecordingSink::new();
    let (bytes, _) = block
        .build_bytestream(Some(&ds), &settings, false, &mut sink)
        .expect("bitmap builds");
    // 1 | 000 | 0111 laid out most-significant first
    assert_eq!(bytes[0], 0x87);

    // the sink sees each sub-field, reserved entries unnamed
    assert_eq!(sink.entries.len(), 3);
    assert!(matches!(
        &sink.entries[0].1,
        ReportValue::BitmapPart { start_bit: 0, bits: 1, name: Some(n), value: 1 } if n == "EnableDebug"
    ));
    assert!(matches!(
        &sink.entries[1].1,
        ReportValue::BitmapPart { start_bit: 1, bits: 3, name: None, value: 0 }
    ));
    assert!(matches!(
        &sink.entries[2].1,
        ReportValue::BitmapPart { start_bit: 4, bits: 4, name: Some(n), value: 7 } if n == "RegionCode"
    ));
}

#[test]
fn crc_at_end_covers_zeroed_slot() {
    let block = Block {
        start_address: 0x2000,
        length: 16,
        padding: 0xAA,
        data: vec![(
            "payload".to_string(),
            Field::inline_array(
                vec![DataValue::U64(0x11), DataValue::U64(0x22)],
                NumType::U8,
                None,
            ),
        )],
        crc: Some(CrcLocation::EndData),
    };
    let settings = Settings {
        endianness: Endianness::Little,
        virtual_offset: 0,
        crc: Some(CrcSettings { params: iso_hdlc(), area: CrcArea::Data }),
    };
    let mut sink = NoopValueSink;
    let (bytes, _) = block
        .build_bytestream(Option::<&MapDataSource>::None, &settings, false, &mut sink)
        .expect("crc builds");
    assert_eq!(bytes.len(), 16);
    // recompute: the block with its CRC slot zeroed
    let mut zeroed = bytes.clone();
    for b in &mut zeroed[12..16] {
        *b = 0;
    }
    let expect = crc32_range(&iso_hdlc(), &zeroed, 0, 16);
    assert_eq!(&bytes[12..16], &expect.to_le_bytes());
}

#[test]
fn crc_at_absolute_address() {
    let block = Block {
        start_address: 0x100,
        length: 16,
        padding: 0x00,
        data: vec![(
            "payload".to_string(),
            Field::inline_array(vec![DataValue::U64(0xAB)], NumType::U8, None),
        )],
        crc: Some(CrcLocation::Absolute(0x104)),
    };
    let settings = Settings {
        endianness: Endianness::Big,
        virtual_offset: 0,
        crc: Some(CrcSettings { params: iso_hdlc(), area: CrcArea::Data }),
    };
    let mut sink = NoopValueSink;
    let (bytes, _) = block
        .build_bytestream(Option::<&MapDataSource>::None, &settings, false, &mut sink)
        .expect("crc builds");
    let mut zeroed = bytes.clone();
    for b in &mut zeroed[4..8] {
        *b = 0;
    }
    let expect = crc32_range(&iso_hdlc(), &zeroed, 0, 16);
    assert_eq!(&bytes[4..8], &expect.to_be_bytes());
}

#[test]
fn crc_slot_outside_block_is_refused() {
    let block = Block {
        start_address: 0x100,
        length: 8,
        padding: 0x00,
        data: vec![],
        crc: Some(CrcLocation::Absolute(0x106)),
    };
    let settings = Settings {
        endianness: Endianness::Little,
        virtual_offset: 0,
        crc: Some(CrcSettings { params: iso_hdlc(), area: CrcArea::Data }),
    };
    let mut sink = NoopValueSink;
    let res = block.build_bytestream(
        Option::<&MapDataSource>::None,
        &settings,
        false,
        &mut sink,
    );
    assert!(matches!(
        res,
        Err(mint_cli::layout::error::LayoutError::CrcRangeInvalid)
    ));
}

#[test]
fn big_endian_orders_scalar_bytes() {
    let block = Block {
        start_address: 0,
        length: 8,
        padding: 0,
        data: vec![(
            "word".to_string(),
            Field::inline_scalar(DataValue::U64(0x11223344), NumType::U32),
        )],
        crc: None,
    };
    let be = Settings { endianness: Endianness::Big, virtual_offset: 0, crc: None };
    let le = Settings { endianness: Endianness::Little, virtual_offset: 0, crc: None };
    let mut sink = NoopValueSink;
    let (b, _) = block
        .build_bytestream(Option::<&MapDataSource>::None, &be, false, &mut sink)
        .unwrap();
    assert_eq!(&b[0..4], &[0x11, 0x22, 0x33, 0x44]);
    let (l, _) = block
        .build_bytestream(Option::<&MapDataSource>::None, &le, false, &mut sink)
        .unwrap();
    assert_eq!(&l[0..4], &[0x44, 0x33, 0x22, 0x11]);
}

#[test]
fn string_field_pads_with_nul() {
    let block = Block {
        start_address: 0,
        length: 8,
        padding: 0xEE,
        data: vec![(
            "message".to_string(),
            Field {
                name: None,
                value: Some(FieldValue::Scalar(DataValue::Str("Hi".to_string()))),
                ty: NumType::U8,
                size: Some(SizeDim::One(4)),
                size_exact: None,
                bitmap: None,
            },
        )],
        crc: None,
    };
    let settings = Settings { endianness: Endianness::Little, virtual_offset: 0, crc: None };
    let mut sink = NoopValueSink;
    let (bytes, _) = block
        .build_bytestream(Option::<&MapDataSource>::None, &settings, false, &mut sink)
        .unwrap();
    assert_eq!(&bytes[0..4], &[b'H', b'i', 0, 0]);
    assert_eq!(&bytes[4..8], &[0xEE; 4]);
}

#[test]
fn string_field_too_long_for_size_fails() {
    let block = Block {
        start_address: 0,
        length: 8,
        padding: 0,
        data: vec![(
            "message".to_string(),
            Field {
                name: None,
                value: Some(FieldValue::Scalar(DataValue::Str("Hello".to_string()))),
                ty: NumType::U8,
                size: Some(SizeDim::One(5)),
                size_exact: None,
                bitmap: None,
            },
        )],
        crc: None,
    };
    let settings = Settings { endianness: Endianness::Little, virtual_offset: 0, crc: None };
    let mut sink = NoopValueSink;
    // five bytes plus the final NUL need six, but only five are given
    let res = block.build_bytestream(
        Option::<&MapDataSource>::None,
        &settings,
        false,
        &mut sink,
    );
    assert!(matches!(
        res,
        Err(mint_cli::layout::error::LayoutError::SizeMismatch { .. })
    ));
}

#[test]
fn named_fields_resolve_through_the_source() {
    let ds = default_source();
    let block = Block {
        start_address: 0,
        length: 0x20,
        padding: 0,
        data: vec![
            (
                "device.name".to_string(),
                Field::named("DeviceName".to_string(), NumType::U8, Some(SizeDim::One(8))),
            ),
            (
                "coeffs".to_string(),
                Field::named("Coeffs".to_string(), NumType::U16, Some(SizeDim::One(3))),
            ),
        ],
        crc: None,
    };
    let settings = Settings { endianness: Endianness::Little, virtual_offset: 0, crc: None };
    let mut sink = RecordingSink::new();
    let (bytes, _) = block
        .build_bytestream(Some(&ds), &settings, false, &mut sink)
        .expect("build with source");
    assert_eq!(&bytes[0..8], &[b'U', b'n', b'i', b't', b'A', 0, 0, 0]);
    assert_eq!(&bytes[8..14], &[10, 0, 20, 0, 30, 0]);
    assert_eq!(sink.entries[0].0, "device.name");
    assert!(matches!(&sink.entries[1].1, ReportValue::Array(a) if a.len() == 3));
}
