//! The `size` / `SIZE` rules: lower-bound padding, exact matching, and
//! the duplicate-specification error.

use mint_cli::data::source::MapDataSource;
use mint_cli::layout::block::Block;
use mint_cli::layout::convert::NumType;
use mint_cli::layout::encode::Endianness;
use mint_cli::layout::error::LayoutError;
use mint_cli::layout::field::{BitmapEntry, Field, FieldValue, SizeDim};
use mint_cli::layout::settings::Settings;
use mint_cli::layout::used_values::NoopValueSink;
use mint_cli::layout::value::DataValue;

fn settings_le() -> Settings {
    Settings { endianness: Endianness::Little, virtual_offset: 0, crc: None }
}

fn u16_array_block(size: Option<SizeDim>, size_exact: Option<SizeDim>) -> Block {
    let field = Field {
        name: None,
        value: Some(FieldValue::Array(vec![
            DataValue::U64(1),
            DataValue::U64(2),
            DataValue::U64(3),
        ])),
        ty: NumType::U16,
        size,
        size_exact,
        bitmap: None,
    };
    Block {
        start_address: 0x80000,
        length: 0x100,
        padding: 0xFF,
        data: vec![("short_array".to_string(), field)],
        crc: None,
    }
}

fn build(block: &Block) -> Result<(Vec<u8>, u32), LayoutError> {
    let mut sink = NoopValueSink;
    block.build_bytestream(Option::<&MapDataSource>::None, &settings_le(), false, &mut sink)
}

#[test]
fn lowercase_size_allows_padding() {
    let block = u16_array_block(Some(SizeDim::One(10)), None);
    let (bytes, padding) = build(&block).expect("lowercase size should allow padding");
    assert!(bytes.len() >= 20);
    assert_eq!(bytes.len(), 0x100);
    // three encoded elements, then zero-valued element padding
    assert_eq!(&bytes[0..6], &[1, 0, 2, 0, 3, 0]);
    assert_eq!(&bytes[6..20], &[0u8; 14]);
    // the block remainder carries the fill byte
    assert!(bytes[20..].iter().all(|b| *b == 0xFF));
    assert_eq!(padding, 0x100 - 20);
}

#[test]
fn uppercase_size_rejects_underfilled_1d() {
    let block = u16_array_block(None, Some(SizeDim::One(10)));
    let res = build(&block);
    assert!(res.is_err(), "SIZE should reject underfilled array");
    let err = res.unwrap_err();
    assert!(matches!(
        err,
        LayoutError::SizeMismatch { expected: 10, actual: 3, .. }
    ));
    assert!(err.message().contains("smaller than defined size"));
}

#[test]
fn uppercase_size_rejects_underfilled_2d() {
    let field = Field {
        name: None,
        value: Some(FieldValue::Table(vec![
            vec![DataValue::I64(1), DataValue::I64(2), DataValue::I64(3)],
            vec![DataValue::I64(4), DataValue::I64(5), DataValue::I64(6)],
        ])),
        ty: NumType::I16,
        size: None,
        size_exact: Some(SizeDim::Two(5, 3)),
        bitmap: None,
    };
    let block = Block {
        start_address: 0x80000,
        length: 0x1000,
        padding: 0xFF,
        data: vec![("matrix".to_string(), field)],
        crc: None,
    };
    let res = build(&block);
    assert!(res.is_err(), "SIZE should reject underfilled 2D array");
    let err = res.unwrap_err();
    assert!(err.message().contains("smaller than defined size"));
}

#[test]
fn both_size_and_uppercase_size_errors() {
    let block = u16_array_block(Some(SizeDim::One(5)), Some(SizeDim::One(10)));
    let res = build(&block);
    assert!(res.is_err(), "Using both size and SIZE should error");
    let err = res.unwrap_err();
    assert!(matches!(err, LayoutError::DuplicateSizeSpec { .. }));
    assert_eq!(err.message(), "Use either 'size' or 'SIZE', not both");
}

#[test]
fn uppercase_size_accepts_exact_match() {
    let field = Field {
        name: None,
        value: Some(FieldValue::Array(vec![
            DataValue::U64(1),
            DataValue::U64(2),
            DataValue::U64(3),
            DataValue::U64(4),
            DataValue::U64(5),
        ])),
        ty: NumType::U16,
        size: None,
        size_exact: Some(SizeDim::One(5)),
        bitmap: None,
    };
    let block = Block {
        start_address: 0x80000,
        length: 0x100,
        padding: 0xFF,
        data: vec![("exact_array".to_string(), field)],
        crc: None,
    };
    let (bytes, _padding) = build(&block).expect("SIZE should accept exact match");
    assert!(bytes.len() >= 10);
    assert_eq!(&bytes[0..10], &[1, 0, 2, 0, 3, 0, 4, 0, 5, 0]);
}

#[test]
fn block_overflow_is_rejected() {
    let field = Field {
        name: None,
        value: Some(FieldValue::Array(vec![DataValue::U64(1); 9])),
        ty: NumType::U16,
        size: None,
        size_exact: None,
        bitmap: None,
    };
    let block = Block {
        start_address: 0,
        length: 16,
        padding: 0,
        data: vec![("too_long".to_string(), field)],
        crc: None,
    };
    let res = build(&block);
    assert!(matches!(res, Err(LayoutError::BlockOverflow)));
}

#[test]
fn bitmap_width_must_match_type() {
    let field = Field {
        name: None,
        value: None,
        ty: NumType::U8,
        size: None,
        size_exact: None,
        bitmap: Some(vec![
            BitmapEntry { bits: 3, name: None, value: Some(1) },
            BitmapEntry { bits: 3, name: None, value: Some(2) },
        ]),
    };
    let block = Block {
        start_address: 0,
        length: 4,
        padding: 0,
        data: vec![("flags".to_string(), field)],
        crc: None,
    };
    let res = build(&block);
    assert!(matches!(res, Err(LayoutError::BitmapWidthMismatch { .. })));
}
