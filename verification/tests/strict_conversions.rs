//! Strict-mode conversion rules: exact values pass, value-changing
//! conversions are refused, lenient mode casts.

use mint_cli::data::source::MapDataSource;
use mint_cli::layout::block::Block;
use mint_cli::layout::convert::{convert_value, ConvErr, NumType};
use mint_cli::layout::encode::Endianness;
use mint_cli::layout::error::LayoutError;
use mint_cli::layout::field::Field;
use mint_cli::layout::settings::Settings;
use mint_cli::layout::used_values::NoopValueSink;
use mint_cli::layout::value::DataValue;

fn settings_le() -> Settings {
    Settings { endianness: Endianness::Little, virtual_offset: 0, crc: None }
}

fn one_field_block(name: &str, field: Field) -> Block {
    Block {
        start_address: 0x80000,
        length: 0x100,
        padding: 0x00,
        data: vec![(name.to_string(), field)],
        crc: None,
    }
}

fn build_strict(block: &Block) -> Result<(Vec<u8>, u32), LayoutError> {
    let mut sink = NoopValueSink;
    block.build_bytestream(Option::<&MapDataSource>::None, &settings_le(), true, &mut sink)
}

#[test]
fn strict_conversions_success() {
    let block = Block {
        start_address: 0x80000,
        length: 0x100,
        padding: 0x00,
        data: vec![
            (
                "ok.float_exact_to_i16".to_string(),
                Field::inline_scalar(DataValue::F64((42.0f64).to_bits()), NumType::I16),
            ),
            (
                "ok.int_exact_to_f32".to_string(),
                Field::inline_scalar(DataValue::U64(16777216), NumType::F32),
            ),
        ],
        crc: None,
    };
    let (bytes, _padding) = build_strict(&block).expect("strict conversions should succeed");
    assert!(!bytes.is_empty());
    // 42.0 encodes as the two-byte little-endian integer
    assert_eq!(&bytes[0..2], &[0x2A, 0x00]);
    // 16777216 = 2^24 is exactly representable as binary32
    let f32_bits = u32::from_le_bytes([bytes[2], bytes[3], bytes[4], bytes[5]]);
    assert_eq!(f32::from_bits(f32_bits), 16777216.0f32);
}

#[test]
fn strict_conversions_fail_fractional_float_to_int() {
    let block = one_field_block(
        "bad.frac_to_u8",
        Field::inline_scalar(DataValue::F64((1.5f64).to_bits()), NumType::U8),
    );
    let res = build_strict(&block);
    assert!(
        res.is_err(),
        "strict mode should reject fractional float to int"
    );
    assert!(matches!(res.unwrap_err(), LayoutError::LossyConversion { .. }));
}

#[test]
fn strict_conversions_fail_large_int_to_f64_lossy() {
    let block = one_field_block(
        "bad.large_int_to_f64",
        Field::inline_scalar(DataValue::U64(9007199254740993), NumType::F64),
    );
    let res = build_strict(&block);
    assert!(
        res.is_err(),
        "strict mode should reject lossy int to f64 conversion"
    );
}

#[test]
fn strict_conversions_accept_bool_literals() {
    let block = Block {
        start_address: 0x80000,
        length: 0x100,
        padding: 0x00,
        data: vec![
            (
                "bools.true_flag".to_string(),
                Field::inline_scalar(DataValue::Bool(true), NumType::U8),
            ),
            (
                "bools.false_flag".to_string(),
                Field::inline_scalar(DataValue::Bool(false), NumType::U8),
            ),
            (
                "bools.array_flags".to_string(),
                Field::inline_array(
                    vec![
                        DataValue::Bool(true),
                        DataValue::Bool(false),
                        DataValue::Bool(true),
                    ],
                    NumType::U8,
                    Some(mint_cli::layout::field::SizeDim::One(3)),
                ),
            ),
        ],
        crc: None,
    };
    let (bytes, _padding) = build_strict(&block).expect("bool literals convert");
    assert!(
        bytes.starts_with(&[1, 0, 1, 0, 1]),
        "bool values should map to 0/1, got {:?}",
        &bytes[..5.min(bytes.len())]
    );
}

#[test]
fn strict_exact_int_to_f64_boundary() {
    // 2^53 is exact; 2^53 + 1 is not.
    let exact = convert_value(&DataValue::U64(9007199254740992), NumType::F64, true);
    assert!(exact.is_ok());
    assert_eq!(f64::from_bits(exact.unwrap()), 9007199254740992.0);

    let lossy = convert_value(&DataValue::U64(9007199254740993), NumType::F64, true);
    assert_eq!(lossy, Err(ConvErr::Lossy));
}

#[test]
fn lenient_casts_saturate_and_truncate() {
    // float to int saturates in lenient mode
    let r = convert_value(&DataValue::F64((300.7f64).to_bits()), NumType::U8, false);
    assert_eq!(r, Ok(255));
    let r = convert_value(&DataValue::F64((-5.9f64).to_bits()), NumType::U8, false);
    assert_eq!(r, Ok(0));
    let r = convert_value(&DataValue::F64((1.5f64).to_bits()), NumType::U8, false);
    assert_eq!(r, Ok(1));
    let r = convert_value(&DataValue::F64(f64::NAN.to_bits()), NumType::I16, false);
    assert_eq!(r, Ok(0));
    // int to int truncates as a bit pattern
    let r = convert_value(&DataValue::U64(0x1FF), NumType::U8, false);
    assert_eq!(r, Ok(0xFF));
    let r = convert_value(&DataValue::I64(-1), NumType::U16, false);
    assert_eq!(r, Ok(0xFFFF));
    // while strict refuses all of these
    assert_eq!(
        convert_value(&DataValue::U64(0x1FF), NumType::U8, true),
        Err(ConvErr::Lossy)
    );
    assert_eq!(
        convert_value(&DataValue::I64(-1), NumType::U16, true),
        Err(ConvErr::Lossy)
    );
}

#[test]
fn negative_values_encode_twos_complement() {
    let r = convert_value(&DataValue::I64(-2), NumType::I16, true);
    assert_eq!(r, Ok(0xFFFE));
    let r = convert_value(&DataValue::I64(-128), NumType::I8, true);
    assert_eq!(r, Ok(0x80));
    let r = convert_value(&DataValue::I64(-129), NumType::I8, true);
    assert_eq!(r, Err(ConvErr::Lossy));
    let r = convert_value(&DataValue::F64((-42.0f64).to_bits()), NumType::I8, true);
    assert_eq!(r, Ok(0xD6));
}

#[test]
fn strings_never_convert_to_numbers() {
    let r = convert_value(&DataValue::Str("12".to_string()), NumType::U8, false);
    assert_eq!(r, Err(ConvErr::TypeMismatch));
}

#[test]
fn strict_f64_to_f32_requires_exact_widening() {
    let exact = convert_value(&DataValue::F64((0.5f64).to_bits()), NumType::F32, true);
    assert_eq!(
        exact.map(|b| f32::from_bits(b as u32)),
        Ok(0.5f32)
    );
    let lossy = convert_value(&DataValue::F64((0.1f64).to_bits()), NumType::F32, true);
    assert_eq!(lossy, Err(ConvErr::Lossy));
    let lenient = convert_value(&DataValue::F64((0.1f64).to_bits()), NumType::F32, false);
    assert_eq!(lenient.map(|b| f32::from_bits(b as u32)), Ok(0.1f32));
}
