//! Building without any data source: inline values succeed, named
//! fields fail, and the factory reports no selection.

use mint_cli::data::create_data_source;
use mint_cli::data::source::MapDataSource;
use mint_cli::data::args::DataArgs;
use mint_cli::layout::block::{Block, CrcLocation};
use mint_cli::layout::convert::NumType;
use mint_cli::layout::encode::Endianness;
use mint_cli::layout::field::{Field, SizeDim};
use mint_cli::layout::settings::Settings;
use mint_cli::layout::used_values::NoopValueSink;
use mint_cli::layout::value::DataValue;
use mint_cli::output::records::{serialize_ihex, Segment};

fn settings_le() -> Settings {
    Settings { endianness: Endianness::Little, virtual_offset: 0, crc: None }
}

#[test]
fn test_build_without_excel() {
    // A block of inline values only needs no data source.
    let block = Block {
        start_address: 0x1000,
        length: 0x20,
        padding: 0x00,
        data: vec![
            (
                "magic".to_string(),
                Field::inline_scalar(DataValue::U64(0xDEAD), NumType::U32),
            ),
            (
                "table".to_string(),
                Field::inline_array(
                    vec![DataValue::U64(1), DataValue::U64(2)],
                    NumType::U16,
                    Some(SizeDim::One(4)),
                ),
            ),
        ],
        crc: None,
    };

    let mut sink = NoopValueSink;
    let (bytes, _padding) = block
        .build_bytestream(Option::<&MapDataSource>::None, &settings_le(), false, &mut sink)
        .expect("build should succeed without Excel file");
    assert_eq!(bytes.len(), 0x20);

    let segs = vec![Segment { address: block.start_address, data: bytes }];
    let lines = serialize_ihex(&segs, 32);
    assert!(lines.len() > 1, "Should build at least one block");
}

#[test]
fn test_error_when_name_without_excel() {
    // A named field with no data source configured must fail.
    let block = Block {
        start_address: 0x1000,
        length: 0x20,
        padding: 0x00,
        data: vec![
            (
                "temperature".to_string(),
                Field::named("TemperatureMax".to_string(), NumType::U16, None),
            ),
        ],
        crc: Some(CrcLocation::EndData),
    };

    let mut sink = NoopValueSink;
    let result = block.build_bytestream(
        Option::<&MapDataSource>::None,
        &settings_le(),
        false,
        &mut sink,
    );
    assert!(
        result.is_err(),
        "Expected error when using 'name' without Excel file"
    );

    let err = result.unwrap_err();
    let err_str = err.message();
    assert!(
        err_str.contains("requires a value from a data source"),
        "Error should mention missing data source, got: {}",
        err_str
    );
}

#[test]
fn test_factory_returns_none_without_datasource() {
    // Test that create_data_source returns None when no datasource is provided
    let args_no_datasource = DataArgs::default();

    let result = create_data_source(&args_no_datasource).expect("should return Ok(None)");
    assert!(
        result.is_none(),
        "create_data_source should return None when no datasource provided"
    );

    // Test with versions flag but no datasource
    let args_version_no_datasource = DataArgs {
        versions: Some("Default".to_string()),
        ..Default::default()
    };

    let result = create_data_source(&args_version_no_datasource).expect("should return Ok(None)");
    assert!(
        result.is_none(),
        "create_data_source should return None when no datasource provided, even with versions flag"
    );
}
