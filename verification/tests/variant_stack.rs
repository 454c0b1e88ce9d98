//! Version stacks: priority order, trimming, and boolean cells.

use mint_cli::data::source::{MapDataSource, RawEntry, VersionData};
use mint_cli::data::args::DataArgs;
use mint_cli::data::DataSource;
use mint_cli::layout::value::DataValue;

fn versions_table() -> Vec<VersionData> {
    vec![
        VersionData {
            name: "Default".to_string(),
            entries: vec![
                ("TemperatureMax".to_string(), RawEntry::Scalar(DataValue::U64(50))),
                ("Value 2".to_string(), RawEntry::Scalar(DataValue::U64(2))),
                ("boolean".to_string(), RawEntry::Scalar(DataValue::Bool(true))),
            ],
        },
        VersionData {
            name: "Debug".to_string(),
            entries: vec![
                ("TemperatureMax".to_string(), RawEntry::Scalar(DataValue::U64(60))),
                ("boolean".to_string(), RawEntry::Scalar(DataValue::Bool(true))),
            ],
        },
        VersionData {
            name: "VarA".to_string(),
            entries: vec![
                ("TemperatureMax".to_string(), RawEntry::Scalar(DataValue::U64(55))),
                ("boolean".to_string(), RawEntry::Scalar(DataValue::Bool(false))),
            ],
        },
    ]
}

fn build_source(version: &str) -> MapDataSource {
    let args = DataArgs {
        versions: Some(version.to_string()),
        ..Default::default()
    };
    let stack = args.get_version_list();
    MapDataSource::with_stack(&versions_table(), &stack).expect("datasource load")
}

fn value_as_i64(value: DataValue) -> i64 {
    match value {
        DataValue::I64(v) => v,
        DataValue::U64(v) => v as i64,
        DataValue::F64(bits) => f64::from_bits(bits) as i64,
        DataValue::Bool(v) => i64::from(v),
        DataValue::Str(s) => panic!("expected numeric value, got {}", s),
    }
}

#[test]
fn stacked_versions_respect_order() {
    let ds = build_source("VarA/Debug/Default");
    let value = ds
        .retrieve_single_value("TemperatureMax")
        .expect("value present");
    assert_eq!(value_as_i64(value), 55);
}

#[test]
fn stacked_versions_fall_back_when_empty() {
    let ds = build_source(" VarA / Debug / Default ");
    let value = ds.retrieve_single_value("Value 2").expect("value present");
    assert_eq!(value_as_i64(value), 2);
}

#[test]
fn boolean_cell_retrieves_default_true() {
    let ds = build_source("Default");
    let value = ds
        .retrieve_single_value("boolean")
        .expect("boolean present");
    assert!(matches!(value, DataValue::Bool(true)));
}

#[test]
fn boolean_cell_retrieves_debug_true() {
    let ds = build_source("Debug/Default");
    let value = ds
        .retrieve_single_value("boolean")
        .expect("boolean present");
    assert!(matches!(value, DataValue::Bool(true)));
}

#[test]
fn boolean_cell_retrieves_vara_false() {
    let ds = build_source("VarA/Default");
    let value = ds
        .retrieve_single_value("boolean")
        .expect("boolean present");
    assert!(matches!(value, DataValue::Bool(false)));
}
