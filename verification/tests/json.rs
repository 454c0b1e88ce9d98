//! The JSON-backed data source: version priority, fallback, and the 1D
//! string tokenizer, driven through the common post-parse shape.

use mint_cli::data::args::DataArgs;
use mint_cli::data::error::DataError;
use mint_cli::data::source::{MapDataSource, RawEntry, VersionData};
use mint_cli::data::{create_data_source, DataSource, SourceKind};
use mint_cli::layout::value::{DataValue, ValueSource};

fn value_from_json(v: &serde_json::Value) -> DataValue {
    if let Some(b) = v.as_bool() {
        DataValue::Bool(b)
    } else if let Some(u) = v.as_u64() {
        DataValue::U64(u)
    } else if let Some(i) = v.as_i64() {
        DataValue::I64(i)
    } else if let Some(f) = v.as_f64() {
        DataValue::F64(f.to_bits())
    } else if let Some(s) = v.as_str() {
        DataValue::Str(s.to_string())
    } else {
        panic!("unsupported scalar in test data")
    }
}

fn entry_from_json(v: &serde_json::Value) -> RawEntry {
    match v {
        serde_json::Value::Array(items) => {
            if items.iter().all(|it| it.is_array()) && !items.is_empty() {
                RawEntry::Table(
                    items
                        .iter()
                        .map(|row| {
                            row.as_array().unwrap().iter().map(value_from_json).collect()
                        })
                        .collect(),
                )
            } else {
                RawEntry::List(items.iter().map(value_from_json).collect())
            }
        }
        other => RawEntry::Scalar(value_from_json(other)),
    }
}

fn avail_from_json(text: &str) -> Vec<VersionData> {
    let parsed: serde_json::Value = serde_json::from_str(text).expect("parse test data");
    let map = parsed.as_object().expect("version map");
    map.iter()
        .map(|(name, entries)| VersionData {
            name: name.clone(),
            entries: entries
                .as_object()
                .expect("entry map")
                .iter()
                .map(|(k, v)| (k.clone(), entry_from_json(v)))
                .collect(),
        })
        .collect()
}

fn build_json_args(version: &str, json_data: &str) -> DataArgs {
    DataArgs {
        json: Some(json_data.to_string()),
        versions: Some(version.to_string()),
        ..Default::default()
    }
}

fn build_source(version: &str, json_data: &str) -> Result<MapDataSource, DataError> {
    let args = build_json_args(version, json_data);
    let sel = create_data_source(&args)
        .expect("datasource load")
        .expect("datasource exists");
    assert!(matches!(sel.kind, SourceKind::Json));
    let avail = avail_from_json(&sel.config);
    MapDataSource::with_stack(&avail, &sel.versions)
}

#[test]
fn json_retrieve_single_value_priority_order() {
    let json_data = r#"{
        "Default": {
            "TemperatureMax": 50,
            "Value 2": 2,
            "boolean": true
        },
        "Debug": {
            "TemperatureMax": 60,
            "debugMode": true
        },
        "VarA": {
            "TemperatureMax": 55,
            "boolean": false
        }
    }"#;

    let ds = build_source("VarA/Debug/Default", json_data).expect("datasource load");

    let value = ds.retrieve_single_value("TemperatureMax").unwrap();
    println!("TemperatureMax (VarA/Debug/Default): {:?}", value);
    assert!(matches!(value, DataValue::U64(55)));

    let value = ds.retrieve_single_value("boolean").unwrap();
    println!("boolean (VarA/Debug/Default): {:?}", value);
    assert!(matches!(value, DataValue::Bool(false)));

    let value = ds.retrieve_single_value("debugMode").unwrap();
    println!("debugMode (VarA/Debug/Default): {:?}", value);
    assert!(matches!(value, DataValue::Bool(true)));

    let value = ds.retrieve_single_value("Value 2").unwrap();
    println!("Value 2 (VarA/Debug/Default): {:?}", value);
    assert!(matches!(value, DataValue::U64(2)));
}

#[test]
fn json_retrieve_single_value_fallback() {
    let json_data = r#"{
        "Default": {
            "TemperatureMax": 50,
            "boolean": true
        },
        "Debug": {
            "TemperatureMax": 60
        }
    }"#;

    let ds = build_source("Debug/Default", json_data).expect("datasource load");

    let value = ds.retrieve_single_value("TemperatureMax").unwrap();
    println!("TemperatureMax (Debug/Default): {:?}", value);
    assert!(matches!(value, DataValue::U64(60)));

    let value = ds.retrieve_single_value("boolean").unwrap();
    println!("boolean (Debug/Default): {:?}", value);
    assert!(matches!(value, DataValue::Bool(true)));
}

#[test]
fn json_retrieve_missing_key_errors() {
    let json_data = r#"{
        "Default": {
            "TemperatureMax": 50
        }
    }"#;

    let ds = build_source("Default", json_data).expect("datasource load");
    let result = ds.retrieve_single_value("NonExistent");
    assert!(result.is_err());
    println!("Missing key error: {:?}", result.unwrap_err());
}

#[test]
fn json_retrieve_missing_version_errors() {
    let json_data = r#"{
        "Default": {
            "TemperatureMax": 50
        }
    }"#;

    let result = build_source("NonExistent", json_data);
    assert!(result.is_err());
    if let Err(e) = result {
        println!("Missing version error: {:?}", e);
    }
}

#[test]
fn json_retrieve_1d_array_space_delimited() {
    let json_data = r#"{
        "Default": {
            "arraySpaces": "0 100 200 300"
        }
    }"#;

    let ds = build_source("Default", json_data).unwrap();
    let value = ds.retrieve_1d_array_or_string("arraySpaces").unwrap();
    println!("arraySpaces: {:?}", value);
    let ValueSource::Array(arr) = value else {
        panic!("expected array");
    };
    assert_eq!(arr.len(), 4);
    assert!(matches!(arr[0], DataValue::U64(0)));
    assert!(matches!(arr[3], DataValue::U64(300)));
}

#[test]
fn json_retrieve_1d_array_comma_delimited() {
    let json_data = r#"{
        "Default": {
            "arrayCommas": "1,2,3,4"
        }
    }"#;

    let ds = build_source("Default", json_data).unwrap();
    let value = ds.retrieve_1d_array_or_string("arrayCommas").unwrap();
    println!("arrayCommas: {:?}", value);
    let ValueSource::Array(arr) = value else {
        panic!("expected array");
    };
    assert_eq!(arr.len(), 4);
}

#[test]
fn json_retrieve_1d_array_mixed_delimiters() {
    let json_data = r#"{
        "Default": {
            "arrayMixed": "5, 10; 15 20"
        }
    }"#;

    let ds = build_source("Default", json_data).unwrap();
    let value = ds.retrieve_1d_array_or_string("arrayMixed").unwrap();
    println!("arrayMixed: {:?}", value);
    let ValueSource::Array(arr) = value else {
        panic!("expected array");
    };
    assert_eq!(arr.len(), 4);
}

#[test]
fn json_retrieve_1d_array_single_value() {
    let json_data = r#"{
        "Default": {
            "arraySingle": "42"
        }
    }"#;

    let ds = build_source("Default", json_data).unwrap();
    let value = ds.retrieve_1d_array_or_string("arraySingle").unwrap();
    println!("arraySingle: {:?}", value);
    let ValueSource::Array(arr) = value else {
        panic!("expected array");
    };
    assert_eq!(arr.len(), 1);
    assert!(matches!(arr[0], DataValue::U64(42)));
}

#[test]
fn json_retrieve_1d_array_floats() {
    let json_data = r#"{
        "Default": {
            "arrayFloats": "1.5 2.5 3.5"
        }
    }"#;

    let ds = build_source("Default", json_data).unwrap();
    let value = ds.retrieve_1d_array_or_string("arrayFloats").unwrap();
    println!("arrayFloats: {:?}", value);
    let ValueSource::Array(arr) = value else {
        panic!("expected array");
    };
    assert_eq!(arr.len(), 3);
    assert!(matches!(arr[0], DataValue::F64(bits) if (f64::from_bits(bits) - 1.5).abs() < 0.001));
}

#[test]
fn json_retrieve_1d_array_negative() {
    let json_data = r#"{
        "Default": {
            "arrayNegative": "-1 -2 -3"
        }
    }"#;

    let ds = build_source("Default", json_data).unwrap();
    let value = ds.retrieve_1d_array_or_string("arrayNegative").unwrap();
    println!("arrayNegative: {:?}", value);
    let ValueSource::Array(arr) = value else {
        panic!("expected array");
    };
    assert_eq!(arr.len(), 3);
    assert!(matches!(arr[0], DataValue::I64(-1)));
}

#[test]
fn json_retrieve_1d_literal_string() {
    let json_data = r#"{
        "Default": {
            "literalString": "hello world"
        }
    }"#;

    let ds = build_source("Default", json_data).unwrap();
    let value = ds.retrieve_1d_array_or_string("literalString").unwrap();
    println!("literalString: {:?}", value);
    let ValueSource::Single(DataValue::Str(s)) = value else {
        panic!("expected single string");
    };
    assert_eq!(s, "hello world");
}

#[test]
fn json_retrieve_1d_native_json_array() {
    let json_data = r#"{
        "Default": {
            "nativeArray1d": [10, 20, 30]
        }
    }"#;

    let ds = build_source("Default", json_data).unwrap();
    let value = ds.retrieve_1d_array_or_string("nativeArray1d").unwrap();
    println!("nativeArray1d: {:?}", value);
    let ValueSource::Array(arr) = value else {
        panic!("expected array");
    };
    assert_eq!(arr.len(), 3);
    assert!(matches!(arr[0], DataValue::U64(10)));
    assert!(matches!(arr[1], DataValue::U64(20)));
    assert!(matches!(arr[2], DataValue::U64(30)));
}

#[test]
fn json_retrieve_2d_native_json_array() {
    let json_data = r#"{
        "Default": {
            "nativeArray2d": [[1, 2], [3, 4], [5, 6]]
        }
    }"#;

    let ds = build_source("Default", json_data).unwrap();
    let value = ds.retrieve_2d_array("nativeArray2d").unwrap();
    println!("nativeArray2d: {:?}", value);
    assert_eq!(value.len(), 3);
    assert_eq!(value[0].len(), 2);
    assert!(matches!(value[0][0], DataValue::U64(1)));
    assert!(matches!(value[0][1], DataValue::U64(2)));
    assert!(matches!(value[2][0], DataValue::U64(5)));
    assert!(matches!(value[2][1], DataValue::U64(6)));
}
