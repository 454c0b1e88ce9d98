//! The used-value report: nested keys from dotted paths, bitmap
//! sub-entries, and the reserved-entry key text.

use mint_cli::data::source::{MapDataSource, RawEntry, VersionData};
use mint_cli::layout::block::Block;
use mint_cli::layout::convert::NumType;
use mint_cli::layout::encode::Endianness;
use mint_cli::layout::field::{BitmapEntry, Field, FieldValue, SizeDim};
use mint_cli::layout::report::{reserved_key, ReportTree};
use mint_cli::layout::settings::Settings;
use mint_cli::layout::used_values::{RecordingSink, ReportValue};
use mint_cli::layout::value::DataValue;

fn get<'a>(tree: &'a ReportTree, path: &[&str]) -> Option<&'a ReportTree> {
    let mut cur = tree;
    for key in path {
        match cur {
            ReportTree::Branch(children) => {
                cur = &children.iter().find(|(k, _)| k == key)?.1;
            }
            ReportTree::Leaf(_) => return None,
        }
    }
    Some(cur)
}

fn leaf_u64(tree: &ReportTree, path: &[&str]) -> Option<u64> {
    match get(tree, path)? {
        ReportTree::Leaf(ReportValue::Scalar(DataValue::U64(u))) => Some(*u),
        _ => None,
    }
}

#[test]
fn reserved_key_names_start_and_width() {
    assert_eq!(reserved_key(1, 3), "reserved_1_3");
    assert_eq!(reserved_key(0, 1), "reserved_0_1");
    assert_eq!(reserved_key(12, 20), "reserved_12_20");
}

#[test]
fn export_json_uses_nested_block_data() {
    let avail = vec![VersionData {
        name: "Default".to_string(),
        entries: vec![
            ("DeviceName".to_string(), RawEntry::Scalar(DataValue::Str("UnitA".to_string()))),
            ("EnableDebug".to_string(), RawEntry::Scalar(DataValue::U64(1))),
            ("RegionCode".to_string(), RawEntry::Scalar(DataValue::U64(7))),
            (
                "Coeffs".to_string(),
                RawEntry::List(vec![
                    DataValue::U64(10),
                    DataValue::U64(20),
                    DataValue::U64(30),
                ]),
            ),
            ("Counter".to_string(), RawEntry::Scalar(DataValue::U64(99))),
        ],
    }];
    let ds = MapDataSource::with_stack(&avail, &vec!["Default".to_string()]).expect(
        "datasource loads",
    );

    let block = Block {
        start_address: 0x1000,
        length: 0x40,
        padding: 0x00,
        data: vec![
            (
                "device.id".to_string(),
                Field::inline_scalar(DataValue::U64(0x1234), NumType::U32),
            ),
            (
                "device.name".to_string(),
                Field::named("DeviceName".to_string(), NumType::U8, Some(SizeDim::One(8))),
            ),
            (
                "flags".to_string(),
                Field {
                    name: None,
                    value: None,
                    ty: NumType::U8,
                    size: None,
                    size_exact: None,
                    bitmap: Some(vec![
                        BitmapEntry { bits: 1, name: Some("EnableDebug".to_string()), value: None },
                        BitmapEntry { bits: 3, name: None, value: Some(0) },
                        BitmapEntry { bits: 4, name: Some("RegionCode".to_string()), value: None },
                    ]),
                },
            ),
            (
                "coeffs".to_string(),
                Field::named("Coeffs".to_string(), NumType::U16, Some(SizeDim::One(3))),
            ),
            (
                "counter".to_string(),
                Field::named("Counter".to_string(), NumType::U32, None),
            ),
            (
                "message".to_string(),
                Field {
                    name: None,
                    value: Some(FieldValue::Scalar(DataValue::Str("Hi".to_string()))),
                    ty: NumType::U8,
                    size: Some(SizeDim::One(4)),
                    size_exact: None,
                    bitmap: None,
                },
            ),
        ],
        crc: None,
    };
    let settings = Settings { endianness: Endianness::Little, virtual_offset: 0, crc: None };
    let mut sink = RecordingSink::new();
    block
        .build_bytestream(Some(&ds), &settings, false, &mut sink)
        .expect("build should succeed");

    // assemble the nested report from the recorded values
    let mut tree = ReportTree::new();
    for (path, rv) in &sink.entries {
        let mut segments: Vec<String> = path.split('.').map(|s| s.to_string()).collect();
        let value = match rv {
            ReportValue::BitmapPart { start_bit, bits, name, value } => {
                segments.push(match name {
                    Some(n) => n.clone(),
                    None => reserved_key(*start_bit, *bits),
                });
                ReportValue::Scalar(DataValue::U64(*value))
            }
            other => other.clone(),
        };
        tree = tree.set(&segments, 0, value);
    }

    assert_eq!(leaf_u64(&tree, &["device", "id"]), Some(0x1234));
    assert!(matches!(
        get(&tree, &["device", "name"]),
        Some(ReportTree::Leaf(ReportValue::Scalar(DataValue::Str(s)))) if s == "UnitA"
    ));
    assert_eq!(leaf_u64(&tree, &["flags", "EnableDebug"]), Some(1));
    assert_eq!(leaf_u64(&tree, &["flags", "RegionCode"]), Some(7));
    assert_eq!(leaf_u64(&tree, &["flags", "reserved_1_3"]), Some(0));
    assert!(matches!(
        get(&tree, &["coeffs"]),
        Some(ReportTree::Leaf(ReportValue::Array(a))) if matches!(a[0], DataValue::U64(10))
    ));
    assert_eq!(leaf_u64(&tree, &["counter"]), Some(99));
    assert!(matches!(
        get(&tree, &["message"]),
        Some(ReportTree::Leaf(ReportValue::Scalar(DataValue::Str(s)))) if s == "Hi"
    ));
}
