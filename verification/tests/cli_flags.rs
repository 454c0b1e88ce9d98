//! The version-selector argument and its parsing.

use mint_cli::data::args::DataArgs;

#[test]
fn parses_versions_selector_flag() {
    let args = DataArgs {
        xlsx: Some("tests/data/data.xlsx".to_string()),
        versions: Some("Debug/Default".to_string()),
        ..Default::default()
    };

    assert_eq!(args.versions.as_deref(), Some("Debug/Default"));
    assert_eq!(args.get_version_list(), vec!["Debug", "Default"]);
}

#[test]
fn version_list_trims_and_drops_empty_pieces() {
    let args = DataArgs {
        versions: Some(" VarA / Debug //  Default ".to_string()),
        ..Default::default()
    };
    assert_eq!(args.get_version_list(), vec!["VarA", "Debug", "Default"]);

    let none = DataArgs::default();
    assert!(none.get_version_list().is_empty());

    let empties = DataArgs {
        versions: Some(" / / ".to_string()),
        ..Default::default()
    };
    assert!(empties.get_version_list().is_empty());

    // trimming strips every Unicode whitespace character
    let unicode = DataArgs {
        versions: Some("A\u{000B}/\u{00A0}B\u{2003}/\u{2028}".to_string()),
        ..Default::default()
    };
    assert_eq!(unicode.get_version_list(), vec!["A", "B"]);
}
