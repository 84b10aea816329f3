use language_evolution::error::Failure;
use language_evolution::log::{
    date_check, decode_output, entry_found, last_record_index, line_removals, version_check,
    version_source, EntryCheck, VersionSource,
};

#[test]
fn a_given_version_is_kept() {
    match version_source("1.2.3", "/r") {
        VersionSource::Given(v) => assert_eq!(v, "1.2.3"),
        VersionSource::Command(_) => panic!("expected the given version"),
    }
    match version_source("", "/r") {
        VersionSource::Command(c) => assert!(c.ends_with("/r/package.json | grep -Po '[\\d\\.]*'")),
        VersionSource::Given(_) => panic!("expected a command"),
    }
}

#[test]
fn empty_version_has_no_entry_and_empty_date_has_one() {
    assert!(matches!(version_check("/r", ""), EntryCheck::Known(false)));
    assert!(matches!(date_check("/r", ""), EntryCheck::Known(true)));
    match date_check("/r", "2024-01-05") {
        EntryCheck::Search(c) => {
            assert_eq!(c, "xsv search -s 2 -n \"2024-01-05\" /r/TYPESCRIPT_EVOLUTION.csv")
        }
        EntryCheck::Known(_) => panic!("expected a search"),
    }
}

#[test]
fn outputs_are_decoded_and_trimmed() {
    assert_eq!(decode_output(b"  0.2.0\n"), Some("0.2.0".to_string()));
    assert_eq!(decode_output(&[0xff, 0xfe]), None);
    assert_eq!(entry_found(b"\n"), Some(false));
    assert_eq!(entry_found(b"0.2.0,2024-01-01,3\n"), Some(true));
    assert_eq!(entry_found(&[0xc3]), None);
}

#[test]
fn the_last_entry_is_two_records_before_the_count() {
    assert_eq!(last_record_index(b"12\n"), Ok(10));
    assert_eq!(last_record_index(b"0"), Ok(-2));
    assert_eq!(last_record_index(b"twelve"), Err(Failure::RecordCountNotANumber));
    assert_eq!(last_record_index(b"-2147483647"), Err(Failure::RecordIndexOverflow));
    assert_eq!(last_record_index(&[0x80]), Err(Failure::OutputNotUtf8));
}

#[test]
fn a_dry_run_removes_no_line() {
    assert!(line_removals("/r", true).is_empty());
    assert_eq!(
        line_removals("/r", false),
        vec![
            "sed -i '$d' /r/TYPESCRIPT_EVOLUTION.csv".to_string(),
            "sed -i '$d' /r/TYPESCRIPT_EVOLUTION.csv".to_string()
        ]
    );
}
