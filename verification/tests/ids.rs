use work_tracker::work_entry_id::{WorkEntryId, WorkEntryIdFull};
use work_tracker::work_error::WorkError;

#[test]
fn single_id_parses_plain_number() {
    let id = WorkEntryId::from_str("42").unwrap();
    assert_eq!(id.value(), 42);
}

#[test]
fn single_id_accepts_plus_and_leading_zeros() {
    assert_eq!(WorkEntryId::from_str("+7").unwrap().value(), 7);
    assert_eq!(WorkEntryId::from_str("007").unwrap().value(), 7);
    assert_eq!(WorkEntryId::from_str("0").unwrap().value(), 0);
}

#[test]
fn single_id_rejects_bad_segments() {
    assert_eq!(WorkEntryId::from_str(""), Err(WorkError::ParseError));
    assert_eq!(WorkEntryId::from_str("a"), Err(WorkError::ParseError));
    assert_eq!(WorkEntryId::from_str("1.2"), Err(WorkError::ParseError));
    assert_eq!(WorkEntryId::from_str("+"), Err(WorkError::ParseError));
    assert_eq!(WorkEntryId::from_str("-1"), Err(WorkError::ParseError));
    assert_eq!(
        WorkEntryId::from_str("99999999999999999999999999"),
        Err(WorkError::ParseError)
    );
}

#[test]
fn full_id_parses_dotted_path() {
    let full = WorkEntryIdFull::from_str("2.0.1").unwrap();
    assert_eq!(full.depth(), 3);
    assert_eq!(full.format(), "2.0.1");
    assert!(full.as_top_level().is_none());
}

#[test]
fn full_id_of_depth_one_is_top_level() {
    let full = WorkEntryIdFull::from_str("5").unwrap();
    assert_eq!(full.depth(), 1);
    let top = full.as_top_level().unwrap();
    assert_eq!(top.value(), 5);
}

#[test]
fn full_id_rejects_empty_segments() {
    assert!(WorkEntryIdFull::from_str("").is_err());
    assert!(WorkEntryIdFull::from_str(".").is_err());
    assert!(WorkEntryIdFull::from_str("2..3").is_err());
    assert!(WorkEntryIdFull::from_str("2.").is_err());
    assert!(WorkEntryIdFull::from_str(".2").is_err());
}

#[test]
fn full_id_format_is_canonical() {
    let full = WorkEntryIdFull::from_str("+02.007").unwrap();
    assert_eq!(full.format(), "2.7");
}

#[test]
fn id_default_and_next() {
    let zero = WorkEntryId::default();
    assert_eq!(zero.value(), 0);
    assert_eq!(zero.next().value(), 1);
    assert_eq!(zero.next().next().value(), 2);
    assert_eq!(zero.format(), "0");
}
