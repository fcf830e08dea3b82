use work_tracker::work_data_file::{FileVersion, WorkDataFile};
use work_tracker::work_entry::WorkEntry;
use work_tracker::work_entry_id::WorkEntryId;
use work_tracker::work_entry_status::WorkEntryStatus;
use work_tracker::work_error::WorkError;

fn entry(id: usize, name: &str, description: Option<&str>) -> WorkEntry {
    WorkEntry {
        id: WorkEntryId::new(id),
        name: name.to_string(),
        description: description.map(|d| d.to_string()),
        created_at: 100,
        modified_at: 200,
        status: WorkEntryStatus::Created,
        children: vec![],
    }
}

fn entries_match(a: &WorkEntry, b: &WorkEntry) -> bool {
    a.id.value() == b.id.value()
        && a.name == b.name
        && a.description == b.description
        && a.created_at == b.created_at
        && a.modified_at == b.modified_at
        && a.status == b.status
        && a.children.len() == b.children.len()
        && a
            .children
            .iter()
            .zip(b.children.iter())
            .all(|(x, y)| entries_match(x, y))
}

#[test]
fn empty_store_text_is_exact() {
    let store = WorkDataFile::new();
    assert_eq!(store.to_text(), "N0;");
}

#[test]
fn one_entry_text_is_exact() {
    let store = WorkDataFile {
        version: FileVersion::current(),
        entries: vec![WorkEntry {
            id: WorkEntryId::new(3),
            name: "ab".to_string(),
            description: None,
            created_at: 5,
            modified_at: 7,
            status: WorkEntryStatus::Created,
            children: vec![],
        }],
    };
    assert_eq!(store.to_text(), "N1;3;2;abn5;7;C0;");
}

#[test]
fn negative_timestamps_carry_their_sign() {
    let mut e = entry(0, "x", None);
    e.created_at = -5;
    e.modified_at = -5;
    let store = WorkDataFile {
        version: FileVersion::current(),
        entries: vec![e],
    };
    assert_eq!(store.to_text(), "N1;0;1;xn-5;-5;C0;");
    let back = WorkDataFile::from_text(&store.to_text()).unwrap();
    assert_eq!(back.entries[0].created_at, -5);
}

#[test]
fn round_trip_reproduces_the_store() {
    let mut child = entry(0, "sub;task", Some("12;tricky"));
    child.status = WorkEntryStatus::Completed;
    let mut top = entry(2, "Tee \u{2615} kochen", Some("mit Milch"));
    top.children = vec![child, entry(1, "", None)];
    let store = WorkDataFile {
        version: FileVersion::current(),
        entries: vec![top, entry(7, "plain", None)],
    };
    let text = store.to_text();
    let back = WorkDataFile::from_text(&text).unwrap();
    assert_eq!(back.version, FileVersion::current());
    assert_eq!(back.entries.len(), store.entries.len());
    assert!(store
        .entries
        .iter()
        .zip(back.entries.iter())
        .all(|(a, b)| entries_match(a, b)));
    assert_eq!(back.to_text(), text);
}

#[test]
fn old_version_tag_is_a_version_mismatch() {
    let old_store = WorkDataFile {
        version: FileVersion::Initial,
        entries: vec![],
    };
    let text = old_store.to_text();
    assert_eq!(text, "I0;");
    assert_eq!(
        WorkDataFile::from_text(&text).err(),
        Some(WorkError::VersionMismatch)
    );
}

#[test]
fn malformed_text_is_a_parse_error() {
    for bad in [
        "", "X", "N", "N;", "Nx", "N1;", "N0;junk", "N00;", "N0", "N2;0;1;an1;2;C0;",
        "N1;0;1;an1;2;E0;", "N1;0;9;an1;2;C0;",
    ] {
        assert_eq!(
            WorkDataFile::from_text(bad).err(),
            Some(WorkError::ParseError),
            "input {:?} should be malformed",
            bad
        );
    }
}

#[test]
fn load_or_create_without_contents_makes_a_fresh_store() {
    let store = WorkDataFile::load_or_create(None).unwrap();
    assert!(store.is_current());
    assert!(store.entries.is_empty());
}

#[test]
fn load_or_create_reads_existing_contents() {
    let mut store = WorkDataFile::new();
    store.add_entry("task".to_string(), None).unwrap();
    let text = store.to_text();
    let back = WorkDataFile::load_or_create(Some(&text)).unwrap();
    assert_eq!(back.entries.len(), 1);
    assert_eq!(back.entries[0].name, "task");
    assert_eq!(
        WorkDataFile::load_or_create(Some("garbage")).err(),
        Some(WorkError::ParseError)
    );
}

#[test]
fn parser_rejects_non_canonical_numbers() {
    assert_eq!(WorkDataFile::from_text("N01;").err(), Some(WorkError::ParseError));
    assert_eq!(
        WorkDataFile::from_text("N1;+3;2;abn5;7;C0;").err(),
        Some(WorkError::ParseError)
    );
}
