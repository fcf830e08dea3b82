use work_tracker::work_data_file::{FileVersion, WorkDataFile};
use work_tracker::work_entry_id::WorkEntryId;
use work_tracker::work_entry_status::WorkEntryStatus;
use work_tracker::work_error::WorkError;

fn add(store: &mut WorkDataFile, name: &str, description: Option<&str>) -> WorkEntryId {
    store
        .add_entry(name.to_string(), description.map(|d| d.to_string()))
        .unwrap()
}

#[test]
fn add_then_find_yields_the_new_entry() {
    let mut store = WorkDataFile::new();
    let id = add(&mut store, "Water plants", Some("the big ones"));
    let entry = store.get_entry(&id).unwrap();
    assert_eq!(entry.name, "Water plants");
    assert_eq!(entry.description.as_deref(), Some("the big ones"));
    assert_eq!(entry.status, WorkEntryStatus::Created);
    assert_eq!(entry.created_at, entry.modified_at);
    assert!(entry.children.is_empty());
}

#[test]
fn name_length_boundary_is_twenty_eight() {
    let mut store = WorkDataFile::new();
    let ok_name: String = "a".repeat(28);
    let long_name: String = "a".repeat(29);
    assert!(store.add_entry(ok_name, None).is_ok());
    assert_eq!(
        store.add_entry(long_name, None),
        Err(WorkError::ValidationError)
    );
    assert_eq!(store.entries.len(), 1);
}

#[test]
fn name_length_counts_characters_not_bytes() {
    let mut store = WorkDataFile::new();
    let name: String = "\u{2714}".repeat(28);
    assert!(store.add_entry(name, None).is_ok());
}

#[test]
fn successive_ids_count_up_from_zero() {
    let mut store = WorkDataFile::new();
    for expected in 0..5usize {
        let id = add(&mut store, "task", None);
        assert_eq!(id.value(), expected);
    }
}

#[test]
fn id_after_removal_is_max_plus_one() {
    let mut store = WorkDataFile::new();
    let id0 = add(&mut store, "first", None);
    let _id1 = add(&mut store, "second", None);
    store.remove(&id0).unwrap();
    let id2 = add(&mut store, "third", None);
    assert_eq!(id2.value(), 2);
}

#[test]
fn complete_is_not_idempotent() {
    let mut store = WorkDataFile::new();
    let id = add(&mut store, "task", None);
    assert!(store.complete(&id).is_ok());
    assert_eq!(
        store.get_entry(&id).unwrap().status,
        WorkEntryStatus::Completed
    );
    assert_eq!(store.complete(&id), Err(WorkError::AlreadyCompleted));
}

#[test]
fn complete_missing_id_is_not_found() {
    let mut store = WorkDataFile::new();
    let ghost_id = WorkEntryId::new(9);
    assert_eq!(store.complete(&ghost_id), Err(WorkError::NotFound));
}

#[test]
fn reprioritized_entry_is_listed_first() {
    let mut store = WorkDataFile::new();
    let id0 = add(&mut store, "oldest", None);
    let _id1 = add(&mut store, "middle", None);
    let _id2 = add(&mut store, "newest", None);
    store.reprioritize(&id0).unwrap();
    let listed = store.list(false);
    assert_eq!(listed[0].id.value(), 0);
    assert_eq!(listed[0].name, "oldest");
    assert_eq!(listed.len(), 3);
}

#[test]
fn listing_filters_completed_and_reverses() {
    let mut store = WorkDataFile::new();
    let id0 = add(&mut store, "Buy milk", None);
    let id1 = add(&mut store, "Clean house", Some("kitchen"));
    store.complete(&id0).unwrap();
    let open = store.list(false);
    assert_eq!(open.len(), 1);
    assert_eq!(open[0].id.value(), id1.value());
    assert_eq!(open[0].name, "Clean house");
    let all = store.list(true);
    assert_eq!(all.len(), 2);
    assert_eq!(all[0].name, "Clean house");
    assert_eq!(all[1].name, "Buy milk");
    assert!(all
        .iter()
        .all(|e| e.status != WorkEntryStatus::Completed || e.id.value() == 0));
}

#[test]
fn remove_of_missing_id_leaves_store_unchanged() {
    let mut store = WorkDataFile::new();
    add(&mut store, "one", None);
    add(&mut store, "two", None);
    let ghost_id = WorkEntryId::new(5);
    assert_eq!(store.remove(&ghost_id), Err(WorkError::NotFound));
    assert_eq!(store.entries.len(), 2);
    assert_eq!(store.entries[0].name, "one");
    assert_eq!(store.entries[1].name, "two");
}

#[test]
fn remove_discards_the_entry() {
    let mut store = WorkDataFile::new();
    let id0 = add(&mut store, "one", None);
    let id1 = add(&mut store, "two", None);
    store.remove(&id0).unwrap();
    assert_eq!(store.entries.len(), 1);
    assert!(store.get_entry(&id0).is_err());
    assert!(store.get_entry(&id1).is_ok());
}

#[test]
fn edit_requires_something_to_change() {
    let mut store = WorkDataFile::new();
    let id = add(&mut store, "task", Some("desc"));
    assert_eq!(store.edit(&id, None, None), Err(WorkError::ValidationError));
    assert_eq!(
        store.get_entry(&id).unwrap().description.as_deref(),
        Some("desc")
    );
}

#[test]
fn edit_overwrites_description_wholesale() {
    let mut store = WorkDataFile::new();
    let id = add(&mut store, "task", Some("old"));
    store
        .edit(&id, Some("new".to_string()), None)
        .unwrap();
    assert_eq!(
        store.get_entry(&id).unwrap().description.as_deref(),
        Some("new")
    );
    store
        .edit(&id, None, Some(WorkEntryStatus::Completed))
        .unwrap();
    let entry = store.get_entry(&id).unwrap();
    assert_eq!(entry.description, None);
    assert_eq!(entry.status, WorkEntryStatus::Completed);
}

#[test]
fn edit_may_reopen_a_completed_entry() {
    let mut store = WorkDataFile::new();
    let id = add(&mut store, "task", None);
    store.complete(&id).unwrap();
    store
        .edit(&id, None, Some(WorkEntryStatus::Created))
        .unwrap();
    assert_eq!(
        store.get_entry(&id).unwrap().status,
        WorkEntryStatus::Created
    );
    assert!(store.complete(&id).is_ok());
}

#[test]
fn edit_missing_id_is_not_found() {
    let mut store = WorkDataFile::new();
    let ghost_id = WorkEntryId::new(3);
    assert_eq!(
        store.edit(&ghost_id, Some("x".to_string()), None),
        Err(WorkError::NotFound)
    );
}

#[test]
fn default_query_returns_last_open_entry() {
    let mut store = WorkDataFile::new();
    let id0 = add(&mut store, "first", None);
    let id1 = add(&mut store, "second", None);
    let picked = store.get_entry_or_first(None).unwrap().unwrap();
    assert_eq!(picked.id.value(), id1.value());
    store.complete(&id1).unwrap();
    let picked = store.get_entry_or_first(None).unwrap().unwrap();
    assert_eq!(picked.id.value(), id0.value());
    store.complete(&id0).unwrap();
    assert!(store.get_entry_or_first(None).unwrap().is_none());
}

#[test]
fn explicit_query_resolves_or_fails() {
    let mut store = WorkDataFile::new();
    let id = add(&mut store, "task", None);
    let picked = store.get_entry_or_first(Some(&id)).unwrap().unwrap();
    assert_eq!(picked.id.value(), id.value());
    let ghost_id = WorkEntryId::new(7);
    assert_eq!(
        store.get_entry_or_first(Some(&ghost_id)).err(),
        Some(WorkError::NotFound)
    );
}

#[test]
fn get_index_finds_first_match() {
    let mut store = WorkDataFile::new();
    let id0 = add(&mut store, "a", None);
    let id1 = add(&mut store, "b", None);
    assert_eq!(store.get_index_for_id(&id0).unwrap(), 0);
    assert_eq!(store.get_index_for_id(&id1).unwrap(), 1);
    assert_eq!(
        store.get_index_for_id(&WorkEntryId::new(2)),
        Err(WorkError::NotFound)
    );
}

#[test]
fn child_addition_is_unsupported() {
    let mut store = WorkDataFile::new();
    add(&mut store, "parent", None);
    let parent = work_tracker::work_entry_id::WorkEntryIdFull::from_str("0").unwrap();
    assert_eq!(
        store.add_child_entry("child".to_string(), None, parent),
        Err(WorkError::Unsupported)
    );
    assert_eq!(store.entries.len(), 1);
}

#[test]
fn fresh_store_is_current_and_empty() {
    let store = WorkDataFile::new();
    assert!(store.is_current());
    assert_eq!(store.version, FileVersion::current());
    assert!(store.entries.is_empty());
}

#[test]
fn created_icon_is_empty() {
    assert_eq!(WorkEntryStatus::Created.get_icon(), "");
}

#[test]
fn completed_icon_is_not_empty() {
    assert!(!WorkEntryStatus::Completed.get_icon().is_empty());
}
