use dupe_detect::error::Error;
use dupe_detect::file_index::{DuplicateMeta, FileIndex};
use dupe_detect::traverse::{classify_entry, record_file, EntryAction, EntryKind};

fn content(text: &str) -> Vec<Vec<u8>> {
    vec![text.as_bytes().to_vec()]
}

fn observed_paths(idx: &FileIndex) -> Vec<Vec<String>> {
    let mut groups = Vec::new();
    for i in 0..idx.num_entries() {
        let entry = idx.entry_at(i);
        let mut paths = vec![entry.1.filename.clone()];
        paths.extend(entry.1.duplicates.iter().cloned());
        paths.sort();
        groups.push(paths);
    }
    groups.sort();
    groups
}

#[test]
fn empty_tree_scans_to_empty_index() {
    let idx = FileIndex::new();
    assert_eq!(idx.files_seen(), 0);
    assert_eq!(idx.duplicated_bytes(), 0);
    assert_eq!(idx.num_entries(), 0);
}

#[test]
fn two_identical_files_make_one_duplicate() {
    let mut idx = FileIndex::new();
    assert!(record_file(&mut idx, &content("hello"), "a/1.txt".to_string(), 5));
    assert!(record_file(&mut idx, &content("hello"), "b/2.txt".to_string(), 5));
    assert_eq!(idx.files_seen(), 2);
    assert_eq!(idx.duplicated_bytes(), 5);
    assert_eq!(idx.num_entries(), 1);
    let entry = idx.entry_at(0);
    assert_eq!(entry.1.filename, "a/1.txt");
    assert_eq!(entry.1.duplicates, vec!["b/2.txt".to_string()]);
}

#[test]
fn three_distinct_files_make_no_duplicates() {
    let mut idx = FileIndex::new();
    assert!(record_file(&mut idx, &content("one"), "a".to_string(), 3));
    assert!(record_file(&mut idx, &content("two"), "b".to_string(), 3));
    assert!(record_file(&mut idx, &content("three"), "c".to_string(), 5));
    assert_eq!(idx.files_seen(), 3);
    assert_eq!(idx.duplicated_bytes(), 0);
    assert_eq!(idx.num_entries(), 3);
    for i in 0..idx.num_entries() {
        assert!(idx.entry_at(i).1.duplicates.is_empty());
    }
}

#[test]
fn unreadable_file_is_not_counted() {
    // A file whose open fails is reported and never observed; the rest
    // of the tree is still indexed.
    let mut idx = FileIndex::new();
    assert!(record_file(&mut idx, &content("good"), "a".to_string(), 4));
    // "b" failed to open: no observation for it.
    assert!(record_file(&mut idx, &content("also good"), "c".to_string(), 9));
    assert_eq!(idx.files_seen(), 2);
    assert_eq!(idx.num_entries(), 2);
    for i in 0..idx.num_entries() {
        assert_ne!(idx.entry_at(i).1.filename, "b");
    }
}

#[test]
fn rescan_in_another_order_gathers_same_path_sets() {
    let mut first = FileIndex::new();
    assert!(record_file(&mut first, &content("dup"), "a".to_string(), 3));
    assert!(record_file(&mut first, &content("dup"), "b".to_string(), 3));
    assert!(record_file(&mut first, &content("lone"), "c".to_string(), 4));

    let mut second = FileIndex::new();
    assert!(record_file(&mut second, &content("dup"), "b".to_string(), 3));
    assert!(record_file(&mut second, &content("lone"), "c".to_string(), 4));
    assert!(record_file(&mut second, &content("dup"), "a".to_string(), 3));

    assert_eq!(observed_paths(&first), observed_paths(&second));
    assert_eq!(first.files_seen(), second.files_seen());
    assert_eq!(first.duplicated_bytes(), second.duplicated_bytes());
}

#[test]
fn observe_counts_and_sizes() {
    let mut idx = FileIndex::new();
    idx.observe("FP1".to_string(), "p1".to_string(), 10);
    assert_eq!(idx.files_seen(), 1);
    assert_eq!(idx.duplicated_bytes(), 0);
    idx.observe("FP1".to_string(), "p2".to_string(), 10);
    assert_eq!(idx.files_seen(), 2);
    assert_eq!(idx.duplicated_bytes(), 10);
    idx.observe("FP2".to_string(), "p3".to_string(), 7);
    assert_eq!(idx.files_seen(), 3);
    assert_eq!(idx.duplicated_bytes(), 10);
    assert_eq!(idx.num_entries(), 2);
}

#[test]
fn insert_appends_duplicates_in_order() {
    let mut idx = FileIndex::new();
    idx.insert("FP".to_string(), "first".to_string(), 1);
    idx.insert("FP".to_string(), "second".to_string(), 2);
    idx.insert("FP".to_string(), "third".to_string(), 3);
    assert_eq!(idx.num_entries(), 1);
    let entry = idx.entry_at(0);
    assert_eq!(entry.0, "FP");
    assert_eq!(entry.1.filename, "first");
    assert_eq!(
        entry.1.duplicates,
        vec!["second".to_string(), "third".to_string()]
    );
    // insert alone never touches the file counter.
    assert_eq!(idx.files_seen(), 0);
    assert_eq!(idx.duplicated_bytes(), 5);
}

#[test]
fn increment_counts_one_file() {
    let mut idx = FileIndex::new();
    idx.increment();
    idx.increment();
    assert_eq!(idx.files_seen(), 2);
}

#[test]
fn duplication_size_increment_adds() {
    let mut idx = FileIndex::new();
    idx.duplication_size_increment(7);
    idx.duplication_size_increment(5);
    assert_eq!(idx.duplicated_bytes(), 12);
}

#[test]
fn contains_reflects_observed_fingerprints() {
    let mut idx = FileIndex::new();
    assert!(!idx.contains(&"FP".to_string()));
    idx.observe("FP".to_string(), "p".to_string(), 1);
    assert!(idx.contains(&"FP".to_string()));
    assert!(!idx.contains(&"OTHER".to_string()));
}

#[test]
fn can_observe_guards_byte_overflow() {
    let mut idx = FileIndex::new();
    assert!(idx.can_observe(&"FP".to_string(), u64::MAX));
    idx.observe("FP".to_string(), "p1".to_string(), 0);
    assert!(idx.can_observe(&"FP".to_string(), u64::MAX));
    idx.observe("FP".to_string(), "p2".to_string(), u64::MAX);
    assert_eq!(idx.duplicated_bytes(), u64::MAX);
    assert!(!idx.can_observe(&"FP".to_string(), 1));
    assert!(idx.can_observe(&"FP".to_string(), 0));
    assert!(idx.can_observe(&"OTHER".to_string(), 1));
}

#[test]
fn record_file_refuses_overflowing_duplicate() {
    let mut idx = FileIndex::new();
    assert!(record_file(&mut idx, &content("c"), "p1".to_string(), 0));
    assert!(record_file(&mut idx, &content("c"), "p2".to_string(), u64::MAX));
    assert!(!record_file(&mut idx, &content("c"), "p3".to_string(), 1));
    assert_eq!(idx.files_seen(), 2);
    assert_eq!(idx.duplicated_bytes(), u64::MAX);
    assert_eq!(idx.num_entries(), 1);
    assert_eq!(idx.entry_at(0).1.duplicates.len(), 1);
}

#[test]
fn duplicate_positions_pick_entries_with_duplicates() {
    let mut idx = FileIndex::new();
    idx.observe("FP1".to_string(), "a".to_string(), 1);
    idx.observe("FP2".to_string(), "b".to_string(), 2);
    idx.observe("FP2".to_string(), "c".to_string(), 2);
    idx.observe("FP3".to_string(), "d".to_string(), 3);
    let positions = idx.duplicate_positions();
    assert_eq!(positions.len(), 1);
    let entry = idx.entry_at(positions[0]);
    assert_eq!(entry.0, "FP2");
    assert_eq!(entry.1.filename, "b");
    assert_eq!(entry.1.duplicates, vec!["c".to_string()]);
}

#[test]
fn duplicate_meta_starts_with_no_duplicates() {
    let meta = DuplicateMeta::new("some/path".to_string());
    assert_eq!(meta.filename, "some/path");
    assert!(meta.duplicates.is_empty());
}

#[test]
fn error_keeps_its_message() {
    let e = Error::new("could not open file".to_string());
    assert_eq!(e.message(), "could not open file");
    let from_msg = Error::from("read failed".to_string());
    assert_eq!(from_msg.message(), "read failed");
}

#[test]
fn classification_follows_entry_kind() {
    assert!(matches!(classify_entry(&EntryKind::File), EntryAction::HashFile));
    assert!(matches!(classify_entry(&EntryKind::Directory), EntryAction::Recurse));
    assert!(matches!(classify_entry(&EntryKind::Other), EntryAction::Skip));
}
