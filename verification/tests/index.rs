use rust_git::index::{Index, IndexEntry, ModelType};
use std::time::{Duration, SystemTime};

fn entry(sha: &str, path: &str) -> IndexEntry {
    IndexEntry::new(
        sha.to_string(),
        path.to_string(),
        SystemTime::UNIX_EPOCH + Duration::from_secs(10),
        SystemTime::UNIX_EPOCH + Duration::from_secs(20),
        14,
    )
}

#[test]
fn new_entry_is_a_regular_file() {
    let e = entry("testsha", "some_file.txt");
    assert_eq!(e.time, SystemTime::UNIX_EPOCH + Duration::from_secs(10));
    assert_eq!(e.mtime, SystemTime::UNIX_EPOCH + Duration::from_secs(20));
    assert_eq!(e.dev, "");
    assert_eq!(e.ino, 0);
    assert_eq!(e.model_type, ModelType::Regular);
    assert_eq!(e.model_perms, 0o644);
    assert_eq!(e.uid, 0);
    assert_eq!(e.gid, 0);
    assert_eq!(e.fsize, 14);
    assert_eq!(e.sha, "testsha");
    assert!(!e.flag_assume_valid);
    assert!(!e.flag_stage);
    assert_eq!(e.name, "some_file.txt");
    assert_eq!(e.duplicate(), e);
}

#[test]
fn index_keeps_entries_in_order() {
    let mut index = Index::new();
    assert_eq!(index.version, 2);
    assert_eq!(index.entries, vec![]);
    index.add_entry(entry("a", "one"));
    index.add_entry(entry("b", "two"));
    assert_eq!(index.entries, vec![entry("a", "one"), entry("b", "two")]);
    assert_eq!(index.version, 2);
}

#[test]
fn first_entry_named_gitignore_is_found() {
    let mut index = Index::new();
    assert_eq!(index.get_gitignore(), None);
    index.add_entry(entry("a", "src/main.rs"));
    index.add_entry(entry("b", ".gitignor"));
    assert_eq!(index.get_gitignore(), None);
    index.add_entry(entry("c", "C:\\repo\\.gitignore"));
    index.add_entry(entry("d", ".gitignore"));
    assert_eq!(index.get_gitignore(), Some(entry("c", "C:\\repo\\.gitignore")));
}
