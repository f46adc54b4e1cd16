use deploy_aws_s3::manifest::Timestamp;
use deploy_aws_s3::{FileMetadata, SyncManifest};

fn entry(path: &str, checksum: Option<&str>, etag: Option<&str>) -> FileMetadata {
    FileMetadata {
        path: path.to_string(),
        size: 42,
        last_modified: Timestamp { secs: 1_700_000_000, nanos: 5 },
        checksum: checksum.map(|s| s.to_string()),
        etag: etag.map(|s| s.to_string()),
        content_type: None,
    }
}

fn keys_of(manifest: &SyncManifest) -> Vec<String> {
    (0..manifest.len()).map(|i| manifest.entry_at(i).key.clone()).collect()
}

#[test]
fn new_manifest_is_empty() {
    let manifest = SyncManifest::new();
    assert_eq!(manifest.len(), 0);
    assert!(manifest.ignore_patterns().is_empty());
    assert!(!manifest.contains_key("a.txt"));
    assert!(manifest.get("a.txt").is_none());
}

#[test]
fn insert_then_get_returns_the_entry() {
    let mut manifest = SyncManifest::new();
    manifest.insert("a.txt".to_string(), entry("/src/a.txt", Some("c1"), None));
    assert_eq!(manifest.len(), 1);
    assert!(manifest.contains_key("a.txt"));
    assert_eq!(manifest.get("a.txt"), Some(&entry("/src/a.txt", Some("c1"), None)));
    assert!(manifest.get("b.txt").is_none());
}

#[test]
fn insert_replaces_an_entry_in_place() {
    let mut manifest = SyncManifest::new();
    manifest.insert("a.txt".to_string(), entry("/src/a.txt", Some("c1"), None));
    manifest.insert("b.txt".to_string(), entry("/src/b.txt", Some("c2"), None));
    manifest.insert("a.txt".to_string(), entry("/src/a.txt", Some("c3"), Some("e3")));
    assert_eq!(manifest.len(), 2);
    assert_eq!(keys_of(&manifest), vec!["a.txt".to_string(), "b.txt".to_string()]);
    assert_eq!(manifest.get("a.txt"), Some(&entry("/src/a.txt", Some("c3"), Some("e3"))));
    assert_eq!(manifest.get("b.txt"), Some(&entry("/src/b.txt", Some("c2"), None)));
}

#[test]
fn remove_moves_the_last_entry_into_the_gap() {
    let mut manifest = SyncManifest::new();
    manifest.insert("a".to_string(), entry("a", Some("1"), None));
    manifest.insert("b".to_string(), entry("b", Some("2"), None));
    manifest.insert("c".to_string(), entry("c", Some("3"), None));
    assert!(manifest.remove("a"));
    assert_eq!(keys_of(&manifest), vec!["c".to_string(), "b".to_string()]);
    assert!(!manifest.contains_key("a"));
    assert_eq!(manifest.get("b"), Some(&entry("b", Some("2"), None)));
    assert_eq!(manifest.get("c"), Some(&entry("c", Some("3"), None)));
    assert!(manifest.remove("b"));
    assert_eq!(keys_of(&manifest), vec!["c".to_string()]);
    assert_eq!(manifest.get("c"), Some(&entry("c", Some("3"), None)));
}

#[test]
fn remove_of_a_missing_key_changes_nothing() {
    let mut manifest = SyncManifest::new();
    manifest.insert("a".to_string(), entry("a", Some("1"), None));
    assert!(!manifest.remove("zzz"));
    assert_eq!(manifest.len(), 1);
    assert!(manifest.contains_key("a"));
}

#[test]
fn many_inserts_and_removes_keep_lookups_right() {
    let mut manifest = SyncManifest::new();
    for i in 0..200u64 {
        let mut meta = entry("p", Some("c"), None);
        meta.size = i;
        manifest.insert(format!("key-{}", i), meta);
    }
    for i in (0..200u64).filter(|i| i % 3 == 0) {
        assert!(manifest.remove(&format!("key-{}", i)));
    }
    for i in 0..200u64 {
        let found = manifest.get(&format!("key-{}", i));
        if i % 3 == 0 {
            assert!(found.is_none());
        } else {
            assert_eq!(found.map(|m| m.size), Some(i));
        }
    }
    assert_eq!(manifest.len(), 133);
}

#[test]
fn ignore_patterns_keep_their_order() {
    let mut manifest = SyncManifest::new();
    manifest.add_ignore_pattern("*.tmp".to_string());
    manifest.add_ignore_pattern("build/".to_string());
    assert_eq!(manifest.ignore_patterns(), &vec!["*.tmp".to_string(), "build/".to_string()]);
    assert_eq!(manifest.len(), 0);
}

#[test]
fn entry_without_checksum_and_etag_is_meaningless() {
    assert!(!entry("a", None, None).is_meaningful());
    assert!(entry("a", Some("c"), None).is_meaningful());
    assert!(entry("a", None, Some("e")).is_meaningful());
    assert!(entry("a", Some("c"), Some("e")).is_meaningful());
}

#[test]
fn clone_of_metadata_keeps_every_field() {
    let meta = FileMetadata {
        path: "/src/a.txt".to_string(),
        size: 7,
        last_modified: Timestamp { secs: 3, nanos: 4 },
        checksum: Some("c".to_string()),
        etag: None,
        content_type: Some("text/plain".to_string()),
    };
    assert_eq!(meta.clone(), meta);
}

#[test]
fn time_before_the_epoch_counts_as_the_epoch() {
    assert_eq!(Timestamp::since_epoch(1_700_000_000, 5), Timestamp { secs: 1_700_000_000, nanos: 5 });
    assert_eq!(Timestamp::since_epoch(0, 999_999_999), Timestamp { secs: 0, nanos: 999_999_999 });
    assert_eq!(Timestamp::since_epoch(-1, 500_000_000), Timestamp { secs: 0, nanos: 0 });
    assert_eq!(Timestamp::since_epoch(i64::MIN, 1), Timestamp { secs: 0, nanos: 0 });
    assert_eq!(Timestamp::since_epoch(i64::MAX, 0), Timestamp { secs: i64::MAX as u64, nanos: 0 });
}
