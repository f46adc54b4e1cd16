use deploy_aws_s3::manifest::Timestamp;
use deploy_aws_s3::reconcile::{files_to_delete, files_to_upload, is_current};
use deploy_aws_s3::{FileMetadata, SyncManifest};

fn local_entry(checksum: &str) -> FileMetadata {
    FileMetadata {
        path: "/site/file".to_string(),
        size: 3,
        last_modified: Timestamp { secs: 1_700_000_000, nanos: 0 },
        checksum: Some(checksum.to_string()),
        etag: None,
        content_type: Some("text/plain".to_string()),
    }
}

fn remote_entry(etag: &str) -> FileMetadata {
    FileMetadata {
        path: "file".to_string(),
        size: 3,
        last_modified: Timestamp { secs: 1_700_000_100, nanos: 0 },
        checksum: None,
        etag: Some(etag.to_string()),
        content_type: None,
    }
}

fn deploy_entry(checksum: &str, etag: &str) -> FileMetadata {
    FileMetadata {
        path: "/site/file".to_string(),
        size: 3,
        last_modified: Timestamp { secs: 1_700_000_000, nanos: 0 },
        checksum: Some(checksum.to_string()),
        etag: Some(etag.to_string()),
        content_type: Some("text/plain".to_string()),
    }
}

fn bare_entry() -> FileMetadata {
    FileMetadata {
        path: "file".to_string(),
        size: 3,
        last_modified: Timestamp { secs: 1, nanos: 0 },
        checksum: None,
        etag: None,
        content_type: None,
    }
}

fn manifest_of(entries: Vec<(&str, FileMetadata)>) -> SyncManifest {
    let mut manifest = SyncManifest::new();
    for (key, meta) in entries {
        manifest.insert(key.to_string(), meta);
    }
    manifest
}

fn manifest_key() -> String {
    [".deploy_manifest", "json"].join(".")
}

fn strings(items: &[&str]) -> Vec<String> {
    items.iter().map(|s| s.to_string()).collect()
}

#[test]
fn unchanged_file_is_not_uploaded() {
    let local = manifest_of(vec![("a.txt", local_entry("C1"))]);
    let remote = manifest_of(vec![("a.txt", remote_entry("E1"))]);
    let deploy = manifest_of(vec![("a.txt", deploy_entry("C1", "E1"))]);
    assert_eq!(files_to_upload(&local, &remote, &deploy, false), Vec::<String>::new());
    assert_eq!(files_to_delete(&local, &remote, &manifest_key()), Vec::<String>::new());
}

#[test]
fn changed_local_checksum_triggers_upload() {
    let local = manifest_of(vec![("a.txt", local_entry("C2"))]);
    let remote = manifest_of(vec![("a.txt", remote_entry("E1"))]);
    let deploy = manifest_of(vec![("a.txt", deploy_entry("C1", "E1"))]);
    assert_eq!(files_to_upload(&local, &remote, &deploy, false), strings(&["a.txt"]));
}

#[test]
fn changed_remote_etag_triggers_upload() {
    let local = manifest_of(vec![("a.txt", local_entry("C1"))]);
    let remote = manifest_of(vec![("a.txt", remote_entry("E2"))]);
    let deploy = manifest_of(vec![("a.txt", deploy_entry("C1", "E1"))]);
    assert_eq!(files_to_upload(&local, &remote, &deploy, false), strings(&["a.txt"]));
}

#[test]
fn new_file_is_uploaded() {
    let local = manifest_of(vec![("b.txt", local_entry("C1"))]);
    let remote = SyncManifest::new();
    let deploy = SyncManifest::new();
    assert_eq!(files_to_upload(&local, &remote, &deploy, false), strings(&["b.txt"]));
}

#[test]
fn remote_file_without_deploy_record_is_uploaded() {
    let local = manifest_of(vec![("a.txt", local_entry("C1"))]);
    let remote = manifest_of(vec![("a.txt", remote_entry("E1"))]);
    let deploy = SyncManifest::new();
    assert_eq!(files_to_upload(&local, &remote, &deploy, false), strings(&["a.txt"]));
}

#[test]
fn recorded_file_missing_from_bucket_is_uploaded() {
    let local = manifest_of(vec![("a.txt", local_entry("C1"))]);
    let remote = SyncManifest::new();
    let deploy = manifest_of(vec![("a.txt", deploy_entry("C1", "E1"))]);
    assert_eq!(files_to_upload(&local, &remote, &deploy, false), strings(&["a.txt"]));
}

#[test]
fn forced_upload_takes_every_local_file() {
    let local = manifest_of(vec![
        ("a.txt", local_entry("C1")),
        ("b.txt", local_entry("C2")),
        ("c.txt", local_entry("C3")),
    ]);
    let remote = manifest_of(vec![("a.txt", remote_entry("E1")), ("b.txt", remote_entry("E9"))]);
    let deploy = manifest_of(vec![("a.txt", deploy_entry("C1", "E1"))]);
    assert_eq!(
        files_to_upload(&local, &remote, &deploy, true),
        strings(&["a.txt", "b.txt", "c.txt"])
    );
    assert_eq!(files_to_upload(&local, &remote, &deploy, false), strings(&["b.txt", "c.txt"]));
}

#[test]
fn orphan_is_deleted_and_deploy_manifest_is_kept() {
    let local = SyncManifest::new();
    let remote = manifest_of(vec![
        ("orphan.txt", remote_entry("E1")),
        (manifest_key().as_str(), remote_entry("E2")),
    ]);
    assert_eq!(files_to_delete(&local, &remote, &manifest_key()), strings(&["orphan.txt"]));
}

#[test]
fn remote_object_with_local_file_is_not_deleted() {
    let local = manifest_of(vec![("a.txt", local_entry("C1"))]);
    let remote = manifest_of(vec![("a.txt", remote_entry("E1")), ("old/b.txt", remote_entry("E2"))]);
    assert_eq!(files_to_delete(&local, &remote, "state.db"), strings(&["old/b.txt"]));
}

#[test]
fn upload_and_delete_sets_share_no_key() {
    let local = manifest_of(vec![("a.txt", local_entry("C1")), ("b.txt", local_entry("C2"))]);
    let remote = manifest_of(vec![("b.txt", remote_entry("E2")), ("c.txt", remote_entry("E3"))]);
    let deploy = SyncManifest::new();
    let uploads = files_to_upload(&local, &remote, &deploy, false);
    let deletes = files_to_delete(&local, &remote, &manifest_key());
    assert_eq!(uploads, strings(&["a.txt", "b.txt"]));
    assert_eq!(deletes, strings(&["c.txt"]));
    assert!(uploads.iter().all(|k| !deletes.contains(k)));
}

#[test]
fn entry_without_checksum_and_etag_never_counts_as_current() {
    assert!(is_current(&local_entry("C1"), &remote_entry("E1"), &deploy_entry("C1", "E1")));
    assert!(!is_current(&bare_entry(), &bare_entry(), &bare_entry()));
    assert!(!is_current(&local_entry("C1"), &remote_entry("E1"), &bare_entry()));
    let mut no_etag = deploy_entry("C1", "E1");
    no_etag.etag = None;
    assert!(!is_current(&local_entry("C1"), &remote_entry("E1"), &no_etag));
    assert!(!is_current(&local_entry("C1"), &bare_entry(), &no_etag));
}

#[test]
fn failed_upload_record_is_uploaded_again() {
    let local = manifest_of(vec![("a.txt", local_entry("C1"))]);
    let remote = manifest_of(vec![("a.txt", remote_entry("E1"))]);
    let mut record = deploy_entry("C1", "E1");
    record.etag = None;
    let deploy = manifest_of(vec![("a.txt", record)]);
    assert_eq!(files_to_upload(&local, &remote, &deploy, false), strings(&["a.txt"]));
}

// The upload rule written out case by case, to hold the engine against.
fn expected_upload(
    local: &FileMetadata,
    remote: Option<&FileMetadata>,
    deploy: Option<&FileMetadata>,
    force: bool,
) -> bool {
    if force {
        return true;
    }
    let (remote, deploy) = match (remote, deploy) {
        (Some(remote), Some(deploy)) => (remote, deploy),
        _ => return true,
    };
    let meaningful = |m: &FileMetadata| m.checksum.is_some() || m.etag.is_some();
    !(meaningful(local)
        && meaningful(remote)
        && meaningful(deploy)
        && deploy.etag == remote.etag
        && deploy.checksum == local.checksum)
}

fn variant(which: u64) -> Option<FileMetadata> {
    let values = [None, Some("1"), Some("2")];
    if which == 9 {
        return None;
    }
    let mut meta = bare_entry();
    meta.checksum = values[(which % 3) as usize].map(|v| v.to_string());
    meta.etag = values[(which / 3) as usize].map(|v| v.to_string());
    Some(meta)
}

#[test]
fn upload_rule_holds_for_every_combination() {
    for l in 0..9 {
        for r in 0..10 {
            for d in 0..10 {
                for force in [false, true] {
                    let local_meta = variant(l).unwrap();
                    let mut local = SyncManifest::new();
                    local.insert("k".to_string(), local_meta.clone());
                    let mut remote = SyncManifest::new();
                    if let Some(meta) = variant(r) {
                        remote.insert("k".to_string(), meta);
                    }
                    let mut deploy = SyncManifest::new();
                    if let Some(meta) = variant(d) {
                        deploy.insert("k".to_string(), meta);
                    }
                    let uploads = files_to_upload(&local, &remote, &deploy, force);
                    let expected =
                        expected_upload(&local_meta, variant(r).as_ref(), variant(d).as_ref(), force);
                    assert_eq!(uploads == strings(&["k"]), expected, "{} {} {} {}", l, r, d, force);
                    assert!(uploads.len() <= 1);
                }
            }
        }
    }
}

#[test]
fn delete_rule_holds_for_every_combination() {
    for in_local in [false, true] {
        for in_remote in [false, true] {
            for reserved in ["k", "other"] {
                let mut local = SyncManifest::new();
                if in_local {
                    local.insert("k".to_string(), local_entry("C"));
                }
                let mut remote = SyncManifest::new();
                if in_remote {
                    remote.insert("k".to_string(), remote_entry("E"));
                }
                let deletes = files_to_delete(&local, &remote, reserved);
                let expected = in_remote && !in_local && reserved != "k";
                assert_eq!(deletes == strings(&["k"]), expected);
                assert!(deletes.len() <= 1);
            }
        }
    }
}
