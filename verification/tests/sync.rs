use deploy_aws_s3::drivers::s3driver::{CannedAcl, S3Driver};
use deploy_aws_s3::format::ManifestError;
use deploy_aws_s3::manifest::Timestamp;
use deploy_aws_s3::sync::{
    load_deploy_manifest, persist_for, plan, prune_deleted, record_upload, record_uploads,
    upload_for, SyncError, SyncOptions, SyncPlan, UploadOutcome,
};
use deploy_aws_s3::{FileMetadata, SyncManifest};

fn manifest_key() -> String {
    [".deploy_manifest", "json"].join(".")
}

fn options(force_upload: bool, delete: bool) -> SyncOptions {
    SyncOptions {
        force_upload,
        delete,
        acl: "public-read".to_string(),
        deploy_manifest: manifest_key(),
        create_deploy_manifest: true,
        deploy_manifest_acl: "private".to_string(),
    }
}

fn local_entry(name: &str, checksum: &str) -> FileMetadata {
    FileMetadata {
        path: format!("/site/{}", name),
        size: 3,
        last_modified: Timestamp { secs: 1_700_000_000, nanos: 7 },
        checksum: Some(checksum.to_string()),
        etag: None,
        content_type: Some("text/plain".to_string()),
    }
}

fn remote_entry(name: &str, etag: &str) -> FileMetadata {
    FileMetadata {
        path: name.to_string(),
        size: 3,
        last_modified: Timestamp { secs: 1_700_000_100, nanos: 0 },
        checksum: None,
        etag: Some(etag.to_string()),
        content_type: None,
    }
}

fn strings(items: &[&str]) -> Vec<String> {
    items.iter().map(|s| s.to_string()).collect()
}

fn outcome(key: &str, etag: Option<&str>) -> UploadOutcome {
    UploadOutcome { key: key.to_string(), etag: etag.map(|e| e.to_string()) }
}

#[test]
fn plan_lists_uploads_and_deletes() {
    let mut local = SyncManifest::new();
    local.insert("a.txt".to_string(), local_entry("a.txt", "C1"));
    let mut remote = SyncManifest::new();
    remote.insert("orphan.txt".to_string(), remote_entry("orphan.txt", "E0"));
    remote.insert(manifest_key(), remote_entry("state", "E9"));
    let deploy = SyncManifest::new();
    assert_eq!(
        plan(&local, &remote, &deploy, &options(false, true)),
        SyncPlan { to_upload: strings(&["a.txt"]), to_delete: strings(&["orphan.txt"]) }
    );
}

#[test]
fn plan_deletes_nothing_unless_enabled() {
    let local = SyncManifest::new();
    let mut remote = SyncManifest::new();
    remote.insert("orphan.txt".to_string(), remote_entry("orphan.txt", "E0"));
    let deploy = SyncManifest::new();
    assert_eq!(
        plan(&local, &remote, &deploy, &options(false, false)),
        SyncPlan { to_upload: Vec::new(), to_delete: Vec::new() }
    );
}

#[test]
fn upload_reads_the_local_path_and_sends_the_content_type() {
    let driver = S3Driver::new("bucket".to_string(), String::new());
    let upload = upload_for(&driver, "a.txt", &local_entry("a.txt", "C1"), "public-read");
    assert_eq!(upload.source, "/site/a.txt");
    assert_eq!(upload.request.bucket, "bucket");
    assert_eq!(upload.request.key, "a.txt");
    assert_eq!(upload.request.acl, CannedAcl::PublicRead);
    assert_eq!(upload.request.content_type, Some("text/plain".to_string()));
    assert_eq!(
        upload.request.metadata,
        Some(vec![("Content-Type".to_string(), "text/plain".to_string())])
    );
}

#[test]
fn upload_without_content_type_sends_none() {
    let driver = S3Driver::new("bucket".to_string(), String::new());
    let mut meta = local_entry("a.bin", "C1");
    meta.content_type = None;
    let upload = upload_for(&driver, "a.bin", &meta, "whatever");
    assert_eq!(upload.request.acl, CannedAcl::Private);
    assert_eq!(upload.request.content_type, None);
    assert_eq!(upload.request.metadata, None);
}

#[test]
fn successful_upload_is_recorded_with_its_etag() {
    let mut deploy = SyncManifest::new();
    record_upload(&mut deploy, "a.txt", &local_entry("a.txt", "C1"), Some("E1".to_string()));
    let mut expected = local_entry("a.txt", "C1");
    expected.etag = Some("E1".to_string());
    assert_eq!(deploy.get("a.txt"), Some(&expected));
}

#[test]
fn failed_upload_is_recorded_without_etag() {
    let mut deploy = SyncManifest::new();
    let mut old = local_entry("a.txt", "C0");
    old.etag = Some("E0".to_string());
    deploy.insert("a.txt".to_string(), old);
    record_upload(&mut deploy, "a.txt", &local_entry("a.txt", "C1"), None);
    assert_eq!(deploy.get("a.txt"), Some(&local_entry("a.txt", "C1")));
    assert_eq!(deploy.get("a.txt").unwrap().etag, None);
}

#[test]
fn one_failed_upload_does_not_stop_the_others() {
    let mut local = SyncManifest::new();
    local.insert("a".to_string(), local_entry("a", "C1"));
    local.insert("b".to_string(), local_entry("b", "C2"));
    local.insert("c".to_string(), local_entry("c", "C3"));
    let mut deploy = SyncManifest::new();
    let outcomes = vec![
        outcome("a", Some("E1")),
        outcome("b", None),
        outcome("unknown", Some("E7")),
        outcome("c", Some("E3")),
    ];
    record_uploads(&mut deploy, &local, &outcomes);
    assert_eq!(deploy.len(), 3);
    assert_eq!(deploy.get("a").unwrap().etag, Some("E1".to_string()));
    assert_eq!(deploy.get("b").unwrap().etag, None);
    assert_eq!(deploy.get("b").unwrap().checksum, Some("C2".to_string()));
    assert_eq!(deploy.get("c").unwrap().etag, Some("E3".to_string()));
    assert!(!deploy.contains_key("unknown"));
}

#[test]
fn deleted_objects_leave_the_deploy_manifest() {
    let mut deploy = SyncManifest::new();
    deploy.insert("a".to_string(), local_entry("a", "C1"));
    deploy.insert("b".to_string(), local_entry("b", "C2"));
    deploy.insert("c".to_string(), local_entry("c", "C3"));
    prune_deleted(&mut deploy, &strings(&["a", "never-recorded", "c", "a"]));
    assert_eq!(deploy.len(), 1);
    assert!(deploy.contains_key("b"));
    prune_deleted(&mut deploy, &Vec::new());
    assert_eq!(deploy.len(), 1);
}

#[test]
fn absent_deploy_manifest_is_created_when_permitted() {
    let deploy = load_deploy_manifest(None, true).unwrap();
    assert_eq!(deploy.len(), 0);
    assert!(deploy.ignore_patterns().is_empty());
}

#[test]
fn absent_deploy_manifest_is_fatal_when_not_permitted() {
    assert_eq!(load_deploy_manifest(None, false).err(), Some(SyncError::MissingDeployManifest));
}

#[test]
fn unreadable_deploy_manifest_is_fatal() {
    assert_eq!(
        load_deploy_manifest(Some(b"{\"files\":"), true).err(),
        Some(SyncError::InvalidDeployManifest(ManifestError::Malformed))
    );
    assert_eq!(
        load_deploy_manifest(Some(b"not a manifest"), false).err(),
        Some(SyncError::InvalidDeployManifest(ManifestError::Malformed))
    );
    assert_eq!(
        load_deploy_manifest(Some(&[0x80]), true).err(),
        Some(SyncError::InvalidDeployManifest(ManifestError::NotUtf8))
    );
}

#[test]
fn stored_deploy_manifest_is_loaded() {
    let mut stored = SyncManifest::new();
    stored.insert("a".to_string(), local_entry("a", "C1"));
    let bytes = stored.to_vec().unwrap();
    let deploy = load_deploy_manifest(Some(&bytes), false).unwrap();
    assert_eq!(deploy.len(), 1);
    assert_eq!(deploy.get("a"), Some(&local_entry("a", "C1")));
}

#[test]
fn persist_writes_the_manifest_under_its_key() {
    let driver = S3Driver::new("bucket".to_string(), String::new());
    let mut deploy = SyncManifest::new();
    deploy.insert("a".to_string(), local_entry("a", "C1"));
    let persist = persist_for(&driver, &deploy, &options(false, false)).unwrap();
    assert_eq!(persist.body, deploy.to_vec().unwrap());
    assert_eq!(persist.request.bucket, "bucket");
    assert_eq!(persist.request.key, manifest_key());
    assert_eq!(persist.request.acl, CannedAcl::Private);
    assert_eq!(persist.request.content_type, Some("application/json".to_string()));
    assert_eq!(
        persist.request.metadata,
        Some(vec![("Content-Type".to_string(), "application/json".to_string())])
    );
}

#[test]
fn persist_happens_even_without_changes() {
    let driver = S3Driver::new("bucket".to_string(), String::new());
    let deploy = SyncManifest::new();
    let persist = persist_for(&driver, &deploy, &options(false, false)).unwrap();
    assert_eq!(persist.body, b"{\"files\":{},\"ignore_patterns\":[]}".to_vec());
}

#[test]
fn persist_refuses_an_invalid_timestamp() {
    let driver = S3Driver::new("bucket".to_string(), String::new());
    let mut deploy = SyncManifest::new();
    let mut meta = local_entry("a", "C1");
    meta.last_modified.nanos = 2_000_000_000;
    deploy.insert("a".to_string(), meta);
    assert_eq!(
        persist_for(&driver, &deploy, &options(false, false)).err(),
        Some(ManifestError::InvalidTimestamp)
    );
}

// One run against a bucket held in memory: every upload succeeds with a fresh
// etag, the planned deletions are carried out, and the deploy manifest is stored.
fn run(local: &SyncManifest, bucket: &mut SyncManifest, choice: &SyncOptions, round: u32) -> SyncPlan {
    let driver = S3Driver::new("bucket".to_string(), String::new());
    let stored = bucket.get(&manifest_key()).map(|meta| meta.path.clone().into_bytes());
    let mut deploy = load_deploy_manifest(stored.as_deref(), choice.create_deploy_manifest).unwrap();
    let mut remote = SyncManifest::new();
    for i in 0..bucket.len() {
        let entry = bucket.entry_at(i);
        remote.insert(entry.key.clone(), remote_entry(&entry.key, entry.meta.etag.as_deref().unwrap()));
    }
    let actions = plan(local, &remote, &deploy, choice);
    let mut outcomes = Vec::new();
    for key in &actions.to_upload {
        let upload = upload_for(&driver, key, local.get(key).unwrap(), &choice.acl);
        let etag = format!("etag-{}-{}", round, upload.request.key);
        bucket.insert(key.clone(), remote_entry(key, &etag));
        outcomes.push(UploadOutcome { key: key.clone(), etag: Some(etag) });
    }
    record_uploads(&mut deploy, local, &outcomes);
    if let Some(batch) = driver.delete_objects(&actions.to_delete) {
        for key in &batch.keys {
            bucket.remove(key);
        }
        prune_deleted(&mut deploy, &actions.to_delete);
    }
    let persist = persist_for(&driver, &deploy, choice).unwrap();
    let mut object = remote_entry("state", &format!("etag-{}-state", round));
    object.path = String::from_utf8(persist.body).unwrap();
    bucket.insert(persist.request.key, object);
    actions
}

#[test]
fn second_run_without_changes_does_nothing() {
    let mut local = SyncManifest::new();
    local.insert("a.txt".to_string(), local_entry("a.txt", "C1"));
    local.insert("b/c.txt".to_string(), local_entry("b/c.txt", "C2"));
    let mut bucket = SyncManifest::new();
    bucket.insert("orphan.txt".to_string(), remote_entry("orphan.txt", "E0"));
    bucket.insert("a.txt".to_string(), remote_entry("a.txt", "stale"));
    let first = run(&local, &mut bucket, &options(false, true), 1);
    assert_eq!(first.to_upload, strings(&["a.txt", "b/c.txt"]));
    assert_eq!(first.to_delete, strings(&["orphan.txt"]));
    let second = run(&local, &mut bucket, &options(false, true), 2);
    assert_eq!(second, SyncPlan { to_upload: Vec::new(), to_delete: Vec::new() });
    let third = run(&local, &mut bucket, &options(true, true), 3);
    assert_eq!(third.to_upload, strings(&["a.txt", "b/c.txt"]));
    let fourth = run(&local, &mut bucket, &options(false, true), 4);
    assert_eq!(fourth, SyncPlan { to_upload: Vec::new(), to_delete: Vec::new() });
}

#[test]
fn changed_file_is_uploaded_on_the_next_run() {
    let mut local = SyncManifest::new();
    local.insert("a.txt".to_string(), local_entry("a.txt", "C1"));
    local.insert("b.txt".to_string(), local_entry("b.txt", "C2"));
    let mut bucket = SyncManifest::new();
    run(&local, &mut bucket, &options(false, false), 1);
    local.insert("a.txt".to_string(), local_entry("a.txt", "C1-changed"));
    local.remove("b.txt");
    let next = run(&local, &mut bucket, &options(false, true), 2);
    assert_eq!(next, SyncPlan { to_upload: strings(&["a.txt"]), to_delete: strings(&["b.txt"]) });
    let idle = run(&local, &mut bucket, &options(false, true), 3);
    assert_eq!(idle, SyncPlan { to_upload: Vec::new(), to_delete: Vec::new() });
}
