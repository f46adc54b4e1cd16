use deploy_aws_s3::drivers::fsdriver::{FSDriver, ScanEntry, ScanError};
use deploy_aws_s3::drivers::s3driver::{
    CannedAcl, DeleteObjectsRequest, GetObjectRequest, ListObjectsRequest, ListedPage,
    RemoteObject, S3Driver,
};
use deploy_aws_s3::manifest::Timestamp;
use deploy_aws_s3::{FileMetadata, SyncManifest};

fn stamp(secs: u64) -> Timestamp {
    Timestamp { secs, nanos: 0 }
}

fn object(key: &str, etag: &str) -> RemoteObject {
    RemoteObject { key: key.to_string(), size: 10, last_modified: stamp(99), e_tag: etag.to_string() }
}

fn file(path: &str, content: &[u8]) -> ScanEntry {
    ScanEntry::File {
        path: path.to_string(),
        size: content.len() as u64,
        modified: stamp(1_700_000_000),
        checksum: FSDriver::local_file_hash(content),
    }
}

fn keys_of(manifest: &SyncManifest) -> Vec<String> {
    (0..manifest.len()).map(|i| manifest.entry_at(i).key.clone()).collect()
}

fn pair(name: &str, value: &str) -> (String, String) {
    (name.to_string(), value.to_string())
}

struct Node {
    name: &'static str,
    children: Option<Vec<Node>>,
}

fn dir(name: &'static str, children: Vec<Node>) -> Node {
    Node { name, children: Some(children) }
}

fn leaf(name: &'static str) -> Node {
    Node { name, children: None }
}

// Walks a tree held in memory the way a walk of the file system goes: an entry
// that is not visited is not descended into.
fn walk(node: &Node, parent: &str, depth: usize, found: &mut Vec<ScanEntry>) {
    if !FSDriver::is_not_ignored_file(node.name.as_bytes(), depth) {
        return;
    }
    let path = if depth == 0 { format!("{}{}", parent, node.name) } else { format!("{}/{}", parent, node.name) };
    match &node.children {
        Some(children) => {
            found.push(ScanEntry::Directory { path: path.clone() });
            for child in children {
                walk(child, &path, depth + 1, found);
            }
        }
        None => found.push(file(&path, node.name.as_bytes())),
    }
}

#[test]
fn access_levels_are_recognised_by_exact_name() {
    assert_eq!(CannedAcl::from_name("authenticated-read"), CannedAcl::AuthenticatedRead);
    assert_eq!(CannedAcl::from_name("aws-exec-read"), CannedAcl::AwsExecRead);
    assert_eq!(CannedAcl::from_name("bucket-owner-full-control"), CannedAcl::BucketOwnerFullControl);
    assert_eq!(CannedAcl::from_name("bucket-owner-read"), CannedAcl::BucketOwnerRead);
    assert_eq!(CannedAcl::from_name("private"), CannedAcl::Private);
    assert_eq!(CannedAcl::from_name("public"), CannedAcl::PublicRead);
    assert_eq!(CannedAcl::from_name("public-read"), CannedAcl::PublicRead);
    assert_eq!(CannedAcl::from_name("public-read-write"), CannedAcl::PublicReadWrite);
}

#[test]
fn unknown_access_level_is_private() {
    assert_eq!(CannedAcl::from_name(""), CannedAcl::Private);
    assert_eq!(CannedAcl::from_name("Public-Read"), CannedAcl::Private);
    assert_eq!(CannedAcl::from_name("public-read "), CannedAcl::Private);
    assert_eq!(CannedAcl::from_name("public-read-writ"), CannedAcl::Private);
    assert_eq!(CannedAcl::from_name("everyone"), CannedAcl::Private);
}

#[test]
fn put_request_carries_key_access_level_and_content_type() {
    let driver = S3Driver::new("bucket".to_string(), "site".to_string());
    let metadata = vec![pair("x-owner", "me"), pair("Content-Type", "text/html")];
    let request = driver.put_object_data("index.html".to_string(), Some(metadata.clone()), "public-read");
    assert_eq!(request.bucket, "bucket");
    assert_eq!(request.key, "index.html");
    assert_eq!(request.acl, CannedAcl::PublicRead);
    assert_eq!(request.content_type, Some("text/html".to_string()));
    assert_eq!(request.metadata, Some(metadata));
}

#[test]
fn put_request_without_content_type() {
    let driver = S3Driver::new("bucket".to_string(), String::new());
    let request = driver.put_object_data("a".to_string(), None, "nonsense");
    assert_eq!(request.acl, CannedAcl::Private);
    assert_eq!(request.content_type, None);
    assert_eq!(request.metadata, None);
    let request = driver.put_object_data("a".to_string(), Some(vec![pair("content-type", "x")]), "private");
    assert_eq!(request.content_type, None);
    let request = driver.put_object_data("a".to_string(), Some(Vec::new()), "private");
    assert_eq!(request.content_type, None);
    assert_eq!(request.metadata, Some(Vec::new()));
}

#[test]
fn last_content_type_pair_wins() {
    let driver = S3Driver::new("bucket".to_string(), String::new());
    let metadata = vec![pair("Content-Type", "a/b"), pair("k", "v"), pair("Content-Type", "c/d"), pair("z", "y")];
    let request = driver.put_object_data("a".to_string(), Some(metadata), "private");
    assert_eq!(request.content_type, Some("c/d".to_string()));
}

#[test]
fn empty_batch_delete_is_a_no_op() {
    let driver = S3Driver::new("bucket".to_string(), String::new());
    assert_eq!(driver.delete_objects(&Vec::new()), None);
}

#[test]
fn batch_delete_holds_every_key_in_order() {
    let driver = S3Driver::new("bucket".to_string(), "p".to_string());
    let keys: Vec<String> = (0..1500).map(|i| format!("k{}", i)).collect();
    assert_eq!(
        driver.delete_objects(&keys),
        Some(DeleteObjectsRequest { bucket: "bucket".to_string(), keys: keys.clone() })
    );
    assert_eq!(
        driver.delete_objects(&vec!["one".to_string()]),
        Some(DeleteObjectsRequest { bucket: "bucket".to_string(), keys: vec!["one".to_string()] })
    );
}

#[test]
fn read_and_list_requests_name_bucket_and_key() {
    let driver = S3Driver::new("bucket".to_string(), "site/".to_string());
    assert_eq!(driver.bucket(), "bucket");
    assert_eq!(driver.common_prefix(), "site/");
    assert_eq!(
        driver.get_object_reader("state"),
        GetObjectRequest { bucket: "bucket".to_string(), key: "state".to_string() }
    );
    assert_eq!(
        driver.list_request(),
        ListObjectsRequest { bucket: "bucket".to_string(), prefix: "site/".to_string() }
    );
}

#[test]
fn remote_manifest_keeps_every_key_across_pages() {
    let driver = S3Driver::new("bucket".to_string(), "site".to_string());
    let pages = vec![
        ListedPage::Objects(vec![object("site/a.txt", "e1"), object("site/b.txt", "e2")]),
        ListedPage::Objects(Vec::new()),
        ListedPage::Failed,
        ListedPage::Objects(vec![object("site/c.txt", "e3")]),
    ];
    let manifest = driver.build_manifest(&pages);
    assert_eq!(keys_of(&manifest), vec!["site/a.txt", "site/b.txt", "site/c.txt"]);
    assert_eq!(
        manifest.get("site/c.txt"),
        Some(&FileMetadata {
            path: "site/site/c.txt".to_string(),
            size: 10,
            last_modified: stamp(99),
            checksum: None,
            etag: Some("e3".to_string()),
            content_type: None,
        })
    );
    assert!(manifest.ignore_patterns().is_empty());
}

#[test]
fn remote_manifest_of_no_pages_is_empty() {
    let driver = S3Driver::new("bucket".to_string(), String::new());
    assert_eq!(driver.build_manifest(&Vec::new()).len(), 0);
    assert_eq!(driver.build_manifest(&vec![ListedPage::Failed]).len(), 0);
}

#[test]
fn remote_path_joins_prefix_and_key() {
    let path_of = |prefix: &str, key: &str| {
        let driver = S3Driver::new("b".to_string(), prefix.to_string());
        let manifest = driver.build_manifest(&vec![ListedPage::Objects(vec![object(key, "e")])]);
        manifest.get(key).unwrap().path.clone()
    };
    assert_eq!(path_of("", "a.txt"), "a.txt");
    assert_eq!(path_of("site", "a.txt"), "site/a.txt");
    assert_eq!(path_of("site/", "a.txt"), "site/a.txt");
    assert_eq!(path_of("site", "/abs/a.txt"), "/abs/a.txt");
    assert_eq!(path_of("site", ""), "site/");
    assert_eq!(path_of("/", "a"), "/a");
}

#[test]
fn add_page_replaces_an_entry_listed_twice() {
    let driver = S3Driver::new("b".to_string(), String::new());
    let mut manifest = SyncManifest::new();
    driver.add_page(&mut manifest, &vec![object("k", "old"), object("other", "x")]);
    driver.add_page(&mut manifest, &vec![object("k", "new")]);
    assert_eq!(manifest.len(), 2);
    assert_eq!(manifest.get("k").unwrap().etag, Some("new".to_string()));
    assert_eq!(manifest.get("other").unwrap().etag, Some("x".to_string()));
}

#[test]
fn dot_names_are_not_visited_below_the_root() {
    assert!(FSDriver::is_not_ignored_file(b"visible.txt", 1));
    assert!(!FSDriver::is_not_ignored_file(b".hidden", 1));
    assert!(!FSDriver::is_not_ignored_file(b".git", 3));
    assert!(!FSDriver::is_not_ignored_file(b".", 1));
    assert!(FSDriver::is_not_ignored_file(b".hidden", 0));
    assert!(FSDriver::is_not_ignored_file(b"a.b", 2));
    assert!(FSDriver::is_not_ignored_file(b"", 1));
    assert!(FSDriver::is_not_ignored_file(b"", 0));
}

#[test]
fn name_that_is_not_text_is_judged_by_its_first_byte() {
    assert!(FSDriver::is_not_ignored_file(&[0xff, b'a'], 1));
    assert!(FSDriver::is_not_ignored_file(&[b'a', 0xff, 0xfe], 5));
    assert!(FSDriver::is_not_ignored_file(&[0xc3], 1));
    assert!(FSDriver::is_not_ignored_file(&[0xff], 0));
    assert!(!FSDriver::is_not_ignored_file(&[b'.', 0xff], 1));
    assert!(FSDriver::is_not_ignored_file(&[b'.', 0xff], 0));
}

#[test]
fn file_whose_path_is_not_text_fails_the_scan() {
    let driver = FSDriver::new("/srv/site".to_string());
    let entries = vec![
        file("/srv/site/a.txt", b"a"),
        ScanEntry::NotText { path: "/srv/site/\u{fffd}.txt".to_string() },
        ScanEntry::Unreadable { path: "/srv/site/gone.txt".to_string() },
    ];
    assert_eq!(
        driver.build_manifest(&entries).err(),
        Some(ScanError::NotText { path: "/srv/site/\u{fffd}.txt".to_string() })
    );
}

#[test]
fn checksum_of_a_scanned_file_has_64_digits() {
    assert_eq!(FSDriver::local_file_hash(b"").len(), 64);
    assert_eq!(FSDriver::local_file_hash(&[0u8; 1000]).len(), 64);
}

#[test]
fn hidden_directory_is_pruned_from_the_scan() {
    let root = dir("root", vec![dir(".hidden", vec![leaf("inner.txt")]), leaf("visible.txt"), leaf(".env")]);
    let mut found = Vec::new();
    walk(&root, "/srv/", 0, &mut found);
    let driver = FSDriver::new("/srv/root".to_string());
    let manifest = driver.build_manifest(&found).unwrap();
    assert_eq!(keys_of(&manifest), vec!["visible.txt"]);
}

#[test]
fn root_with_a_dot_name_is_scanned() {
    let root = dir(
        ".site",
        vec![leaf("index.html"), dir("css", vec![leaf("main.css"), leaf(".cache")]), dir(".git", vec![leaf("HEAD")])],
    );
    let mut found = Vec::new();
    walk(&root, "/srv/", 0, &mut found);
    let driver = FSDriver::new("/srv/.site".to_string());
    let manifest = driver.build_manifest(&found).unwrap();
    assert_eq!(keys_of(&manifest), vec!["index.html", "css/main.css"]);
}

#[test]
fn local_manifest_records_checksum_and_content_type() {
    let driver = FSDriver::new("/srv/site".to_string());
    let entries = vec![
        ScanEntry::Directory { path: "/srv/site".to_string() },
        file("/srv/site/index.html", b"hello world"),
        ScanEntry::Directory { path: "/srv/site/img".to_string() },
        ScanEntry::Other { path: "/srv/site/link".to_string() },
        file("/srv/site/img/logo.png", b""),
    ];
    let manifest = driver.build_manifest(&entries).unwrap();
    assert_eq!(keys_of(&manifest), vec!["index.html", "img/logo.png"]);
    assert_eq!(
        manifest.get("index.html"),
        Some(&FileMetadata {
            path: "/srv/site/index.html".to_string(),
            size: 11,
            last_modified: stamp(1_700_000_000),
            checksum: Some("b94d27b9934d3e08a52e52d7da7dabfac484efe37a5380ee9088f7ace2efcde9".to_string()),
            etag: None,
            content_type: Some("text/html".to_string()),
        })
    );
    assert_eq!(manifest.get("img/logo.png").unwrap().content_type, Some("image/png".to_string()));
    assert!(manifest.ignore_patterns().is_empty());
}

#[test]
fn unreadable_entry_fails_the_whole_scan() {
    let driver = FSDriver::new("/srv/site".to_string());
    let entries = vec![
        file("/srv/site/a.txt", b"a"),
        ScanEntry::Unreadable { path: "/srv/site/gone.txt".to_string() },
        file("/srv/site/b.txt", b"b"),
    ];
    assert_eq!(
        driver.build_manifest(&entries).err(),
        Some(ScanError::Unreadable { path: "/srv/site/gone.txt".to_string() })
    );
}

#[test]
fn file_outside_the_base_fails_the_scan() {
    let driver = FSDriver::new("/srv/site".to_string());
    let entries = vec![file("/srv/site/a.txt", b"a"), file("/srv/sitemap.xml", b"b")];
    assert_eq!(
        driver.build_manifest(&entries).err(),
        Some(ScanError::OutsideBase { path: "/srv/sitemap.xml".to_string() })
    );
}

#[test]
fn first_failure_of_a_scan_is_reported() {
    let driver = FSDriver::new("/srv/site".to_string());
    let entries = vec![
        file("/elsewhere/a.txt", b"a"),
        ScanEntry::Unreadable { path: "/srv/site/gone.txt".to_string() },
    ];
    assert_eq!(
        driver.build_manifest(&entries).err(),
        Some(ScanError::OutsideBase { path: "/elsewhere/a.txt".to_string() })
    );
    let entries = vec![
        ScanEntry::Unreadable { path: "/srv/site/gone.txt".to_string() },
        file("/elsewhere/a.txt", b"a"),
    ];
    assert_eq!(
        driver.build_manifest(&entries).err(),
        Some(ScanError::Unreadable { path: "/srv/site/gone.txt".to_string() })
    );
}

#[test]
fn scan_without_entries_gives_an_empty_manifest() {
    let driver = FSDriver::new("/srv/site".to_string());
    assert_eq!(driver.build_manifest(&Vec::new()).unwrap().len(), 0);
    let only_directories = vec![ScanEntry::Directory { path: "/elsewhere".to_string() }];
    assert_eq!(driver.build_manifest(&only_directories).unwrap().len(), 0);
}

#[test]
fn relative_key_strips_the_base() {
    let driver = FSDriver::new("/srv/site".to_string());
    assert_eq!(driver.base_directory(), "/srv/site");
    assert_eq!(driver.relative_key("/srv/site/a.txt"), Some("a.txt".to_string()));
    assert_eq!(driver.relative_key("/srv/site/d/e/f.txt"), Some("d/e/f.txt".to_string()));
    assert_eq!(driver.relative_key("/srv/site//a.txt"), Some("a.txt".to_string()));
    assert_eq!(driver.relative_key("/srv/site"), Some(String::new()));
    assert_eq!(driver.relative_key("/srv/site/"), Some(String::new()));
    assert_eq!(driver.relative_key("/srv/sitemap.xml"), None);
    assert_eq!(driver.relative_key("/srv"), None);
    assert_eq!(driver.relative_key("/other/site/a.txt"), None);
    assert_eq!(driver.relative_key(""), None);
    let with_slash = FSDriver::new("/srv/site/".to_string());
    assert_eq!(with_slash.relative_key("/srv/site/a.txt"), Some("a.txt".to_string()));
    assert_eq!(with_slash.relative_key("/srv/site"), None);
    let empty = FSDriver::new(String::new());
    assert_eq!(empty.relative_key("a/b.txt"), Some("a/b.txt".to_string()));
    assert_eq!(empty.relative_key("/a/b.txt"), Some("a/b.txt".to_string()));
}

#[test]
fn relative_key_is_written_with_slashes() {
    let driver = FSDriver::new("C:\\site".to_string()).with_separator('\\');
    assert_eq!(driver.relative_key("C:\\site\\css\\main.css"), Some("css/main.css".to_string()));
    assert_eq!(driver.relative_key("C:/site/css\\main.css"), Some("css/main.css".to_string()));
    assert_eq!(driver.relative_key("C:\\sites\\a"), None);
    let entries = vec![file("C:\\site\\css\\main.css", b"x")];
    let manifest = driver.build_manifest(&entries).unwrap();
    assert_eq!(keys_of(&manifest), vec!["css/main.css"]);
    assert_eq!(manifest.get("css/main.css").unwrap().path, "C:\\site\\css\\main.css");
    assert_eq!(manifest.get("css/main.css").unwrap().content_type, Some("text/css".to_string()));
    let plain = FSDriver::new("/srv".to_string());
    assert_eq!(plain.relative_key("/srv/a\\b"), Some("a\\b".to_string()));
}

#[test]
fn content_type_follows_the_extension() {
    assert_eq!(FSDriver::content_type("a.txt"), "text/plain");
    assert_eq!(FSDriver::content_type("/srv/site/index.html"), "text/html");
    assert_eq!(FSDriver::content_type("PHOTO.PNG"), "image/png");
    assert_eq!(FSDriver::content_type("archive.tar.gz"), "application/gzip");
    assert_eq!(FSDriver::content_type("data.json"), "application/json");
    assert_eq!(FSDriver::content_type("noextension"), "application/octet-stream");
    assert_eq!(FSDriver::content_type("strange.zzzzzz"), "application/octet-stream");
    assert_eq!(FSDriver::content_type(".txt"), "application/octet-stream");
    assert_eq!(FSDriver::content_type("dir/.txt"), "application/octet-stream");
    assert_eq!(FSDriver::content_type("dir.txt/file"), "application/octet-stream");
    assert_eq!(FSDriver::content_type("file."), "application/octet-stream");
    assert_eq!(FSDriver::content_type("a..txt"), "text/plain");
    assert_eq!(FSDriver::content_type(".hidden.css"), "text/css");
    assert_eq!(FSDriver::content_type(""), "application/octet-stream");
    assert_eq!(FSDriver::content_type("a/b.txt/"), "application/octet-stream");
}
