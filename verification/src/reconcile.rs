//! The reconciliation engine: from the local, remote and deploy manifests to the
//! set of paths to upload and the set of remote objects to delete.
//!
//! Nothing here performs I/O. The local manifest says what the content is, the
//! remote manifest what exists in the bucket, and the deploy manifest which content
//! was last known to stand behind which remote fingerprint.

use crate::manifest::{
    distinct_keys, entries_map, keys_of, EntryView, FileMap, FileMetadata, FileMetadataView,
    SyncManifest,
};
use crate::text::{opt_eq, str_eq, strings_view};
use vstd::prelude::*;

verus! {

/// The remote copy of a file is current: the deploy record names the etag that the
/// bucket reports and the checksum that the local file has. An entry without
/// checksum and etag matches nothing.
pub open spec fn in_sync(
    local: FileMetadataView,
    remote: FileMetadataView,
    deploy: FileMetadataView,
) -> bool {
    &&& local.is_meaningful()
    &&& remote.is_meaningful()
    &&& deploy.is_meaningful()
    &&& deploy.etag == remote.etag
    &&& deploy.checksum == local.checksum
}

/// Whether the local file at `key` has to be uploaded: always when uploads are
/// forced; when the bucket does not hold the key; when no deployment of it is on
/// record; and when the record disagrees with the bucket or with the local content.
pub open spec fn needs_upload(
    local: FileMap,
    remote: FileMap,
    deploy: FileMap,
    force_upload: bool,
    key: Seq<char>,
) -> bool {
    ||| force_upload
    ||| !remote.contains_key(key)
    ||| !deploy.contains_key(key)
    ||| !in_sync(local[key], remote[key], deploy[key])
}

/// The paths to upload: the local paths that need it.
pub open spec fn upload_set(
    local: FileMap,
    remote: FileMap,
    deploy: FileMap,
    force_upload: bool,
) -> Set<Seq<char>> {
    Set::new(
        |key: Seq<char>|
            local.contains_key(key) && needs_upload(local, remote, deploy, force_upload, key),
    )
}

/// Whether the remote object at `key` is an orphan to delete: it has no local file,
/// and it is not the object under the reserved key, which holds the deploy manifest.
pub open spec fn is_orphan(
    local: FileMap,
    reserved: Seq<char>,
    key: Seq<char>,
) -> bool {
    key != reserved && !local.contains_key(key)
}

/// The remote objects to delete: the orphans among the remote keys.
pub open spec fn delete_set(
    local: FileMap,
    remote: FileMap,
    reserved: Seq<char>,
) -> Set<Seq<char>> {
    Set::new(|key: Seq<char>| remote.contains_key(key) && is_orphan(local, reserved, key))
}

/// The paths to upload in the order of the local entries.
pub open spec fn uploads_in_order(
    local: Seq<EntryView>,
    remote: FileMap,
    deploy: FileMap,
    force_upload: bool,
) -> Seq<Seq<char>> {
    keys_of(local).filter(
        |key: Seq<char>| needs_upload(entries_map(local), remote, deploy, force_upload, key),
    )
}

/// The remote objects to delete in the order of the remote entries.
pub open spec fn deletes_in_order(
    local: FileMap,
    remote: Seq<EntryView>,
    reserved: Seq<char>,
) -> Seq<Seq<char>> {
    keys_of(remote).filter(|key: Seq<char>| is_orphan(local, reserved, key))
}

/// Some entry before position `end` has the key.
pub open spec fn key_before(
    entries: Seq<EntryView>,
    end: int,
    key: Seq<char>,
) -> bool {
    exists|j: int| 0 <= j < end && j < entries.len() && (#[trigger] entries[j]).0 == key
}

/// `chosen` holds, each once, the keys of the first `end` entries that `wanted` accepts.
pub open spec fn selects(
    chosen: Seq<Seq<char>>,
    entries: Seq<EntryView>,
    end: int,
    wanted: spec_fn(Seq<char>) -> bool,
) -> bool {
    &&& chosen.no_duplicates()
    &&& chosen == keys_of(entries).take(end).filter(wanted)
    &&& forall|k: Seq<char>|
        #![trigger chosen.contains(k)]
        #![trigger key_before(entries, end, k)]
        chosen.contains(k) <==> key_before(entries, end, k) && wanted(k)
}

/// Before the first entry nothing is selected.
proof fn lemma_selects_none(
    entries: Seq<EntryView>,
    wanted: spec_fn(Seq<char>) -> bool,
)
    ensures
        selects(Seq::empty(), entries, 0, wanted),
{
    reveal(Seq::filter);
    assert(keys_of(entries).take(0) =~= Seq::<Seq<char>>::empty());
    assert(Seq::<Seq<char>>::empty().filter(wanted) =~= Seq::<Seq<char>>::empty());
}

/// One step of a selection: the key of entry `end` is appended if it is wanted.
proof fn lemma_selects_next(
    before: Seq<Seq<char>>,
    after: Seq<Seq<char>>,
    entries: Seq<EntryView>,
    end: int,
    wanted: spec_fn(Seq<char>) -> bool,
)
    requires
        distinct_keys(entries),
        0 <= end < entries.len(),
        selects(before, entries, end, wanted),
        after == if wanted(entries[end].0) {
            before.push(entries[end].0)
        } else {
            before
        },
    ensures
        selects(after, entries, end + 1, wanted),
{
    let key = entries[end].0;
    assert(after == keys_of(entries).take(end + 1).filter(wanted)) by {
        reveal(Seq::filter);
        let keys = keys_of(entries);
        assert(keys.take(end + 1).drop_last() =~= keys.take(end));
        assert(keys.take(end + 1).last() == key);
    }
    assert(!key_before(entries, end, key)) by {
        if key_before(entries, end, key) {
            let j = choose|j: int|
                0 <= j < end && j < entries.len() && (#[trigger] entries[j]).0 == key;
            assert(entries[j].0 != entries[end].0);
        }
    }
    assert(!before.contains(key));
    assert forall|k: Seq<char>|
        #![trigger after.contains(k)]
        #![trigger key_before(entries, end + 1, k)]
        after.contains(k) <==> key_before(entries, end + 1, k) && wanted(k) by {
        if key_before(entries, end + 1, k) {
            let j = choose|j: int|
                0 <= j < end + 1 && j < entries.len() && (#[trigger] entries[j]).0 == k;
            if j < end {
                assert(key_before(entries, end, k));
            }
        }
        if key_before(entries, end, k) {
            let j = choose|j: int|
                0 <= j < end && j < entries.len() && (#[trigger] entries[j]).0 == k;
            assert(entries[j].0 == k);
        }
        if wanted(key) {
            assert(after.last() == key);
            if before.contains(k) {
                let p = choose|p: int| 0 <= p < before.len() && before[p] == k;
                assert(after[p] == k);
            }
            if after.contains(k) && k != key {
                let p = choose|p: int| 0 <= p < after.len() && after[p] == k;
                assert(before[p] == k);
            }
        }
    }
    assert(after.no_duplicates()) by {
        if wanted(key) {
            assert forall|p: int, q: int|
                0 <= p < after.len() && 0 <= q < after.len() && p != q implies after[p]
                != after[q] by {
                if p < before.len() && q < before.len() {
                    assert(before[p] != before[q]);
                } else if p < before.len() {
                    assert(before.contains(before[p]));
                } else {
                    assert(before.contains(before[q]));
                }
            }
        }
    }
}

/// A finished selection from the entries of a map is the set of its wanted keys.
proof fn lemma_selects_all(
    chosen: Seq<Seq<char>>,
    entries: Seq<EntryView>,
    files: FileMap,
    wanted: spec_fn(Seq<char>) -> bool,
)
    requires
        selects(chosen, entries, entries.len() as int, wanted),
        forall|k: Seq<char>|
            files.contains_key(k) <==> exists|i: int|
                0 <= i < entries.len() && (#[trigger] entries[i]).0 == k,
    ensures
        chosen.to_set() == Set::new(|k: Seq<char>| files.contains_key(k) && wanted(k)),
        chosen == keys_of(entries).filter(wanted),
{
    assert(keys_of(entries).take(entries.len() as int) =~= keys_of(entries));
    let expected = Set::new(|k: Seq<char>| files.contains_key(k) && wanted(k));
    assert forall|k: Seq<char>| chosen.to_set().contains(k) <==> expected.contains(k) by {
        if chosen.contains(k) {
            let j = choose|j: int|
                0 <= j < entries.len() && j < entries.len() && (#[trigger] entries[j]).0 == k;
            assert(files.contains_key(k));
        }
        if expected.contains(k) {
            let j = choose|j: int| 0 <= j < entries.len() && (#[trigger] entries[j]).0 == k;
            assert(key_before(entries, entries.len() as int, k));
        }
    }
    assert(chosen.to_set() =~= expected);
}

/// Whether the remote copy of a file is current, given its three records.
pub fn is_current(local: &FileMetadata, remote: &FileMetadata, deploy: &FileMetadata) -> (current:
    bool)
    ensures
        current == in_sync(local@, remote@, deploy@),
{
    local.is_meaningful() && remote.is_meaningful() && deploy.is_meaningful() && opt_eq(
        &deploy.etag,
        &remote.etag,
    ) && opt_eq(&deploy.checksum, &local.checksum)
}

/// The paths to upload, each once, in the order of the local manifest.
pub fn files_to_upload(
    local: &SyncManifest,
    remote: &SyncManifest,
    deploy: &SyncManifest,
    force_upload: bool,
) -> (keys: Vec<String>)
    requires
        local.wf(),
        remote.wf(),
        deploy.wf(),
    ensures
        strings_view(keys@) == uploads_in_order(
            local.entry_seq(),
            remote@.files,
            deploy@.files,
            force_upload,
        ),
        strings_view(keys@).to_set() == upload_set(
            local@.files,
            remote@.files,
            deploy@.files,
            force_upload,
        ),
        strings_view(keys@).no_duplicates(),
{
    let mut keys: Vec<String> = Vec::new();
    let count = local.len();
    let ghost entries = local.entry_seq();
    let ghost wanted = |k: Seq<char>|
        needs_upload(local@.files, remote@.files, deploy@.files, force_upload, k);
    proof {
        local.lemma_wf();
        lemma_selects_none(entries, wanted);
        assert(strings_view(keys@) =~= Seq::<Seq<char>>::empty());
    }
    let mut i: usize = 0;
    while i < count
        invariant
            local.wf(),
            remote.wf(),
            deploy.wf(),
            entries == local.entry_seq(),
            count == entries.len(),
            i <= count,
            distinct_keys(entries),
            forall|j: int|
                0 <= j < entries.len() ==> local@.files.contains_key((#[trigger] entries[j]).0)
                    && local@.files[entries[j].0] == entries[j].1,
            wanted == |k: Seq<char>|
                needs_upload(local@.files, remote@.files, deploy@.files, force_upload, k),
            selects(strings_view(keys@), entries, i as int, wanted),
        decreases count - i,
    {
        let entry = local.entry_at(i);
        assert(entries[i as int].0 == entry.key@);
        let upload = if force_upload {
            true
        } else {
            match remote.get(entry.key.as_str()) {
                None => true,
                Some(remote_meta) => match deploy.get(entry.key.as_str()) {
                    None => true,
                    Some(deploy_meta) => !is_current(&entry.meta, remote_meta, deploy_meta),
                },
            }
        };
        assert(upload == wanted(entry.key@));
        let ghost before = strings_view(keys@);
        if upload {
            keys.push(entry.key.clone());
            assert(strings_view(keys@) =~= before.push(entry.key@));
        }
        proof {
            lemma_selects_next(before, strings_view(keys@), entries, i as int, wanted);
        }
        i = i + 1;
    }
    proof {
        lemma_selects_all(strings_view(keys@), entries, local@.files, wanted);
        assert(upload_set(local@.files, remote@.files, deploy@.files, force_upload) =~= Set::new(
            |k: Seq<char>| local@.files.contains_key(k) && wanted(k),
        ));
    }
    keys
}

/// The remote objects to delete, each once, in the order of the remote manifest.
///
/// `deploy_manifest_key` is the key under which the deploy manifest itself is
/// stored in the bucket; that object is never a candidate.
pub fn files_to_delete(
    local: &SyncManifest,
    remote: &SyncManifest,
    deploy_manifest_key: &str,
) -> (keys: Vec<String>)
    requires
        local.wf(),
        remote.wf(),
    ensures
        strings_view(keys@) == deletes_in_order(
            local@.files,
            remote.entry_seq(),
            deploy_manifest_key@,
        ),
        strings_view(keys@).to_set() == delete_set(
            local@.files,
            remote@.files,
            deploy_manifest_key@,
        ),
        strings_view(keys@).no_duplicates(),
{
    let mut keys: Vec<String> = Vec::new();
    let count = remote.len();
    let ghost entries = remote.entry_seq();
    let ghost wanted = |k: Seq<char>| is_orphan(local@.files, deploy_manifest_key@, k);
    proof {
        remote.lemma_wf();
        lemma_selects_none(entries, wanted);
        assert(strings_view(keys@) =~= Seq::<Seq<char>>::empty());
    }
    let mut i: usize = 0;
    while i < count
        invariant
            local.wf(),
            remote.wf(),
            entries == remote.entry_seq(),
            count == entries.len(),
            i <= count,
            distinct_keys(entries),
            wanted == |k: Seq<char>| is_orphan(local@.files, deploy_manifest_key@, k),
            selects(strings_view(keys@), entries, i as int, wanted),
        decreases count - i,
    {
        let entry = remote.entry_at(i);
        assert(entries[i as int].0 == entry.key@);
        let delete = !str_eq(entry.key.as_str(), deploy_manifest_key) && !local.contains_key(
            entry.key.as_str(),
        );
        assert(delete == wanted(entry.key@));
        let ghost before = strings_view(keys@);
        if delete {
            keys.push(entry.key.clone());
            assert(strings_view(keys@) =~= before.push(entry.key@));
        }
        proof {
            lemma_selects_next(before, strings_view(keys@), entries, i as int, wanted);
        }
        i = i + 1;
    }
    proof {
        lemma_selects_all(strings_view(keys@), entries, remote@.files, wanted);
        assert(delete_set(local@.files, remote@.files, deploy_manifest_key@) =~= Set::new(
            |k: Seq<char>| remote@.files.contains_key(k) && wanted(k),
        ));
    }
    keys
}

/// Every path to upload is a local path, every object to delete is a remote object
/// without a local file, and so no path is in both sets.
pub proof fn lemma_actions_are_disjoint(
    local: FileMap,
    remote: FileMap,
    deploy: FileMap,
    force_upload: bool,
    reserved: Seq<char>,
)
    ensures
        upload_set(local, remote, deploy, force_upload).subset_of(local.dom()),
        delete_set(local, remote, reserved).subset_of(remote.dom().difference(local.dom())),
        upload_set(local, remote, deploy, force_upload).disjoint(
            delete_set(local, remote, reserved),
        ),
{
}

/// With forced uploads every local path is uploaded, whatever the bucket and the
/// deploy manifest hold.
pub proof fn lemma_forced_upload_takes_all(
    local: FileMap,
    remote: FileMap,
    deploy: FileMap,
)
    ensures
        upload_set(local, remote, deploy, true) == local.dom(),
{
    assert(upload_set(local, remote, deploy, true) =~= local.dom());
}

/// A local file that the bucket does not hold, or of which no deployment is on
/// record, is uploaded.
pub proof fn lemma_new_file_is_uploaded(
    local: FileMap,
    remote: FileMap,
    deploy: FileMap,
    force_upload: bool,
    key: Seq<char>,
)
    requires
        local.contains_key(key),
        !remote.contains_key(key) || !deploy.contains_key(key),
    ensures
        upload_set(local, remote, deploy, force_upload).contains(key),
{
}

/// Without forced uploads, a path present in all three manifests is uploaded
/// exactly when its deploy record disagrees with the bucket's etag or with the
/// local checksum, or one of the three entries carries neither.
pub proof fn lemma_recorded_file(
    local: FileMap,
    remote: FileMap,
    deploy: FileMap,
    key: Seq<char>,
)
    requires
        local.contains_key(key),
        remote.contains_key(key),
        deploy.contains_key(key),
    ensures
        upload_set(local, remote, deploy, false).contains(key) <==> !in_sync(
            local[key],
            remote[key],
            deploy[key],
        ),
{
}

/// The object that holds the deploy manifest is never deleted, and every other
/// remote object without a local file is.
pub proof fn lemma_delete_guard(
    local: FileMap,
    remote: FileMap,
    reserved: Seq<char>,
)
    ensures
        !delete_set(local, remote, reserved).contains(reserved),
        forall|key: Seq<char>|
            remote.contains_key(key) && !local.contains_key(key) && key != reserved
                ==> #[trigger] delete_set(local, remote, reserved).contains(key),
{
}

} // verus!
