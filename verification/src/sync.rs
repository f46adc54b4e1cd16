//! The steps of one synchronisation run.
//!
//! A run builds the local and the remote manifest, loads the deploy manifest,
//! plans its actions, uploads, deletes, and writes the deploy manifest back. The
//! transfers themselves are the caller's; every decision between them is made here.

use crate::drivers::s3driver::{
    acl_named, metadata_view, pairs_view, PutObjectRequest, S3Driver,
};
use crate::format::{
    lemma_round_trip, parse_manifest, serialized, stored_entries, ManifestError,
};
use crate::manifest::{
    lemma_upserted_valid, lemma_without_key_valid, upserted, without_keys, EntryView, FileMap,
    FileMetadata, FileMetadataView, ManifestView, SyncManifest,
};
use crate::reconcile::{
    delete_set, deletes_in_order, files_to_delete, files_to_upload, in_sync, needs_upload,
    upload_set, uploads_in_order,
};
use crate::text::{clone_opt, opt_view, strings_view};
use vstd::prelude::*;

verus! {

/// What the caller chose for a run.
#[derive(Debug, PartialEq, Eq)]
pub struct SyncOptions {
    /// Upload every local file, whatever the bucket holds.
    pub force_upload: bool,
    /// Delete remote objects that have no local file.
    pub delete: bool,
    /// Name of the access level of uploaded files.
    pub acl: String,
    /// Key of the object that holds the deploy manifest.
    pub deploy_manifest: String,
    /// Start from an empty deploy manifest where the bucket holds none.
    pub create_deploy_manifest: bool,
    /// Name of the access level of the deploy manifest object.
    pub deploy_manifest_acl: String,
}

/// The actions of a run.
#[derive(Debug, PartialEq, Eq)]
pub struct SyncPlan {
    pub to_upload: Vec<String>,
    pub to_delete: Vec<String>,
}

/// Why a run cannot start.
#[derive(Clone, Copy, Debug, PartialEq, Eq, Structural)]
pub enum SyncError {
    /// The bucket holds no deploy manifest, and none may be created.
    MissingDeployManifest,
    /// The bucket holds a deploy manifest that cannot be read.
    InvalidDeployManifest(ManifestError),
}

/// The deploy manifest that a run starts from, given the bytes of the stored one,
/// if the bucket holds one. Without a stored manifest the run starts from an empty
/// one where that is permitted, and does not start otherwise.
pub open spec fn loaded(fetched: Option<Seq<u8>>, create_if_absent: bool) -> Result<
    ManifestView,
    SyncError,
> {
    match fetched {
        Some(bytes) => match parse_manifest(bytes) {
            Ok(manifest) => Ok(manifest),
            Err(error) => Err(SyncError::InvalidDeployManifest(error)),
        },
        None => if create_if_absent {
            Ok(ManifestView { files: Map::empty(), ignore_patterns: Seq::empty() })
        } else {
            Err(SyncError::MissingDeployManifest)
        },
    }
}

/// The bytes that were fetched, as a mathematical value.
pub open spec fn fetched_view(fetched: Option<&[u8]>) -> Option<Seq<u8>> {
    match fetched {
        Some(bytes) => Some(bytes@),
        None => None,
    }
}

/// Loads the deploy manifest at the start of a run. `fetched` holds the bytes of
/// the object under the deploy-manifest key, or nothing if there is no such object.
pub fn load_deploy_manifest(fetched: Option<&[u8]>, create_if_absent: bool) -> (deploy: Result<
    SyncManifest,
    SyncError,
>)
    ensures
        match deploy {
            Ok(manifest) => {
                &&& manifest.wf()
                &&& manifest.is_storable()
                &&& loaded(fetched_view(fetched), create_if_absent) == Ok::<
                    ManifestView,
                    SyncError,
                >(manifest@)
                &&& manifest.entry_seq() == match fetched {
                    Some(bytes) => stored_entries(bytes@),
                    None => Seq::empty(),
                }
            },
            Err(error) => loaded(fetched_view(fetched), create_if_absent) == Err::<
                ManifestView,
                SyncError,
            >(error),
        },
{
    match fetched {
        Some(bytes) => match SyncManifest::from_reader(bytes) {
            Ok(manifest) => Ok(manifest),
            Err(error) => Err(SyncError::InvalidDeployManifest(error)),
        },
        None => {
            if create_if_absent {
                let manifest = SyncManifest::new();
                assert(manifest@ == ManifestView {
                    files: Map::empty(),
                    ignore_patterns: Seq::empty(),
                });
                Ok(manifest)
            } else {
                Err(SyncError::MissingDeployManifest)
            }
        },
    }
}

/// The objects that a run deletes: the orphans, where deletion is enabled.
pub open spec fn planned_deletes(
    enabled: bool,
    local: FileMap,
    remote: FileMap,
    reserved: Seq<char>,
) -> Set<Seq<char>> {
    if enabled {
        delete_set(local, remote, reserved)
    } else {
        Set::empty()
    }
}

/// Plans the uploads and the deletions of a run.
pub fn plan(
    local: &SyncManifest,
    remote: &SyncManifest,
    deploy: &SyncManifest,
    options: &SyncOptions,
) -> (actions: SyncPlan)
    requires
        local.wf(),
        remote.wf(),
        deploy.wf(),
    ensures
        strings_view(actions.to_upload@) == uploads_in_order(
            local.entry_seq(),
            remote@.files,
            deploy@.files,
            options.force_upload,
        ),
        strings_view(actions.to_upload@).to_set() == upload_set(
            local@.files,
            remote@.files,
            deploy@.files,
            options.force_upload,
        ),
        strings_view(actions.to_upload@).no_duplicates(),
        strings_view(actions.to_delete@) == if options.delete {
            deletes_in_order(local@.files, remote.entry_seq(), options.deploy_manifest@)
        } else {
            Seq::empty()
        },
        strings_view(actions.to_delete@).to_set() == planned_deletes(
            options.delete,
            local@.files,
            remote@.files,
            options.deploy_manifest@,
        ),
        strings_view(actions.to_delete@).no_duplicates(),
{
    let to_upload = files_to_upload(local, remote, deploy, options.force_upload);
    let to_delete = if options.delete {
        files_to_delete(local, remote, options.deploy_manifest.as_str())
    } else {
        let none: Vec<String> = Vec::new();
        assert(strings_view(none@) =~= Seq::empty());
        assert(strings_view(none@).to_set() =~= Set::empty());
        none
    };
    SyncPlan { to_upload, to_delete }
}

/// One upload: the local path to read the body from, and the request to send.
#[derive(Debug, PartialEq, Eq)]
pub struct Upload {
    pub source: String,
    pub request: PutObjectRequest,
}

/// The metadata that goes with an upload: the content type, where one is recorded.
pub open spec fn upload_metadata(content_type: Option<Seq<char>>) -> Option<
    Seq<(Seq<char>, Seq<char>)>,
> {
    match content_type {
        Some(media_type) => Some(seq![("Content-Type"@, media_type)]),
        None => None,
    }
}

/// The upload of the local file recorded as `local` under `key`: read from the
/// file's path, sent with its content type and with the access level that `acl`
/// names.
pub fn upload_for(driver: &S3Driver, key: &str, local: &FileMetadata, acl: &str) -> (upload: Upload)
    ensures
        upload.source@ == local@.path,
        upload.request.bucket@ == driver.bucket_name(),
        upload.request.key@ == key@,
        upload.request.acl == acl_named(acl@),
        opt_view(upload.request.content_type) == local@.content_type,
        metadata_view(upload.request.metadata) == upload_metadata(local@.content_type),
{
    let metadata = match &local.content_type {
        Some(media_type) => {
            let mut pairs: Vec<(String, String)> = Vec::new();
            pairs.push(("Content-Type".to_owned(), media_type.clone()));
            proof {
                let one = seq![("Content-Type"@, media_type@)];
                assert(pairs_view(pairs@) =~= one);
                assert(one.last().0 == "Content-Type"@);
            }
            Some(pairs)
        },
        None => None,
    };
    let request = driver.put_object_data(key.to_owned(), metadata, acl);
    Upload { source: local.path.clone(), request }
}

/// How one upload ended: with the fingerprint that the store returned, or without
/// one if it failed.
#[derive(Debug, PartialEq, Eq)]
pub struct UploadOutcome {
    pub key: String,
    pub etag: Option<String>,
}

/// The views of a list of upload outcomes.
pub open spec fn outcomes_view(outcomes: Seq<UploadOutcome>) -> Seq<
    (Seq<char>, Option<Seq<char>>),
> {
    outcomes.map_values(|o: UploadOutcome| (o.key@, opt_view(o.etag)))
}

/// The deploy record of a file after an upload: the local entry, with the etag that
/// the upload returned. After a failed upload the record has no etag, which marks
/// it as unreliable.
pub open spec fn recorded(local: FileMetadataView, etag: Option<Seq<char>>) -> FileMetadataView {
    FileMetadataView {
        path: local.path,
        size: local.size,
        last_modified: local.last_modified,
        checksum: local.checksum,
        etag: etag,
        content_type: local.content_type,
    }
}

/// The deploy records after a run of uploads, taken in order. An outcome for a path
/// that the local manifest does not hold changes nothing.
pub open spec fn after_uploads(
    deploy: FileMap,
    local: FileMap,
    outcomes: Seq<(Seq<char>, Option<Seq<char>>)>,
) -> FileMap
    decreases outcomes.len(),
{
    if outcomes.len() == 0 {
        deploy
    } else {
        let before = after_uploads(deploy, local, outcomes.drop_last());
        let key = outcomes.last().0;
        if local.contains_key(key) {
            before.insert(key, recorded(local[key], outcomes.last().1))
        } else {
            before
        }
    }
}

/// The deploy entries, in their order, after a run of uploads. A path that had a
/// record keeps its place; a new one goes to the end.
pub open spec fn after_uploads_entries(
    deploy: Seq<EntryView>,
    local: FileMap,
    outcomes: Seq<(Seq<char>, Option<Seq<char>>)>,
) -> Seq<EntryView>
    decreases outcomes.len(),
{
    if outcomes.len() == 0 {
        deploy
    } else {
        let before = after_uploads_entries(deploy, local, outcomes.drop_last());
        let key = outcomes.last().0;
        if local.contains_key(key) {
            upserted(before, key, recorded(local[key], outcomes.last().1))
        } else {
            before
        }
    }
}

/// Records the outcome of one upload in the deploy manifest.
pub fn record_upload(
    deploy: &mut SyncManifest,
    key: &str,
    local: &FileMetadata,
    etag: Option<String>,
)
    requires
        old(deploy).wf(),
    ensures
        final(deploy).wf(),
        final(deploy)@.files == old(deploy)@.files.insert(
            key@,
            recorded(local@, opt_view(etag)),
        ),
        final(deploy).entry_seq() == upserted(
            old(deploy).entry_seq(),
            key@,
            recorded(local@, opt_view(etag)),
        ),
        final(deploy)@.ignore_patterns == old(deploy)@.ignore_patterns,
        old(deploy).is_storable() && local@.is_valid() ==> final(deploy).is_storable(),
{
    proof {
        if deploy.is_storable() && local@.is_valid() {
            lemma_upserted_valid(deploy.entry_seq(), key@, recorded(local@, opt_view(etag)));
        }
    }
    let record = FileMetadata {
        path: local.path.clone(),
        size: local.size,
        last_modified: local.last_modified,
        checksum: clone_opt(&local.checksum),
        etag: etag,
        content_type: clone_opt(&local.content_type),
    };
    deploy.insert(key.to_owned(), record);
}

/// Records the outcomes of the uploads of a run in the deploy manifest. A failed
/// upload leaves a record without etag and does not stop the others.
pub fn record_uploads(
    deploy: &mut SyncManifest,
    local: &SyncManifest,
    outcomes: &Vec<UploadOutcome>,
)
    requires
        old(deploy).wf(),
        local.wf(),
    ensures
        final(deploy).wf(),
        final(deploy)@.files == after_uploads(
            old(deploy)@.files,
            local@.files,
            outcomes_view(outcomes@),
        ),
        final(deploy).entry_seq() == after_uploads_entries(
            old(deploy).entry_seq(),
            local@.files,
            outcomes_view(outcomes@),
        ),
        final(deploy)@.ignore_patterns == old(deploy)@.ignore_patterns,
        old(deploy).is_storable() && local.is_storable() ==> final(deploy).is_storable(),
{
    let ghost all = outcomes_view(outcomes@);
    proof {
        local.lemma_wf();
    }
    let mut i: usize = 0;
    while i < outcomes.len()
        invariant
            i <= outcomes@.len(),
            deploy.wf(),
            local.wf(),
            all == outcomes_view(outcomes@),
            deploy@.files == after_uploads(old(deploy)@.files, local@.files, all.take(i as int)),
            deploy.entry_seq() == after_uploads_entries(
                old(deploy).entry_seq(),
                local@.files,
                all.take(i as int),
            ),
            deploy@.ignore_patterns == old(deploy)@.ignore_patterns,
            old(deploy).is_storable() && local.is_storable() ==> deploy.is_storable(),
            forall|j: int|
                0 <= j < local.entry_seq().len() ==> local@.files.contains_key(
                    (#[trigger] local.entry_seq()[j]).0,
                ) && local@.files[local.entry_seq()[j].0] == local.entry_seq()[j].1,
            forall|k: Seq<char>|
                local@.files.contains_key(k) <==> exists|j: int|
                    0 <= j < local.entry_seq().len() && (#[trigger] local.entry_seq()[j]).0 == k,
        decreases outcomes@.len() - i,
    {
        let outcome = &outcomes[i];
        proof {
            assert(all.take(i + 1).drop_last() =~= all.take(i as int));
            assert(all.take(i + 1).last() == (outcome.key@, opt_view(outcome.etag)));
        }
        match local.get(outcome.key.as_str()) {
            Some(meta) => {
                proof {
                    if local.is_storable() {
                        let j = choose|j: int|
                            0 <= j < local.entry_seq().len() && (
                            #[trigger] local.entry_seq()[j]).0 == outcome.key@;
                        assert(local.entry_seq()[j].1.is_valid());
                    }
                }
                record_upload(deploy, outcome.key.as_str(), meta, clone_opt(&outcome.etag));
            },
            None => {},
        }
        i = i + 1;
    }
    assert(all.take(i as int) =~= all);
}

/// Drops from the deploy manifest the record of every object that was deleted.
pub fn prune_deleted(deploy: &mut SyncManifest, deleted: &Vec<String>)
    requires
        old(deploy).wf(),
    ensures
        final(deploy).wf(),
        final(deploy)@.files == old(deploy)@.files.remove_keys(strings_view(deleted@).to_set()),
        final(deploy).entry_seq() == without_keys(old(deploy).entry_seq(), strings_view(deleted@)),
        final(deploy)@.ignore_patterns == old(deploy)@.ignore_patterns,
        old(deploy).is_storable() ==> final(deploy).is_storable(),
{
    let ghost keys = strings_view(deleted@);
    let mut i: usize = 0;
    assert(deploy@.files.remove_keys(keys.take(0).to_set()) =~= deploy@.files);
    while i < deleted.len()
        invariant
            i <= deleted@.len(),
            deploy.wf(),
            keys == strings_view(deleted@),
            deploy@.files == old(deploy)@.files.remove_keys(keys.take(i as int).to_set()),
            deploy.entry_seq() == without_keys(old(deploy).entry_seq(), keys.take(i as int)),
            deploy@.ignore_patterns == old(deploy)@.ignore_patterns,
            old(deploy).is_storable() ==> deploy.is_storable(),
        decreases deleted@.len() - i,
    {
        let ghost before = keys.take(i as int);
        proof {
            if deploy.is_storable() {
                lemma_without_key_valid(deploy.entry_seq(), keys[i as int]);
            }
        }
        deploy.remove(deleted[i].as_str());
        proof {
            let after = keys.take(i + 1);
            assert(after =~= before.push(keys[i as int]));
            assert(after.drop_last() =~= before);
            assert forall|k: Seq<char>| after.to_set().contains(k) <==> before.to_set().contains(
                k,
            ) || k == keys[i as int] by {
                if before.contains(k) {
                    let j = choose|j: int| 0 <= j < before.len() && before[j] == k;
                    assert(after[j] == k);
                }
                if k == keys[i as int] {
                    assert(after[i as int] == k);
                }
                if after.contains(k) {
                    let j = choose|j: int| 0 <= j < after.len() && after[j] == k;
                    if j < i {
                        assert(before[j] == k);
                    }
                }
            }
            assert(deploy@.files =~= old(deploy)@.files.remove_keys(after.to_set()));
        }
        i = i + 1;
    }
    assert(keys.take(i as int) =~= keys);
}

/// The deploy records after the batch deletion of a run: without the deleted
/// objects if the deletion succeeded, and unchanged if it failed.
pub open spec fn after_deletes(
    deploy: FileMap,
    deleted: Set<Seq<char>>,
    succeeded: bool,
) -> FileMap {
    if succeeded {
        deploy.remove_keys(deleted)
    } else {
        deploy
    }
}

/// Records how the batch deletion of a run ended. Only a deletion that succeeded
/// takes records out of the deploy manifest.
pub fn record_deletes(deploy: &mut SyncManifest, deleted: &Vec<String>, succeeded: bool)
    requires
        old(deploy).wf(),
    ensures
        final(deploy).wf(),
        final(deploy)@.files == after_deletes(
            old(deploy)@.files,
            strings_view(deleted@).to_set(),
            succeeded,
        ),
        final(deploy).entry_seq() == if succeeded {
            without_keys(old(deploy).entry_seq(), strings_view(deleted@))
        } else {
            old(deploy).entry_seq()
        },
        final(deploy)@.ignore_patterns == old(deploy)@.ignore_patterns,
        old(deploy).is_storable() ==> final(deploy).is_storable(),
{
    if succeeded {
        prune_deleted(deploy, deleted);
    }
}

/// The write that ends a run: the stored form of the deploy manifest, and the
/// request that puts it under the deploy-manifest key.
#[derive(Debug, PartialEq, Eq)]
pub struct Persist {
    pub body: Vec<u8>,
    pub request: PutObjectRequest,
}

/// The write that ends a run. It is the same whether the run changed anything or
/// not, and fails only where the deploy manifest holds an invalid timestamp.
pub fn persist_for(driver: &S3Driver, deploy: &SyncManifest, options: &SyncOptions) -> (write:
    Result<Persist, ManifestError>)
    requires
        deploy.wf(),
    ensures
        match write {
            Ok(persist) => {
                &&& deploy.is_storable()
                &&& persist.body@ == serialized(deploy.entry_seq(), deploy@.ignore_patterns)
                &&& persist.request.bucket@ == driver.bucket_name()
                &&& persist.request.key@ == options.deploy_manifest@
                &&& persist.request.acl == acl_named(options.deploy_manifest_acl@)
                &&& opt_view(persist.request.content_type) == Some("application/json"@)
                &&& metadata_view(persist.request.metadata) == upload_metadata(
                    Some("application/json"@),
                )
            },
            Err(error) => !deploy.is_storable() && error == ManifestError::InvalidTimestamp,
        },
{
    let body = match deploy.to_vec() {
        Ok(bytes) => bytes,
        Err(error) => {
            return Err(error);
        },
    };
    let mut pairs: Vec<(String, String)> = Vec::new();
    pairs.push(("Content-Type".to_owned(), "application/json".to_owned()));
    proof {
        let one = seq![("Content-Type"@, "application/json"@)];
        assert(pairs_view(pairs@) =~= one);
        assert(one.last().0 == "Content-Type"@);
    }
    let request = driver.put_object_data(
        options.deploy_manifest.clone(),
        Some(pairs),
        options.deploy_manifest_acl.as_str(),
    );
    Ok(Persist { body, request })
}

/// The deploy manifest that one run stores is the one that the next run loads.
pub proof fn lemma_stored_manifest_loads(manifest: SyncManifest, create_if_absent: bool)
    requires
        manifest.wf(),
        manifest.is_storable(),
    ensures
        loaded(
            Some(serialized(manifest.entry_seq(), manifest@.ignore_patterns)),
            create_if_absent,
        ) == Ok::<ManifestView, SyncError>(manifest@),
{
    lemma_round_trip(manifest);
}

/// No key occurs twice among the outcomes.
pub open spec fn distinct_outcomes(outcomes: Seq<(Seq<char>, Option<Seq<char>>)>) -> bool {
    forall|i: int, j: int|
        0 <= i < outcomes.len() && 0 <= j < outcomes.len() && i != j ==> (
        #[trigger] outcomes[i]).0 != (#[trigger] outcomes[j]).0
}

/// Some outcome is for the key.
pub open spec fn has_outcome(
    outcomes: Seq<(Seq<char>, Option<Seq<char>>)>,
    key: Seq<char>,
) -> bool {
    exists|i: int| 0 <= i < outcomes.len() && (#[trigger] outcomes[i]).0 == key
}

/// After a run of uploads, each uploaded local path has its new record, and every
/// other path has the record it had.
pub proof fn lemma_after_uploads(
    deploy: FileMap,
    local: FileMap,
    outcomes: Seq<(Seq<char>, Option<Seq<char>>)>,
)
    requires
        distinct_outcomes(outcomes),
    ensures
        forall|i: int|
            0 <= i < outcomes.len() && local.contains_key((#[trigger] outcomes[i]).0)
                ==> after_uploads(deploy, local, outcomes).contains_key(outcomes[i].0)
                && after_uploads(deploy, local, outcomes)[outcomes[i].0] == recorded(
                local[outcomes[i].0],
                outcomes[i].1,
            ),
        forall|k: Seq<char>|
            !has_outcome(outcomes, k) ==> (#[trigger] after_uploads(
                deploy,
                local,
                outcomes,
            ).contains_key(k) <==> deploy.contains_key(k)),
        forall|k: Seq<char>|
            !has_outcome(outcomes, k) ==> #[trigger] after_uploads(deploy, local, outcomes)[k]
                == deploy[k],
    decreases outcomes.len(),
{
    if outcomes.len() > 0 {
        let front = outcomes.drop_last();
        let last = outcomes.len() - 1;
        assert(distinct_outcomes(front)) by {
            assert forall|i: int, j: int|
                0 <= i < front.len() && 0 <= j < front.len() && i != j implies (
            #[trigger] front[i]).0 != (#[trigger] front[j]).0 by {
                assert(outcomes[i].0 != outcomes[j].0);
            }
        }
        lemma_after_uploads(deploy, local, front);
        assert forall|i: int|
            0 <= i < outcomes.len() && local.contains_key(
                (#[trigger] outcomes[i]).0,
            ) implies after_uploads(deploy, local, outcomes).contains_key(outcomes[i].0)
            && after_uploads(deploy, local, outcomes)[outcomes[i].0] == recorded(
            local[outcomes[i].0],
            outcomes[i].1,
        ) by {
            if i < last {
                assert(front[i] == outcomes[i]);
                assert(outcomes[i].0 != outcomes[last].0);
            }
        }
        assert forall|k: Seq<char>| !has_outcome(outcomes, k) implies !has_outcome(front, k) && k
            != outcomes[last].0 by {
            if has_outcome(front, k) {
                let i = choose|i: int| 0 <= i < front.len() && (#[trigger] front[i]).0 == k;
                assert(outcomes[i].0 == k);
            }
            if k == outcomes[last].0 {
                assert(outcomes[last].0 == k);
            }
        }
    }
}

/// A second run right after a first finds nothing to do.
///
/// The first run uploaded what it had planned, each path once and with success,
/// and deleted what it had planned. Nothing else wrote to the bucket: the next
/// listing shows the uploaded objects with the etags that the uploads returned,
/// the other objects as they were, and the deploy manifest under its reserved key.
/// The local files did not change, no local file has the reserved key as its path,
/// and each carries a checksum or an etag. Then a second run with the same choice
/// on deletion, and without forced uploads, plans no upload and no deletion.
pub proof fn lemma_second_run_is_idle(
    local: FileMap,
    remote: FileMap,
    deploy: FileMap,
    force_upload: bool,
    delete: bool,
    reserved: Seq<char>,
    outcomes: Seq<(Seq<char>, Option<Seq<char>>)>,
    remote_after: FileMap,
)
    requires
        forall|k: Seq<char>| local.contains_key(k) ==> (#[trigger] local[k]).is_meaningful(),
        !local.contains_key(reserved),
        distinct_outcomes(outcomes),
        forall|k: Seq<char>|
            has_outcome(outcomes, k) <==> #[trigger] upload_set(
                local,
                remote,
                deploy,
                force_upload,
            ).contains(k),
        forall|i: int| 0 <= i < outcomes.len() ==> (#[trigger] outcomes[i]).1 is Some,
        forall|k: Seq<char>| #[trigger]
            remote_after.contains_key(k) <==> k == reserved || has_outcome(outcomes, k) || (
            remote.contains_key(k) && !planned_deletes(delete, local, remote, reserved).contains(
                k,
            )),
        forall|i: int|
            0 <= i < outcomes.len() ==> remote_after[(#[trigger] outcomes[i]).0].etag
                == outcomes[i].1,
        forall|k: Seq<char>|
            remote.contains_key(k) && !has_outcome(outcomes, k) && k != reserved
                ==> (#[trigger] remote_after[k]).etag == remote[k].etag && remote_after[k].checksum
                == remote[k].checksum,
    ensures
        upload_set(
            local,
            remote_after,
            after_uploads(deploy, local, outcomes).remove_keys(
                planned_deletes(delete, local, remote, reserved),
            ),
            false,
        ) == Set::<Seq<char>>::empty(),
        planned_deletes(delete, local, remote_after, reserved) == Set::<Seq<char>>::empty(),
{
    let uploads = upload_set(local, remote, deploy, force_upload);
    let deletes = planned_deletes(delete, local, remote, reserved);
    let uploaded = after_uploads(deploy, local, outcomes);
    let deploy_after = uploaded.remove_keys(deletes);
    lemma_after_uploads(deploy, local, outcomes);
    assert forall|k: Seq<char>| local.contains_key(k) implies !needs_upload(
        local,
        remote_after,
        deploy_after,
        false,
        k,
    ) by {
        assert(!deletes.contains(k));
        if uploads.contains(k) {
            assert(has_outcome(outcomes, k));
            let i = choose|i: int| 0 <= i < outcomes.len() && (#[trigger] outcomes[i]).0 == k;
            assert(uploaded[outcomes[i].0] == recorded(local[k], outcomes[i].1));
            assert(remote_after[outcomes[i].0].etag == outcomes[i].1);
            assert(remote_after.contains_key(k));
            assert(in_sync(local[k], remote_after[k], deploy_after[k]));
        } else {
            assert(!has_outcome(outcomes, k));
            assert(remote.contains_key(k));
            assert(deploy.contains_key(k));
            assert(in_sync(local[k], remote[k], deploy[k]));
            assert(uploaded.contains_key(k) <==> deploy.contains_key(k));
            assert(uploaded[k] == deploy[k]);
            assert(remote_after.contains_key(k));
            assert(remote_after[k].etag == remote[k].etag);
            assert(in_sync(local[k], remote_after[k], deploy_after[k]));
        }
    }
    assert(upload_set(local, remote_after, deploy_after, false) =~= Set::<Seq<char>>::empty());
    if delete {
        assert forall|k: Seq<char>| !delete_set(local, remote_after, reserved).contains(k) by {
            if remote_after.contains_key(k) && k != reserved && !local.contains_key(k) {
                if has_outcome(outcomes, k) {
                    assert(uploads.contains(k));
                } else {
                    assert(remote.contains_key(k));
                    assert(delete_set(local, remote, reserved).contains(k));
                }
            }
        }
        assert(delete_set(local, remote_after, reserved) =~= Set::<Seq<char>>::empty());
    }
}

} // verus!
