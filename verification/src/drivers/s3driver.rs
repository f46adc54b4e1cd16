//! The remote adapter: a manifest from the pages of a bucket listing, and the
//! requests that read, write and delete objects.

use crate::manifest::{
    has_key, insert_all, lemma_insert_all, lemma_insert_all_concat, lemma_last_with_key,
    lemma_upsert_all_concat, upsert_all, EntryView, FileMetadata, FileMetadataView, SyncManifest,
    Timestamp,
};
use crate::text::{chars_of, clone_strings, first_char, opt_view, str_eq, strings_view};
use vstd::prelude::*;

verus! {

/// The access levels that the store knows for an object.
#[derive(Clone, Copy, Debug, PartialEq, Eq, Structural)]
pub enum CannedAcl {
    AuthenticatedRead,
    AwsExecRead,
    BucketOwnerFullControl,
    BucketOwnerRead,
    Private,
    PublicRead,
    PublicReadWrite,
}

/// The access level with the given name. A name that is not recognised stands for
/// the most restrictive level.
pub open spec fn acl_named(name: Seq<char>) -> CannedAcl {
    if name == "authenticated-read"@ {
        CannedAcl::AuthenticatedRead
    } else if name == "aws-exec-read"@ {
        CannedAcl::AwsExecRead
    } else if name == "bucket-owner-full-control"@ {
        CannedAcl::BucketOwnerFullControl
    } else if name == "bucket-owner-read"@ {
        CannedAcl::BucketOwnerRead
    } else if name == "private"@ {
        CannedAcl::Private
    } else if name == "public"@ || name == "public-read"@ {
        CannedAcl::PublicRead
    } else if name == "public-read-write"@ {
        CannedAcl::PublicReadWrite
    } else {
        CannedAcl::Private
    }
}

impl CannedAcl {
    /// The access level with the given name, compared exactly.
    pub fn from_name(name: &str) -> (acl: CannedAcl)
        ensures
            acl == acl_named(name@),
    {
        if str_eq(name, "authenticated-read") {
            CannedAcl::AuthenticatedRead
        } else if str_eq(name, "aws-exec-read") {
            CannedAcl::AwsExecRead
        } else if str_eq(name, "bucket-owner-full-control") {
            CannedAcl::BucketOwnerFullControl
        } else if str_eq(name, "bucket-owner-read") {
            CannedAcl::BucketOwnerRead
        } else if str_eq(name, "private") {
            CannedAcl::Private
        } else if str_eq(name, "public") || str_eq(name, "public-read") {
            CannedAcl::PublicRead
        } else if str_eq(name, "public-read-write") {
            CannedAcl::PublicReadWrite
        } else {
            CannedAcl::Private
        }
    }
}

/// One object of a bucket listing.
#[derive(Debug, PartialEq, Eq)]
pub struct RemoteObject {
    pub key: String,
    pub size: u64,
    pub last_modified: Timestamp,
    pub e_tag: String,
}

/// The mathematical value of a [`RemoteObject`].
pub struct RemoteObjectView {
    pub key: Seq<char>,
    pub size: u64,
    pub last_modified: Timestamp,
    pub e_tag: Seq<char>,
}

impl View for RemoteObject {
    type V = RemoteObjectView;

    open spec fn view(&self) -> RemoteObjectView {
        RemoteObjectView {
            key: self.key@,
            size: self.size,
            last_modified: self.last_modified,
            e_tag: self.e_tag@,
        }
    }
}

/// One page of a bucket listing: its objects, or the fact that the page failed.
#[derive(Debug, PartialEq, Eq)]
pub enum ListedPage {
    Objects(Vec<RemoteObject>),
    Failed,
}

/// The views of a list of objects.
pub open spec fn objects_view(objects: Seq<RemoteObject>) -> Seq<RemoteObjectView> {
    objects.map_values(|o: RemoteObject| o@)
}

/// The objects of a page; a failed page has none.
pub open spec fn page_objects(page: ListedPage) -> Seq<RemoteObjectView> {
    match page {
        ListedPage::Objects(objects) => objects_view(objects@),
        ListedPage::Failed => Seq::empty(),
    }
}

/// The objects of all pages, in listing order, the failed pages left out.
pub open spec fn listed_objects(pages: Seq<ListedPage>) -> Seq<RemoteObjectView>
    decreases pages.len(),
{
    if pages.len() == 0 {
        Seq::empty()
    } else {
        listed_objects(pages.drop_last()) + page_objects(pages.last())
    }
}

/// Where an object lies: its key below the common prefix. A key that starts with a
/// slash stands for itself.
pub open spec fn remote_path(prefix: Seq<char>, key: Seq<char>) -> Seq<char> {
    if key.len() > 0 && key[0] == '/' {
        key
    } else {
        prefix_base(prefix) + key
    }
}

/// The common prefix, ended with a slash unless it is empty or has one already.
pub open spec fn prefix_base(prefix: Seq<char>) -> Seq<char> {
    if prefix.len() == 0 || prefix.last() == '/' {
        prefix
    } else {
        prefix.push('/')
    }
}

/// The manifest entry of a listed object. The listing gives no checksum and no
/// content type; to fetch them would cost a request per object.
pub open spec fn remote_entry(prefix: Seq<char>, object: RemoteObjectView) -> EntryView {
    (
        object.key,
        FileMetadataView {
            path: remote_path(prefix, object.key),
            size: object.size,
            last_modified: object.last_modified,
            checksum: None,
            etag: Some(object.e_tag),
            content_type: None,
        },
    )
}

/// The manifest entries of a run of listed objects, in order.
pub open spec fn remote_entries(
    prefix: Seq<char>,
    objects: Seq<RemoteObjectView>,
) -> Seq<EntryView> {
    objects.map_values(|o: RemoteObjectView| remote_entry(prefix, o))
}

/// A request to list the objects below a prefix.
#[derive(Debug, PartialEq, Eq)]
pub struct ListObjectsRequest {
    pub bucket: String,
    pub prefix: String,
}

/// A request to read one object.
#[derive(Debug, PartialEq, Eq)]
pub struct GetObjectRequest {
    pub bucket: String,
    pub key: String,
}

/// A request to write one object. The body is supplied by the caller.
#[derive(Debug, PartialEq, Eq)]
pub struct PutObjectRequest {
    pub bucket: String,
    pub key: String,
    pub acl: CannedAcl,
    pub content_type: Option<String>,
    pub metadata: Option<Vec<(String, String)>>,
}

/// A request to delete a batch of objects in one call.
#[derive(Debug, PartialEq, Eq)]
pub struct DeleteObjectsRequest {
    pub bucket: String,
    pub keys: Vec<String>,
}

/// The views of a list of name and value pairs.
pub open spec fn pairs_view(pairs: Seq<(String, String)>) -> Seq<(Seq<char>, Seq<char>)> {
    pairs.map_values(|p: (String, String)| (p.0@, p.1@))
}

/// The view of optional metadata.
pub open spec fn metadata_view(metadata: Option<Vec<(String, String)>>) -> Option<
    Seq<(Seq<char>, Seq<char>)>,
> {
    match metadata {
        Some(pairs) => Some(pairs_view(pairs@)),
        None => None,
    }
}

/// The value of the last pair named `Content-Type`, if there is one.
pub open spec fn content_type_among(pairs: Seq<(Seq<char>, Seq<char>)>) -> Option<Seq<char>>
    decreases pairs.len(),
{
    if pairs.len() == 0 {
        None
    } else if pairs.last().0 == "Content-Type"@ {
        Some(pairs.last().1)
    } else {
        content_type_among(pairs.drop_last())
    }
}

/// The content type that the metadata of an upload names, if any.
pub open spec fn content_type_in(metadata: Option<Seq<(Seq<char>, Seq<char>)>>) -> Option<
    Seq<char>,
> {
    match metadata {
        Some(pairs) => content_type_among(pairs),
        None => None,
    }
}

/// The content type that a list of metadata pairs names, if any.
fn find_content_type(pairs: &Vec<(String, String)>) -> (found: Option<String>)
    ensures
        opt_view(found) == content_type_among(pairs_view(pairs@)),
{
    let mut i: usize = pairs.len();
    assert(pairs_view(pairs@).take(i as int) =~= pairs_view(pairs@));
    while i > 0
        invariant
            i <= pairs@.len(),
            content_type_among(pairs_view(pairs@)) == content_type_among(
                pairs_view(pairs@).take(i as int),
            ),
        decreases i,
    {
        let ghost front = pairs_view(pairs@).take(i as int);
        assert(front.last() == (pairs@[i - 1].0@, pairs@[i - 1].1@));
        if str_eq(pairs[i - 1].0.as_str(), "Content-Type") {
            return Some(pairs[i - 1].1.clone());
        }
        assert(front.drop_last() =~= pairs_view(pairs@).take(i - 1));
        i = i - 1;
    }
    assert(pairs_view(pairs@).take(0).len() == 0);
    None
}

/// The remote adapter for one bucket and one common prefix of keys.
pub struct S3Driver {
    bucket: String,
    common_prefix: String,
}

impl S3Driver {
    /// The name of the bucket.
    pub closed spec fn bucket_name(&self) -> Seq<char> {
        self.bucket@
    }

    /// The prefix that scopes the listing.
    pub closed spec fn prefix(&self) -> Seq<char> {
        self.common_prefix@
    }

    /// An adapter for the given bucket and prefix.
    pub fn new(bucket: String, common_prefix: String) -> (driver: Self)
        ensures
            driver.bucket_name() == bucket@,
            driver.prefix() == common_prefix@,
    {
        S3Driver { bucket, common_prefix }
    }

    /// The name of the bucket.
    pub fn bucket(&self) -> (name: &String)
        ensures
            name@ == self.bucket_name(),
    {
        &self.bucket
    }

    /// The prefix that scopes the listing.
    pub fn common_prefix(&self) -> (prefix: &String)
        ensures
            prefix@ == self.prefix(),
    {
        &self.common_prefix
    }

    /// The request that lists the bucket below the common prefix.
    pub fn list_request(&self) -> (request: ListObjectsRequest)
        ensures
            request.bucket@ == self.bucket_name(),
            request.prefix@ == self.prefix(),
    {
        ListObjectsRequest { bucket: self.bucket.clone(), prefix: self.common_prefix.clone() }
    }

    /// The request that reads the object under `key`.
    pub fn get_object_reader(&self, key: &str) -> (request: GetObjectRequest)
        ensures
            request.bucket@ == self.bucket_name(),
            request.key@ == key@,
    {
        GetObjectRequest { bucket: self.bucket.clone(), key: key.to_owned() }
    }

    /// The request that writes an object under `key`.
    ///
    /// The access level is the one that `acl` names, the most restrictive one if the
    /// name is not recognised. The content type is taken from the metadata pair
    /// named `Content-Type`, if there is one; the metadata goes along unchanged.
    pub fn put_object_data(
        &self,
        key: String,
        metadata: Option<Vec<(String, String)>>,
        acl: &str,
    ) -> (request: PutObjectRequest)
        ensures
            request.bucket@ == self.bucket_name(),
            request.key@ == key@,
            request.acl == acl_named(acl@),
            opt_view(request.content_type) == content_type_in(metadata_view(metadata)),
            metadata_view(request.metadata) == metadata_view(metadata),
    {
        let content_type = match &metadata {
            Some(pairs) => find_content_type(pairs),
            None => None,
        };
        PutObjectRequest {
            bucket: self.bucket.clone(),
            key,
            acl: CannedAcl::from_name(acl),
            content_type,
            metadata,
        }
    }

    /// The request that deletes the given objects in one batch, or nothing where
    /// there is nothing to delete: an empty batch is never sent. The batch holds
    /// every key, in the order given.
    pub fn delete_objects(&self, keys: &Vec<String>) -> (request: Option<DeleteObjectsRequest>)
        ensures
            keys@.len() == 0 <==> request is None,
            request matches Some(batch) ==> batch.bucket@ == self.bucket_name() && strings_view(
                batch.keys@,
            ) == strings_view(keys@),
    {
        if keys.len() == 0 {
            None
        } else {
            Some(DeleteObjectsRequest { bucket: self.bucket.clone(), keys: clone_strings(keys) })
        }
    }

    /// The common prefix as the start of a path: ended with a slash if need be.
    fn path_base(&self) -> (base: String)
        ensures
            base@ == prefix_base(self.prefix()),
    {
        let chars = chars_of(self.common_prefix.as_str());
        let mut base = self.common_prefix.clone();
        if chars.len() > 0 && chars[chars.len() - 1] != '/' {
            base.append("/");
            proof {
                reveal_strlit("/");
                assert("/"@ =~= seq!['/']);
                assert(base@ =~= self.prefix().push('/'));
            }
        }
        base
    }

    /// The manifest entry for a listed object, below the given base.
    fn entry_of(base: &String, object: &RemoteObject, Ghost(prefix): Ghost<Seq<char>>) -> (meta:
        FileMetadata)
        requires
            base@ == prefix_base(prefix),
        ensures
            (object.key@, meta@) == remote_entry(prefix, object@),
    {
        let path = if first_char(object.key.as_str()) == Some('/') {
            object.key.clone()
        } else {
            let mut joined = base.clone();
            joined.append(object.key.as_str());
            joined
        };
        FileMetadata {
            path,
            size: object.size,
            last_modified: object.last_modified,
            checksum: None,
            etag: Some(object.e_tag.clone()),
            content_type: None,
        }
    }

    /// Adds the objects of one listing page to a manifest. Every object becomes an
    /// entry under its full key; none is dropped.
    pub fn add_page(&self, manifest: &mut SyncManifest, objects: &Vec<RemoteObject>)
        requires
            old(manifest).wf(),
        ensures
            final(manifest).wf(),
            final(manifest)@.files == insert_all(
                old(manifest)@.files,
                remote_entries(self.prefix(), objects_view(objects@)),
            ),
            final(manifest).entry_seq() == upsert_all(
                old(manifest).entry_seq(),
                remote_entries(self.prefix(), objects_view(objects@)),
            ),
            final(manifest)@.ignore_patterns == old(manifest)@.ignore_patterns,
    {
        let base = self.path_base();
        let ghost entries = remote_entries(self.prefix(), objects_view(objects@));
        let mut i: usize = 0;
        while i < objects.len()
            invariant
                i <= objects@.len(),
                manifest.wf(),
                base@ == prefix_base(self.prefix()),
                entries == remote_entries(self.prefix(), objects_view(objects@)),
                manifest@.files == insert_all(old(manifest)@.files, entries.take(i as int)),
                manifest.entry_seq() == upsert_all(
                    old(manifest).entry_seq(),
                    entries.take(i as int),
                ),
                manifest@.ignore_patterns == old(manifest)@.ignore_patterns,
            decreases objects@.len() - i,
        {
            let object = &objects[i];
            let meta = S3Driver::entry_of(&base, object, Ghost(self.prefix()));
            manifest.insert(object.key.clone(), meta);
            proof {
                assert(entries[i as int] == remote_entry(self.prefix(), object@));
                assert(entries.take(i + 1).drop_last() =~= entries.take(i as int));
                assert(entries.take(i + 1).last() == entries[i as int]);
            }
            i = i + 1;
        }
        assert(entries.take(i as int) =~= entries);
    }

    /// The remote manifest from the pages of a listing that was followed to its end.
    ///
    /// A page that failed contributes nothing and does not stop the others.
    pub fn build_manifest(&self, pages: &Vec<ListedPage>) -> (manifest: SyncManifest)
        ensures
            manifest.wf(),
            manifest@.files == insert_all(
                Map::empty(),
                remote_entries(self.prefix(), listed_objects(pages@)),
            ),
            manifest.entry_seq() == upsert_all(
                Seq::empty(),
                remote_entries(self.prefix(), listed_objects(pages@)),
            ),
            manifest@.ignore_patterns == Seq::<Seq<char>>::empty(),
    {
        let mut manifest = SyncManifest::new();
        let mut i: usize = 0;
        assert(listed_objects(pages@.take(0)) =~= Seq::empty());
        assert(remote_entries(self.prefix(), Seq::empty()) =~= Seq::empty());
        while i < pages.len()
            invariant
                i <= pages@.len(),
                manifest.wf(),
                manifest@.files == insert_all(
                    Map::empty(),
                    remote_entries(self.prefix(), listed_objects(pages@.take(i as int))),
                ),
                manifest.entry_seq() == upsert_all(
                    Seq::empty(),
                    remote_entries(self.prefix(), listed_objects(pages@.take(i as int))),
                ),
                manifest@.ignore_patterns == Seq::<Seq<char>>::empty(),
            decreases pages@.len() - i,
        {
            let ghost before = listed_objects(pages@.take(i as int));
            match &pages[i] {
                ListedPage::Objects(objects) => {
                    self.add_page(&mut manifest, objects);
                },
                ListedPage::Failed => {},
            }
            proof {
                let page = page_objects(pages@[i as int]);
                assert(pages@.take(i + 1).drop_last() =~= pages@.take(i as int));
                assert(pages@.take(i + 1).last() == pages@[i as int]);
                assert(listed_objects(pages@.take(i + 1)) == before + page);
                assert(remote_entries(self.prefix(), before + page) =~= remote_entries(
                    self.prefix(),
                    before,
                ) + remote_entries(self.prefix(), page));
                lemma_insert_all_concat(
                    Map::empty(),
                    remote_entries(self.prefix(), before),
                    remote_entries(self.prefix(), page),
                );
                lemma_upsert_all_concat(
                    Seq::empty(),
                    remote_entries(self.prefix(), before),
                    remote_entries(self.prefix(), page),
                );
                if pages@[i as int] is Failed {
                    assert(remote_entries(self.prefix(), page) =~= Seq::empty());
                }
            }
            i = i + 1;
        }
        assert(pages@.take(i as int) =~= pages@);
        manifest
    }
}

/// A listing followed to its end loses no key at a page boundary: every object of
/// every page that arrived has an entry under its key, with an etag and without a
/// checksum, and the manifest has no other keys.
pub proof fn lemma_listing_keeps_every_key(prefix: Seq<char>, pages: Seq<ListedPage>)
    ensures
        forall|p: int, i: int|
            #![trigger page_objects(pages[p])[i]]
            0 <= p < pages.len() && 0 <= i < page_objects(pages[p]).len() ==> insert_all(
                Map::empty(),
                remote_entries(prefix, listed_objects(pages)),
            ).contains_key(page_objects(pages[p])[i].key),
        forall|k: Seq<char>|
            #![trigger insert_all(Map::empty(), remote_entries(prefix, listed_objects(pages)))[k]]
            insert_all(Map::empty(), remote_entries(prefix, listed_objects(pages))).contains_key(k)
                ==> {
                let entry = insert_all(
                    Map::empty(),
                    remote_entries(prefix, listed_objects(pages)),
                )[k];
                &&& entry.etag is Some
                &&& entry.checksum is None
                &&& entry.content_type is None
                &&& exists|p: int, i: int|
                    0 <= p < pages.len() && 0 <= i < page_objects(pages[p]).len()
                        && #[trigger] page_objects(pages[p])[i].key == k
            },
{
    let objects = listed_objects(pages);
    let entries = remote_entries(prefix, objects);
    let files = insert_all(Map::empty(), entries);
    lemma_listed_objects(pages);
    lemma_insert_all(Map::empty(), entries);
    assert forall|p: int, i: int|
        #![trigger page_objects(pages[p])[i]]
        0 <= p < pages.len() && 0 <= i < page_objects(pages[p]).len() implies files.contains_key(
        page_objects(pages[p])[i].key,
    ) by {
        let o = page_objects(pages[p])[i];
        let j = choose|j: int| 0 <= j < objects.len() && objects[j] == o;
        assert(entries[j].0 == o.key);
        assert(has_key(entries, o.key));
    }
    assert forall|k: Seq<char>| #![trigger files[k]] files.contains_key(k) implies {
        &&& files[k].etag is Some
        &&& files[k].checksum is None
        &&& files[k].content_type is None
        &&& exists|p: int, i: int|
            0 <= p < pages.len() && 0 <= i < page_objects(pages[p]).len()
                && #[trigger] page_objects(pages[p])[i].key == k
    } by {
        assert(has_key(entries, k));
        lemma_last_with_key(entries, k);
        let j = choose|j: int|
            0 <= j < entries.len() && (#[trigger] entries[j]).0 == k && forall|l: int|
                j < l < entries.len() ==> (#[trigger] entries[l]).0 != k;
        assert(files[entries[j].0] == entries[j].1);
        let o = objects[j];
        assert(objects.contains(o));
    }
}

/// The objects of a listing are the objects of its pages.
proof fn lemma_listed_objects(pages: Seq<ListedPage>)
    ensures
        forall|p: int, i: int|
            #![trigger page_objects(pages[p])[i]]
            0 <= p < pages.len() && 0 <= i < page_objects(pages[p]).len() ==> listed_objects(
                pages,
            ).contains(page_objects(pages[p])[i]),
        forall|o: RemoteObjectView| #[trigger]
            listed_objects(pages).contains(o) ==> exists|p: int, i: int|
                0 <= p < pages.len() && 0 <= i < page_objects(pages[p]).len()
                    && #[trigger] page_objects(pages[p])[i] == o,
    decreases pages.len(),
{
    if pages.len() > 0 {
        let front = pages.drop_last();
        let last = pages.len() - 1;
        let all = listed_objects(pages);
        lemma_listed_objects(front);
        assert forall|p: int, i: int|
            #![trigger page_objects(pages[p])[i]]
            0 <= p < pages.len() && 0 <= i < page_objects(pages[p]).len() implies all.contains(
            page_objects(pages[p])[i],
        ) by {
            let o = page_objects(pages[p])[i];
            if p < last {
                assert(front[p] == pages[p]);
                assert(listed_objects(front).contains(page_objects(front[p])[i]));
                let j = choose|j: int|
                    0 <= j < listed_objects(front).len() && listed_objects(front)[j] == o;
                assert(all[j] == o);
            } else {
                assert(all[listed_objects(front).len() + i] == o);
            }
        }
        assert forall|o: RemoteObjectView| #[trigger] all.contains(o) implies exists|
            p: int,
            i: int,
        |
            0 <= p < pages.len() && 0 <= i < page_objects(pages[p]).len()
                && #[trigger] page_objects(pages[p])[i] == o by {
            let j = choose|j: int| 0 <= j < all.len() && all[j] == o;
            if j < listed_objects(front).len() {
                assert(listed_objects(front)[j] == o);
                assert(listed_objects(front).contains(o));
                let (p, i) = choose|p: int, i: int|
                    0 <= p < front.len() && 0 <= i < page_objects(front[p]).len()
                        && #[trigger] page_objects(front[p])[i] == o;
                assert(front[p] == pages[p]);
                assert(page_objects(pages[p])[i] == o);
            } else {
                let i = j - listed_objects(front).len();
                assert(page_objects(pages[last])[i] == o);
            }
        }
    }
}

} // verus!
