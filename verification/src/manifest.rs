//! The manifest: a map from relative path to the metadata of the file or object there.
//!
//! A run works with three manifests. The local one is built from a scan of the
//! source directory, the remote one from a listing of the bucket, and the deploy
//! manifest records which local content was last seen to correspond to which remote
//! object.

use crate::text::{clone_opt, opt_view, strings_view};
use vstd::hash_map::StringHashMap;
use vstd::prelude::*;

verus! {

/// A point in time: whole seconds since the Unix epoch and the nanoseconds beyond them.
///
/// What it measures depends on the source (a local modification time, or the time
/// of a remote write), so timestamps of different manifests are not compared.
#[derive(Clone, Copy, Debug, PartialEq, Eq, Structural)]
pub struct Timestamp {
    pub secs: u64,
    pub nanos: u32,
}

impl Timestamp {
    /// The nanoseconds stay below one second.
    pub open spec fn is_valid(self) -> bool {
        self.nanos < 1_000_000_000
    }

    /// The timestamp for a count of seconds that may be negative. A time before the
    /// epoch counts as the epoch itself.
    pub open spec fn clamped(secs: i64, nanos: u32) -> Timestamp {
        if secs < 0 {
            Timestamp { secs: 0, nanos: 0 }
        } else {
            Timestamp { secs: secs as u64, nanos: nanos }
        }
    }

    /// The timestamp for the given seconds since the epoch and nanoseconds beyond
    /// them. A time before the epoch counts as the epoch itself.
    pub fn since_epoch(secs: i64, nanos: u32) -> (stamp: Timestamp)
        ensures
            stamp == Timestamp::clamped(secs, nanos),
    {
        if secs < 0 {
            Timestamp { secs: 0, nanos: 0 }
        } else {
            Timestamp { secs: secs as u64, nanos: nanos }
        }
    }
}

/// What a manifest records of one file or object.
#[derive(Debug, PartialEq, Eq)]
pub struct FileMetadata {
    /// Where the bytes are read or written.
    pub path: String,
    /// Length in bytes.
    pub size: u64,
    pub last_modified: Timestamp,
    /// Digest of the content; present in entries of a local scan.
    pub checksum: Option<String>,
    /// Fingerprint given by the remote store; present in listed and uploaded entries.
    pub etag: Option<String>,
    pub content_type: Option<String>,
}

/// The mathematical value of a [`FileMetadata`].
pub struct FileMetadataView {
    pub path: Seq<char>,
    pub size: u64,
    pub last_modified: Timestamp,
    pub checksum: Option<Seq<char>>,
    pub etag: Option<Seq<char>>,
    pub content_type: Option<Seq<char>>,
}

impl FileMetadataView {
    /// An entry says something about content only if it carries a checksum or an
    /// etag. One with neither never counts as matching anything.
    pub open spec fn is_meaningful(self) -> bool {
        self.checksum is Some || self.etag is Some
    }

    /// The timestamp is valid.
    pub open spec fn is_valid(self) -> bool {
        self.last_modified.is_valid()
    }
}

impl View for FileMetadata {
    type V = FileMetadataView;

    open spec fn view(&self) -> FileMetadataView {
        FileMetadataView {
            path: self.path@,
            size: self.size,
            last_modified: self.last_modified,
            checksum: opt_view(self.checksum),
            etag: opt_view(self.etag),
            content_type: opt_view(self.content_type),
        }
    }
}

impl Clone for FileMetadata {
    fn clone(&self) -> (copy: Self)
        ensures
            copy@ == self@,
    {
        FileMetadata {
            path: self.path.clone(),
            size: self.size,
            last_modified: self.last_modified,
            checksum: clone_opt(&self.checksum),
            etag: clone_opt(&self.etag),
            content_type: clone_opt(&self.content_type),
        }
    }
}

impl FileMetadata {
    /// Whether the entry carries a checksum or an etag.
    pub fn is_meaningful(&self) -> (yes: bool)
        ensures
            yes == self@.is_meaningful(),
    {
        self.checksum.is_some() || self.etag.is_some()
    }
}

/// One entry of a manifest: a relative path and what is recorded there.
#[derive(Debug, PartialEq, Eq)]
pub struct ManifestEntry {
    pub key: String,
    pub meta: FileMetadata,
}

/// The mathematical value of a [`ManifestEntry`]: the key and the record.
pub type EntryView = (Seq<char>, FileMetadataView);

/// The files of a manifest as a map from key to record.
pub type FileMap = Map<Seq<char>, FileMetadataView>;

/// The mathematical value of a [`SyncManifest`].
pub struct ManifestView {
    pub files: FileMap,
    pub ignore_patterns: Seq<Seq<char>>,
}

/// The map that results from `base` when each entry is inserted in turn, a later
/// entry replacing what an earlier one, or `base`, held under the same key.
pub open spec fn insert_all(
    base: FileMap,
    entries: Seq<EntryView>,
) -> FileMap
    decreases entries.len(),
{
    if entries.len() == 0 {
        base
    } else {
        insert_all(base, entries.drop_last()).insert(entries.last().0, entries.last().1)
    }
}

/// The map that a sequence of entries builds, starting from nothing.
pub open spec fn entries_map(entries: Seq<EntryView>) -> FileMap {
    insert_all(Map::empty(), entries)
}

/// No key occurs twice in the sequence.
pub open spec fn distinct_keys(entries: Seq<EntryView>) -> bool {
    forall|i: int, j: int|
        0 <= i < entries.len() && 0 <= j < entries.len() && i != j ==> (#[trigger] entries[i]).0
            != (#[trigger] entries[j]).0
}

/// Some entry of the sequence has the key.
pub open spec fn has_key(entries: Seq<EntryView>, key: Seq<char>) -> bool {
    exists|i: int| 0 <= i < entries.len() && (#[trigger] entries[i]).0 == key
}

/// The keys of `insert_all` are those of the base and of the entries; a key that no
/// entry has keeps what the base held; the last entry with a key decides its value.
pub proof fn lemma_insert_all(
    base: FileMap,
    entries: Seq<EntryView>,
)
    ensures
        forall|k: Seq<char>|
            #![trigger insert_all(base, entries).contains_key(k)]
            #![trigger has_key(entries, k)]
            insert_all(base, entries).contains_key(k) <==> base.contains_key(k) || has_key(
                entries,
                k,
            ),
        forall|k: Seq<char>|
            !has_key(entries, k) ==> #[trigger] insert_all(base, entries)[k] == base[k],
        forall|i: int|
            0 <= i < entries.len() && (forall|j: int|
                i < j < entries.len() ==> (#[trigger] entries[j]).0 != entries[i].0)
                ==> insert_all(base, entries)[(#[trigger] entries[i]).0] == entries[i].1,
        base.dom().finite() ==> insert_all(base, entries).dom().finite(),
    decreases entries.len(),
{
    if entries.len() > 0 {
        let front = entries.drop_last();
        let last = entries.len() - 1;
        lemma_insert_all(base, front);
        assert forall|k: Seq<char>| has_key(entries, k) <==> has_key(front, k) || k
            == entries[last].0 by {
            if has_key(entries, k) {
                let i = choose|i: int| 0 <= i < entries.len() && (#[trigger] entries[i]).0 == k;
                if i < last {
                    assert(front[i].0 == k);
                }
            }
            if has_key(front, k) {
                let i = choose|i: int| 0 <= i < front.len() && (#[trigger] front[i]).0 == k;
                assert(entries[i].0 == k);
            }
            if k == entries[last].0 {
                assert(entries[last].0 == k);
            }
        }
        assert forall|i: int|
            0 <= i < entries.len() && (forall|j: int|
                i < j < entries.len() ==> (#[trigger] entries[j]).0
                    != entries[i].0) implies insert_all(base, entries)[(#[trigger] entries[i]).0]
            == entries[i].1 by {
            if i < last {
                assert(entries[last].0 != entries[i].0);
                assert(front[i] == entries[i]);
                assert forall|j: int| i < j < front.len() implies (#[trigger] front[j]).0
                    != front[i].0 by {
                    assert(entries[j].0 != entries[i].0);
                }
            }
        }
    }
}

/// Inserting a single entry is one insertion into the map.
pub proof fn lemma_insert_one(
    base: FileMap,
    key: Seq<char>,
    meta: FileMetadataView,
)
    ensures
        insert_all(base, seq![(key, meta)]) == base.insert(key, meta),
{
    let one = seq![(key, meta)];
    assert(one.drop_last() =~= Seq::empty());
    assert(insert_all(base, one.drop_last()) == base);
}

/// Among the entries with a key there is a last one.
pub proof fn lemma_last_with_key(entries: Seq<EntryView>, key: Seq<char>)
    requires
        has_key(entries, key),
    ensures
        exists|i: int|
            0 <= i < entries.len() && (#[trigger] entries[i]).0 == key && forall|j: int|
                i < j < entries.len() ==> (#[trigger] entries[j]).0 != key,
    decreases entries.len(),
{
    let last = entries.len() - 1;
    if entries[last].0 == key {
        assert(entries[last].0 == key && forall|j: int|
            last < j < entries.len() ==> (#[trigger] entries[j]).0 != key);
    } else {
        let front = entries.drop_last();
        let w = choose|i: int| 0 <= i < entries.len() && (#[trigger] entries[i]).0 == key;
        assert(front[w].0 == key);
        lemma_last_with_key(front, key);
        let i = choose|i: int|
            0 <= i < front.len() && (#[trigger] front[i]).0 == key && forall|j: int|
                i < j < front.len() ==> (#[trigger] front[j]).0 != key;
        assert(entries[i].0 == key);
        assert forall|j: int| i < j < entries.len() implies (#[trigger] entries[j]).0 != key by {
            if j < last {
                assert(front[j].0 != key);
            }
        }
    }
}

/// Inserting two runs of entries one after the other is inserting their concatenation.
pub proof fn lemma_insert_all_concat(
    base: FileMap,
    first: Seq<EntryView>,
    second: Seq<EntryView>,
)
    ensures
        insert_all(base, first + second) == insert_all(insert_all(base, first), second),
    decreases second.len(),
{
    if second.len() == 0 {
        assert(first + second =~= first);
    } else {
        lemma_insert_all_concat(base, first, second.drop_last());
        assert((first + second).drop_last() =~= first + second.drop_last());
        assert((first + second).last() == second.last());
    }
}

/// The keys of `entries_map` are the keys of the entries, and with distinct keys
/// each entry is found under its key.
pub proof fn lemma_entries_map(entries: Seq<EntryView>)
    ensures
        forall|k: Seq<char>|
            entries_map(entries).contains_key(k) <==> exists|i: int|
                0 <= i < entries.len() && (#[trigger] entries[i]).0 == k,
        distinct_keys(entries) ==> forall|i: int|
            0 <= i < entries.len() ==> entries_map(entries)[(#[trigger] entries[i]).0]
                == entries[i].1,
        entries_map(entries).dom().finite(),
{
    lemma_insert_all(Map::empty(), entries);
    assert forall|k: Seq<char>|
        entries_map(entries).contains_key(k) <==> exists|i: int|
            0 <= i < entries.len() && (#[trigger] entries[i]).0 == k by {
        assert(entries_map(entries).contains_key(k) <==> has_key(entries, k));
    }
}

/// The position of a key among the entries, or the length of the sequence if the
/// key is not there.
pub open spec fn key_position(entries: Seq<EntryView>, key: Seq<char>) -> int
    decreases entries.len(),
{
    if entries.len() == 0 {
        0
    } else if entries[0].0 == key {
        0
    } else {
        1 + key_position(entries.drop_first(), key)
    }
}

/// The entries after `meta` has been recorded under `key`: in the place of the
/// entry that had the key, or else at the end.
pub open spec fn upserted(
    entries: Seq<EntryView>,
    key: Seq<char>,
    meta: FileMetadataView,
) -> Seq<EntryView> {
    let position = key_position(entries, key);
    if position < entries.len() {
        entries.update(position, (key, meta))
    } else {
        entries.push((key, meta))
    }
}

/// The entries after the one under `key` has left: the last entry takes its place.
pub open spec fn without_key(entries: Seq<EntryView>, key: Seq<char>) -> Seq<EntryView> {
    let position = key_position(entries, key);
    if position < entries.len() {
        entries.update(position, entries.last()).drop_last()
    } else {
        entries
    }
}

/// `key_position` stays within the sequence, and gives the first entry with the key.
pub proof fn lemma_key_position_bounds(entries: Seq<EntryView>, key: Seq<char>)
    ensures
        0 <= key_position(entries, key) <= entries.len(),
        key_position(entries, key) < entries.len() ==> entries[key_position(entries, key)].0
            == key,
        forall|i: int| 0 <= i < key_position(entries, key) ==> (#[trigger] entries[i]).0 != key,
    decreases entries.len(),
{
    if entries.len() > 0 && entries[0].0 != key {
        let rest = entries.drop_first();
        lemma_key_position_bounds(rest, key);
        assert forall|i: int| 0 <= i < key_position(entries, key) implies (#[trigger] entries[i]).0
            != key by {
            if i > 0 {
                assert(rest[i - 1] == entries[i]);
            }
        }
    }
}

/// Where an entry holds the key, `key_position` finds it, provided keys are distinct.
pub proof fn lemma_key_position(
    entries: Seq<EntryView>,
    key: Seq<char>,
    position: int,
)
    requires
        distinct_keys(entries),
        0 <= position < entries.len(),
        entries[position].0 == key,
    ensures
        key_position(entries, key) == position,
{
    lemma_key_position_bounds(entries, key);
    let found = key_position(entries, key);
    if found != position {
        if found < entries.len() {
            assert(entries[found].0 == entries[position].0);
        }
    }
}

/// Where no entry holds the key, `key_position` is the length.
pub proof fn lemma_key_absent(entries: Seq<EntryView>, key: Seq<char>)
    requires
        forall|i: int| 0 <= i < entries.len() ==> (#[trigger] entries[i]).0 != key,
    ensures
        key_position(entries, key) == entries.len(),
{
    lemma_key_position_bounds(entries, key);
}

/// Recording an entry keeps the keys distinct and inserts into the map.
pub proof fn lemma_upserted(
    entries: Seq<EntryView>,
    key: Seq<char>,
    meta: FileMetadataView,
)
    requires
        distinct_keys(entries),
    ensures
        distinct_keys(upserted(entries, key, meta)),
        entries_map(upserted(entries, key, meta)) == entries_map(entries).insert(key, meta),
{
    lemma_key_position_bounds(entries, key);
    let after = upserted(entries, key, meta);
    let position = key_position(entries, key);
    assert(distinct_keys(after)) by {
        assert forall|i: int, j: int|
            0 <= i < after.len() && 0 <= j < after.len() && i != j implies (#[trigger] after[i]).0
            != (#[trigger] after[j]).0 by {
            if position < entries.len() {
                assert(entries[i].0 != entries[j].0);
            } else {
                if i < entries.len() && j < entries.len() {
                    assert(entries[i].0 != entries[j].0);
                } else if i < entries.len() {
                    assert(entries[i].0 != key);
                } else {
                    assert(entries[j].0 != key);
                }
            }
        }
    }
    lemma_entries_map(entries);
    lemma_entries_map(after);
    let expected = entries_map(entries).insert(key, meta);
    assert forall|k: Seq<char>| entries_map(after).contains_key(k) <==> expected.contains_key(
        k,
    ) by {
        if entries_map(after).contains_key(k) {
            let i = choose|i: int| 0 <= i < after.len() && (#[trigger] after[i]).0 == k;
            if k != key {
                assert(entries[i].0 == k);
            }
        }
        if expected.contains_key(k) {
            if k == key {
                if position < entries.len() {
                    assert(after[position].0 == k);
                } else {
                    assert(after[entries.len() as int].0 == k);
                }
            } else {
                let i = choose|i: int| 0 <= i < entries.len() && (#[trigger] entries[i]).0 == k;
                assert(after[i].0 == k);
            }
        }
    }
    assert forall|k: Seq<char>| entries_map(after).contains_key(k) implies entries_map(after)[k]
        == expected[k] by {
        let i = choose|i: int| 0 <= i < after.len() && (#[trigger] after[i]).0 == k;
        assert(entries_map(after)[after[i].0] == after[i].1);
        if k != key {
            assert(entries[i].0 == k);
            assert(entries_map(entries)[entries[i].0] == entries[i].1);
        } else {
            if position < entries.len() {
                if i != position {
                    assert(after[position].0 == key);
                    assert(after[i].0 != after[position].0);
                }
            } else {
                if i != entries.len() {
                    assert(entries[i].0 == key);
                }
            }
        }
    }
    assert(entries_map(after) =~= expected);
}

/// Dropping a key keeps the keys distinct and removes from the map.
pub proof fn lemma_without_key(entries: Seq<EntryView>, key: Seq<char>)
    requires
        distinct_keys(entries),
    ensures
        distinct_keys(without_key(entries, key)),
        entries_map(without_key(entries, key)) == entries_map(entries).remove(key),
{
    lemma_key_position_bounds(entries, key);
    let after = without_key(entries, key);
    let position = key_position(entries, key);
    let last = entries.len() - 1;
    lemma_entries_map(entries);
    if position < entries.len() {
        assert forall|i: int| 0 <= i < after.len() implies (#[trigger] after[i]) == (if i
            == position {
            entries[last]
        } else {
            entries[i]
        }) by {}
        assert(distinct_keys(after)) by {
            assert forall|i: int, j: int|
                0 <= i < after.len() && 0 <= j < after.len() && i != j implies (
            #[trigger] after[i]).0 != (#[trigger] after[j]).0 by {
                let a = if i == position {
                    last
                } else {
                    i
                };
                let b = if j == position {
                    last
                } else {
                    j
                };
                assert(entries[a].0 != entries[b].0);
            }
        }
        lemma_entries_map(after);
        let expected = entries_map(entries).remove(key);
        assert forall|k: Seq<char>| entries_map(after).contains_key(k) <==> expected.contains_key(
            k,
        ) by {
            if entries_map(after).contains_key(k) {
                let i = choose|i: int| 0 <= i < after.len() && (#[trigger] after[i]).0 == k;
                let a = if i == position {
                    last
                } else {
                    i
                };
                assert(entries[a].0 == k);
                assert(entries[a].0 != entries[position].0);
            }
            if expected.contains_key(k) {
                let i = choose|i: int| 0 <= i < entries.len() && (#[trigger] entries[i]).0 == k;
                if i == last {
                    assert(after[position].0 == k);
                } else {
                    assert(after[i].0 == k);
                }
            }
        }
        assert forall|k: Seq<char>| entries_map(after).contains_key(k) implies entries_map(
            after,
        )[k] == expected[k] by {
            let i = choose|i: int| 0 <= i < after.len() && (#[trigger] after[i]).0 == k;
            assert(entries_map(after)[after[i].0] == after[i].1);
            let a = if i == position {
                last
            } else {
                i
            };
            assert(entries_map(entries)[entries[a].0] == entries[a].1);
        }
        assert(entries_map(after) =~= expected);
    } else {
        assert(!entries_map(entries).contains_key(key)) by {
            if entries_map(entries).contains_key(key) {
                let i = choose|i: int| 0 <= i < entries.len() && (#[trigger] entries[i]).0 == key;
                assert(entries[i].0 != key);
            }
        }
        assert(entries_map(entries).remove(key) =~= entries_map(entries));
    }
}

/// The keys of the entries, in order.
pub open spec fn keys_of(entries: Seq<EntryView>) -> Seq<Seq<char>> {
    entries.map_values(|e: EntryView| e.0)
}

/// The entries after each of `added` has been recorded in turn.
pub open spec fn upsert_all(
    entries: Seq<EntryView>,
    added: Seq<EntryView>,
) -> Seq<EntryView>
    decreases added.len(),
{
    if added.len() == 0 {
        entries
    } else {
        upserted(upsert_all(entries, added.drop_last()), added.last().0, added.last().1)
    }
}

/// The entries after each of `keys` has left in turn.
pub open spec fn without_keys(
    entries: Seq<EntryView>,
    keys: Seq<Seq<char>>,
) -> Seq<EntryView>
    decreases keys.len(),
{
    if keys.len() == 0 {
        entries
    } else {
        without_key(without_keys(entries, keys.drop_last()), keys.last())
    }
}

/// Recording entries in turn keeps the keys distinct and inserts each into the map.
pub proof fn lemma_upsert_all(
    entries: Seq<EntryView>,
    added: Seq<EntryView>,
)
    requires
        distinct_keys(entries),
    ensures
        distinct_keys(upsert_all(entries, added)),
        entries_map(upsert_all(entries, added)) == insert_all(entries_map(entries), added),
    decreases added.len(),
{
    if added.len() > 0 {
        lemma_upsert_all(entries, added.drop_last());
        lemma_upserted(upsert_all(entries, added.drop_last()), added.last().0, added.last().1);
    }
}

/// Recording two runs of entries one after the other is recording their
/// concatenation.
pub proof fn lemma_upsert_all_concat(
    entries: Seq<EntryView>,
    first: Seq<EntryView>,
    second: Seq<EntryView>,
)
    ensures
        upsert_all(entries, first + second) == upsert_all(upsert_all(entries, first), second),
    decreases second.len(),
{
    if second.len() == 0 {
        assert(first + second =~= first);
    } else {
        lemma_upsert_all_concat(entries, first, second.drop_last());
        assert((first + second).drop_last() =~= first + second.drop_last());
        assert((first + second).last() == second.last());
    }
}

/// Recording one more entry is one step of `upsert_all`.
pub proof fn lemma_upsert_all_push(
    entries: Seq<EntryView>,
    added: Seq<EntryView>,
    key: Seq<char>,
    meta: FileMetadataView,
)
    ensures
        upsert_all(entries, added.push((key, meta))) == upserted(
            upsert_all(entries, added),
            key,
            meta,
        ),
{
    assert(added.push((key, meta)).drop_last() =~= added);
}

/// Entries with distinct keys, recorded in turn into nothing, come out as they are.
pub proof fn lemma_upsert_all_distinct(added: Seq<EntryView>)
    requires
        distinct_keys(added),
    ensures
        upsert_all(Seq::empty(), added) == added,
    decreases added.len(),
{
    if added.len() > 0 {
        let front = added.drop_last();
        assert(distinct_keys(front)) by {
            assert forall|i: int, j: int|
                0 <= i < front.len() && 0 <= j < front.len() && i != j implies (
            #[trigger] front[i]).0 != (#[trigger] front[j]).0 by {
                assert(added[i].0 != added[j].0);
            }
        }
        lemma_upsert_all_distinct(front);
        assert forall|i: int| 0 <= i < front.len() implies (#[trigger] front[i]).0
            != added.last().0 by {
            assert(added[i].0 != added[added.len() - 1].0);
        }
        lemma_key_absent(front, added.last().0);
        assert(front.push(added.last()) =~= added);
    }
}

/// Dropping keys in turn keeps the keys distinct and removes each from the map.
pub proof fn lemma_without_keys(entries: Seq<EntryView>, keys: Seq<Seq<char>>)
    requires
        distinct_keys(entries),
    ensures
        distinct_keys(without_keys(entries, keys)),
        entries_map(without_keys(entries, keys)) == entries_map(entries).remove_keys(
            keys.to_set(),
        ),
    decreases keys.len(),
{
    if keys.len() == 0 {
        assert(entries_map(entries).remove_keys(keys.to_set()) =~= entries_map(entries));
    } else {
        let front = keys.drop_last();
        lemma_without_keys(entries, front);
        lemma_without_key(without_keys(entries, front), keys.last());
        assert forall|k: Seq<char>| keys.to_set().contains(k) <==> front.to_set().contains(k) || k
            == keys.last() by {
            if front.contains(k) {
                let j = choose|j: int| 0 <= j < front.len() && front[j] == k;
                assert(keys[j] == k);
            }
            if k == keys.last() {
                assert(keys[keys.len() - 1] == k);
            }
            if keys.contains(k) {
                let j = choose|j: int| 0 <= j < keys.len() && keys[j] == k;
                if j < keys.len() - 1 {
                    assert(front[j] == k);
                }
            }
        }
        assert(entries_map(entries).remove_keys(front.to_set()).remove(keys.last())
            =~= entries_map(entries).remove_keys(keys.to_set()));
    }
}

/// With distinct keys there are as many keys in the map as there are entries.
pub proof fn lemma_entries_count(entries: Seq<EntryView>)
    requires
        distinct_keys(entries),
    ensures
        keys_of(entries).no_duplicates(),
        keys_of(entries).to_set() == entries_map(entries).dom(),
        entries_map(entries).dom().len() == entries.len(),
{
    let keys = keys_of(entries);
    assert(keys.no_duplicates()) by {
        assert forall|i: int, j: int|
            0 <= i < keys.len() && 0 <= j < keys.len() && i != j implies keys[i] != keys[j] by {
            assert(entries[i].0 != entries[j].0);
        }
    }
    lemma_entries_map(entries);
    assert forall|k: Seq<char>| keys.to_set().contains(k) <==> entries_map(entries).dom().contains(
        k,
    ) by {
        if keys.contains(k) {
            let i = choose|i: int| 0 <= i < keys.len() && keys[i] == k;
            assert(entries[i].0 == k);
        }
        if entries_map(entries).contains_key(k) {
            let i = choose|i: int| 0 <= i < entries.len() && (#[trigger] entries[i]).0 == k;
            assert(keys[i] == k);
        }
    }
    assert(keys.to_set() =~= entries_map(entries).dom());
    keys.unique_seq_to_set();
}

/// Every record of the sequence has a valid timestamp.
pub open spec fn all_valid(entries: Seq<EntryView>) -> bool {
    forall|i: int| 0 <= i < entries.len() ==> (#[trigger] entries[i]).1.is_valid()
}

/// Recording an entry with a valid timestamp among such entries leaves only such
/// entries.
pub proof fn lemma_upserted_valid(entries: Seq<EntryView>, key: Seq<char>, meta: FileMetadataView)
    requires
        all_valid(entries),
        meta.is_valid(),
    ensures
        all_valid(upserted(entries, key, meta)),
{
    lemma_key_position_bounds(entries, key);
    let after = upserted(entries, key, meta);
    assert forall|i: int| 0 <= i < after.len() implies (#[trigger] after[i]).1.is_valid() by {
        if after[i] != (key, meta) {
            assert(entries[i].1.is_valid());
        }
    }
}

/// Dropping a key from entries with valid timestamps leaves only such entries.
pub proof fn lemma_without_key_valid(entries: Seq<EntryView>, key: Seq<char>)
    requires
        all_valid(entries),
    ensures
        all_valid(without_key(entries, key)),
{
    lemma_key_position_bounds(entries, key);
    let after = without_key(entries, key);
    assert forall|i: int| 0 <= i < after.len() implies (#[trigger] after[i]).1.is_valid() by {
        if after[i] == entries[entries.len() - 1] {
            assert(entries[entries.len() - 1].1.is_valid());
        } else {
            assert(entries[i].1.is_valid());
        }
    }
}

/// A manifest: the recorded files by relative path, and a list of ignore patterns.
///
/// The entries are kept in a list, in the order in which their keys first came: a
/// run has to walk them, and the stored form has to come out the same each time,
/// which a hash map alone gives no way to do. An index from key to position stands
/// beside the list, so that a lookup does not walk it.
pub struct SyncManifest {
    entries: Vec<ManifestEntry>,
    index: StringHashMap<usize>,
    /// Patterns of paths to leave out. They are carried along and not yet consulted.
    ignore_patterns: Vec<String>,
}

impl View for SyncManifest {
    type V = ManifestView;

    closed spec fn view(&self) -> ManifestView {
        ManifestView {
            files: entries_map(self.entry_seq()),
            ignore_patterns: strings_view(self.ignore_patterns@),
        }
    }
}

impl SyncManifest {
    /// The entries in the order in which the manifest holds them.
    pub closed spec fn entry_seq(&self) -> Seq<EntryView> {
        self.entries@.map_values(|e: ManifestEntry| (e.key@, e.meta@))
    }

    /// The index agrees with the entries, and no key occurs twice.
    pub closed spec fn wf(&self) -> bool {
        &&& forall|i: int|
            0 <= i < self.entries@.len() ==> self.index@.contains_key(
                (#[trigger] self.entries@[i]).key@,
            ) && self.index@[self.entries@[i].key@] == i
        &&& forall|k: Seq<char>| #[trigger]
            self.index@.contains_key(k) ==> self.index@[k] < self.entries@.len()
                && self.entries@[self.index@[k] as int].key@ == k
    }

    /// What follows from well-formedness for the two models of the content.
    pub proof fn lemma_wf(&self)
        requires
            self.wf(),
        ensures
            distinct_keys(self.entry_seq()),
            self@.files == entries_map(self.entry_seq()),
            self@.files.dom().finite(),
            self@.files.len() == self.entry_seq().len(),
            forall|k: Seq<char>|
                self@.files.contains_key(k) <==> exists|i: int|
                    0 <= i < self.entry_seq().len() && (#[trigger] self.entry_seq()[i]).0 == k,
            forall|i: int|
                0 <= i < self.entry_seq().len() ==> self@.files.contains_key(
                    (#[trigger] self.entry_seq()[i]).0,
                ) && self@.files[self.entry_seq()[i].0] == self.entry_seq()[i].1,
    {
        let entries = self.entry_seq();
        assert(distinct_keys(entries)) by {
            assert forall|i: int, j: int|
                0 <= i < entries.len() && 0 <= j < entries.len() && i != j implies (
            #[trigger] entries[i]).0 != (#[trigger] entries[j]).0 by {
                assert(self.index@[self.entries@[i].key@] == i);
                assert(self.index@[self.entries@[j].key@] == j);
            }
        }
        lemma_entries_map(entries);
        lemma_entries_count(entries);
    }

    /// The index holds exactly the keys of the map.
    proof fn lemma_index(&self)
        requires
            self.wf(),
        ensures
            forall|k: Seq<char>| self@.files.contains_key(k) <==> self.index@.contains_key(k),
            forall|k: Seq<char>| #[trigger]
                self.index@.contains_key(k) ==> self@.files[k]
                    == self.entries@[self.index@[k] as int].meta@,
    {
        self.lemma_wf();
        let entries = self.entry_seq();
        assert forall|k: Seq<char>| self@.files.contains_key(k) <==> self.index@.contains_key(
            k,
        ) by {
            if self@.files.contains_key(k) {
                let i = choose|i: int| 0 <= i < entries.len() && (#[trigger] entries[i]).0 == k;
                assert(self.entries@[i].key@ == k);
            }
            if self.index@.contains_key(k) {
                let i = self.index@[k] as int;
                assert(entries[i].0 == k);
            }
        }
        assert forall|k: Seq<char>| #[trigger] self.index@.contains_key(k) implies self@.files[k]
            == self.entries@[self.index@[k] as int].meta@ by {
            let i = self.index@[k] as int;
            assert(entries[i].0 == k);
        }
    }

    /// An empty manifest, with no ignore patterns.
    pub fn new() -> (manifest: Self)
        ensures
            manifest.wf(),
            manifest@.files == Map::<Seq<char>, FileMetadataView>::empty(),
            manifest@.ignore_patterns == Seq::<Seq<char>>::empty(),
            manifest.entry_seq() == Seq::<EntryView>::empty(),
    {
        let manifest = SyncManifest {
            entries: Vec::new(),
            index: StringHashMap::new(),
            ignore_patterns: Vec::new(),
        };
        assert(manifest.entry_seq() =~= Seq::empty());
        assert(strings_view(manifest.ignore_patterns@) =~= Seq::empty());
        manifest
    }

    /// The ignore patterns, in the order in which they were added.
    pub fn ignore_patterns(&self) -> (patterns: &Vec<String>)
        ensures
            strings_view(patterns@) == self@.ignore_patterns,
    {
        &self.ignore_patterns
    }

    /// Adds an ignore pattern at the end of the list.
    pub fn add_ignore_pattern(&mut self, pattern: String)
        requires
            old(self).wf(),
        ensures
            final(self).wf(),
            final(self)@.files == old(self)@.files,
            final(self).entry_seq() == old(self).entry_seq(),
            final(self)@.ignore_patterns == old(self)@.ignore_patterns.push(pattern@),
    {
        self.ignore_patterns.push(pattern);
        let ghost before = strings_view(old(self).ignore_patterns@);
        assert(strings_view(self.ignore_patterns@) =~= before.push(pattern@));
    }

    /// The number of entries, which is the number of recorded paths.
    pub fn len(&self) -> (count: usize)
        requires
            self.wf(),
        ensures
            count == self.entry_seq().len(),
            count == self@.files.len(),
    {
        proof {
            self.lemma_wf();
        }
        self.entries.len()
    }

    /// Whether an entry is recorded under `key`.
    pub fn contains_key(&self, key: &str) -> (found: bool)
        requires
            self.wf(),
        ensures
            found == self@.files.contains_key(key@),
    {
        proof {
            self.lemma_index();
        }
        self.index.contains_key(key)
    }

    /// The entry recorded under `key`, if there is one. A missing key is no error.
    pub fn get(&self, key: &str) -> (found: Option<&FileMetadata>)
        requires
            self.wf(),
        ensures
            match found {
                Some(meta) => self@.files.contains_key(key@) && meta@ == self@.files[key@],
                None => !self@.files.contains_key(key@),
            },
    {
        proof {
            self.lemma_index();
        }
        match self.index.get(key) {
            Some(position) => Some(&self.entries[*position].meta),
            None => None,
        }
    }

    /// Records `meta` under `key`, in place of what was recorded there, if anything.
    ///
    /// A key that is new goes to the end of the list; one that was there keeps its
    /// position.
    pub fn insert(&mut self, key: String, meta: FileMetadata)
        requires
            old(self).wf(),
        ensures
            final(self).wf(),
            final(self)@.files == old(self)@.files.insert(key@, meta@),
            final(self)@.ignore_patterns == old(self)@.ignore_patterns,
            final(self).entry_seq() == upserted(old(self).entry_seq(), key@, meta@),
    {
        proof {
            self.lemma_index();
            self.lemma_wf();
        }
        let ghost before = self.entry_seq();
        let found = match self.index.get(key.as_str()) {
            Some(position) => Some(*position),
            None => None,
        };
        match found {
            Some(position) => {
                proof {
                    lemma_key_position(before, key@, position as int);
                }
                self.entries[position] = ManifestEntry { key, meta };
                assert(self.entry_seq() =~= before.update(position as int, (key@, meta@)));
            },
            None => {
                proof {
                    lemma_key_absent(before, key@);
                }
                let position = self.entries.len();
                self.index.insert(key.clone(), position);
                self.entries.push(ManifestEntry { key, meta });
                assert(self.entry_seq() =~= before.push((key@, meta@)));
            },
        }
        proof {
            lemma_upserted(before, key@, meta@);
        }
    }

    /// Drops the entry recorded under `key`, if there is one, and says whether there
    /// was. The last entry of the list takes the place of the one that left.
    pub fn remove(&mut self, key: &str) -> (removed: bool)
        requires
            old(self).wf(),
        ensures
            final(self).wf(),
            removed == old(self)@.files.contains_key(key@),
            final(self)@.files == old(self)@.files.remove(key@),
            final(self)@.ignore_patterns == old(self)@.ignore_patterns,
            final(self).entry_seq() == without_key(old(self).entry_seq(), key@),
    {
        proof {
            self.lemma_index();
            self.lemma_wf();
        }
        let ghost before = self.entry_seq();
        let found = match self.index.get(key) {
            Some(position) => Some(*position),
            None => None,
        };
        match found {
            Some(position) => {
                proof {
                    lemma_key_position(before, key@, position as int);
                }
                let last = self.entries.len() - 1;
                self.index.remove(key);
                let _ = self.entries.swap_remove(position);
                if position < last {
                    let moved = self.entries[position].key.clone();
                    self.index.insert(moved, position);
                }
                assert(self.entry_seq() =~= before.update(
                    position as int,
                    before.last(),
                ).drop_last());
                proof {
                    lemma_without_key(before, key@);
                }
                true
            },
            None => {
                proof {
                    lemma_key_absent(before, key@);
                    assert(self@.files.remove(key@) =~= self@.files);
                }
                false
            },
        }
    }

    /// The entry at a position of the list.
    pub fn entry_at(&self, position: usize) -> (entry: &ManifestEntry)
        requires
            position < self.entry_seq().len(),
        ensures
            (entry.key@, entry.meta@) == self.entry_seq()[position as int],
    {
        &self.entries[position]
    }
}

} // verus!
