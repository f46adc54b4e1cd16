//! The text format in which a manifest is stored.
//!
//! A manifest is written as one line of text without blanks, in the notation of
//! JSON, and encoded in UTF-8. The reader accepts blanks between the items and
//! expects the members in the order in which the writer puts them. Reading what
//! was written gives the manifest back.

pub mod document;
pub mod scalars;

use crate::format::document::{
    lemma_read_document, manifest_text, parse_document, read_document, read_manifest,
    write_document,
};
use crate::manifest::{
    all_valid, lemma_upsert_all_distinct, upsert_all, EntryView, FileMetadataView, ManifestView,
    SyncManifest,
};
use crate::text::{decode_text, string_of};
use vstd::prelude::*;
use vstd::slice::slice_to_vec;
use vstd::utf8::{
    decode_utf8, encode_utf8, encode_utf8_decode_utf8, encode_utf8_valid_utf8, valid_utf8,
};

verus! {

/// Why a manifest could not be read or written.
#[derive(Clone, Copy, Debug, PartialEq, Eq, Structural)]
pub enum ManifestError {
    /// The bytes are not well-formed UTF-8.
    NotUtf8,
    /// The text is not a manifest in the stored format.
    Malformed,
    /// An entry has a timestamp whose nanoseconds reach a full second.
    InvalidTimestamp,
}

/// What reading a stored manifest gives.
pub open spec fn parse_manifest(bytes: Seq<u8>) -> Result<ManifestView, ManifestError> {
    if !valid_utf8(bytes) {
        Err(ManifestError::NotUtf8)
    } else {
        match read_manifest(decode_utf8(bytes)) {
            Some(manifest) => Ok(manifest),
            None => Err(ManifestError::Malformed),
        }
    }
}

/// The entries of a manifest that was read, in their order: those of the stored
/// form in the order in which they stand there, each key at the place where it
/// stands first.
pub open spec fn stored_entries(bytes: Seq<u8>) -> Seq<EntryView> {
    upsert_all(Seq::empty(), read_document(decode_utf8(bytes)).unwrap().0)
}

/// The bytes that store a manifest with the given entries and ignore patterns.
pub open spec fn serialized(
    entries: Seq<EntryView>,
    patterns: Seq<Seq<char>>,
) -> Seq<u8> {
    encode_utf8(manifest_text(entries, patterns))
}

impl SyncManifest {
    /// Every entry has a valid timestamp, so the manifest can be stored.
    pub open spec fn is_storable(&self) -> bool {
        all_valid(self.entry_seq())
    }

    /// Whether every entry has a valid timestamp.
    pub fn check_storable(&self) -> (storable: bool)
        requires
            self.wf(),
        ensures
            storable == self.is_storable(),
    {
        let count = self.len();
        let mut i: usize = 0;
        while i < count
            invariant
                self.wf(),
                i <= count,
                count == self.entry_seq().len(),
                all_valid(self.entry_seq().take(i as int)),
            decreases count - i,
        {
            let entry = self.entry_at(i);
            if entry.meta.last_modified.nanos >= 1_000_000_000 {
                assert(!self.entry_seq()[i as int].1.is_valid());
                return false;
            }
            assert(all_valid(self.entry_seq().take(i + 1))) by {
                assert forall|k: int| 0 <= k < i + 1 implies (#[trigger] self.entry_seq().take(
                    i + 1,
                )[k]).1.is_valid() by {
                    if k < i {
                        assert(self.entry_seq().take(i as int)[k].1.is_valid());
                    }
                }
            }
            i = i + 1;
        }
        assert(self.entry_seq().take(i as int) =~= self.entry_seq());
        true
    }

    /// Reads a manifest from the bytes of its stored form. What was read can be
    /// stored again.
    pub fn from_reader(reader: &[u8]) -> (parsed: Result<SyncManifest, ManifestError>)
        ensures
            match parsed {
                Ok(manifest) => {
                    &&& manifest.wf()
                    &&& manifest.is_storable()
                    &&& parse_manifest(reader@) == Ok::<ManifestView, ManifestError>(manifest@)
                    &&& manifest.entry_seq() == stored_entries(reader@)
                },
                Err(error) => parse_manifest(reader@) == Err::<ManifestView, ManifestError>(error),
            },
    {
        match decode_text(reader) {
            Some(chars) => match parse_document(&chars) {
                Some(manifest) => Ok(manifest),
                None => Err(ManifestError::Malformed),
            },
            None => Err(ManifestError::NotUtf8),
        }
    }

    /// The stored form of the manifest, as text. It fails only where an entry has an
    /// invalid timestamp.
    pub fn to_string(&self) -> (written: Result<String, ManifestError>)
        requires
            self.wf(),
        ensures
            match written {
                Ok(text) => self.is_storable() && text@ == manifest_text(
                    self.entry_seq(),
                    self@.ignore_patterns,
                ),
                Err(error) => !self.is_storable() && error == ManifestError::InvalidTimestamp,
            },
    {
        if !self.check_storable() {
            return Err(ManifestError::InvalidTimestamp);
        }
        let chars = write_document(self);
        Ok(string_of(&chars))
    }

    /// The stored form of the manifest, as bytes. It fails only where an entry has an
    /// invalid timestamp.
    pub fn to_vec(&self) -> (written: Result<Vec<u8>, ManifestError>)
        requires
            self.wf(),
        ensures
            match written {
                Ok(bytes) => self.is_storable() && bytes@ == serialized(
                    self.entry_seq(),
                    self@.ignore_patterns,
                ),
                Err(error) => !self.is_storable() && error == ManifestError::InvalidTimestamp,
            },
    {
        match self.to_string() {
            Ok(text) => Ok(slice_to_vec(text.as_str().as_bytes())),
            Err(error) => Err(error),
        }
    }
}

/// Reading the stored form of a manifest gives the manifest back, whatever its
/// entries hold, absent values included, as long as it can be stored: the same
/// files, the same ignore patterns, and the entries in the same order.
pub proof fn lemma_round_trip(manifest: SyncManifest)
    requires
        manifest.wf(),
        manifest.is_storable(),
    ensures
        parse_manifest(serialized(manifest.entry_seq(), manifest@.ignore_patterns)) == Ok::<
            ManifestView,
            ManifestError,
        >(manifest@),
        stored_entries(serialized(manifest.entry_seq(), manifest@.ignore_patterns))
            == manifest.entry_seq(),
{
    let text = manifest_text(manifest.entry_seq(), manifest@.ignore_patterns);
    encode_utf8_valid_utf8(text);
    encode_utf8_decode_utf8(text);
    lemma_read_document(manifest.entry_seq(), manifest@.ignore_patterns);
    manifest.lemma_wf();
    lemma_upsert_all_distinct(manifest.entry_seq());
    assert(manifest@ == ManifestView {
        files: manifest@.files,
        ignore_patterns: manifest@.ignore_patterns,
    });
}

} // verus!
