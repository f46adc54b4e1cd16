//! The local adapter: a manifest from the entries of a walk through the source
//! directory.
//!
//! The walk itself, and the reading of each file, belong to the caller. The adapter
//! says which entries the walk may visit, which of them become manifest entries,
//! under which key, and when the scan as a whole has failed.

use crate::digest::{checksum_of, FileHasher};
use crate::manifest::{
    entries_map, has_key, lemma_insert_all, lemma_insert_all_concat, lemma_insert_one,
    lemma_last_with_key, lemma_upsert_all_push, upsert_all, EntryView, FileMetadata,
    FileMetadataView, SyncManifest, Timestamp,
};
use crate::text::{chars_of, opt_view, string_of};
use vstd::prelude::*;

verus! {

/// Whether a walk visits an entry with the given name at the given depth below the
/// root. Names that start with a dot are left out, and so is all that lies below
/// them; the root itself, at depth 0, is visited whatever its name. Nothing else
/// keeps an entry out of the walk: the name is taken as bytes, so that one that is
/// not valid text is judged by its first byte like any other.
pub open spec fn is_visited(name: Seq<u8>, depth: nat) -> bool {
    depth == 0 || !(name.len() > 0 && name[0] == 0x2e)
}

/// The position of the last occurrence of a character, or -1 if there is none.
pub open spec fn last_index_of(text: Seq<char>, c: char) -> int
    decreases text.len(),
{
    if text.len() == 0 {
        -1
    } else if text.last() == c {
        text.len() - 1
    } else {
        last_index_of(text.drop_last(), c)
    }
}

/// The last component of a path: what follows its last slash.
pub open spec fn file_name_of(path: Seq<char>) -> Seq<char> {
    path.skip(last_index_of(path, '/') + 1)
}

/// The extension of a path: what follows the last dot of its file name, where that
/// dot is not the first character of the name. Empty if there is none. A path that
/// ends in a slash has an empty file name, and so no extension.
pub open spec fn extension_of(path: Seq<char>) -> Seq<char> {
    let name = file_name_of(path);
    let dot = last_index_of(name, '.');
    if dot <= 0 {
        Seq::empty()
    } else {
        name.skip(dot + 1)
    }
}

/// The media type that `mime_guess` gives for a file extension, with
/// `application/octet-stream` standing in where it knows none.
pub uninterp spec fn guessed_media_type(extension: Seq<char>) -> Seq<char>;

/// The content type recorded for a file at the given path.
pub open spec fn content_type_for(path: Seq<char>) -> Seq<char> {
    guessed_media_type(extension_of(path))
}

/// The path with every occurrence of the separator replaced by a slash.
pub open spec fn normalized(path: Seq<char>, separator: char) -> Seq<char> {
    path.map_values(
        |c: char|
            if c == separator {
                '/'
            } else {
                c
            },
    )
}

/// The path without the slashes it starts with.
pub open spec fn without_leading_slashes(path: Seq<char>) -> Seq<char>
    decreases path.len(),
{
    if path.len() > 0 && path[0] == '/' {
        without_leading_slashes(path.drop_first())
    } else {
        path
    }
}

/// The path relative to a base directory, both written with slashes: what follows
/// the base, without leading slashes. Nothing if the path does not lie at or below
/// the base.
pub open spec fn relative_to(base: Seq<char>, path: Seq<char>) -> Option<Seq<char>> {
    if base.is_prefix_of(path) {
        let rest = path.skip(base.len() as int);
        if rest.len() == 0 || rest[0] == '/' || base.len() == 0 || base.last() == '/' {
            Some(without_leading_slashes(rest))
        } else {
            None
        }
    } else {
        None
    }
}

/// One entry that the walk came upon.
#[derive(Debug, PartialEq, Eq)]
pub enum ScanEntry {
    /// A directory. It is descended into and leaves no entry of its own.
    Directory { path: String },
    /// A regular file that was read to its end.
    File { path: String, size: u64, modified: Timestamp, checksum: String },
    /// Anything else, such as a symbolic link. It leaves no entry.
    Other { path: String },
    /// A regular file whose path is not valid text, so that it can have no key.
    /// `path` shows the path as nearly as text can.
    NotText { path: String },
    /// An entry that vanished or could not be read.
    Unreadable { path: String },
}

/// The mathematical value of a [`ScanEntry`].
pub enum ScanEntryView {
    Directory { path: Seq<char> },
    File { path: Seq<char>, size: u64, modified: Timestamp, checksum: Seq<char> },
    Other { path: Seq<char> },
    NotText { path: Seq<char> },
    Unreadable { path: Seq<char> },
}

impl View for ScanEntry {
    type V = ScanEntryView;

    open spec fn view(&self) -> ScanEntryView {
        match self {
            ScanEntry::Directory { path } => ScanEntryView::Directory { path: path@ },
            ScanEntry::File { path, size, modified, checksum } => ScanEntryView::File {
                path: path@,
                size: *size,
                modified: *modified,
                checksum: checksum@,
            },
            ScanEntry::Other { path } => ScanEntryView::Other { path: path@ },
            ScanEntry::NotText { path } => ScanEntryView::NotText { path: path@ },
            ScanEntry::Unreadable { path } => ScanEntryView::Unreadable { path: path@ },
        }
    }
}

/// Why a scan produced no manifest.
#[derive(Debug, PartialEq, Eq)]
pub enum ScanError {
    /// An entry vanished or could not be read while the scan was under way.
    Unreadable { path: String },
    /// A file was reported that does not lie below the source directory.
    OutsideBase { path: String },
    /// A file was found whose path is not valid text.
    NotText { path: String },
}

/// The mathematical value of a [`ScanError`].
pub enum ScanErrorView {
    Unreadable { path: Seq<char> },
    OutsideBase { path: Seq<char> },
    NotText { path: Seq<char> },
}

impl View for ScanError {
    type V = ScanErrorView;

    open spec fn view(&self) -> ScanErrorView {
        match self {
            ScanError::Unreadable { path } => ScanErrorView::Unreadable { path: path@ },
            ScanError::OutsideBase { path } => ScanErrorView::OutsideBase { path: path@ },
            ScanError::NotText { path } => ScanErrorView::NotText { path: path@ },
        }
    }
}

/// The views of a list of scan entries.
pub open spec fn scan_view(entries: Seq<ScanEntry>) -> Seq<ScanEntryView> {
    entries.map_values(|e: ScanEntry| e@)
}

/// The key of a file in the manifest: its path relative to the base directory,
/// written with slashes and without a leading one.
pub open spec fn relative_key_of(base: Seq<char>, separator: char, path: Seq<char>) -> Option<
    Seq<char>,
> {
    relative_to(normalized(base, separator), normalized(path, separator))
}

/// What a local scan records of a file.
pub open spec fn local_entry(
    separator: char,
    path: Seq<char>,
    size: u64,
    modified: Timestamp,
    checksum: Seq<char>,
) -> FileMetadataView {
    FileMetadataView {
        path: path,
        size: size,
        last_modified: modified,
        checksum: Some(checksum),
        etag: None,
        content_type: Some(content_type_for(normalized(path, separator))),
    }
}

/// The failure that one entry causes, if it causes one.
pub open spec fn entry_failure(base: Seq<char>, separator: char, entry: ScanEntryView) -> Option<
    ScanErrorView,
> {
    match entry {
        ScanEntryView::Unreadable { path } => Some(ScanErrorView::Unreadable { path }),
        ScanEntryView::NotText { path } => Some(ScanErrorView::NotText { path }),
        ScanEntryView::File { path, .. } => if relative_key_of(base, separator, path) is None {
            Some(ScanErrorView::OutsideBase { path })
        } else {
            None
        },
        _ => None,
    }
}

/// The first failure among the entries, in the order of the walk.
pub open spec fn scan_failure(
    base: Seq<char>,
    separator: char,
    entries: Seq<ScanEntryView>,
) -> Option<ScanErrorView>
    decreases entries.len(),
{
    if entries.len() == 0 {
        None
    } else if scan_failure(base, separator, entries.drop_last()) is Some {
        scan_failure(base, separator, entries.drop_last())
    } else {
        entry_failure(base, separator, entries.last())
    }
}

/// The manifest entries that one scan entry gives: one for a file below the base,
/// none for anything else.
pub open spec fn entry_records(
    base: Seq<char>,
    separator: char,
    entry: ScanEntryView,
) -> Seq<EntryView> {
    match entry {
        ScanEntryView::File { path, size, modified, checksum } => match relative_key_of(
            base,
            separator,
            path,
        ) {
            Some(key) => seq![(key, local_entry(separator, path, size, modified, checksum))],
            None => Seq::empty(),
        },
        _ => Seq::empty(),
    }
}

/// The manifest entries of a scan, in the order of the walk.
pub open spec fn scan_records(
    base: Seq<char>,
    separator: char,
    entries: Seq<ScanEntryView>,
) -> Seq<EntryView>
    decreases entries.len(),
{
    if entries.len() == 0 {
        Seq::empty()
    } else {
        scan_records(base, separator, entries.drop_last()) + entry_records(
            base,
            separator,
            entries.last(),
        )
    }
}

/// Calls `mime_guess::from_ext`, takes the first guess with
/// `first_or_octet_stream`, and writes it out: the media type for an extension.
#[verifier::external_body]
fn guess_media_type(extension: &str) -> (media_type: String)
    ensures
        media_type@ == guessed_media_type(extension@),
{
    mime_guess::from_ext(extension).first_or_octet_stream().to_string()
}

/// The position of the last occurrence of `c` at or behind `start`, if there is one.
fn find_last(chars: &Vec<char>, start: usize, c: char) -> (found: Option<usize>)
    requires
        start <= chars@.len(),
    ensures
        match found {
            Some(position) => start <= position < chars@.len() && position - start
                == last_index_of(chars@.skip(start as int), c),
            None => last_index_of(chars@.skip(start as int), c) == -1,
        },
        chars@.len() <= usize::MAX,
{
    let ghost tail = chars@.skip(start as int);
    let mut i: usize = chars.len();
    assert(tail.take(i - start) =~= tail);
    while i > start
        invariant
            start <= i <= chars@.len(),
            chars@.len() <= usize::MAX,
            tail == chars@.skip(start as int),
            last_index_of(tail, c) == last_index_of(tail.take(i - start), c),
        decreases i,
    {
        let ghost front = tail.take(i - start);
        assert(front.last() == chars@[i - 1]);
        if chars[i - 1] == c {
            return Some(i - 1);
        }
        assert(front.drop_last() =~= tail.take(i - 1 - start));
        i = i - 1;
    }
    assert(tail.take(0).len() == 0);
    None
}

/// The characters from a position to the end, as a string.
fn tail_string(chars: &Vec<char>, start: usize) -> (tail: String)
    requires
        start <= chars@.len(),
    ensures
        tail@ == chars@.skip(start as int),
{
    let mut part: Vec<char> = Vec::new();
    let mut i: usize = start;
    while i < chars.len()
        invariant
            start <= i <= chars@.len(),
            part@ == chars@.subrange(start as int, i as int),
        decreases chars@.len() - i,
    {
        part.push(chars[i]);
        let ghost copied = chars@.subrange(start as int, i as int);
        assert(chars@.subrange(start as int, i + 1) =~= copied.push(chars@[i as int]));
        i = i + 1;
    }
    assert(chars@.subrange(start as int, i as int) =~= chars@.skip(start as int));
    string_of(&part)
}

/// The extension of a path given by its characters.
fn extension(path: &Vec<char>) -> (ext: String)
    ensures
        ext@ == extension_of(path@),
{
    let name_start = match find_last(path, 0, '/') {
        Some(slash) => slash + 1,
        None => 0,
    };
    assert(path@.skip(0) =~= path@);
    match find_last(path, name_start, '.') {
        Some(dot) => {
            if dot > name_start {
                assert(path@.skip(name_start as int).skip(dot - name_start + 1) =~= path@.skip(
                    dot + 1,
                ));
                tail_string(path, dot + 1)
            } else {
                String::new()
            }
        },
        None => String::new(),
    }
}

/// The characters of a path with the separator replaced by a slash.
fn normalize(path: &str, separator: char) -> (chars: Vec<char>)
    ensures
        chars@ == normalized(path@, separator),
{
    let raw = chars_of(path);
    let mut chars: Vec<char> = Vec::new();
    let mut i: usize = 0;
    while i < raw.len()
        invariant
            i <= raw@.len(),
            raw@ == path@,
            chars@ == normalized(path@, separator).take(i as int),
        decreases raw@.len() - i,
    {
        let c = if raw[i] == separator {
            '/'
        } else {
            raw[i]
        };
        chars.push(c);
        assert(normalized(path@, separator).take(i + 1) =~= normalized(path@, separator).take(
            i as int,
        ).push(c));
        i = i + 1;
    }
    assert(normalized(path@, separator).take(i as int) =~= normalized(path@, separator));
    chars
}

/// The path relative to the base, both given by their characters.
fn relative(base: &Vec<char>, path: &Vec<char>) -> (key: Option<String>)
    ensures
        opt_view(key) == relative_to(base@, path@),
{
    if base.len() > path.len() {
        return None;
    }
    let mut i: usize = 0;
    while i < base.len()
        invariant
            i <= base@.len() <= path@.len(),
            base@.take(i as int) == path@.take(i as int),
        decreases base@.len() - i,
    {
        if base[i] != path[i] {
            assert(!base@.is_prefix_of(path@)) by {
                if base@.is_prefix_of(path@) {
                    assert(base@[i as int] == path@.subrange(0, base@.len() as int)[i as int]);
                }
            }
            return None;
        }
        assert(base@.take(i + 1) =~= base@.take(i as int).push(base@[i as int]));
        assert(path@.take(i + 1) =~= path@.take(i as int).push(path@[i as int]));
        i = i + 1;
    }
    assert(base@.is_prefix_of(path@)) by {
        assert(base@.take(i as int) =~= base@);
        assert(path@.take(i as int) =~= path@.subrange(0, base@.len() as int));
    }
    let mut start: usize = base.len();
    let ghost rest = path@.skip(base@.len() as int);
    if !(start == path.len() || path[start] == '/' || base.len() == 0 || base[base.len() - 1]
        == '/') {
        return None;
    }
    assert(path@.skip(start as int) =~= rest);
    while start < path.len() && path[start] == '/'
        invariant
            base@.len() <= start <= path@.len(),
            without_leading_slashes(rest) == without_leading_slashes(path@.skip(start as int)),
        decreases path@.len() - start,
    {
        assert(path@.skip(start as int).drop_first() =~= path@.skip(start + 1));
        start = start + 1;
    }
    Some(tail_string(path, start))
}

/// The local adapter for one source directory.
pub struct FSDriver {
    base_directory: String,
    separator: char,
}

impl FSDriver {
    /// The directory that is scanned.
    pub closed spec fn base(&self) -> Seq<char> {
        self.base_directory@
    }

    /// The character that separates the components of the paths handed in.
    pub closed spec fn path_separator(&self) -> char {
        self.separator
    }

    /// An adapter for the given source directory, whose paths are written with
    /// slashes.
    pub fn new(base_directory: String) -> (driver: FSDriver)
        ensures
            driver.base() == base_directory@,
            driver.path_separator() == '/',
    {
        FSDriver { base_directory: base_directory, separator: '/' }
    }

    /// The same adapter for paths whose components are separated by `separator`.
    /// Keys are written with slashes all the same.
    pub fn with_separator(self, separator: char) -> (driver: FSDriver)
        ensures
            driver.base() == self.base(),
            driver.path_separator() == separator,
    {
        FSDriver { base_directory: self.base_directory, separator }
    }

    /// The directory that is scanned.
    pub fn base_directory(&self) -> (base: &String)
        ensures
            base@ == self.base(),
    {
        &self.base_directory
    }

    /// Whether the walk visits an entry with the given name, taken as bytes. Where
    /// this says no for a directory, the walk does not descend into it.
    pub fn is_not_ignored_file(name: &[u8], depth: usize) -> (visited: bool)
        ensures
            visited == is_visited(name@, depth as nat),
    {
        depth == 0 || !(name.len() > 0 && name[0] == 0x2e)
    }

    /// The checksum of a file whose whole content is at hand. For a file that is
    /// read in chunks, use a [`FileHasher`].
    pub fn local_file_hash(content: &[u8]) -> (checksum: String)
        ensures
            checksum@ == checksum_of(content@),
            checksum@.len() == 64,
    {
        let mut hasher = FileHasher::new();
        hasher.update(content);
        assert(Seq::<u8>::empty() + content@ =~= content@);
        hasher.finish()
    }

    /// The content type recorded for a file at the given path, which is written
    /// with slashes. Only the extension of the file name counts.
    pub fn content_type(path: &str) -> (media_type: String)
        ensures
            media_type@ == content_type_for(path@),
    {
        let chars = chars_of(path);
        let ext = extension(&chars);
        guess_media_type(ext.as_str())
    }

    /// The manifest key of a file at the given path, if it lies below the source
    /// directory.
    pub fn relative_key(&self, path: &str) -> (key: Option<String>)
        ensures
            opt_view(key) == relative_key_of(
                self.base(),
                self.path_separator(),
                path@,
            ),
    {
        let base = normalize(self.base_directory.as_str(), self.separator);
        let full = normalize(path, self.separator);
        relative(&base, &full)
    }

    /// The local manifest from the entries of a finished walk.
    ///
    /// Every regular file becomes an entry under its relative key, with its
    /// checksum and its content type; directories and other entries leave none. If
    /// any entry was unreadable, a file has a path that is not valid text, or a file
    /// lies outside the source directory, there is no manifest at all: a partial one
    /// would make files look deleted.
    pub fn build_manifest(&self, entries: &Vec<ScanEntry>) -> (scanned: Result<
        SyncManifest,
        ScanError,
    >)
        ensures
            match scanned {
                Ok(manifest) => {
                    &&& scan_failure(self.base(), self.path_separator(), scan_view(entries@))
                        is None
                    &&& manifest.wf()
                    &&& manifest@.files == entries_map(
                        scan_records(self.base(), self.path_separator(), scan_view(entries@)),
                    )
                    &&& manifest.entry_seq() == upsert_all(
                        Seq::empty(),
                        scan_records(self.base(), self.path_separator(), scan_view(entries@)),
                    )
                    &&& manifest@.ignore_patterns == Seq::<Seq<char>>::empty()
                },
                Err(error) => scan_failure(
                    self.base(),
                    self.path_separator(),
                    scan_view(entries@),
                ) == Some(error@),
            },
    {
        let base = normalize(self.base_directory.as_str(), self.separator);
        let mut manifest = SyncManifest::new();
        let ghost all = scan_view(entries@);
        let mut i: usize = 0;
        assert(scan_records(self.base(), self.path_separator(), all.take(0)) =~= Seq::empty());
        while i < entries.len()
            invariant
                i <= entries@.len(),
                all == scan_view(entries@),
                base@ == normalized(self.base(), self.path_separator()),
                manifest.wf(),
                scan_failure(self.base(), self.path_separator(), all.take(i as int)) is None,
                manifest@.files == entries_map(
                    scan_records(self.base(), self.path_separator(), all.take(i as int)),
                ),
                manifest.entry_seq() == upsert_all(
                    Seq::empty(),
                    scan_records(self.base(), self.path_separator(), all.take(i as int)),
                ),
                manifest@.ignore_patterns == Seq::<Seq<char>>::empty(),
            decreases entries@.len() - i,
        {
            let ghost before = scan_records(self.base(), self.path_separator(), all.take(i as int));
            proof {
                assert(all.take(i + 1).drop_last() =~= all.take(i as int));
                assert(all.take(i + 1).last() == entries@[i as int]@);
                lemma_insert_all_concat(
                    Map::empty(),
                    before,
                    entry_records(self.base(), self.path_separator(), entries@[i as int]@),
                );
            }
            match &entries[i] {
                ScanEntry::Unreadable { path } => {
                    proof {
                        lemma_first_failure(self.base(), self.path_separator(), all, i as int);
                    }
                    return Err(ScanError::Unreadable { path: path.clone() });
                },
                ScanEntry::NotText { path } => {
                    proof {
                        lemma_first_failure(self.base(), self.path_separator(), all, i as int);
                    }
                    return Err(ScanError::NotText { path: path.clone() });
                },
                ScanEntry::File { path, size, modified, checksum } => {
                    let full = normalize(path.as_str(), self.separator);
                    match relative(&base, &full) {
                        Some(key) => {
                            let ext = extension(&full);
                            let meta = FileMetadata {
                                path: path.clone(),
                                size: *size,
                                last_modified: *modified,
                                checksum: Some(checksum.clone()),
                                etag: None,
                                content_type: Some(guess_media_type(ext.as_str())),
                            };
                            proof {
                                let record = (key@, meta@);
                                assert(entry_records(
                                    self.base(),
                                    self.path_separator(),
                                    entries@[i as int]@,
                                ) =~= seq![record]);
                                lemma_insert_one(entries_map(before), record.0, record.1);
                                lemma_upsert_all_push(Seq::empty(), before, record.0, record.1);
                                assert(before + seq![record] =~= before.push(record));
                            }
                            manifest.insert(key, meta);
                        },
                        None => {
                            proof {
                                lemma_first_failure(
                                    self.base(),
                                    self.path_separator(),
                                    all,
                                    i as int,
                                );
                            }
                            return Err(ScanError::OutsideBase { path: path.clone() });
                        },
                    }
                },
                _ => {
                    assert(before + Seq::empty() =~= before);
                },
            }
            i = i + 1;
        }
        assert(all.take(i as int) =~= all);
        Ok(manifest)
    }
}

/// Once a prefix of the entries has failed, the scan has failed in the same way.
proof fn lemma_first_failure(
    base: Seq<char>,
    separator: char,
    entries: Seq<ScanEntryView>,
    position: int,
)
    requires
        0 <= position < entries.len(),
        scan_failure(base, separator, entries.take(position)) is None,
        entry_failure(base, separator, entries[position]) is Some,
    ensures
        scan_failure(base, separator, entries) == entry_failure(base, separator, entries[position]),
    decreases entries.len(),
{
    if position == entries.len() - 1 {
        assert(entries.drop_last() =~= entries.take(position));
    } else {
        assert(entries.drop_last().take(position) =~= entries.take(position));
        lemma_first_failure(base, separator, entries.drop_last(), position);
    }
}

/// Every record of a scan carries a checksum and a content type, and no etag.
proof fn lemma_scan_records(base: Seq<char>, separator: char, entries: Seq<ScanEntryView>)
    ensures
        forall|i: int|
            0 <= i < scan_records(base, separator, entries).len() ==> {
                let record = (#[trigger] scan_records(base, separator, entries)[i]).1;
                record.checksum is Some && record.etag is None && record.content_type is Some
            },
    decreases entries.len(),
{
    if entries.len() > 0 {
        let front = scan_records(base, separator, entries.drop_last());
        let all = scan_records(base, separator, entries);
        lemma_scan_records(base, separator, entries.drop_last());
        assert forall|i: int| 0 <= i < all.len() implies {
            let record = (#[trigger] all[i]).1;
            record.checksum is Some && record.etag is None && record.content_type is Some
        } by {
            if i < front.len() {
                assert(all[i] == front[i]);
            }
        }
    }
}

/// Every entry of a local manifest carries a checksum and a content type, and no
/// etag; so none of them is meaningless.
pub proof fn lemma_local_entries_carry_checksum(
    base: Seq<char>,
    separator: char,
    entries: Seq<ScanEntryView>,
)
    ensures
        forall|key: Seq<char>|
            #![trigger entries_map(scan_records(base, separator, entries))[key]]
            entries_map(scan_records(base, separator, entries)).contains_key(key) ==> {
                let record = entries_map(scan_records(base, separator, entries))[key];
                &&& record.checksum is Some
                &&& record.etag is None
                &&& record.content_type is Some
                &&& record.is_meaningful()
            },
{
    let records = scan_records(base, separator, entries);
    let files = entries_map(records);
    lemma_scan_records(base, separator, entries);
    lemma_insert_all(Map::empty(), records);
    assert forall|key: Seq<char>| #![trigger files[key]] files.contains_key(key) implies {
        &&& files[key].checksum is Some
        &&& files[key].etag is None
        &&& files[key].content_type is Some
        &&& files[key].is_meaningful()
    } by {
        assert(has_key(records, key));
        lemma_last_with_key(records, key);
        let j = choose|j: int|
            0 <= j < records.len() && (#[trigger] records[j]).0 == key && forall|l: int|
                j < l < records.len() ==> (#[trigger] records[l]).0 != key;
        assert(files[records[j].0] == records[j].1);
    }
}

} // verus!
