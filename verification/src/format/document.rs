//! The structure of a stored manifest: the record of one file, the list of entries,
//! the list of ignore patterns, and the document that holds both.
//!
//! The document is an object with the two members `files` and `ignore_patterns`,
//! in this order. `files` is an object with one member per entry, named by the
//! key of the entry. The record of a file is an object with the members `path`,
//! `size`, `last_modified`, `checksum`, `etag` and `content_type`, in this order;
//! an absent checksum, etag or content type is written as `null`.

use crate::format::scalars::{
    decimal, is_digit, lemma_name_token, lemma_read_string, lemma_read_timestamp,
    lemma_read_u64, lemma_stands_at_concat, lemma_token, name_token, parse_string,
    parse_timestamp, parse_u64, position_read, quoted, quoted_name, read_string, read_timestamp,
    read_u64, skip_blanks, skip_spaces, stands_at, take_name, take_token, timestamp_text, token,
    write_name, write_string, write_timestamp, write_u64,
};
use crate::manifest::{
    all_valid, insert_all, lemma_upserted_valid, upsert_all, EntryView, FileMetadata,
    FileMetadataView, ManifestView, SyncManifest, Timestamp,
};
use crate::text::{opt_view, strings_view};
use vstd::prelude::*;

verus! {

/// The position that a reader gave, without the item.
pub open spec fn next_of<T>(read: Option<(T, int)>) -> Option<int> {
    match read {
        Some((_, end)) => Some(end),
        None => None,
    }
}

/// How an absent value is written.
pub open spec fn null_text() -> Seq<char> {
    seq!['n', 'u', 'l', 'l']
}

/// Reads the start of a member: a comma unless the member is the first, the name
/// between double quotes, and a colon.
pub open spec fn member_start(
    s: Seq<char>,
    at: Option<int>,
    first: bool,
    name: Seq<char>,
) -> Option<int> {
    match at {
        Some(i) => {
            let after_comma = if first {
                Some(i)
            } else {
                token(s, i, ',')
            };
            match after_comma {
                Some(j) => match name_token(s, j, name) {
                    Some(k) => token(s, k, ':'),
                    None => None,
                },
                None => None,
            }
        },
        None => None,
    }
}

/// Reads a member whose value is a string.
pub open spec fn string_member(
    s: Seq<char>,
    at: Option<int>,
    first: bool,
    name: Seq<char>,
) -> Option<(Seq<char>, int)> {
    match member_start(s, at, first, name) {
        Some(i) => read_string(s, i),
        None => None,
    }
}

/// Reads a member whose value is an unsigned integer.
pub open spec fn u64_member(
    s: Seq<char>,
    at: Option<int>,
    first: bool,
    name: Seq<char>,
) -> Option<(u64, int)> {
    match member_start(s, at, first, name) {
        Some(i) => read_u64(s, i),
        None => None,
    }
}

/// Reads a member whose value is a timestamp.
pub open spec fn timestamp_member(
    s: Seq<char>,
    at: Option<int>,
    first: bool,
    name: Seq<char>,
) -> Option<(Timestamp, int)> {
    match member_start(s, at, first, name) {
        Some(i) => read_timestamp(s, i),
        None => None,
    }
}

/// Reads a string or `null`, after any blanks.
pub open spec fn read_optional(s: Seq<char>, i: int) -> Option<(Option<Seq<char>>, int)> {
    let j = skip_spaces(s, i);
    if stands_at(s, j, null_text()) {
        Some((None, j + 4))
    } else {
        match read_string(s, i) {
            Some((text, end)) => Some((Some(text), end)),
            None => None,
        }
    }
}

/// Reads a member whose value is a string or `null`.
pub open spec fn optional_member(
    s: Seq<char>,
    at: Option<int>,
    first: bool,
    name: Seq<char>,
) -> Option<(Option<Seq<char>>, int)> {
    match member_start(s, at, first, name) {
        Some(i) => read_optional(s, i),
        None => None,
    }
}

/// Reads the record of one file.
#[verifier::opaque]
pub open spec fn read_metadata(s: Seq<char>, i: int) -> Option<(FileMetadataView, int)> {
    let path = string_member(s, token(s, i, '{'), true, "path"@);
    let size = u64_member(s, next_of(path), false, "size"@);
    let modified = timestamp_member(s, next_of(size), false, "last_modified"@);
    let checksum = optional_member(s, next_of(modified), false, "checksum"@);
    let etag = optional_member(s, next_of(checksum), false, "etag"@);
    let content_type = optional_member(s, next_of(etag), false, "content_type"@);
    match content_type {
        Some((_, j)) => match token(s, j, '}') {
            Some(end) => Some(
                (
                    FileMetadataView {
                        path: path.unwrap().0,
                        size: size.unwrap().0,
                        last_modified: modified.unwrap().0,
                        checksum: checksum.unwrap().0,
                        etag: etag.unwrap().0,
                        content_type: content_type.unwrap().0,
                    },
                    end,
                ),
            ),
            None => None,
        },
        None => None,
    }
}

/// Reads one entry: the key, a colon, and the record.
pub open spec fn read_entry(s: Seq<char>, i: int) -> Option<(EntryView, int)> {
    match read_string(s, i) {
        Some((key, j)) => match token(s, j, ':') {
            Some(k) => match read_metadata(s, k) {
                Some((meta, end)) => Some(((key, meta), end)),
                None => None,
            },
            None => None,
        },
        None => None,
    }
}

/// Items put in front of what a reader of a list gave.
pub open spec fn prepend_items<T>(front: Seq<T>, read: Option<(Seq<T>, int)>) -> Option<
    (Seq<T>, int),
> {
    match read {
        Some((items, end)) => Some((front + items, end)),
        None => None,
    }
}

/// Reads entries separated by commas, up to the closing brace. At least one entry
/// is there.
pub open spec fn read_entries_tail(s: Seq<char>, i: int) -> Option<(Seq<EntryView>, int)>
    decreases s.len() - i,
{
    match read_entry(s, i) {
        Some((entry, j)) => match token(s, j, '}') {
            Some(end) => Some((seq![entry], end)),
            None => match token(s, j, ',') {
                Some(k) => if i < k <= s.len() {
                    prepend_items(seq![entry], read_entries_tail(s, k))
                } else {
                    None
                },
                None => None,
            },
        },
        None => None,
    }
}

/// Reads the members of the `files` object behind its opening brace.
pub open spec fn read_entries(s: Seq<char>, i: int) -> Option<(Seq<EntryView>, int)> {
    match token(s, i, '}') {
        Some(end) => Some((Seq::empty(), end)),
        None => read_entries_tail(s, i),
    }
}

/// Reads strings separated by commas, up to the closing bracket. At least one
/// string is there.
pub open spec fn read_patterns_tail(s: Seq<char>, i: int) -> Option<(Seq<Seq<char>>, int)>
    decreases s.len() - i,
{
    match read_string(s, i) {
        Some((pattern, j)) => match token(s, j, ']') {
            Some(end) => Some((seq![pattern], end)),
            None => match token(s, j, ',') {
                Some(k) => if i < k <= s.len() {
                    prepend_items(seq![pattern], read_patterns_tail(s, k))
                } else {
                    None
                },
                None => None,
            },
        },
        None => None,
    }
}

/// Reads the items of the `ignore_patterns` list behind its opening bracket.
pub open spec fn read_patterns(s: Seq<char>, i: int) -> Option<(Seq<Seq<char>>, int)> {
    match token(s, i, ']') {
        Some(end) => Some((Seq::empty(), end)),
        None => read_patterns_tail(s, i),
    }
}

/// Reads a whole document: the entries and the ignore patterns, each in the order
/// in which they stand. Nothing but blanks may follow the document.
pub open spec fn read_document(s: Seq<char>) -> Option<(Seq<EntryView>, Seq<Seq<char>>)> {
    let files_start = match member_start(s, token(s, 0, '{'), true, "files"@) {
        Some(i) => token(s, i, '{'),
        None => None,
    };
    let entries = match files_start {
        Some(i) => read_entries(s, i),
        None => None,
    };
    let patterns_start = match member_start(s, next_of(entries), false, "ignore_patterns"@) {
        Some(i) => token(s, i, '['),
        None => None,
    };
    let patterns = match patterns_start {
        Some(i) => read_patterns(s, i),
        None => None,
    };
    match patterns {
        Some((_, j)) => match token(s, j, '}') {
            Some(end) => if skip_spaces(s, end) == s.len() {
                Some((entries.unwrap().0, patterns.unwrap().0))
            } else {
                None
            },
            None => None,
        },
        None => None,
    }
}

/// The manifest that a document stands for: each entry is inserted in turn, so that
/// of two entries with the same key the later one counts.
pub open spec fn read_manifest(s: Seq<char>) -> Option<ManifestView> {
    match read_document(s) {
        Some((entries, patterns)) => Some(
            ManifestView { files: insert_all(Map::empty(), entries), ignore_patterns: patterns },
        ),
        None => None,
    }
}

/// How a member is written: a comma unless it is the first, the name between
/// double quotes, a colon, and the value.
#[verifier::opaque]
pub open spec fn member_text(first: bool, name: Seq<char>, value: Seq<char>) -> Seq<char> {
    let body = quoted_name(name) + (seq![':'] + value);
    if first {
        body
    } else {
        seq![','] + body
    }
}

/// How an optional string is written.
pub open spec fn optional_text(value: Option<Seq<char>>) -> Seq<char> {
    match value {
        Some(text) => quoted(text),
        None => null_text(),
    }
}

/// How the record of one file is written.
#[verifier::opaque]
pub open spec fn metadata_text(meta: FileMetadataView) -> Seq<char> {
    seq!['{'] + (member_text(true, "path"@, quoted(meta.path)) + (member_text(
        false,
        "size"@,
        decimal(meta.size as nat),
    ) + (member_text(false, "last_modified"@, timestamp_text(meta.last_modified)) + (member_text(
        false,
        "checksum"@,
        optional_text(meta.checksum),
    ) + (member_text(false, "etag"@, optional_text(meta.etag)) + (member_text(
        false,
        "content_type"@,
        optional_text(meta.content_type),
    ) + seq!['}']))))))
}

/// How one entry is written.
pub open spec fn entry_text(entry: EntryView) -> Seq<char> {
    quoted(entry.0) + (seq![':'] + metadata_text(entry.1))
}

/// Texts written one behind the other, with a comma between each two.
pub open spec fn joined(items: Seq<Seq<char>>) -> Seq<char>
    decreases items.len(),
{
    if items.len() == 0 {
        Seq::empty()
    } else if items.len() == 1 {
        items[0]
    } else {
        items[0] + (seq![','] + joined(items.drop_first()))
    }
}

/// How the entries are written.
pub open spec fn entries_text(entries: Seq<EntryView>) -> Seq<char> {
    joined(entries.map_values(|e: EntryView| entry_text(e)))
}

/// How the ignore patterns are written.
pub open spec fn patterns_text(patterns: Seq<Seq<char>>) -> Seq<char> {
    joined(patterns.map_values(|p: Seq<char>| quoted(p)))
}

/// How a manifest is written: its entries in their order, then its ignore
/// patterns, without any blanks.
pub open spec fn manifest_text(
    entries: Seq<EntryView>,
    patterns: Seq<Seq<char>>,
) -> Seq<char> {
    seq!['{'] + (member_text(true, "files"@, seq!['{'] + (entries_text(entries) + seq!['}']))
        + (member_text(false, "ignore_patterns"@, seq!['['] + (patterns_text(patterns) + seq![']']))
        + seq!['}']))
}

/// Where two texts stand in front of a third, the first stands alone and the other
/// two stand behind it.
pub proof fn lemma_stands_at_front(
    s: Seq<char>,
    i: int,
    a: Seq<char>,
    b: Seq<char>,
    rest: Seq<char>,
)
    requires
        stands_at(s, i, (a + b) + rest),
    ensures
        stands_at(s, i, a),
        stands_at(s, i + a.len(), b + rest),
{
    assert((a + b) + rest =~= a + (b + rest));
    lemma_stands_at_concat(s, i, a, b + rest);
}

/// A written member start is read back.
proof fn lemma_member_start(
    s: Seq<char>,
    i: int,
    first: bool,
    name: Seq<char>,
    value: Seq<char>,
    rest: Seq<char>,
)
    requires
        stands_at(s, i, member_text(first, name, value) + rest),
    ensures
        member_start(s, Some(i), first, name) == Some(
            i + member_text(first, name, value).len() - value.len(),
        ),
        stands_at(s, i + member_text(first, name, value).len() - value.len(), value + rest),
{
    reveal(member_text);
    let body = quoted_name(name) + (seq![':'] + value);
    let start = if first {
        i
    } else {
        i + 1
    };
    if !first {
        assert((seq![','] + body) + rest =~= seq![','] + (body + rest));
        lemma_token(s, i, ',', body + rest);
    }
    assert(stands_at(s, start, body + rest));
    lemma_stands_at_front(s, start, quoted_name(name), seq![':'] + value, rest);
    assert(quoted_name(name) + ((seq![':'] + value) + rest) =~= body + rest);
    lemma_name_token(s, start, name, (seq![':'] + value) + rest);
    assert((seq![':'] + value) + rest =~= seq![':'] + (value + rest));
    lemma_token(s, start + name.len() + 2, ':', value + rest);
}

/// A member that is not the first starts with a comma.
proof fn lemma_comma_first(name: Seq<char>, value: Seq<char>, rest: Seq<char>)
    ensures
        (member_text(false, name, value) + rest).len() > 0,
        (member_text(false, name, value) + rest)[0] == ',',
{
    reveal(member_text);
}

/// A written string member is read back.
proof fn lemma_string_member(
    s: Seq<char>,
    i: int,
    first: bool,
    name: Seq<char>,
    value: Seq<char>,
    rest: Seq<char>,
)
    requires
        stands_at(s, i, member_text(first, name, quoted(value)) + rest),
    ensures
        string_member(s, Some(i), first, name) == Some(
            (value, i + member_text(first, name, quoted(value)).len()),
        ),
        stands_at(s, i + member_text(first, name, quoted(value)).len(), rest),
{
    lemma_member_start(s, i, first, name, quoted(value), rest);
    let start = i + member_text(first, name, quoted(value)).len() - quoted(value).len();
    lemma_read_string(s, start, value, rest);
}

/// A written integer member is read back, provided that no digit follows it.
proof fn lemma_u64_member(
    s: Seq<char>,
    i: int,
    first: bool,
    name: Seq<char>,
    value: u64,
    rest: Seq<char>,
)
    requires
        stands_at(s, i, member_text(first, name, decimal(value as nat)) + rest),
        rest.len() > 0,
        !is_digit(rest[0]),
    ensures
        u64_member(s, Some(i), first, name) == Some(
            (value, i + member_text(first, name, decimal(value as nat)).len()),
        ),
        stands_at(s, i + member_text(first, name, decimal(value as nat)).len(), rest),
{
    lemma_member_start(s, i, first, name, decimal(value as nat), rest);
    let start = i + member_text(first, name, decimal(value as nat)).len() - decimal(
        value as nat,
    ).len();
    lemma_read_u64(s, start, value, rest);
}

/// A written timestamp member is read back, provided that no digit follows it.
proof fn lemma_timestamp_member(
    s: Seq<char>,
    i: int,
    first: bool,
    name: Seq<char>,
    value: Timestamp,
    rest: Seq<char>,
)
    requires
        stands_at(s, i, member_text(first, name, timestamp_text(value)) + rest),
        value.is_valid(),
        rest.len() > 0,
        !is_digit(rest[0]),
    ensures
        timestamp_member(s, Some(i), first, name) == Some(
            (value, i + member_text(first, name, timestamp_text(value)).len()),
        ),
        stands_at(s, i + member_text(first, name, timestamp_text(value)).len(), rest),
{
    lemma_member_start(s, i, first, name, timestamp_text(value), rest);
    let start = i + member_text(first, name, timestamp_text(value)).len() - timestamp_text(
        value,
    ).len();
    lemma_read_timestamp(s, start, value, rest);
}

/// A written optional string is read back.
proof fn lemma_read_optional(s: Seq<char>, i: int, value: Option<Seq<char>>, rest: Seq<char>)
    requires
        stands_at(s, i, optional_text(value) + rest),
    ensures
        read_optional(s, i) == Some((value, i + optional_text(value).len())),
        stands_at(s, i + optional_text(value).len(), rest),
{
    lemma_stands_at_concat(s, i, optional_text(value), rest);
    match value {
        Some(text) => {
            lemma_read_string(s, i, text, rest);
            assert(s[i] == '"') by {
                assert(s.subrange(i, i + quoted(text).len())[0] == '"');
            }
            assert(!stands_at(s, i, null_text())) by {
                if stands_at(s, i, null_text()) {
                    assert(s.subrange(i, i + 4)[0] == 'n');
                }
            }
        },
        None => {
            assert(s[i] == 'n') by {
                assert(s.subrange(i, i + 4)[0] == 'n');
            }
        },
    }
}

/// A written optional member is read back.
proof fn lemma_optional_member(
    s: Seq<char>,
    i: int,
    first: bool,
    name: Seq<char>,
    value: Option<Seq<char>>,
    rest: Seq<char>,
)
    requires
        stands_at(s, i, member_text(first, name, optional_text(value)) + rest),
    ensures
        optional_member(s, Some(i), first, name) == Some(
            (value, i + member_text(first, name, optional_text(value)).len()),
        ),
        stands_at(s, i + member_text(first, name, optional_text(value)).len(), rest),
{
    lemma_member_start(s, i, first, name, optional_text(value), rest);
    let start = i + member_text(first, name, optional_text(value)).len() - optional_text(
        value,
    ).len();
    lemma_read_optional(s, start, value, rest);
}

/// A written record is read back, provided that its timestamp is valid.
pub proof fn lemma_read_metadata(s: Seq<char>, i: int, meta: FileMetadataView, rest: Seq<char>)
    requires
        stands_at(s, i, metadata_text(meta) + rest),
        meta.is_valid(),
    ensures
        read_metadata(s, i) == Some((meta, i + metadata_text(meta).len())),
        stands_at(s, i + metadata_text(meta).len(), rest),
{
    reveal(read_metadata);
    reveal(metadata_text);
    let m1 = member_text(true, "path"@, quoted(meta.path));
    let m2 = member_text(false, "size"@, decimal(meta.size as nat));
    let m3 = member_text(false, "last_modified"@, timestamp_text(meta.last_modified));
    let m4 = member_text(false, "checksum"@, optional_text(meta.checksum));
    let m5 = member_text(false, "etag"@, optional_text(meta.etag));
    let m6 = member_text(false, "content_type"@, optional_text(meta.content_type));
    let close = seq!['}'];
    let r6 = close + rest;
    let r5 = m6 + r6;
    let r4 = m5 + r5;
    let r3 = m4 + r4;
    let r2 = m3 + r3;
    let r1 = m2 + r2;
    assert(metadata_text(meta) + rest =~= seq!['{'] + (m1 + r1));
    lemma_token(s, i, '{', m1 + r1);
    let p1 = i + 1;
    lemma_string_member(s, p1, true, "path"@, meta.path, r1);
    let p2 = p1 + m1.len();
    lemma_comma_first("last_modified"@, timestamp_text(meta.last_modified), r3);
    lemma_u64_member(s, p2, false, "size"@, meta.size, r2);
    let p3 = p2 + m2.len();
    lemma_comma_first("checksum"@, optional_text(meta.checksum), r4);
    lemma_timestamp_member(s, p3, false, "last_modified"@, meta.last_modified, r3);
    let p4 = p3 + m3.len();
    lemma_optional_member(s, p4, false, "checksum"@, meta.checksum, r4);
    let p5 = p4 + m4.len();
    lemma_optional_member(s, p5, false, "etag"@, meta.etag, r5);
    let p6 = p5 + m5.len();
    lemma_optional_member(s, p6, false, "content_type"@, meta.content_type, r6);
    let p7 = p6 + m6.len();
    lemma_token(s, p7, '}', rest);
    assert(metadata_text(meta).len() == 1 + m1.len() + m2.len() + m3.len() + m4.len() + m5.len()
        + m6.len() + 1);
}

/// A written entry is read back, provided that its timestamp is valid.
pub proof fn lemma_read_entry(
    s: Seq<char>,
    i: int,
    entry: EntryView,
    rest: Seq<char>,
)
    requires
        stands_at(s, i, entry_text(entry) + rest),
        entry.1.is_valid(),
    ensures
        read_entry(s, i) == Some((entry, i + entry_text(entry).len())),
        stands_at(s, i + entry_text(entry).len(), rest),
{
    let record = metadata_text(entry.1);
    assert(entry_text(entry) + rest =~= quoted(entry.0) + (seq![':'] + (record + rest)));
    lemma_read_string(s, i, entry.0, seq![':'] + (record + rest));
    let colon = i + quoted(entry.0).len();
    lemma_token(s, colon, ':', record + rest);
    lemma_read_metadata(s, colon + 1, entry.1, rest);
}

/// Written entries and the closing brace are read back.
pub proof fn lemma_read_entries_tail(
    s: Seq<char>,
    i: int,
    entries: Seq<EntryView>,
    rest: Seq<char>,
)
    requires
        entries.len() > 0,
        all_valid(entries),
        stands_at(s, i, (entries_text(entries) + seq!['}']) + rest),
    ensures
        read_entries_tail(s, i) == Some((entries, i + entries_text(entries).len() + 1)),
        stands_at(s, i + entries_text(entries).len() + 1, rest),
    decreases entries.len(),
{
    let texts = entries.map_values(|e: EntryView| entry_text(e));
    let first = entry_text(entries[0]);
    assert(texts[0] == first);
    assert(entries[0].1.is_valid());
    if entries.len() == 1 {
        assert((entries_text(entries) + seq!['}']) + rest =~= first + (seq!['}'] + rest));
        lemma_read_entry(s, i, entries[0], seq!['}'] + rest);
        lemma_token(s, i + first.len(), '}', rest);
        assert(entries =~= seq![entries[0]]);
    } else {
        let others = entries.drop_first();
        assert(texts.drop_first() =~= others.map_values(
            |e: EntryView| entry_text(e),
        ));
        let tail = (entries_text(others) + seq!['}']) + rest;
        assert((entries_text(entries) + seq!['}']) + rest =~= first + (seq![','] + tail));
        lemma_read_entry(s, i, entries[0], seq![','] + tail);
        let comma = i + first.len();
        lemma_token(s, comma, ',', tail);
        assert(token(s, comma, '}') is None) by {
            assert(s[comma] == ',') by {
                assert(s.subrange(comma, comma + (seq![','] + tail).len())[0] == ',');
            }
        }
        assert(all_valid(others)) by {
            assert forall|k: int| 0 <= k < others.len() implies (
            #[trigger] others[k]).1.is_valid() by {
                assert(entries[k + 1].1.is_valid());
            }
        }
        lemma_read_entries_tail(s, comma + 1, others, rest);
        assert(seq![entries[0]] + others =~= entries);
    }
}

/// Written entries, of any number, and the closing brace are read back.
pub proof fn lemma_read_entries(
    s: Seq<char>,
    i: int,
    entries: Seq<EntryView>,
    rest: Seq<char>,
)
    requires
        all_valid(entries),
        stands_at(s, i, (entries_text(entries) + seq!['}']) + rest),
    ensures
        read_entries(s, i) == Some((entries, i + entries_text(entries).len() + 1)),
        stands_at(s, i + entries_text(entries).len() + 1, rest),
{
    if entries.len() == 0 {
        assert(entries_text(entries) =~= Seq::<char>::empty());
        assert((entries_text(entries) + seq!['}']) + rest =~= seq!['}'] + rest);
        lemma_token(s, i, '}', rest);
        assert(entries =~= Seq::empty());
    } else {
        let texts = entries.map_values(|e: EntryView| entry_text(e));
        assert(texts[0] == entry_text(entries[0]));
        let whole = (entries_text(entries) + seq!['}']) + rest;
        assert(whole[0] == '"');
        assert(s[i] == '"') by {
            assert(s.subrange(i, i + whole.len())[0] == whole[0]);
        }
        lemma_read_entries_tail(s, i, entries, rest);
    }
}

/// Written patterns and the closing bracket are read back.
pub proof fn lemma_read_patterns_tail(
    s: Seq<char>,
    i: int,
    patterns: Seq<Seq<char>>,
    rest: Seq<char>,
)
    requires
        patterns.len() > 0,
        stands_at(s, i, (patterns_text(patterns) + seq![']']) + rest),
    ensures
        read_patterns_tail(s, i) == Some((patterns, i + patterns_text(patterns).len() + 1)),
        stands_at(s, i + patterns_text(patterns).len() + 1, rest),
    decreases patterns.len(),
{
    let texts = patterns.map_values(|p: Seq<char>| quoted(p));
    let first = quoted(patterns[0]);
    assert(texts[0] == first);
    if patterns.len() == 1 {
        assert((patterns_text(patterns) + seq![']']) + rest =~= first + (seq![']'] + rest));
        lemma_read_string(s, i, patterns[0], seq![']'] + rest);
        lemma_token(s, i + first.len(), ']', rest);
        assert(patterns =~= seq![patterns[0]]);
    } else {
        let others = patterns.drop_first();
        assert(texts.drop_first() =~= others.map_values(|p: Seq<char>| quoted(p)));
        let tail = (patterns_text(others) + seq![']']) + rest;
        assert((patterns_text(patterns) + seq![']']) + rest =~= first + (seq![','] + tail));
        lemma_read_string(s, i, patterns[0], seq![','] + tail);
        let comma = i + first.len();
        lemma_token(s, comma, ',', tail);
        assert(token(s, comma, ']') is None) by {
            assert(s[comma] == ',') by {
                assert(s.subrange(comma, comma + (seq![','] + tail).len())[0] == ',');
            }
        }
        lemma_read_patterns_tail(s, comma + 1, others, rest);
        assert(seq![patterns[0]] + others =~= patterns);
    }
}

/// Written patterns, of any number, and the closing bracket are read back.
pub proof fn lemma_read_patterns(s: Seq<char>, i: int, patterns: Seq<Seq<char>>, rest: Seq<char>)
    requires
        stands_at(s, i, (patterns_text(patterns) + seq![']']) + rest),
    ensures
        read_patterns(s, i) == Some((patterns, i + patterns_text(patterns).len() + 1)),
        stands_at(s, i + patterns_text(patterns).len() + 1, rest),
{
    if patterns.len() == 0 {
        assert(patterns_text(patterns) =~= Seq::<char>::empty());
        assert((patterns_text(patterns) + seq![']']) + rest =~= seq![']'] + rest);
        lemma_token(s, i, ']', rest);
        assert(patterns =~= Seq::empty());
    } else {
        let texts = patterns.map_values(|p: Seq<char>| quoted(p));
        assert(texts[0] == quoted(patterns[0]));
        let whole = (patterns_text(patterns) + seq![']']) + rest;
        assert(whole[0] == '"');
        assert(s[i] == '"') by {
            assert(s.subrange(i, i + whole.len())[0] == whole[0]);
        }
        lemma_read_patterns_tail(s, i, patterns, rest);
    }
}

/// A written manifest is read back: the same entries and the same ignore patterns,
/// each in the same order.
pub proof fn lemma_read_document(
    entries: Seq<EntryView>,
    patterns: Seq<Seq<char>>,
)
    requires
        all_valid(entries),
    ensures
        read_document(manifest_text(entries, patterns)) == Some((entries, patterns)),
{
    let s = manifest_text(entries, patterns);
    let files_value = seq!['{'] + (entries_text(entries) + seq!['}']);
    let patterns_value = seq!['['] + (patterns_text(patterns) + seq![']']);
    let m1 = member_text(true, "files"@, files_value);
    let m2 = member_text(false, "ignore_patterns"@, patterns_value);
    let close = seq!['}'];
    assert(s.subrange(0, s.len() as int) =~= s);
    assert(stands_at(s, 0, s));
    assert(s =~= seq!['{'] + (m1 + (m2 + close)));
    lemma_token(s, 0, '{', m1 + (m2 + close));
    lemma_member_start(s, 1, true, "files"@, files_value, m2 + close);
    let p1 = 1 + m1.len() - files_value.len();
    assert(files_value + (m2 + close) =~= seq!['{'] + ((entries_text(entries) + seq!['}']) + (m2
        + close)));
    lemma_token(s, p1, '{', (entries_text(entries) + seq!['}']) + (m2 + close));
    lemma_read_entries(s, p1 + 1, entries, m2 + close);
    let p2 = p1 + 1 + entries_text(entries).len() + 1;
    assert(p2 == 1 + m1.len());
    lemma_member_start(s, p2, false, "ignore_patterns"@, patterns_value, close);
    let p3 = p2 + m2.len() - patterns_value.len();
    assert(patterns_value + close =~= seq!['['] + ((patterns_text(patterns) + seq![']']) + close));
    lemma_token(s, p3, '[', (patterns_text(patterns) + seq![']']) + close);
    lemma_read_patterns(s, p3 + 1, patterns, close);
    let p4 = p3 + 1 + patterns_text(patterns).len() + 1;
    assert(close =~= seq!['}'] + Seq::<char>::empty());
    lemma_token(s, p4, '}', Seq::<char>::empty());
    assert(p4 + 1 == s.len());
}

/// An optional text and a position that a reader gave, as mathematical values.
pub open spec fn optional_read(read: Option<(Option<String>, usize)>) -> Option<
    (Option<Seq<char>>, int),
> {
    match read {
        Some((value, end)) => Some((opt_view(value), end as int)),
        None => None,
    }
}

/// A record and a position that a reader gave, as mathematical values.
pub open spec fn metadata_read(read: Option<(FileMetadata, usize)>) -> Option<
    (FileMetadataView, int),
> {
    match read {
        Some((meta, end)) => Some((meta@, end as int)),
        None => None,
    }
}

/// Reads the start of a member.
fn take_member_start(s: &Vec<char>, at: usize, first: bool, name: &str) -> (next: Option<usize>)
    requires
        at <= s@.len(),
    ensures
        position_read(next) == member_start(s@, Some(at as int), first, name@),
        next matches Some(end) ==> at < end <= s@.len(),
{
    let after_comma = if first {
        at
    } else {
        take_token(s, at, ',')?
    };
    let colon = take_name(s, after_comma, name)?;
    take_token(s, colon, ':')
}

/// Reads a string or `null`, after any blanks.
fn parse_optional(s: &Vec<char>, i: usize) -> (read: Option<(Option<String>, usize)>)
    requires
        i <= s@.len(),
    ensures
        optional_read(read) == read_optional(s@, i as int),
        read matches Some((_, end)) ==> i < end <= s@.len(),
{
    let j = skip_blanks(s, i);
    let length = s.len();
    if length - j >= 4 && s[j] == 'n' && s[j + 1] == 'u' && s[j + 2] == 'l' && s[j + 3] == 'l' {
        assert(s@.subrange(j as int, j + 4) =~= null_text());
        Some((None, j + 4))
    } else {
        assert(!stands_at(s@, j as int, null_text())) by {
            if stands_at(s@, j as int, null_text()) {
                let part = s@.subrange(j as int, j + 4);
                assert(part[0] == 'n' && part[1] == 'u' && part[2] == 'l' && part[3] == 'l');
            }
        }
        let (text, end) = parse_string(s, i)?;
        Some((Some(text), end))
    }
}

/// Reads the record of one file.
fn parse_metadata(s: &Vec<char>, i: usize) -> (read: Option<(FileMetadata, usize)>)
    requires
        i <= s@.len(),
    ensures
        metadata_read(read) == read_metadata(s@, i as int),
        read matches Some((_, end)) ==> i < end <= s@.len(),
        read matches Some((meta, _)) ==> meta@.is_valid(),
{
    reveal(read_metadata);
    let open = take_token(s, i, '{')?;
    let start = take_member_start(s, open, true, "path")?;
    let (path, after_path) = parse_string(s, start)?;
    let start = take_member_start(s, after_path, false, "size")?;
    let (size, after_size) = parse_u64(s, start)?;
    let start = take_member_start(s, after_size, false, "last_modified")?;
    let (last_modified, after_modified) = parse_timestamp(s, start)?;
    let start = take_member_start(s, after_modified, false, "checksum")?;
    let (checksum, after_checksum) = parse_optional(s, start)?;
    let start = take_member_start(s, after_checksum, false, "etag")?;
    let (etag, after_etag) = parse_optional(s, start)?;
    let start = take_member_start(s, after_etag, false, "content_type")?;
    let (content_type, after_type) = parse_optional(s, start)?;
    let end = take_token(s, after_type, '}')?;
    Some((FileMetadata { path, size, last_modified, checksum, etag, content_type }, end))
}

/// Reads the members of the `files` object behind its opening brace, and records
/// each in the manifest.
#[verifier::loop_isolation(false)]
fn parse_entries(s: &Vec<char>, i: usize, manifest: &mut SyncManifest) -> (end: Option<usize>)
    requires
        i <= s@.len(),
        old(manifest).wf(),
        all_valid(old(manifest).entry_seq()),
    ensures
        final(manifest).wf(),
        all_valid(final(manifest).entry_seq()),
        final(manifest)@.ignore_patterns == old(manifest)@.ignore_patterns,
        position_read(end) == next_of(read_entries(s@, i as int)),
        end matches Some(e) ==> i < e <= s@.len() && final(manifest)@.files == insert_all(
            old(manifest)@.files,
            read_entries(s@, i as int).unwrap().0,
        ) && final(manifest).entry_seq() == upsert_all(
            old(manifest).entry_seq(),
            read_entries(s@, i as int).unwrap().0,
        ),
{
    match take_token(s, i, '}') {
        Some(end) => {
            return Some(end);
        },
        None => {},
    }
    let mut j: usize = i;
    let ghost mut done: Seq<EntryView> = Seq::empty();
    assert(prepend_items(done, read_entries_tail(s@, j as int)) =~= read_entries_tail(
        s@,
        j as int,
    )) by {
        let read = read_entries_tail(s@, j as int);
        if read is Some {
            assert(done + read.unwrap().0 =~= read.unwrap().0);
        }
    }
    loop
        invariant
            i <= j <= s@.len(),
            manifest.wf(),
            manifest@.ignore_patterns == old(manifest)@.ignore_patterns,
            manifest@.files == insert_all(old(manifest)@.files, done),
            manifest.entry_seq() == upsert_all(old(manifest).entry_seq(), done),
            all_valid(manifest.entry_seq()),
            read_entries_tail(s@, i as int) == prepend_items(
                done,
                read_entries_tail(s@, j as int),
            ),
        decreases s@.len() - j,
    {
        let (key, colon) = parse_string(s, j)?;
        let start = take_token(s, colon, ':')?;
        let (meta, after) = parse_metadata(s, start)?;
        let ghost entry = (key@, meta@);
        let ghost before = done;
        let ghost held = manifest.entry_seq();
        manifest.insert(key, meta);
        proof {
            lemma_upserted_valid(held, entry.0, entry.1);
            done = before.push(entry);
            assert(done.drop_last() =~= before);
            assert(read_entry(s@, j as int) == Some((entry, after as int)));
        }
        match take_token(s, after, '}') {
            Some(end) => {
                assert(before + seq![entry] =~= done);
                return Some(end);
            },
            None => {},
        }
        let next = take_token(s, after, ',')?;
        proof {
            let rest = read_entries_tail(s@, next as int);
            if rest is Some {
                assert(before + (seq![entry] + rest.unwrap().0) =~= done + rest.unwrap().0);
            }
        }
        j = next;
    }
}

/// Reads the items of the `ignore_patterns` list behind its opening bracket, and
/// adds each to the manifest.
#[verifier::loop_isolation(false)]
fn parse_patterns(s: &Vec<char>, i: usize, manifest: &mut SyncManifest) -> (end: Option<usize>)
    requires
        i <= s@.len(),
        old(manifest).wf(),
    ensures
        final(manifest).wf(),
        final(manifest)@.files == old(manifest)@.files,
        final(manifest).entry_seq() == old(manifest).entry_seq(),
        position_read(end) == next_of(read_patterns(s@, i as int)),
        end matches Some(e) ==> i < e <= s@.len() && final(manifest)@.ignore_patterns == old(
            manifest,
        )@.ignore_patterns + read_patterns(s@, i as int).unwrap().0,
{
    match take_token(s, i, ']') {
        Some(end) => {
            assert(manifest@.ignore_patterns + Seq::<Seq<char>>::empty()
                =~= manifest@.ignore_patterns);
            return Some(end);
        },
        None => {},
    }
    let mut j: usize = i;
    let ghost mut done: Seq<Seq<char>> = Seq::empty();
    assert(prepend_items(done, read_patterns_tail(s@, j as int)) =~= read_patterns_tail(
        s@,
        j as int,
    )) by {
        let read = read_patterns_tail(s@, j as int);
        if read is Some {
            assert(done + read.unwrap().0 =~= read.unwrap().0);
        }
    }
    assert(manifest@.ignore_patterns + done =~= manifest@.ignore_patterns);
    loop
        invariant
            i <= j <= s@.len(),
            manifest.wf(),
            manifest@.files == old(manifest)@.files,
            manifest.entry_seq() == old(manifest).entry_seq(),
            manifest@.ignore_patterns == old(manifest)@.ignore_patterns + done,
            read_patterns_tail(s@, i as int) == prepend_items(
                done,
                read_patterns_tail(s@, j as int),
            ),
        decreases s@.len() - j,
    {
        let (pattern, after) = parse_string(s, j)?;
        let ghost before = done;
        let ghost text = pattern@;
        manifest.add_ignore_pattern(pattern);
        proof {
            done = before.push(text);
            assert(manifest@.ignore_patterns =~= old(manifest)@.ignore_patterns + done);
        }
        match take_token(s, after, ']') {
            Some(end) => {
                assert(before + seq![text] =~= done);
                return Some(end);
            },
            None => {},
        }
        let next = take_token(s, after, ',')?;
        proof {
            let rest = read_patterns_tail(s@, next as int);
            if rest is Some {
                assert(before + (seq![text] + rest.unwrap().0) =~= done + rest.unwrap().0);
            }
        }
        j = next;
    }
}

/// Reads a whole document.
pub fn parse_document(s: &Vec<char>) -> (read: Option<SyncManifest>)
    ensures
        match read {
            Some(manifest) => {
                &&& manifest.wf()
                &&& all_valid(manifest.entry_seq())
                &&& read_manifest(s@) == Some(manifest@)
                &&& read_document(s@) is Some
                &&& manifest.entry_seq() == upsert_all(
                    Seq::empty(),
                    read_document(s@).unwrap().0,
                )
            },
            None => read_document(s@) is None,
        },
{
    let mut manifest = SyncManifest::new();
    let open = take_token(s, 0, '{')?;
    let start = take_member_start(s, open, true, "files")?;
    let brace = take_token(s, start, '{')?;
    let after_files = parse_entries(s, brace, &mut manifest)?;
    let start = take_member_start(s, after_files, false, "ignore_patterns")?;
    let bracket = take_token(s, start, '[')?;
    let after_patterns = parse_patterns(s, bracket, &mut manifest)?;
    let close = take_token(s, after_patterns, '}')?;
    let end = skip_blanks(s, close);
    if end != s.len() {
        return None;
    }
    proof {
        let patterns = read_patterns(s@, bracket as int).unwrap().0;
        assert(Seq::<Seq<char>>::empty() + patterns =~= patterns);
        assert(manifest@ == ManifestView {
            files: manifest@.files,
            ignore_patterns: manifest@.ignore_patterns,
        });
    }
    Some(manifest)
}

/// Appends the start of a member.
fn write_member_start(out: &mut Vec<char>, first: bool, name: &str)
    ensures
        final(out)@ == old(out)@ + member_text(first, name@, Seq::empty()),
{
    if !first {
        out.push(',');
    }
    write_name(out, name);
    out.push(':');
    assert(out@ =~= old(out)@ + member_text(first, name@, Seq::empty())) by {
        reveal(member_text);
    }
}

/// A member is its start followed by its value.
proof fn lemma_member_text(first: bool, name: Seq<char>, value: Seq<char>)
    ensures
        member_text(first, name, value) == member_text(first, name, Seq::empty()) + value,
{
    reveal(member_text);
    assert(member_text(first, name, value) =~= member_text(first, name, Seq::empty()) + value);
}

/// Appends an optional string.
fn write_optional(out: &mut Vec<char>, value: &Option<String>)
    ensures
        final(out)@ == old(out)@ + optional_text(opt_view(*value)),
{
    match value {
        Some(text) => {
            write_string(out, text.as_str());
        },
        None => {
            out.push('n');
            out.push('u');
            out.push('l');
            out.push('l');
            assert(out@ =~= old(out)@ + null_text());
        },
    }
}

/// Appends a member whose value is a string.
fn write_string_member(out: &mut Vec<char>, first: bool, name: &str, value: &str)
    ensures
        final(out)@ == old(out)@ + member_text(first, name@, quoted(value@)),
{
    proof {
        lemma_member_text(first, name@, quoted(value@));
    }
    write_member_start(out, first, name);
    write_string(out, value);
    assert(out@ =~= old(out)@ + member_text(first, name@, quoted(value@)));
}

/// Appends a member whose value is an unsigned integer.
fn write_u64_member(out: &mut Vec<char>, first: bool, name: &str, value: u64)
    ensures
        final(out)@ == old(out)@ + member_text(first, name@, decimal(value as nat)),
{
    proof {
        lemma_member_text(first, name@, decimal(value as nat));
    }
    write_member_start(out, first, name);
    write_u64(out, value);
    assert(out@ =~= old(out)@ + member_text(first, name@, decimal(value as nat)));
}

/// Appends a member whose value is a timestamp.
fn write_timestamp_member(out: &mut Vec<char>, first: bool, name: &str, value: Timestamp)
    ensures
        final(out)@ == old(out)@ + member_text(first, name@, timestamp_text(value)),
{
    proof {
        lemma_member_text(first, name@, timestamp_text(value));
    }
    write_member_start(out, first, name);
    write_timestamp(out, value);
    assert(out@ =~= old(out)@ + member_text(first, name@, timestamp_text(value)));
}

/// Appends a member whose value is a string or `null`.
fn write_optional_member(out: &mut Vec<char>, first: bool, name: &str, value: &Option<String>)
    ensures
        final(out)@ == old(out)@ + member_text(first, name@, optional_text(opt_view(*value))),
{
    proof {
        lemma_member_text(first, name@, optional_text(opt_view(*value)));
    }
    write_member_start(out, first, name);
    write_optional(out, value);
    assert(out@ =~= old(out)@ + member_text(first, name@, optional_text(opt_view(*value))));
}

/// Appends the record of one file.
fn write_metadata(out: &mut Vec<char>, meta: &FileMetadata)
    ensures
        final(out)@ == old(out)@ + metadata_text(meta@),
{
    let ghost view = meta@;
    let ghost m1 = member_text(true, "path"@, quoted(view.path));
    let ghost m2 = member_text(false, "size"@, decimal(view.size as nat));
    let ghost m3 = member_text(false, "last_modified"@, timestamp_text(view.last_modified));
    let ghost m4 = member_text(false, "checksum"@, optional_text(view.checksum));
    let ghost m5 = member_text(false, "etag"@, optional_text(view.etag));
    let ghost m6 = member_text(false, "content_type"@, optional_text(view.content_type));
    let ghost t6 = m6 + seq!['}'];
    let ghost t5 = m5 + t6;
    let ghost t4 = m4 + t5;
    let ghost t3 = m3 + t4;
    let ghost t2 = m2 + t3;
    let ghost t1 = m1 + t2;
    out.push('{');
    let ghost s1 = out@;
    write_string_member(out, true, "path", meta.path.as_str());
    let ghost s2 = out@;
    write_u64_member(out, false, "size", meta.size);
    let ghost s3 = out@;
    write_timestamp_member(out, false, "last_modified", meta.last_modified);
    let ghost s4 = out@;
    write_optional_member(out, false, "checksum", &meta.checksum);
    let ghost s5 = out@;
    write_optional_member(out, false, "etag", &meta.etag);
    let ghost s6 = out@;
    write_optional_member(out, false, "content_type", &meta.content_type);
    out.push('}');
    proof {
        assert(out@ =~= s6 + t6);
        assert(s6 + t6 =~= s5 + t5);
        assert(s5 + t5 =~= s4 + t4);
        assert(s4 + t4 =~= s3 + t3);
        assert(s3 + t3 =~= s2 + t2);
        assert(s2 + t2 =~= s1 + t1);
        assert(s1 + t1 =~= old(out)@ + (seq!['{'] + t1));
        assert(metadata_text(view) == seq!['{'] + t1) by {
            reveal(metadata_text);
        }
    }
}

/// Joining with one more item appends a comma and the item, or the item alone
/// where it is the first.
pub proof fn lemma_joined_push(items: Seq<Seq<char>>, item: Seq<char>)
    ensures
        joined(items.push(item)) == if items.len() == 0 {
            item
        } else {
            joined(items) + (seq![','] + item)
        },
    decreases items.len(),
{
    let all = items.push(item);
    if items.len() == 0 {
        assert(all[0] == item);
    } else if items.len() == 1 {
        assert(all.drop_first() =~= seq![item]);
        assert(joined(seq![item]) == item);
        assert(all[0] == items[0]);
    } else {
        assert(all.drop_first() =~= items.drop_first().push(item));
        lemma_joined_push(items.drop_first(), item);
        assert(all[0] == items[0]);
        assert(joined(all) =~= joined(items) + (seq![','] + item));
    }
}

/// Appends the entries of a manifest, in their order.
fn write_entries(out: &mut Vec<char>, manifest: &SyncManifest)
    requires
        manifest.wf(),
    ensures
        final(out)@ == old(out)@ + entries_text(manifest.entry_seq()),
{
    let count = manifest.len();
    let ghost entries = manifest.entry_seq();
    let ghost texts = entries.map_values(|e: EntryView| entry_text(e));
    let mut i: usize = 0;
    assert(old(out)@ + joined(texts.take(0)) =~= old(out)@);
    while i < count
        invariant
            manifest.wf(),
            i <= count,
            count == entries.len(),
            entries == manifest.entry_seq(),
            texts == entries.map_values(|e: EntryView| entry_text(e)),
            out@ == old(out)@ + joined(texts.take(i as int)),
        decreases count - i,
    {
        let entry = manifest.entry_at(i);
        let ghost before = out@;
        proof {
            lemma_joined_push(texts.take(i as int), texts[i as int]);
            assert(texts.take(i + 1) =~= texts.take(i as int).push(texts[i as int]));
            assert(texts[i as int] == entry_text((entry.key@, entry.meta@)));
        }
        if i > 0 {
            out.push(',');
        }
        write_string(out, entry.key.as_str());
        out.push(':');
        write_metadata(out, &entry.meta);
        assert(out@ =~= old(out)@ + joined(texts.take(i + 1)));
        i = i + 1;
    }
    assert(texts.take(i as int) =~= texts);
}

/// Appends the ignore patterns of a manifest, in their order.
fn write_patterns(out: &mut Vec<char>, manifest: &SyncManifest)
    ensures
        final(out)@ == old(out)@ + patterns_text(manifest@.ignore_patterns),
{
    let patterns = manifest.ignore_patterns();
    let ghost texts = manifest@.ignore_patterns.map_values(|p: Seq<char>| quoted(p));
    let mut i: usize = 0;
    assert(old(out)@ + joined(texts.take(0)) =~= old(out)@);
    while i < patterns.len()
        invariant
            i <= patterns@.len(),
            strings_view(patterns@) == manifest@.ignore_patterns,
            texts == manifest@.ignore_patterns.map_values(|p: Seq<char>| quoted(p)),
            out@ == old(out)@ + joined(texts.take(i as int)),
        decreases patterns@.len() - i,
    {
        proof {
            lemma_joined_push(texts.take(i as int), texts[i as int]);
            assert(texts.take(i + 1) =~= texts.take(i as int).push(texts[i as int]));
            assert(strings_view(patterns@)[i as int] == patterns@[i as int]@);
            assert(texts[i as int] == quoted(patterns@[i as int]@));
        }
        if i > 0 {
            out.push(',');
        }
        write_string(out, patterns[i].as_str());
        assert(out@ =~= old(out)@ + joined(texts.take(i + 1)));
        i = i + 1;
    }
    assert(texts.take(i as int) =~= texts);
}

/// The text of a manifest.
pub fn write_document(manifest: &SyncManifest) -> (out: Vec<char>)
    requires
        manifest.wf(),
    ensures
        out@ == manifest_text(manifest.entry_seq(), manifest@.ignore_patterns),
{
    let mut out: Vec<char> = Vec::new();
    proof {
        lemma_member_text(
            true,
            "files"@,
            seq!['{'] + (entries_text(manifest.entry_seq()) + seq!['}']),
        );
        lemma_member_text(
            false,
            "ignore_patterns"@,
            seq!['['] + (patterns_text(manifest@.ignore_patterns) + seq![']']),
        );
    }
    out.push('{');
    write_member_start(&mut out, true, "files");
    out.push('{');
    write_entries(&mut out, manifest);
    out.push('}');
    write_member_start(&mut out, false, "ignore_patterns");
    out.push('[');
    write_patterns(&mut out, manifest);
    out.push(']');
    out.push('}');
    assert(out@ =~= manifest_text(manifest.entry_seq(), manifest@.ignore_patterns));
    out
}

} // verus!
