use vstd::prelude::*;

use sha2::Digest;

use crate::executor::path_file_name;
use crate::language::{indexed_language_of, language_for_extension, last_index_of};
use crate::contract::{HealthState, IndexRunSummary};
use crate::packing::{chars_less, chars_lt, lemma_chars_lt_asymmetric};
use crate::ranking::{lemma_chars_not_lt_transitive, lemma_insert_sorted, sorted_by, strict_weak_order};
use crate::storage::FileRecord;
use crate::text::{chars_of, owned, push_char, str_eq};

verus! {

// ---------------------------------------------------------------------------
// Content hashes
// ---------------------------------------------------------------------------

/// The SHA-256 digest of a byte sequence.
pub uninterp spec fn sha256(data: Seq<u8>) -> Seq<u8>;

/// Calls `sha2::Sha256::digest` (the `Digest` trait's one-shot hash) on
/// `data`. The contract claims that the digest depends on the bytes alone and
/// has the 32 bytes of SHA-256's output size.
#[verifier::external_body]
fn sha256_digest(data: &[u8]) -> (digest: Vec<u8>)
    ensures
        digest@ == sha256(data@),
        digest@.len() == 32,
{
    sha2::Sha256::digest(data).to_vec()
}

/// The lowercase hexadecimal digit for a value below sixteen.
pub open spec fn hex_digit(n: int) -> char {
    if n < 10 {
        (48 + n) as char
    } else {
        (87 + n) as char
    }
}

/// Bytes written as lowercase hexadecimal, two digits per byte.
pub open spec fn hex_lower(bytes: Seq<u8>) -> Seq<char>
    decreases bytes.len(),
{
    if bytes.len() == 0 {
        Seq::empty()
    } else {
        hex_lower(bytes.drop_last()) + seq![
            hex_digit(bytes.last() as int / 16),
            hex_digit(bytes.last() as int % 16),
        ]
    }
}

pub proof fn lemma_hex_lower_len(bytes: Seq<u8>)
    ensures
        hex_lower(bytes).len() == 2 * bytes.len(),
    decreases bytes.len(),
{
    if bytes.len() > 0 {
        lemma_hex_lower_len(bytes.drop_last());
    }
}

fn hex_digit_char(n: u8) -> (c: char)
    requires
        n < 16,
    ensures
        c == hex_digit(n as int),
{
    if n < 10 {
        (48u8 + n) as char
    } else {
        (87u8 + n) as char
    }
}

/// The content hash of a file: the SHA-256 digest of its bytes in lowercase
/// hexadecimal (64 characters).
pub fn hash_bytes(bytes: &[u8]) -> (hash: String)
    ensures
        hash@ == hex_lower(sha256(bytes@)),
        hash@.len() == 64,
{
    let digest = sha256_digest(bytes);
    let mut hash = String::new();
    let mut i: usize = 0;
    assert(digest@.take(0) =~= Seq::<u8>::empty());
    while i < digest.len()
        invariant
            0 <= i <= digest.len(),
            hash@ == hex_lower(digest@.take(i as int)),
        decreases digest.len() - i,
    {
        let b = digest[i];
        push_char(&mut hash, hex_digit_char(b / 16));
        push_char(&mut hash, hex_digit_char(b % 16));
        assert(digest@.take(i + 1).drop_last() =~= digest@.take(i as int));
        assert(hash@ =~= hex_lower(digest@.take(i + 1)));
        i = i + 1;
    }
    assert(digest@.take(i as int) =~= digest@);
    proof {
        lemma_hex_lower_len(digest@);
    }
    hash
}

// ---------------------------------------------------------------------------
// File text and language
// ---------------------------------------------------------------------------

/// Calls `String::from_utf8` on `bytes`. The contract claims what its
/// documentation states: the bytes are accepted exactly when they are valid
/// UTF-8, and the string then holds the characters they encode.
#[verifier::external_body]
fn string_from_utf8(bytes: Vec<u8>) -> (text: Option<String>)
    ensures
        text is Some <==> vstd::utf8::valid_utf8(bytes@),
        text matches Some(s) ==> s@ == vstd::utf8::decode_utf8(bytes@),
{
    String::from_utf8(bytes).ok()
}

/// The extension of a file name, as `std::path::Path::extension` documents
/// it: none when the name has no `.` or its only `.` is its first character,
/// else what follows its last `.`.
pub open spec fn name_extension(name: Seq<char>) -> Option<Seq<char>> {
    let i = last_index_of(name, '.');
    if i <= 0 {
        None
    } else {
        Some(name.skip(i + 1))
    }
}

/// The extension of the last component of a path: that of its file name
/// (see [`path_file_name`]), none when it has no file name.
pub open spec fn path_extension(path: Seq<char>) -> Option<Seq<char>> {
    match path_file_name(path) {
        Some(name) => name_extension(name),
        None => None,
    }
}

/// Calls `std::path::Path::extension` on `path` and keeps the extension when
/// it is valid Unicode (it always is for a `&str`). The contract claims what
/// the documentation of `extension` states: the extension is taken from the
/// path's file name, as [`name_extension`] says.
#[verifier::external_body]
fn extension_of(path: &str) -> (ext: Option<String>)
    ensures
        ext matches Some(e) ==> path_extension(path@) == Some(e@),
        ext is None ==> path_extension(path@) is None,
{
    std::path::Path::new(path).extension().and_then(|e| e.to_str()).map(|e| e.to_string())
}

/// The language that indexing records for a file with this extension.
pub open spec fn language_of_extension(ext: Option<Seq<char>>) -> Seq<char> {
    match ext {
        Some(e) => indexed_language_of(e),
        None => indexed_language_of(Seq::empty()),
    }
}

/// The language that indexing records for a file at `path`, from its
/// extension (`rust`, `typescript`, ..., `text`).
pub fn language_for_path(path: &str) -> (lang: &'static str)
    ensures
        lang@ == language_of_extension(path_extension(path@)),
{
    let ext = extension_of(path);
    match &ext {
        Some(e) => language_for_extension(Some(e.as_str())),
        None => language_for_extension(None),
    }
}

/// The text recorded for a file's bytes: the decoded text when they are valid
/// UTF-8, nothing for a binary file.
pub open spec fn recorded_content(bytes: Seq<u8>) -> Seq<char> {
    if vstd::utf8::valid_utf8(bytes) {
        vstd::utf8::decode_utf8(bytes)
    } else {
        Seq::empty()
    }
}

/// The language recorded for a file's bytes: `binary` when they are not valid
/// UTF-8, else the language of the extension of `fs_path`.
pub open spec fn recorded_language(bytes: Seq<u8>, fs_path: Seq<char>) -> Seq<char> {
    if vstd::utf8::valid_utf8(bytes) {
        language_of_extension(path_extension(fs_path))
    } else {
        "binary"@
    }
}

/// The record of a scanned file: `path` is its path relative to the
/// repository root, `fs_path` the path it was read from, `bytes` its content.
/// The hash covers the bytes; a file that is not valid UTF-8 is recorded as
/// `binary` with no text.
pub fn file_record(
    path: String,
    fs_path: &str,
    bytes: Vec<u8>,
    mtime_ms: i64,
    size_bytes: i64,
) -> (record: FileRecord)
    ensures
        record.path@ == path@,
        record.hash@ == hex_lower(sha256(bytes@)),
        record.mtime_ms == mtime_ms,
        record.size_bytes == size_bytes,
        record.content@ == recorded_content(bytes@),
        record.language@ == recorded_language(bytes@, fs_path@),
{
    let ghost raw = bytes@;
    let hash = hash_bytes(bytes.as_slice());
    let (content, language) = match string_from_utf8(bytes) {
        Some(text) => (text, owned(language_for_path(fs_path))),
        None => (String::new(), owned("binary")),
    };
    proof {
        reveal_strlit("binary");
    }
    FileRecord { path, hash, mtime_ms, size_bytes, content, language }
}

/// A file whose bytes are the UTF-8 encoding of a text is recorded with
/// exactly that text, in the language of its extension.
pub proof fn lemma_text_files_keep_their_text(text: Seq<char>, fs_path: Seq<char>)
    ensures
        recorded_content(vstd::utf8::encode_utf8(text)) == text,
        recorded_language(vstd::utf8::encode_utf8(text), fs_path) == language_of_extension(
            path_extension(fs_path),
        ),
{
    vstd::utf8::encode_utf8_valid_utf8(text);
    vstd::utf8::encode_utf8_decode_utf8(text);
}

/// A relative path with each `\` turned into `/`.
pub open spec fn forward_slashes(path: Seq<char>) -> Seq<char> {
    path.map_values(|c: char| if c == '\\' { '/' } else { c })
}

/// Writes a relative path with `/` as the only separator.
pub fn normalize_separators(path: &str) -> (normalized: String)
    ensures
        normalized@ == forward_slashes(path@),
{
    let mut out = String::new();
    let ghost p = path@;
    for c in it: path.chars()
        invariant
            it.seq() == p,
            out@ == forward_slashes(p.take(it.index() as int)),
    {
        proof {
            assert(p.take(it.index() + 1) =~= p.take(it.index() as int).push(c));
        }
        if c == '\\' {
            push_char(&mut out, '/');
        } else {
            push_char(&mut out, c);
        }
        assert(out@ =~= forward_slashes(p.take(it.index() + 1)));
    }
    assert(p.take(p.len() as int) =~= p);
    out
}

// ---------------------------------------------------------------------------
// Index runs
// ---------------------------------------------------------------------------

/// How a scanned file relates to what the index holds.
#[derive(Debug, Clone, Copy, PartialEq, Eq, Structural)]
pub enum FileChange {
    /// Stored with the same hash.
    Unchanged,
    /// Stored with another hash.
    Modified,
    /// Not stored yet.
    Added,
}

/// The change of a file whose content hashes to `hash`, given the hash the
/// index holds for its path, if any.
pub open spec fn change_of(stored_hash: Option<Seq<char>>, hash: Seq<char>) -> FileChange {
    match stored_hash {
        Some(h) => if h == hash {
            FileChange::Unchanged
        } else {
            FileChange::Modified
        },
        None => FileChange::Added,
    }
}

/// Classifies a scanned file against the hash stored for its path.
pub fn classify_file(stored_hash: Option<&str>, hash: &str) -> (change: FileChange)
    ensures
        change == change_of(
            match stored_hash {
                Some(h) => Some(h@),
                None => None,
            },
            hash@,
        ),
{
    match stored_hash {
        Some(h) => if str_eq(h, hash) {
            FileChange::Unchanged
        } else {
            FileChange::Modified
        },
        None => FileChange::Added,
    }
}

/// How many of `changes` are `kind`.
pub open spec fn count_changes(changes: Seq<FileChange>, kind: FileChange) -> nat
    decreases changes.len(),
{
    if changes.len() == 0 {
        0
    } else {
        count_changes(changes.drop_last(), kind) + if changes.last() == kind {
            1nat
        } else {
            0nat
        }
    }
}

/// Every scanned file is exactly one of unchanged, modified or added.
pub proof fn lemma_changes_partition(changes: Seq<FileChange>)
    ensures
        count_changes(changes, FileChange::Unchanged) + count_changes(changes, FileChange::Modified)
            + count_changes(changes, FileChange::Added) == changes.len(),
    decreases changes.len(),
{
    if changes.len() > 0 {
        lemma_changes_partition(changes.drop_last());
    }
}

/// The summary of an indexing run that scanned files with the given changes
/// and removed `deleted_files` stale ones: the counts of each change, every
/// unchanged file's embeddings skipped, no chunk embedded, health `healthy`.
pub fn index_run_summary(
    started_at_unix_ms: u64,
    finished_at_unix_ms: u64,
    changes: &[FileChange],
    deleted_files: u64,
) -> (summary: IndexRunSummary)
    ensures
        summary.started_at_unix_ms == started_at_unix_ms,
        summary.finished_at_unix_ms == finished_at_unix_ms,
        summary.scanned_files == changes.len(),
        summary.unchanged_files == count_changes(changes@, FileChange::Unchanged),
        summary.modified_files == count_changes(changes@, FileChange::Modified),
        summary.added_files == count_changes(changes@, FileChange::Added),
        summary.deleted_files == deleted_files,
        summary.embedded_chunks == 0,
        summary.skipped_embeddings == summary.unchanged_files,
        summary.health_state == HealthState::Healthy,
        summary.unchanged_files + summary.modified_files + summary.added_files
            == summary.scanned_files,
{
    let mut unchanged: u64 = 0;
    let mut modified: u64 = 0;
    let mut added: u64 = 0;
    let mut i: usize = 0;
    assert(changes@.take(0) =~= Seq::<FileChange>::empty());
    while i < changes.len()
        invariant
            0 <= i <= changes.len(),
            unchanged == count_changes(changes@.take(i as int), FileChange::Unchanged),
            modified == count_changes(changes@.take(i as int), FileChange::Modified),
            added == count_changes(changes@.take(i as int), FileChange::Added),
            unchanged + modified + added == i,
        decreases changes.len() - i,
    {
        assert(changes@.take(i + 1).drop_last() =~= changes@.take(i as int));
        proof {
            lemma_changes_partition(changes@.take(i as int));
        }
        match changes[i] {
            FileChange::Unchanged => unchanged = unchanged + 1,
            FileChange::Modified => modified = modified + 1,
            FileChange::Added => added = added + 1,
        }
        i = i + 1;
    }
    assert(changes@.take(i as int) =~= changes@);
    IndexRunSummary {
        started_at_unix_ms,
        finished_at_unix_ms,
        scanned_files: changes.len() as u64,
        unchanged_files: unchanged,
        added_files: added,
        modified_files: modified,
        deleted_files,
        embedded_chunks: 0,
        skipped_embeddings: unchanged,
        health_state: HealthState::Healthy,
    }
}

/// The views of a list of strings.
pub open spec fn string_views(s: Seq<String>) -> Seq<Seq<char>> {
    s.map_values(|x: String| x@)
}

/// The paths of `indexed` that are not among `scanned`, in order.
pub open spec fn stale(indexed: Seq<Seq<char>>, scanned: Seq<Seq<char>>) -> Seq<Seq<char>>
    decreases indexed.len(),
{
    if indexed.len() == 0 {
        Seq::empty()
    } else if scanned.contains(indexed.last()) {
        stale(indexed.drop_last(), scanned)
    } else {
        stale(indexed.drop_last(), scanned).push(indexed.last())
    }
}

/// A path is stale exactly when the index holds it and the scan did not
/// find it: an indexing run deletes those paths and keeps every other one.
pub proof fn lemma_stale_paths(indexed: Seq<Seq<char>>, scanned: Seq<Seq<char>>)
    ensures
        forall|p: Seq<char>|
            #[trigger] stale(indexed, scanned).contains(p) <==> (indexed.contains(p)
                && !scanned.contains(p)),
    decreases indexed.len(),
{
    broadcast use vstd::seq_lib::group_seq_properties;

    if indexed.len() > 0 {
        let rest = indexed.drop_last();
        let last = indexed.last();
        lemma_stale_paths(rest, scanned);
        assert(indexed =~= rest.push(last));
        assert forall|p: Seq<char>|
            #[trigger] stale(indexed, scanned).contains(p) <==> (indexed.contains(p)
                && !scanned.contains(p)) by {
            assert(indexed.contains(p) <==> (rest.contains(p) || p == last));
            if scanned.contains(last) {
                assert(stale(indexed, scanned) == stale(rest, scanned));
            } else {
                assert(stale(indexed, scanned) == stale(rest, scanned).push(last));
                assert(stale(rest, scanned).push(last).contains(p) <==> (stale(
                    rest,
                    scanned,
                ).contains(p) || p == last));
            }
        }
    } else {
        assert forall|p: Seq<char>| !(#[trigger] stale(indexed, scanned).contains(p)) by {}
    }
}

pub(crate) fn contains_str(list: &[String], s: &str) -> (r: bool)
    ensures
        r == string_views(list@).contains(s@),
{
    let mut i: usize = 0;
    while i < list.len()
        invariant
            0 <= i <= list.len(),
            forall|k: int| 0 <= k < i ==> list@[k]@ != s@,
        decreases list.len() - i,
    {
        if str_eq(list[i].as_str(), s) {
            assert(string_views(list@)[i as int] == s@);
            return true;
        }
        i = i + 1;
    }
    assert forall|k: int| 0 <= k < list.len() implies string_views(list@)[k] != s@ by {
        assert(string_views(list@)[k] == list@[k]@);
    }
    false
}

/// The indexed paths that the last scan no longer found, in the order of
/// `indexed`: the files that an indexing run deletes.
pub fn stale_paths(indexed: &[String], scanned: &[String]) -> (paths: Vec<String>)
    ensures
        string_views(paths@) == stale(string_views(indexed@), string_views(scanned@)),
{
    let ghost sv = string_views(scanned@);
    let mut paths: Vec<String> = Vec::new();
    let mut i: usize = 0;
    assert(string_views(indexed@).take(0) =~= Seq::<Seq<char>>::empty());
    assert(string_views(paths@) =~= Seq::<Seq<char>>::empty());
    while i < indexed.len()
        invariant
            0 <= i <= indexed.len(),
            sv == string_views(scanned@),
            string_views(paths@) == stale(string_views(indexed@).take(i as int), sv),
        decreases indexed.len() - i,
    {
        let ghost prefix = string_views(indexed@).take(i + 1);
        assert(prefix.drop_last() =~= string_views(indexed@).take(i as int));
        assert(prefix.last() == indexed@[i as int]@);
        if !contains_str(scanned, indexed[i].as_str()) {
            let ghost before = string_views(paths@);
            paths.push(indexed[i].clone());
            assert(string_views(paths@) =~= before.push(indexed@[i as int]@));
        }
        i = i + 1;
    }
    assert(string_views(indexed@).take(i as int) =~= string_views(indexed@));
    paths
}

// ---------------------------------------------------------------------------
// Scan order
// ---------------------------------------------------------------------------

/// Whether records come in ascending order of path.
pub open spec fn sorted_by_path(records: Seq<FileRecord>) -> bool {
    sorted_by(records, |a: FileRecord, b: FileRecord| chars_lt(a.path@, b.path@))
}

/// The order of records by path is a strict weak order.
proof fn lemma_path_order_is_strict_weak_order()
    ensures
        strict_weak_order(|a: FileRecord, b: FileRecord| chars_lt(a.path@, b.path@)),
{
    let before = |a: FileRecord, b: FileRecord| chars_lt(a.path@, b.path@);
    assert forall|a: FileRecord, b: FileRecord| #[trigger] before(a, b) implies !before(b, a) by {
        lemma_chars_lt_asymmetric(a.path@, b.path@);
    }
    assert forall|a: FileRecord, b: FileRecord, c: FileRecord|
        #![trigger before(a, b), before(b, c)]
        !before(a, b) && !before(b, c) implies !before(a, c) by {
        lemma_chars_not_lt_transitive(a.path@, b.path@, c.path@);
    }
}

/// The scanned records in ascending order of path (the order of `String`,
/// which for UTF-8 text is the order of code points).
pub fn sort_by_path(records: Vec<FileRecord>) -> (sorted: Vec<FileRecord>)
    ensures
        sorted_by_path(sorted@),
        sorted@.to_multiset() == records@.to_multiset(),
{
    broadcast use vstd::multiset::group_multiset_axioms;
    broadcast use vstd::seq_lib::group_to_multiset_ensures;

    let ghost all = records@.to_multiset();
    let mut input = records;
    let mut out: Vec<FileRecord> = Vec::new();
    assert(out@.to_multiset() =~= vstd::multiset::Multiset::empty());
    assert(out@.to_multiset().add(input@.to_multiset()) =~= all);
    while input.len() > 0
        invariant
            sorted_by_path(out@),
            out@.to_multiset().add(input@.to_multiset()) == all,
        decreases input.len(),
    {
        let ghost before = input@;
        let x = match input.pop() {
            Some(r) => r,
            None => {
                return out;
            },
        };
        assert(before =~= input@.push(x));
        let xc = chars_of(x.path.as_str());
        let mut p: usize = 0;
        loop
            invariant
                0 <= p <= out.len(),
                xc@ == x.path@,
                sorted_by_path(out@),
                forall|k: int| 0 <= k < p ==> chars_lt(#[trigger] out@[k].path@, x.path@),
            ensures
                0 <= p <= out.len(),
                forall|k: int| 0 <= k < p ==> chars_lt(#[trigger] out@[k].path@, x.path@),
                p < out.len() ==> !chars_lt(out@[p as int].path@, x.path@),
            decreases out.len() - p,
        {
            if p == out.len() {
                break;
            }
            let oc = chars_of(out[p].path.as_str());
            if !chars_less(oc.as_slice(), xc.as_slice()) {
                break;
            }
            p = p + 1;
        }
        proof {
            lemma_path_order_is_strict_weak_order();
            lemma_insert_sorted(out@, p as int, x, |a: FileRecord, b: FileRecord| chars_lt(a.path@, b.path@));
        }
        let ghost out_before = out@;
        out.insert(p, x);
        proof {
            vstd::seq_lib::to_multiset_insert(out_before, p as int, x);
            vstd::seq_lib::to_multiset_build(input@, x);
        }
        assert(out@ == out_before.insert(p as int, x));
        assert(out@.to_multiset() == out_before.to_multiset().insert(x));
        assert(out@.to_multiset().add(input@.to_multiset()) =~= all);
    }
    assert(input@.to_multiset() =~= vstd::multiset::Multiset::empty());
    assert(out@.to_multiset() =~= all);
    out
}

} // verus!
