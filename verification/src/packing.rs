use vstd::prelude::*;

use crate::chunking::{
    chunk_contents, chunk_file_spec, chunk_ok, clone_chunk, effective_budget, lemma_chunk_file_laws,
    opt_view, ChunkRecord, ChunkRecordView,
};
use crate::storage::FileRecordView;
use crate::contract::{PackedFile, PackedSegment, RetrievalPack};
use crate::language::{infer_language, inferred_language};
use crate::search::{ScoredChunk, ScoredChunkView};
use crate::text::{
    char_len_utf16, char_utf16_len, chars_of, inclusive_lines, chars_slice, str_eq, string_from_chars, utf16_len_chars,
    utf16_units, lemma_utf16_units_bounds, lemma_utf16_units_take,
};

verus! {

broadcast use vstd::string::group_string_axioms;

/// Limits on a retrieval pack.
#[derive(Debug, Clone, PartialEq, Eq)]
pub struct PackConfig {
    pub max_total_chars: u32,
    pub max_files: usize,
    pub max_segments_per_file: usize,
    pub neighbor_radius: u32,
}

impl Default for PackConfig {
    fn default() -> (config: Self)
        ensures
            config.max_total_chars == 20_000,
            config.max_files == 8,
            config.max_segments_per_file == 4,
            config.neighbor_radius == 1,
    {
        PackConfig {
            max_total_chars: 20_000,
            max_files: 8,
            max_segments_per_file: 4,
            neighbor_radius: 1,
        }
    }
}

// ---------------------------------------------------------------------------
// UTF-16 offsets
// ---------------------------------------------------------------------------

/// Walks `s` from character `k`, where `cur` UTF-16 units (saturating at
/// `u32::MAX`) lie before it, to the character boundary at `offset`.
pub open spec fn utf16_boundary_from(s: Seq<char>, offset: u32, k: int, cur: u32) -> Option<int>
    decreases s.len() - k,
{
    if k >= s.len() {
        if cur == offset {
            Some(s.len() as int)
        } else {
            None
        }
    } else if cur == offset {
        Some(k)
    } else {
        let next = cur.saturating_add(char_utf16_len(s[k]) as u32);
        if next > offset {
            None
        } else {
            utf16_boundary_from(s, offset, k + 1, next)
        }
    }
}

/// The character index at which `offset` UTF-16 units of `s` end, if that
/// offset falls between two characters.
pub open spec fn utf16_boundary(s: Seq<char>, offset: u32) -> Option<int> {
    utf16_boundary_from(s, offset, 0, 0)
}

/// The part of `s` between the UTF-16 offsets `start` and `end`, if both fall
/// between characters and `start <= end`.
pub open spec fn utf16_slice(s: Seq<char>, start: u32, end: u32) -> Option<Seq<char>> {
    if start > end {
        None
    } else {
        match (utf16_boundary(s, start), utf16_boundary(s, end)) {
            (Some(a), Some(b)) => if a <= b {
                Some(s.subrange(a, b))
            } else {
                None
            },
            _ => None,
        }
    }
}

proof fn lemma_utf16_boundary_from_bounds(s: Seq<char>, offset: u32, k: int, cur: u32)
    requires
        0 <= k <= s.len(),
    ensures
        utf16_boundary_from(s, offset, k, cur) matches Some(j) ==> k <= j <= s.len(),
    decreases s.len() - k,
{
    if k < s.len() && cur != offset {
        let next = cur.saturating_add(char_utf16_len(s[k]) as u32);
        if next <= offset {
            lemma_utf16_boundary_from_bounds(s, offset, k + 1, next);
        }
    }
}

/// When `s` has at most `u32::MAX` UTF-16 units, an offset falls at character
/// index `j` exactly when the first `j` characters take `offset` units.
pub proof fn lemma_utf16_boundary_exact(s: Seq<char>, offset: u32, j: int)
    requires
        utf16_units(s) <= u32::MAX,
        0 <= j <= s.len(),
    ensures
        utf16_boundary(s, offset) == Some(j) <==> utf16_units(s.take(j)) == offset,
{
    lemma_boundary_from_exact(s, offset, 0, j);
    assert(s.take(0) =~= Seq::<char>::empty());
}

proof fn lemma_boundary_from_exact(s: Seq<char>, offset: u32, k: int, j: int)
    requires
        utf16_units(s) <= u32::MAX,
        0 <= k <= s.len(),
        0 <= j <= s.len(),
        utf16_units(s.take(k)) <= offset || k <= j,
    ensures
        utf16_boundary_from(s, offset, k, utf16_units(s.take(k)) as u32) == Some(j) <==> (k <= j
            && utf16_units(s.take(j)) == offset),
    decreases s.len() - k,
{
    lemma_utf16_units_take(s, k);
    lemma_units_take_monotone(s, k, j);
    let cur = utf16_units(s.take(k)) as u32;
    if k < s.len() && cur != offset {
        lemma_utf16_units_take(s, k + 1);
        assert(s.take(k + 1) =~= s.take(k).push(s[k]));
        crate::text::lemma_utf16_units_push(s.take(k), s[k]);
        let next = cur.saturating_add(char_utf16_len(s[k]) as u32);
        assert(next == utf16_units(s.take(k + 1)));
        if next <= offset {
            lemma_boundary_from_exact(s, offset, k + 1, j);
        } else {
            if k <= j && utf16_units(s.take(j)) == offset {
                if j > k {
                    lemma_units_take_monotone(s, k + 1, j);
                }
            }
        }
    }
}

proof fn lemma_units_take_monotone(s: Seq<char>, a: int, b: int)
    requires
        0 <= a <= s.len(),
        0 <= b <= s.len(),
    ensures
        a <= b ==> utf16_units(s.take(a)) <= utf16_units(s.take(b)),
        a < b ==> utf16_units(s.take(a)) < utf16_units(s.take(b)),
{
    if a <= b {
        lemma_utf16_units_take(s.take(b), a);
        assert(s.take(b).take(a) =~= s.take(a));
        if a < b {
            lemma_utf16_units_bounds(s.take(b).skip(a));
        }
    }
}

/// A slice never has more UTF-16 units than the text it is cut from.
pub proof fn lemma_utf16_slice_units(s: Seq<char>, start: u32, end: u32)
    ensures
        utf16_slice(s, start, end) matches Some(t) ==> utf16_units(t) <= utf16_units(s),
{
    lemma_utf16_boundary_from_bounds(s, start, 0, 0);
    lemma_utf16_boundary_from_bounds(s, end, 0, 0);
    if let Some(t) = utf16_slice(s, start, end) {
        let a = utf16_boundary(s, start)->0;
        let b = utf16_boundary(s, end)->0;
        lemma_utf16_units_take(s, b);
        lemma_utf16_units_take(s.take(b), a);
        assert(t =~= s.take(b).skip(a));
    }
}

/// Where chunk `k` of a file starts: after the UTF-16 units of the chunks
/// before it.
proof fn lemma_chunk_starts(record: FileRecordView, max_utf16_units: usize, k: int)
    requires
        inclusive_lines(record.content).len() < u32::MAX,
        utf16_units(record.content) <= u32::MAX,
        0 <= k < chunk_file_spec(record, max_utf16_units).len(),
    ensures
        chunk_file_spec(record, max_utf16_units)[k].start_utf16 == utf16_units(
            chunk_contents(chunk_file_spec(record, max_utf16_units)).take(k).flatten(),
        ),
    decreases k,
{
    let cs = chunk_file_spec(record, max_utf16_units);
    let contents = chunk_contents(cs);
    lemma_chunk_file_laws(record, max_utf16_units);
    if k > 0 {
        lemma_chunk_starts(record, max_utf16_units, k - 1);
        assert(contents.take(k) =~= contents.take(k - 1).push(contents[k - 1]));
        crate::text::lemma_flatten_push(contents.take(k - 1), contents[k - 1]);
        crate::text::lemma_utf16_units_add(contents.take(k - 1).flatten(), contents[k - 1]);
        assert(chunk_ok(
            record,
            effective_budget(max_utf16_units),
            cs[k - 1],
            k - 1,
            utf16_units(record.content) <= u32::MAX,
        ));
        assert(cs[(k - 1) + 1].start_utf16 == cs[k - 1].end_utf16);
    } else {
        assert(contents.take(0) =~= Seq::<Seq<char>>::empty());
    }
}

/// Cutting a file's text at the UTF-16 offsets of any of its chunks gives
/// back exactly that chunk's text (when the text has at most `u32::MAX`
/// UTF-16 units): packing reads chunks back from the stored file.
pub proof fn lemma_chunk_offsets_slice_back(
    record: FileRecordView,
    max_utf16_units: usize,
    k: int,
)
    requires
        inclusive_lines(record.content).len() < u32::MAX,
        utf16_units(record.content) <= u32::MAX,
        0 <= k < chunk_file_spec(record, max_utf16_units).len(),
    ensures
        utf16_slice(
            record.content,
            chunk_file_spec(record, max_utf16_units)[k].start_utf16,
            chunk_file_spec(record, max_utf16_units)[k].end_utf16,
        ) == Some(chunk_file_spec(record, max_utf16_units)[k].content),
{
    let cs = chunk_file_spec(record, max_utf16_units);
    let contents = chunk_contents(cs);
    let s = record.content;
    lemma_chunk_file_laws(record, max_utf16_units);
    lemma_chunk_starts(record, max_utf16_units, k);
    assert(chunk_ok(
        record,
        effective_budget(max_utf16_units),
        cs[k],
        k,
        utf16_units(record.content) <= u32::MAX,
    ));
    let pre = contents.take(k).flatten();
    let c = contents[k];
    let rest = contents.skip(k + 1);
    assert(contents =~= contents.take(k) + (seq![c] + rest));
    vstd::seq_lib::lemma_flatten_concat(contents.take(k), seq![c] + rest);
    crate::text::lemma_flatten_prepend(c, rest);
    assert(s == pre + (c + rest.flatten()));
    let a = pre.len() as int;
    let b = a + c.len();
    assert(s.take(a) =~= pre);
    assert(s.take(b) =~= pre + c);
    crate::text::lemma_utf16_units_add(pre, c);
    lemma_utf16_boundary_exact(s, cs[k].start_utf16, a);
    lemma_utf16_boundary_exact(s, cs[k].end_utf16, b);
    assert(s.subrange(a, b) =~= c);
}

/// The character index at which `offset` UTF-16 units of `content` end.
pub fn char_index_for_utf16(content: &[char], offset: u32) -> (r: Option<usize>)
    ensures
        r matches Some(k) ==> utf16_boundary(content@, offset) == Some(k as int),
        r is None ==> utf16_boundary(content@, offset) is None,
{
    let mut current: u32 = 0;
    let mut k: usize = 0;
    while k < content.len()
        invariant
            0 <= k <= content.len(),
            utf16_boundary(content@, offset) == utf16_boundary_from(content@, offset, k as int, current),
        decreases content.len() - k,
    {
        if current == offset {
            return Some(k);
        }
        current = current.saturating_add(char_len_utf16(content[k]) as u32);
        if current > offset {
            return None;
        }
        k = k + 1;
    }
    if current == offset {
        Some(content.len())
    } else {
        None
    }
}

/// The part of `content` between two UTF-16 offsets (see [`utf16_slice`]).
pub fn slice_utf16(content: &[char], start_utf16: u32, end_utf16: u32) -> (r: Option<Vec<char>>)
    ensures
        r matches Some(t) ==> utf16_slice(content@, start_utf16, end_utf16) == Some(t@),
        r is None ==> utf16_slice(content@, start_utf16, end_utf16) is None,
{
    if start_utf16 > end_utf16 {
        return None;
    }
    let start = match char_index_for_utf16(content, start_utf16) {
        Some(i) => i,
        None => return None,
    };
    let end = match char_index_for_utf16(content, end_utf16) {
        Some(i) => i,
        None => return None,
    };
    proof {
        lemma_utf16_boundary_from_bounds(content@, start_utf16, 0, 0);
        lemma_utf16_boundary_from_bounds(content@, end_utf16, 0, 0);
    }
    if start > end {
        return None;
    }
    Some(chars_slice(content, start, end))
}

// ---------------------------------------------------------------------------
// Order of paths
// ---------------------------------------------------------------------------

/// The order of `String`: lexicographic by code point.
pub open spec fn chars_lt(a: Seq<char>, b: Seq<char>) -> bool
    decreases a.len(),
{
    if a.len() == 0 {
        b.len() > 0
    } else if b.len() == 0 {
        false
    } else if a[0] != b[0] {
        (a[0] as u32) < (b[0] as u32)
    } else {
        chars_lt(a.drop_first(), b.drop_first())
    }
}

pub proof fn lemma_chars_lt_irreflexive(a: Seq<char>)
    ensures
        !chars_lt(a, a),
    decreases a.len(),
{
    if a.len() > 0 {
        lemma_chars_lt_irreflexive(a.drop_first());
    }
}

pub proof fn lemma_chars_lt_transitive(a: Seq<char>, b: Seq<char>, c: Seq<char>)
    requires
        chars_lt(a, b),
        chars_lt(b, c),
    ensures
        chars_lt(a, c),
    decreases a.len(),
{
    vstd::utf8::char_u32_cast(a[0], a[0] as u32);
    if a.len() > 0 && b.len() > 0 && c.len() > 0 {
        if a[0] == b[0] && b[0] == c[0] {
            lemma_chars_lt_transitive(a.drop_first(), b.drop_first(), c.drop_first());
        } else if a[0] != c[0] {
        } else {
            assert(a[0] != b[0] || b[0] != c[0]);
            assert((a[0] as u32) == (c[0] as u32)) by {
                vstd::utf8::char_u32_cast(a[0], a[0] as u32);
            }
        }
    }
}

pub proof fn lemma_chars_lt_total(a: Seq<char>, b: Seq<char>)
    ensures
        a == b || chars_lt(a, b) || chars_lt(b, a),
    decreases a.len(),
{
    if a.len() > 0 && b.len() > 0 {
        if a[0] == b[0] {
            lemma_chars_lt_total(a.drop_first(), b.drop_first());
            if a.drop_first() == b.drop_first() {
                assert(a.len() == a.drop_first().len() + 1);
                assert(b.len() == b.drop_first().len() + 1);
                assert forall|i: int| 0 <= i < a.len() implies a[i] == b[i] by {
                    if i > 0 {
                        assert(a[i] == a.drop_first()[i - 1]);
                        assert(b[i] == b.drop_first()[i - 1]);
                    }
                }
                assert(a.len() == a.drop_first().len() + 1);
                assert(b.len() == b.drop_first().len() + 1);
                assert(a =~= b);
            }
        } else {
            assert((a[0] as u32) != (b[0] as u32)) by {
                vstd::utf8::char_u32_cast(a[0], a[0] as u32);
                vstd::utf8::char_u32_cast(b[0], b[0] as u32);
            }
        }
    } else if a.len() == 0 && b.len() == 0 {
        assert(a =~= b);
    }
}

pub proof fn lemma_chars_lt_asymmetric(a: Seq<char>, b: Seq<char>)
    requires
        chars_lt(a, b),
    ensures
        !chars_lt(b, a),
{
    if chars_lt(b, a) {
        lemma_chars_lt_transitive(a, b, a);
        lemma_chars_lt_irreflexive(a);
    }
}

/// Whether `a` comes before `b` in the order of `String`.
pub fn chars_less(a: &[char], b: &[char]) -> (r: bool)
    ensures
        r == chars_lt(a@, b@),
{
    let mut i: usize = 0;
    assert(a@.skip(0) =~= a@);
    assert(b@.skip(0) =~= b@);
    while i < a.len() && i < b.len() && a[i] == b[i]
        invariant
            0 <= i <= a.len(),
            i <= b.len(),
            chars_lt(a@, b@) == chars_lt(a@.skip(i as int), b@.skip(i as int)),
        decreases a.len() - i,
    {
        assert(a@.skip(i as int).drop_first() =~= a@.skip(i + 1));
        assert(b@.skip(i as int).drop_first() =~= b@.skip(i + 1));
        i = i + 1;
    }
    if i == a.len() {
        i < b.len()
    } else if i == b.len() {
        false
    } else {
        (a[i] as u32) < (b[i] as u32)
    }
}

// ---------------------------------------------------------------------------
// Packing rule
// ---------------------------------------------------------------------------

/// The mathematical content of a [`PackedSegment`].
pub struct PackedSegmentView {
    pub start_line: u32,
    pub end_line: u32,
    pub start_utf16: u32,
    pub end_utf16: u32,
    pub breadcrumb: Option<Seq<char>>,
    pub text: Seq<char>,
    pub score_bits: Option<u32>,
}

impl View for PackedSegment {
    type V = PackedSegmentView;

    open spec fn view(&self) -> PackedSegmentView {
        PackedSegmentView {
            start_line: self.start_line,
            end_line: self.end_line,
            start_utf16: self.start_utf16,
            end_utf16: self.end_utf16,
            breadcrumb: opt_view(self.breadcrumb),
            text: self.text@,
            score_bits: self.score_bits,
        }
    }
}

/// The mathematical content of a [`PackedFile`].
pub struct PackedFileView {
    pub path: Seq<char>,
    pub language: Seq<char>,
    pub segments: Seq<PackedSegmentView>,
}

impl View for PackedFile {
    type V = PackedFileView;

    open spec fn view(&self) -> PackedFileView {
        PackedFileView {
            path: self.path@,
            language: self.language@,
            segments: self.segments@.map_values(|s: PackedSegment| s@),
        }
    }
}

/// The views of a sequence of packed files.
pub open spec fn files_view(files: Seq<PackedFile>) -> Seq<PackedFileView> {
    files.map_values(|f: PackedFile| f@)
}

/// A pack under construction: the files so far (in path order), the UTF-16
/// units packed, whether anything was left out, and whether the budget ran out.
pub struct PackState {
    pub files: Seq<PackedFileView>,
    pub total: u32,
    pub truncated: bool,
    pub stopped: bool,
}

/// Where `path` stands among `files`: the first position whose path does not
/// come before it.
pub open spec fn file_pos(files: Seq<PackedFileView>, path: Seq<char>) -> int
    decreases files.len(),
{
    if files.len() == 0 {
        0
    } else if chars_lt(files[0].path, path) {
        1 + file_pos(files.drop_first(), path)
    } else {
        0
    }
}

/// The segment that a chunk becomes with the given text.
pub open spec fn segment_of(item: ScoredChunkView, text: Seq<char>) -> PackedSegmentView {
    PackedSegmentView {
        start_line: item.chunk.start_line,
        end_line: item.chunk.end_line,
        start_utf16: item.chunk.start_utf16,
        end_utf16: item.chunk.end_utf16,
        breadcrumb: item.chunk.breadcrumb,
        text,
        score_bits: Some(item.score_bits),
    }
}

/// Offers one chunk, with the text of its file (`None` when the file is not
/// stored), to the pack. It is left out (and the pack marked truncated) when it
/// would open a file beyond `max_files`, when its file already has
/// `max_segments_per_file` segments, when the file is missing, or when its
/// offsets do not cut the text between characters; when it would take the pack
/// past `max_total_chars`, it is left out and packing stops. A file's entry,
/// once opened, stays, even with no segment. The running count adds without
/// overflow check: it can only wrap when `max_total_chars` is `u32::MAX`.
pub open spec fn pack_step(
    st: PackState,
    item: ScoredChunkView,
    content: Option<Seq<char>>,
    cfg: PackConfig,
) -> PackState {
    if st.stopped {
        st
    } else {
        let path = item.chunk.file_path;
        let pos = file_pos(st.files, path);
        let present = pos < st.files.len() && st.files[pos].path == path;
        if !present && st.files.len() >= cfg.max_files {
            PackState { truncated: true, ..st }
        } else {
            let files1 = if present {
                st.files
            } else {
                st.files.insert(
                    pos,
                    PackedFileView {
                        path,
                        language: inferred_language(path),
                        segments: Seq::empty(),
                    },
                )
            };
            let f = files1[pos];
            if f.segments.len() >= cfg.max_segments_per_file {
                PackState { files: files1, truncated: true, ..st }
            } else {
                match content {
                    None => PackState { files: files1, truncated: true, ..st },
                    Some(c) => match utf16_slice(c, item.chunk.start_utf16, item.chunk.end_utf16) {
                        None => PackState { files: files1, truncated: true, ..st },
                        Some(text) => {
                            let units = utf16_units(text) as u32;
                            if st.total.saturating_add(units) > cfg.max_total_chars {
                                PackState { files: files1, truncated: true, stopped: true, ..st }
                            } else {
                                PackState {
                                    files: files1.update(
                                        pos,
                                        PackedFileView {
                                            segments: f.segments.push(segment_of(item, text)),
                                            ..f
                                        },
                                    ),
                                    total: (if st.total + units > u32::MAX {
                                        st.total + units - 0x1_0000_0000
                                    } else {
                                        st.total + units
                                    }) as u32,
                                    ..st
                                }
                            }
                        },
                    },
                }
            }
        }
    }
}

/// The state after offering the first `n` chunks.
pub open spec fn pack_prefix(
    items: Seq<ScoredChunkView>,
    contents: Seq<Option<Seq<char>>>,
    cfg: PackConfig,
    n: nat,
) -> PackState
    decreases n,
{
    if n == 0 {
        PackState { files: Seq::empty(), total: 0, truncated: false, stopped: false }
    } else {
        pack_step(
            pack_prefix(items, contents, cfg, (n - 1) as nat),
            items[n - 1],
            contents[n - 1],
            cfg,
        )
    }
}

/// The views of scored chunks.
pub open spec fn scored_views(items: Seq<ScoredChunk>) -> Seq<ScoredChunkView> {
    items.map_values(|c: ScoredChunk| c@)
}

/// The texts of optional file contents.
pub open spec fn contents_view(contents: Seq<Option<String>>) -> Seq<Option<Seq<char>>> {
    contents.map_values(|c: Option<String>| opt_view(c))
}

/// What holds of every pack state: files in strictly increasing path order,
/// no more than `max_files` of them, none with more than
/// `max_segments_per_file` segments, each labelled with the language of its
/// path, and no more than `max_total_chars` units packed.
pub open spec fn pack_state_wf(st: PackState, cfg: PackConfig) -> bool {
    &&& forall|i: int, j: int|
        0 <= i < j < st.files.len() ==> chars_lt(#[trigger] st.files[i].path, #[trigger] st.files[j].path)
    &&& st.files.len() <= cfg.max_files
    &&& forall|i: int|
        0 <= i < st.files.len() ==> #[trigger] st.files[i].segments.len() <= cfg.max_segments_per_file
    &&& forall|i: int|
        0 <= i < st.files.len() ==> #[trigger] st.files[i].language == inferred_language(st.files[i].path)
    &&& st.total <= cfg.max_total_chars
}

proof fn lemma_file_pos(files: Seq<PackedFileView>, path: Seq<char>)
    requires
        forall|i: int, j: int|
            0 <= i < j < files.len() ==> chars_lt(#[trigger] files[i].path, #[trigger] files[j].path),
    ensures
        0 <= file_pos(files, path) <= files.len(),
        forall|i: int| 0 <= i < file_pos(files, path) ==> chars_lt(#[trigger] files[i].path, path),
        forall|i: int|
            file_pos(files, path) <= i < files.len() ==> !chars_lt(#[trigger] files[i].path, path),
    decreases files.len(),
{
    if files.len() > 0 {
        let rest = files.drop_first();
        lemma_file_pos(rest, path);
        if chars_lt(files[0].path, path) {
            assert forall|i: int| 0 <= i < file_pos(files, path) implies chars_lt(
                #[trigger] files[i].path,
                path,
            ) by {
                if i > 0 {
                    assert(files[i] == rest[i - 1]);
                }
            }
            assert forall|i: int| file_pos(files, path) <= i < files.len() implies !chars_lt(
                #[trigger] files[i].path,
                path,
            ) by {
                assert(files[i] == rest[i - 1]);
            }
        } else {
            assert forall|i: int| 0 <= i < files.len() implies !chars_lt(
                #[trigger] files[i].path,
                path,
            ) by {
                if i > 0 && chars_lt(files[i].path, path) {
                    lemma_chars_lt_total(files[0].path, path);
                    if files[0].path == path {
                        lemma_chars_lt_asymmetric(files[0].path, files[i].path);
                    } else {
                        lemma_chars_lt_transitive(path, files[0].path, files[i].path);
                        lemma_chars_lt_asymmetric(path, files[i].path);
                    }
                }
            }
        }
    }
}

/// Every pack step keeps the pack well formed.
pub proof fn lemma_pack_step_wf(
    st: PackState,
    item: ScoredChunkView,
    content: Option<Seq<char>>,
    cfg: PackConfig,
)
    requires
        pack_state_wf(st, cfg),
    ensures
        pack_state_wf(pack_step(st, item, content, cfg), cfg),
{
    if !st.stopped {
        let path = item.chunk.file_path;
        lemma_file_pos(st.files, path);
        let pos = file_pos(st.files, path);
        let present = pos < st.files.len() && st.files[pos].path == path;
        if !(!present && st.files.len() >= cfg.max_files) {
            let files1 = if present {
                st.files
            } else {
                st.files.insert(
                    pos,
                    PackedFileView {
                        path,
                        language: inferred_language(path),
                        segments: Seq::empty(),
                    },
                )
            };
            if !present {
                assert forall|i: int, j: int|
                    0 <= i < j < files1.len() implies chars_lt(
                    #[trigger] files1[i].path,
                    #[trigger] files1[j].path,
                ) by {
                    if pos < st.files.len() {
                        lemma_chars_lt_total(st.files[pos].path, path);
                    }
                    if i < pos && j == pos {
                    } else if i == pos && j > pos {
                        assert(files1[j] == st.files[j - 1]);
                        if j - 1 > pos {
                            lemma_chars_lt_transitive(path, st.files[pos].path, st.files[j - 1].path);
                        }
                    } else if i < pos && j > pos {
                        assert(files1[j] == st.files[j - 1]);
                        assert(files1[i] == st.files[i]);
                    } else if i > pos {
                        assert(files1[j] == st.files[j - 1]);
                        assert(files1[i] == st.files[i - 1]);
                    } else {
                        assert(files1[j] == st.files[j]);
                        assert(files1[i] == st.files[i]);
                    }
                }
                assert forall|i: int| 0 <= i < files1.len() implies #[trigger] files1[i].segments.len()
                    <= cfg.max_segments_per_file && files1[i].language == inferred_language(
                    files1[i].path,
                ) by {
                    if i < pos {
                        assert(files1[i] == st.files[i]);
                    } else if i > pos {
                        assert(files1[i] == st.files[i - 1]);
                    }
                }
            }
            let f = files1[pos];
            if f.segments.len() < cfg.max_segments_per_file {
                if let Some(c) = content {
                    if let Some(text) = utf16_slice(c, item.chunk.start_utf16, item.chunk.end_utf16) {
                        let units = utf16_units(text) as u32;
                        if st.total.saturating_add(units) <= cfg.max_total_chars {
                            let nf = PackedFileView {
                                segments: f.segments.push(segment_of(item, text)),
                                ..f
                            };
                            let files2 = files1.update(pos, nf);
                            assert forall|i: int, j: int|
                                0 <= i < j < files2.len() implies chars_lt(
                                #[trigger] files2[i].path,
                                #[trigger] files2[j].path,
                            ) by {
                                assert(files1[i].path == files2[i].path);
                                assert(files1[j].path == files2[j].path);
                            }
                            assert forall|i: int| 0 <= i < files2.len() implies #[trigger] files2[i].segments.len()
                                <= cfg.max_segments_per_file && files2[i].language
                                == inferred_language(files2[i].path) by {
                                if i != pos {
                                    assert(files2[i] == files1[i]);
                                }
                            }
                        }
                    }
                }
            }
        }
    }
}

/// Every state that packing reaches is well formed.
pub proof fn lemma_pack_prefix_wf(
    items: Seq<ScoredChunkView>,
    contents: Seq<Option<Seq<char>>>,
    cfg: PackConfig,
    n: nat,
)
    requires
        n <= items.len(),
        n <= contents.len(),
    ensures
        pack_state_wf(pack_prefix(items, contents, cfg, n), cfg),
    decreases n,
{
    if n > 0 {
        lemma_pack_prefix_wf(items, contents, cfg, (n - 1) as nat);
        lemma_pack_step_wf(
            pack_prefix(items, contents, cfg, (n - 1) as nat),
            items[n - 1],
            contents[n - 1],
            cfg,
        );
    }
}


/// Once packing has stopped, later chunks change nothing.
proof fn lemma_pack_prefix_stopped(
    items: Seq<ScoredChunkView>,
    contents: Seq<Option<Seq<char>>>,
    cfg: PackConfig,
    n: nat,
    m: nat,
)
    requires
        n <= m,
        pack_prefix(items, contents, cfg, n).stopped,
    ensures
        pack_prefix(items, contents, cfg, m) == pack_prefix(items, contents, cfg, n),
    decreases m - n,
{
    if m > n {
        lemma_pack_prefix_stopped(items, contents, cfg, n, (m - 1) as nat);
    }
}

/// The mathematical content of a [`RetrievalPack`].
pub struct RetrievalPackView {
    pub files: Seq<PackedFileView>,
    pub char_count: u32,
    pub truncated: bool,
}

impl View for RetrievalPack {
    type V = RetrievalPackView;

    open spec fn view(&self) -> RetrievalPackView {
        RetrievalPackView {
            files: files_view(self.files@),
            char_count: self.char_count,
            truncated: self.truncated,
        }
    }
}

/// The pack made from `items`, offered in order (see [`pack_step`]).
pub open spec fn pack_result(
    items: Seq<ScoredChunkView>,
    contents: Seq<Option<Seq<char>>>,
    cfg: PackConfig,
) -> RetrievalPackView {
    let st = pack_prefix(items, contents, cfg, items.len());
    RetrievalPackView { files: st.files, char_count: st.total, truncated: st.truncated }
}

/// A pack has its files in strictly increasing path order, at most
/// `max_files` of them, at most `max_segments_per_file` segments in each, each
/// labelled with the language of its path, and at most `max_total_chars`
/// UTF-16 units in all.
pub proof fn lemma_pack_result_within_limits(
    items: Seq<ScoredChunkView>,
    contents: Seq<Option<Seq<char>>>,
    cfg: PackConfig,
)
    requires
        items.len() == contents.len(),
    ensures
        ({
            let pack = pack_result(items, contents, cfg);
            &&& forall|i: int, j: int|
                0 <= i < j < pack.files.len() ==> chars_lt(
                    #[trigger] pack.files[i].path,
                    #[trigger] pack.files[j].path,
                )
            &&& pack.files.len() <= cfg.max_files
            &&& forall|i: int|
                0 <= i < pack.files.len() ==> #[trigger] pack.files[i].segments.len()
                    <= cfg.max_segments_per_file
            &&& forall|i: int|
                0 <= i < pack.files.len() ==> #[trigger] pack.files[i].language == inferred_language(
                    pack.files[i].path,
                )
            &&& pack.char_count <= cfg.max_total_chars
        }),
{
    lemma_pack_prefix_wf(items, contents, cfg, items.len());
}

// ---------------------------------------------------------------------------
// What a pack accounts for
// ---------------------------------------------------------------------------

/// The sum of `w` over packed files.
pub open spec fn sum_files(files: Seq<PackedFileView>, w: spec_fn(PackedFileView) -> int) -> int
    decreases files.len(),
{
    if files.len() == 0 {
        0
    } else {
        sum_files(files.drop_last(), w) + w(files.last())
    }
}

/// The UTF-16 units of a file's segment texts.
pub open spec fn segments_units(segments: Seq<PackedSegmentView>) -> int
    decreases segments.len(),
{
    if segments.len() == 0 {
        0
    } else {
        segments_units(segments.drop_last()) + utf16_units(segments.last().text)
    }
}

/// The number of segments of a pack.
pub open spec fn segment_count(files: Seq<PackedFileView>) -> int {
    sum_files(files, |f: PackedFileView| f.segments.len() as int)
}

/// The UTF-16 units of all segment texts of a pack.
pub open spec fn packed_units(files: Seq<PackedFileView>) -> int {
    sum_files(files, |f: PackedFileView| segments_units(f.segments))
}

proof fn lemma_sum_files_concat(a: Seq<PackedFileView>, b: Seq<PackedFileView>, w: spec_fn(PackedFileView) -> int)
    ensures
        sum_files(a + b, w) == sum_files(a, w) + sum_files(b, w),
    decreases b.len(),
{
    if b.len() == 0 {
        assert(a + b =~= a);
    } else {
        lemma_sum_files_concat(a, b.drop_last(), w);
        assert((a + b).drop_last() =~= a + b.drop_last());
    }
}

proof fn lemma_sum_files_replace(files: Seq<PackedFileView>, pos: int, x: PackedFileView, w: spec_fn(PackedFileView) -> int)
    requires
        0 <= pos < files.len(),
    ensures
        sum_files(files.update(pos, x), w) == sum_files(files, w) - w(files[pos]) + w(x),
{
    let a = files.take(pos);
    let b = files.skip(pos + 1);
    assert(files =~= a + (seq![files[pos]] + b));
    assert(files.update(pos, x) =~= a + (seq![x] + b));
    lemma_sum_files_concat(a, seq![files[pos]] + b, w);
    lemma_sum_files_concat(seq![files[pos]], b, w);
    lemma_sum_files_concat(a, seq![x] + b, w);
    lemma_sum_files_concat(seq![x], b, w);
    assert(seq![files[pos]].drop_last() =~= Seq::<PackedFileView>::empty());
    assert(seq![x].drop_last() =~= Seq::<PackedFileView>::empty());
}

proof fn lemma_sum_files_insert(files: Seq<PackedFileView>, pos: int, x: PackedFileView, w: spec_fn(PackedFileView) -> int)
    requires
        0 <= pos <= files.len(),
    ensures
        sum_files(files.insert(pos, x), w) == sum_files(files, w) + w(x),
{
    let a = files.take(pos);
    let b = files.skip(pos);
    assert(files =~= a + b);
    assert(files.insert(pos, x) =~= a + (seq![x] + b));
    lemma_sum_files_concat(a, b, w);
    lemma_sum_files_concat(a, seq![x] + b, w);
    lemma_sum_files_concat(seq![x], b, w);
    assert(seq![x].drop_last() =~= Seq::<PackedFileView>::empty());
    assert(seq![x].last() == x);
    assert(sum_files(Seq::<PackedFileView>::empty(), w) == 0);
    assert(sum_files(seq![x], w) == sum_files(seq![x].drop_last(), w) + w(seq![x].last()));
    assert(sum_files(seq![x], w) == w(x));
    assert(sum_files(files, w) == sum_files(a, w) + sum_files(b, w));
    assert(sum_files(files.insert(pos, x), w) == sum_files(a, w) + (w(x) + sum_files(b, w)));
}

/// Whether segment `s` of the file at `path` is what chunk `j < n` of the
/// offered ones becomes: a chunk of that file, whose offsets cut `s`'s text
/// out of the file's stored text.
pub open spec fn segment_from_items(
    path: Seq<char>,
    s: PackedSegmentView,
    items: Seq<ScoredChunkView>,
    contents: Seq<Option<Seq<char>>>,
    n: nat,
) -> bool {
    exists|j: int|
        0 <= j < n && (#[trigger] items[j]).chunk.file_path == path && contents[j] is Some
            && utf16_slice(contents[j]->0, items[j].chunk.start_utf16, items[j].chunk.end_utf16)
            == Some(s.text) && s == segment_of(items[j], s.text)
}

/// What pack states account for after `n` offers.
pub open spec fn pack_accounts(
    st: PackState,
    items: Seq<ScoredChunkView>,
    contents: Seq<Option<Seq<char>>>,
    n: nat,
) -> bool {
    &&& st.stopped ==> st.truncated
    &&& 0 <= segment_count(st.files) <= n
    &&& st.truncated <==> segment_count(st.files) < n
    &&& st.total == packed_units(st.files)
    &&& forall|i: int, t: int|
        0 <= i < st.files.len() && 0 <= t < st.files[i].segments.len() ==> segment_from_items(
            st.files[i].path,
            #[trigger] st.files[i].segments[t],
            items,
            contents,
            n,
        )
}

proof fn lemma_pack_prefix_accounts(
    items: Seq<ScoredChunkView>,
    contents: Seq<Option<Seq<char>>>,
    cfg: PackConfig,
    n: nat,
)
    requires
        items.len() == contents.len(),
        n <= items.len(),
        cfg.max_total_chars < u32::MAX,
        forall|j: int| 0 <= j < contents.len() ==> (#[trigger] contents[j] matches Some(c)
            ==> utf16_units(c) <= u32::MAX),
    ensures
        pack_accounts(pack_prefix(items, contents, cfg, n), items, contents, n),
    decreases n,
{
    if n == 0 {
        let st = pack_prefix(items, contents, cfg, n);
        assert(st.files.len() == 0);
    } else {
        let m = (n - 1) as nat;
        lemma_pack_prefix_accounts(items, contents, cfg, m);
        lemma_pack_prefix_wf(items, contents, cfg, m);
        let st = pack_prefix(items, contents, cfg, m);
        let item = items[m as int];
        let content = contents[m as int];
        let r = pack_prefix(items, contents, cfg, n);
        assert(r == pack_step(st, item, content, cfg));
        let wc = |f: PackedFileView| f.segments.len() as int;
        let wu = |f: PackedFileView| segments_units(f.segments);
        assert forall|i: int, t: int|
            0 <= i < st.files.len() && 0 <= t < st.files[i].segments.len() implies segment_from_items(
                st.files[i].path,
                #[trigger] st.files[i].segments[t],
                items,
                contents,
                n,
            ) by {
            assert(segment_from_items(st.files[i].path, st.files[i].segments[t], items, contents, m));
            let j = choose|j: int|
                0 <= j < m && (#[trigger] items[j]).chunk.file_path == st.files[i].path
                    && contents[j] is Some && utf16_slice(
                    contents[j]->0,
                    items[j].chunk.start_utf16,
                    items[j].chunk.end_utf16,
                ) == Some(st.files[i].segments[t].text) && st.files[i].segments[t] == segment_of(
                    items[j],
                    st.files[i].segments[t].text,
                );
            assert(0 <= j < n && items[j].chunk.file_path == st.files[i].path);
        }
        if !st.stopped {
            let path = item.chunk.file_path;
            lemma_file_pos(st.files, path);
            let pos = file_pos(st.files, path);
            let present = pos < st.files.len() && st.files[pos].path == path;
            if !present && st.files.len() >= cfg.max_files {
                assert(r.files == st.files);
            } else {
                let newf = PackedFileView {
                    path,
                    language: inferred_language(path),
                    segments: Seq::empty(),
                };
                let files1 = if present {
                    st.files
                } else {
                    st.files.insert(pos, newf)
                };
                if !present {
                    lemma_sum_files_insert(st.files, pos, newf, wc);
                    lemma_sum_files_insert(st.files, pos, newf, wu);
                    assert(segments_units(newf.segments) == 0);
                }
                assert(sum_files(files1, wc) == sum_files(st.files, wc));
                assert(sum_files(files1, wu) == sum_files(st.files, wu));
                assert forall|i: int, t: int|
                    0 <= i < files1.len() && 0 <= t < files1[i].segments.len() implies segment_from_items(
                        files1[i].path,
                        #[trigger] files1[i].segments[t],
                        items,
                        contents,
                        n,
                    ) by {
                    if !present {
                        if i < pos {
                            assert(files1[i] == st.files[i]);
                        } else if i > pos {
                            assert(files1[i] == st.files[i - 1]);
                        }
                    }
                }
                let f = files1[pos];
                if f.segments.len() >= cfg.max_segments_per_file {
                    assert(r.files == files1);
                } else {
                    match content {
                        None => {
                            assert(r.files == files1);
                        },
                        Some(c) => match utf16_slice(c, item.chunk.start_utf16, item.chunk.end_utf16) {
                            None => {
                                assert(r.files == files1);
                            },
                            Some(text) => {
                                lemma_utf16_slice_units(c, item.chunk.start_utf16, item.chunk.end_utf16);
                                let units = utf16_units(text) as u32;
                                assert(units == utf16_units(text));
                                if st.total.saturating_add(units) > cfg.max_total_chars {
                                    assert(r.files == files1);
                                } else {
                                    let seg = segment_of(item, text);
                                    let f2 = PackedFileView { segments: f.segments.push(seg), ..f };
                                    assert(r.files == files1.update(pos, f2));
                                    lemma_sum_files_replace(files1, pos, f2, wc);
                                    lemma_sum_files_replace(files1, pos, f2, wu);
                                    assert(f2.segments.drop_last() =~= f.segments);
                                    assert(segments_units(f2.segments) == segments_units(f.segments)
                                        + utf16_units(text));
                                    assert(r.total == st.total + units);
                                    assert forall|i: int, t: int|
                                        0 <= i < r.files.len() && 0 <= t < r.files[i].segments.len()
                                            implies segment_from_items(
                                            r.files[i].path,
                                            #[trigger] r.files[i].segments[t],
                                            items,
                                            contents,
                                            n,
                                        ) by {
                                        if i != pos {
                                            assert(r.files[i] == files1[i]);
                                        } else if t < f.segments.len() {
                                            assert(r.files[i].segments[t] == files1[i].segments[t]);
                                        } else {
                                            assert(r.files[i].segments[t] == seg);
                                            assert(items[m as int].chunk.file_path == r.files[i].path);
                                        }
                                    }
                                }
                            },
                        },
                    }
                }
            }
        }
    }
}

/// A pack accounts for the chunks offered to it (when the budget is below
/// `u32::MAX` and each stored text has at most `u32::MAX` UTF-16 units): its
/// character count is the sum of its segments' UTF-16 lengths; each segment
/// is the segment of an offered chunk of that file, its text cut out of the
/// file's stored text at the chunk's offsets; and the pack is truncated
/// exactly when it holds fewer segments than chunks were offered.
pub proof fn lemma_pack_result_accounts(
    items: Seq<ScoredChunkView>,
    contents: Seq<Option<Seq<char>>>,
    cfg: PackConfig,
)
    requires
        items.len() == contents.len(),
        cfg.max_total_chars < u32::MAX,
        forall|j: int| 0 <= j < contents.len() ==> (#[trigger] contents[j] matches Some(c)
            ==> utf16_units(c) <= u32::MAX),
    ensures
        ({
            let pack = pack_result(items, contents, cfg);
            &&& pack.char_count == packed_units(pack.files)
            &&& !pack.truncated <==> segment_count(pack.files) == items.len()
            &&& forall|i: int, t: int|
                0 <= i < pack.files.len() && 0 <= t < pack.files[i].segments.len()
                    ==> segment_from_items(
                    pack.files[i].path,
                    #[trigger] pack.files[i].segments[t],
                    items,
                    contents,
                    items.len(),
                )
        }),
{
    lemma_pack_prefix_accounts(items, contents, cfg, items.len());
}

/// Whether segment `s` of the file at `path` was cut from one of the first `n`
/// offered chunks: a chunk of that file whose stored text is present, whose
/// lines, offsets, breadcrumb and score the segment carries, and whose offsets
/// cut the segment's text out of the stored text.
pub open spec fn cut_from_chunk(
    path: Seq<char>,
    s: PackedSegmentView,
    items: Seq<ScoredChunkView>,
    contents: Seq<Option<Seq<char>>>,
    n: nat,
) -> bool {
    exists|j: int|
        0 <= j < n && (#[trigger] items[j]).chunk.file_path == path && contents[j] is Some
            && s.start_line == items[j].chunk.start_line && s.end_line == items[j].chunk.end_line
            && s.start_utf16 == items[j].chunk.start_utf16 && s.end_utf16 == items[j].chunk.end_utf16
            && s.breadcrumb == items[j].chunk.breadcrumb && s.score_bits == Some(items[j].score_bits)
            && utf16_slice(contents[j]->0, items[j].chunk.start_utf16, items[j].chunk.end_utf16)
            == Some(s.text)
}

proof fn lemma_pack_prefix_cut(
    items: Seq<ScoredChunkView>,
    contents: Seq<Option<Seq<char>>>,
    cfg: PackConfig,
    n: nat,
)
    requires
        items.len() == contents.len(),
        n <= items.len(),
    ensures
        forall|i: int, t: int|
            0 <= i < pack_prefix(items, contents, cfg, n).files.len() && 0 <= t < pack_prefix(
                items,
                contents,
                cfg,
                n,
            ).files[i].segments.len() ==> cut_from_chunk(
                pack_prefix(items, contents, cfg, n).files[i].path,
                #[trigger] pack_prefix(items, contents, cfg, n).files[i].segments[t],
                items,
                contents,
                n,
            ),
    decreases n,
{
    if n > 0 {
        let m = (n - 1) as nat;
        lemma_pack_prefix_cut(items, contents, cfg, m);
        lemma_pack_prefix_wf(items, contents, cfg, m);
        let st = pack_prefix(items, contents, cfg, m);
        let item = items[m as int];
        let content = contents[m as int];
        let r = pack_prefix(items, contents, cfg, n);
        assert(r == pack_step(st, item, content, cfg));
        assert forall|i: int, t: int|
            0 <= i < st.files.len() && 0 <= t < st.files[i].segments.len() implies cut_from_chunk(
                st.files[i].path,
                #[trigger] st.files[i].segments[t],
                items,
                contents,
                n,
            ) by {
            assert(cut_from_chunk(st.files[i].path, st.files[i].segments[t], items, contents, m));
            let j = choose|j: int|
                0 <= j < m && (#[trigger] items[j]).chunk.file_path == st.files[i].path
                    && contents[j] is Some && st.files[i].segments[t].start_line
                    == items[j].chunk.start_line && st.files[i].segments[t].end_line
                    == items[j].chunk.end_line && st.files[i].segments[t].start_utf16
                    == items[j].chunk.start_utf16 && st.files[i].segments[t].end_utf16
                    == items[j].chunk.end_utf16 && st.files[i].segments[t].breadcrumb
                    == items[j].chunk.breadcrumb && st.files[i].segments[t].score_bits == Some(
                    items[j].score_bits,
                ) && utf16_slice(contents[j]->0, items[j].chunk.start_utf16, items[j].chunk.end_utf16)
                    == Some(st.files[i].segments[t].text);
            assert(0 <= j < n);
        }
        if !st.stopped {
            let path = item.chunk.file_path;
            lemma_file_pos(st.files, path);
            let pos = file_pos(st.files, path);
            let present = pos < st.files.len() && st.files[pos].path == path;
            if !(!present && st.files.len() >= cfg.max_files) {
                let newf = PackedFileView {
                    path,
                    language: inferred_language(path),
                    segments: Seq::empty(),
                };
                let files1 = if present {
                    st.files
                } else {
                    st.files.insert(pos, newf)
                };
                assert forall|i: int, t: int|
                    0 <= i < files1.len() && 0 <= t < files1[i].segments.len() implies cut_from_chunk(
                        files1[i].path,
                        #[trigger] files1[i].segments[t],
                        items,
                        contents,
                        n,
                    ) by {
                    if !present {
                        if i < pos {
                            assert(files1[i] == st.files[i]);
                        } else if i > pos {
                            assert(files1[i] == st.files[i - 1]);
                        }
                    }
                }
                let f = files1[pos];
                if f.segments.len() < cfg.max_segments_per_file {
                    if let Some(c) = content {
                        if let Some(text) = utf16_slice(c, item.chunk.start_utf16, item.chunk.end_utf16) {
                            let units = utf16_units(text) as u32;
                            if !(st.total.saturating_add(units) > cfg.max_total_chars) {
                                let seg = segment_of(item, text);
                                let f2 = PackedFileView { segments: f.segments.push(seg), ..f };
                                assert(r.files == files1.update(pos, f2));
                                assert forall|i: int, t: int|
                                    0 <= i < r.files.len() && 0 <= t < r.files[i].segments.len()
                                        implies cut_from_chunk(
                                        r.files[i].path,
                                        #[trigger] r.files[i].segments[t],
                                        items,
                                        contents,
                                        n,
                                    ) by {
                                    if i != pos {
                                        assert(r.files[i] == files1[i]);
                                    } else if t < f.segments.len() {
                                        assert(r.files[i].segments[t] == files1[i].segments[t]);
                                    } else {
                                        assert(r.files[i].segments[t] == seg);
                                        assert(items[m as int].chunk.file_path == r.files[i].path);
                                    }
                                }
                            }
                        }
                    }
                }
            }
        }
    }
}

/// Every packed segment is cut from an offered chunk of its file: it has that
/// chunk's first and last line, UTF-16 offsets, breadcrumb and score, and its
/// text is the part of the file's stored text between those offsets.
pub proof fn lemma_pack_segments_keep_chunk_fields(
    items: Seq<ScoredChunkView>,
    contents: Seq<Option<Seq<char>>>,
    cfg: PackConfig,
)
    requires
        items.len() == contents.len(),
    ensures
        forall|i: int, t: int|
            0 <= i < pack_result(items, contents, cfg).files.len() && 0 <= t < pack_result(
                items,
                contents,
                cfg,
            ).files[i].segments.len() ==> exists|j: int|
                0 <= j < items.len() && (#[trigger] items[j]).chunk.file_path == pack_result(
                    items,
                    contents,
                    cfg,
                ).files[i].path && contents[j] is Some && (#[trigger] pack_result(
                    items,
                    contents,
                    cfg,
                ).files[i].segments[t]).start_line == items[j].chunk.start_line
                    && pack_result(items, contents, cfg).files[i].segments[t].end_line
                    == items[j].chunk.end_line && pack_result(items, contents, cfg).files[i].segments[t].start_utf16
                    == items[j].chunk.start_utf16 && pack_result(items, contents, cfg).files[i].segments[t].end_utf16
                    == items[j].chunk.end_utf16 && pack_result(items, contents, cfg).files[i].segments[t].breadcrumb
                    == items[j].chunk.breadcrumb && pack_result(items, contents, cfg).files[i].segments[t].score_bits
                    == Some(items[j].score_bits) && utf16_slice(
                    contents[j]->0,
                    items[j].chunk.start_utf16,
                    items[j].chunk.end_utf16,
                ) == Some(pack_result(items, contents, cfg).files[i].segments[t].text),
{
    lemma_pack_prefix_cut(items, contents, cfg, items.len());
}

/// Whether every file of a pack is the file of one of the first `n` offered
/// chunks.
pub open spec fn files_from_items(files: Seq<PackedFileView>, items: Seq<ScoredChunkView>, n: nat) -> bool {
    forall|i: int|
        0 <= i < files.len() ==> exists|j: int|
            0 <= j < n && (#[trigger] items[j]).chunk.file_path == (#[trigger] files[i]).path
}

proof fn lemma_pack_prefix_paths(
    items: Seq<ScoredChunkView>,
    contents: Seq<Option<Seq<char>>>,
    cfg: PackConfig,
    n: nat,
)
    requires
        items.len() == contents.len(),
        n <= items.len(),
    ensures
        files_from_items(pack_prefix(items, contents, cfg, n).files, items, n),
    decreases n,
{
    if n > 0 {
        let m = (n - 1) as nat;
        lemma_pack_prefix_paths(items, contents, cfg, m);
        lemma_pack_prefix_wf(items, contents, cfg, m);
        let st = pack_prefix(items, contents, cfg, m);
        let item = items[m as int];
        let r = pack_prefix(items, contents, cfg, n);
        assert(r == pack_step(st, item, contents[m as int], cfg));
        if !st.stopped {
            lemma_file_pos(st.files, item.chunk.file_path);
        }
        assert forall|i: int| 0 <= i < r.files.len() implies exists|j: int|
            0 <= j < n && (#[trigger] items[j]).chunk.file_path == (#[trigger] r.files[i]).path by {
            if exists|k: int| 0 <= k < st.files.len() && st.files[k].path == r.files[i].path {
                let k = choose|k: int| 0 <= k < st.files.len() && st.files[k].path == r.files[i].path;
                let j = choose|j: int| 0 <= j < m && (#[trigger] items[j]).chunk.file_path == (
                #[trigger] st.files[k]).path;
                assert(items[j].chunk.file_path == r.files[i].path);
            } else {
                assert(items[m as int].chunk.file_path == r.files[i].path) by {
                    let path = item.chunk.file_path;
                    let pos = file_pos(st.files, path);
                    let present = pos < st.files.len() && st.files[pos].path == path;
                    if !present && st.files.len() < cfg.max_files {
                        let files1 = st.files.insert(
                            pos,
                            PackedFileView {
                                path,
                                language: inferred_language(path),
                                segments: Seq::empty(),
                            },
                        );
                        assert(r.files.len() == files1.len());
                        assert(r.files[i].path == files1[i].path);
                        if i < pos {
                            assert(files1[i] == st.files[i]);
                        } else if i > pos {
                            assert(files1[i] == st.files[i - 1]);
                        }
                    } else if present {
                        assert(r.files.len() == st.files.len());
                        assert(r.files[i].path == st.files[i].path);
                    } else {
                        assert(r.files == st.files);
                    }
                }
            }
        }
    }
}

/// Packing opens files only for the chunks offered to it: every file of a
/// pack is the file of an offered chunk. So when every offered chunk's path
/// passes a filter (such as a request's globs and languages), every packed
/// file's path does too.
pub proof fn lemma_pack_files_come_from_items(
    items: Seq<ScoredChunkView>,
    contents: Seq<Option<Seq<char>>>,
    cfg: PackConfig,
    passes: spec_fn(Seq<char>) -> bool,
)
    requires
        items.len() == contents.len(),
    ensures
        files_from_items(pack_result(items, contents, cfg).files, items, items.len()),
        (forall|j: int| 0 <= j < items.len() ==> passes(#[trigger] items[j].chunk.file_path))
            ==> forall|i: int|
            0 <= i < pack_result(items, contents, cfg).files.len() ==> passes(
                #[trigger] pack_result(items, contents, cfg).files[i].path,
            ),
{
    lemma_pack_prefix_paths(items, contents, cfg, items.len());
    let files = pack_result(items, contents, cfg).files;
    if forall|j: int| 0 <= j < items.len() ==> passes(#[trigger] items[j].chunk.file_path) {
        assert forall|i: int| 0 <= i < files.len() implies passes(#[trigger] files[i].path) by {
            let j = choose|j: int|
                0 <= j < items.len() && (#[trigger] items[j]).chunk.file_path == (
                #[trigger] files[i]).path;
        }
    }
}

/// Position of `path` among `files` (see [`file_pos`]).
fn find_file_pos(files: &Vec<PackedFile>, path: &[char]) -> (pos: usize)
    ensures
        pos == file_pos(files_view(files@), path@),
        pos <= files.len(),
{
    let ghost fv = files_view(files@);
    let mut i: usize = 0;
    assert(fv.skip(0) =~= fv);
    while i < files.len() && chars_less(chars_of(files[i].path.as_str()).as_slice(), path)
        invariant
            0 <= i <= files.len(),
            fv == files_view(files@),
            file_pos(fv, path@) == i + file_pos(fv.skip(i as int), path@),
        decreases files.len() - i,
    {
        assert(fv.skip(i as int).drop_first() =~= fv.skip(i + 1));
        assert(fv.skip(i as int)[0] == fv[i as int]);
        i = i + 1;
    }
    if i < files.len() {
        assert(fv.skip(i as int)[0] == fv[i as int]);
    }
    i
}

/// Offers one chunk to the pack (see [`pack_step`]); returns whether packing
/// has stopped.
fn pack_one(
    files: &mut Vec<PackedFile>,
    total: &mut u32,
    truncated: &mut bool,
    item: &ScoredChunk,
    content: &Option<String>,
    config: &PackConfig,
) -> (stopped: bool)
    requires
        content matches Some(c) ==> utf16_units(c@) <= usize::MAX,
    ensures
        ({
            let st = PackState {
                files: files_view(old(files)@),
                total: *old(total),
                truncated: *old(truncated),
                stopped: false,
            };
            let next = pack_step(st, item@, opt_view(*content), *config);
            &&& files_view(final(files)@) == next.files
            &&& *final(total) == next.total
            &&& *final(truncated) == next.truncated
            &&& stopped == next.stopped
        }),
{
    let ghost fv0 = files_view(files@);
    let path = chars_of(item.chunk.file_path.as_str());
    let pos = find_file_pos(files, path.as_slice());
    let present = pos < files.len() && str_eq(files[pos].path.as_str(), item.chunk.file_path.as_str());
    assert(present == (pos < fv0.len() && fv0[pos as int].path == item.chunk.file_path@));
    if !present && files.len() >= config.max_files {
        *truncated = true;
        return false;
    }
    if !present {
        let lang = infer_language(item.chunk.file_path.as_str());
        let entry = PackedFile {
            path: item.chunk.file_path.clone(),
            language: crate::text::owned(lang),
            segments: Vec::new(),
        };
        assert(entry@.segments =~= Seq::<PackedSegmentView>::empty());
        files.insert(pos, entry);
        assert(files_view(files@) =~= fv0.insert(pos as int, entry@));
    }
    let ghost fv1 = files_view(files@);
    assert(fv1[pos as int] == files@[pos as int]@);
    if files[pos].segments.len() >= config.max_segments_per_file {
        *truncated = true;
        return false;
    }
    match content {
        None => {
            *truncated = true;
            false
        },
        Some(c) => {
            let cc = chars_of(c.as_str());
            match slice_utf16(cc.as_slice(), item.chunk.start_utf16, item.chunk.end_utf16) {
                None => {
                    *truncated = true;
                    false
                },
                Some(text) => {
                    proof {
                        lemma_utf16_units_bounds(text@);
                        lemma_utf16_units_bounds(c@);
                    }
                    proof {
                        lemma_utf16_slice_units(c@, item.chunk.start_utf16, item.chunk.end_utf16);
                    }
                    let units = utf16_len_chars(text.as_slice()) as u32;
                    let t0: u32 = *total;
                    if t0.saturating_add(units) > config.max_total_chars {
                        *truncated = true;
                        return true;
                    }
                    *total = t0.wrapping_add(units);
                    let breadcrumb = match &item.chunk.breadcrumb {
                        Some(b) => Some(b.clone()),
                        None => None,
                    };
                    let seg = PackedSegment {
                        start_line: item.chunk.start_line,
                        end_line: item.chunk.end_line,
                        start_utf16: item.chunk.start_utf16,
                        end_utf16: item.chunk.end_utf16,
                        breadcrumb,
                        text: string_from_chars(text.as_slice()),
                        score_bits: Some(item.score_bits),
                    };
                    let mut f = files.remove(pos);
                    let ghost old_segs = f.segments@;
                    f.segments.push(seg);
                    assert(f@.segments =~= fv1[pos as int].segments.push(seg@));
                    files.insert(pos, f);
                    assert(files_view(files@) =~= fv1.update(
                        pos as int,
                        PackedFileView { segments: fv1[pos as int].segments.push(seg@), ..fv1[pos as int] },
                    ));
                    false
                },
            }
        },
    }
}

/// Packs scored chunks, in the order given, into a retrieval pack (see
/// [`pack_result`] and [`pack_step`]). `contents[i]` is the stored text of the
/// file of `items[i]`, or `None` when that file is not stored; each segment's
/// text is cut from it by the chunk's UTF-16 offsets.
pub fn pack_segments(
    items: &[ScoredChunk],
    contents: &[Option<String>],
    config: &PackConfig,
) -> (pack: RetrievalPack)
    requires
        items.len() == contents.len(),
        forall|i: int|
            0 <= i < contents.len() ==> (#[trigger] contents[i] matches Some(c) ==> utf16_units(c@)
                <= usize::MAX),
    ensures
        pack@ == pack_result(scored_views(items@), contents_view(contents@), *config),
{
    let ghost iv = scored_views(items@);
    let ghost cv = contents_view(contents@);
    let mut files: Vec<PackedFile> = Vec::new();
    let mut total: u32 = 0;
    let mut truncated = false;
    let mut i: usize = 0;
    let mut stopped = false;
    assert(files_view(files@) =~= Seq::<PackedFileView>::empty());
    while i < items.len() && !stopped
        invariant
            0 <= i <= items.len(),
            items.len() == contents.len(),
            iv == scored_views(items@),
            cv == contents_view(contents@),
            forall|i: int|
                0 <= i < contents.len() ==> (#[trigger] contents[i] matches Some(c)
                    ==> utf16_units(c@) <= usize::MAX),
            files_view(files@) == pack_prefix(iv, cv, *config, i as nat).files,
            total == pack_prefix(iv, cv, *config, i as nat).total,
            truncated == pack_prefix(iv, cv, *config, i as nat).truncated,
            stopped == pack_prefix(iv, cv, *config, i as nat).stopped,
        decreases items.len() - i,
    {
        stopped = pack_one(&mut files, &mut total, &mut truncated, &items[i], &contents[i], config);
        assert(iv[i as int] == items@[i as int]@);
        assert(cv[i as int] == opt_view(contents@[i as int]));
        i = i + 1;
    }
    proof {
        if stopped {
            lemma_pack_prefix_stopped(iv, cv, *config, i as nat, items.len() as nat);
        }
    }
    RetrievalPack { files, char_count: total, truncated }
}


// ---------------------------------------------------------------------------
// Context expansion
// ---------------------------------------------------------------------------

/// Where the score of an expanded chunk comes from: the seed that is this very
/// chunk (the last such seed, when several are), or half the score of the seed
/// whose neighbourhood brought it in.
#[derive(Debug, Clone, Copy, PartialEq, Eq, Structural)]
pub enum ScoreOrigin {
    Seed(usize),
    Neighbor(usize),
}

/// A chunk brought in by context expansion, with the origin of its score.
#[derive(Debug, Clone, PartialEq, Eq)]
pub struct ExpandedChunk {
    pub chunk: ChunkRecord,
    pub origin: ScoreOrigin,
}

/// The mathematical content of an [`ExpandedChunk`].
pub struct ExpandedChunkView {
    pub chunk: ChunkRecordView,
    pub origin: ScoreOrigin,
}

impl View for ExpandedChunk {
    type V = ExpandedChunkView;

    open spec fn view(&self) -> ExpandedChunkView {
        ExpandedChunkView { chunk: self.chunk@, origin: self.origin }
    }
}

/// The last seed whose chunk has id `id`, among the first `n` seeds.
pub open spec fn last_seed_with_id(seeds: Seq<ScoredChunkView>, id: Seq<char>, n: int) -> Option<int>
    decreases n,
{
    if n <= 0 {
        None
    } else if seeds[n - 1].chunk.id == id {
        Some(n - 1)
    } else {
        last_seed_with_id(seeds, id, n - 1)
    }
}

/// Whether chunk number `index` lies within `radius` chunks of chunk `center`.
pub open spec fn within_radius(index: u32, center: u32, radius: u32) -> bool {
    if index >= center {
        index - center <= radius
    } else {
        center - index <= radius
    }
}

/// Whether some expanded chunk already has id `id`.
pub open spec fn expanded_has_id(out: Seq<ExpandedChunkView>, id: Seq<char>) -> bool {
    exists|i: int| 0 <= i < out.len() && #[trigger] out[i].chunk.id == id
}

/// Offers chunk `c` of seed `j`'s file: it is taken when it lies within the
/// radius of the seed and no chunk with its id was taken before.
pub open spec fn expand_step(
    out: Seq<ExpandedChunkView>,
    seeds: Seq<ScoredChunkView>,
    j: int,
    c: ChunkRecordView,
    radius: u32,
) -> Seq<ExpandedChunkView> {
    if !within_radius(c.chunk_index, seeds[j].chunk.chunk_index, radius) {
        out
    } else if expanded_has_id(out, c.id) {
        out
    } else {
        out.push(
            ExpandedChunkView {
                chunk: c,
                origin: match last_seed_with_id(seeds, c.id, seeds.len() as int) {
                    Some(k) => ScoreOrigin::Seed(k as usize),
                    None => ScoreOrigin::Neighbor(j as usize),
                },
            },
        )
    }
}

/// Offers the first `m` chunks of seed `j`'s file.
pub open spec fn expand_seed(
    out: Seq<ExpandedChunkView>,
    seeds: Seq<ScoredChunkView>,
    j: int,
    file: Seq<ChunkRecordView>,
    radius: u32,
    m: nat,
) -> Seq<ExpandedChunkView>
    decreases m,
{
    if m == 0 {
        out
    } else {
        expand_step(expand_seed(out, seeds, j, file, radius, (m - 1) as nat), seeds, j, file[m - 1], radius)
    }
}

/// The expansion after the first `n` seeds, each with its file's chunks.
pub open spec fn expand_prefix(
    seeds: Seq<ScoredChunkView>,
    files: Seq<Seq<ChunkRecordView>>,
    radius: u32,
    n: nat,
) -> Seq<ExpandedChunkView>
    decreases n,
{
    if n == 0 {
        Seq::empty()
    } else {
        let prev = expand_prefix(seeds, files, radius, (n - 1) as nat);
        expand_seed(prev, seeds, n - 1, files[n - 1], radius, files[n - 1].len())
    }
}

/// Expanded chunks have distinct ids.
pub open spec fn distinct_ids(out: Seq<ExpandedChunkView>) -> bool {
    forall|a: int, b: int| 0 <= a < b < out.len() ==> #[trigger] out[a].chunk.id != #[trigger] out[b].chunk.id
}

proof fn lemma_expand_seed_distinct(
    out: Seq<ExpandedChunkView>,
    seeds: Seq<ScoredChunkView>,
    j: int,
    file: Seq<ChunkRecordView>,
    radius: u32,
    m: nat,
)
    requires
        distinct_ids(out),
        m <= file.len(),
    ensures
        distinct_ids(expand_seed(out, seeds, j, file, radius, m)),
        forall|i: int| 0 <= i < out.len() ==> #[trigger] expand_seed(out, seeds, j, file, radius, m)[i] == out[i],
        out.len() <= expand_seed(out, seeds, j, file, radius, m).len(),
        forall|k: int|
            0 <= k < m && within_radius(file[k].chunk_index, seeds[j].chunk.chunk_index, radius)
                ==> expanded_has_id(expand_seed(out, seeds, j, file, radius, m), #[trigger] file[k].id),
    decreases m,
{
    if m > 0 {
        lemma_expand_seed_distinct(out, seeds, j, file, radius, (m - 1) as nat);
        let prev = expand_seed(out, seeds, j, file, radius, (m - 1) as nat);
        let c = file[m - 1];
        let next = expand_seed(out, seeds, j, file, radius, m);
        assert forall|k: int|
            0 <= k < m && within_radius(file[k].chunk_index, seeds[j].chunk.chunk_index, radius)
                implies expanded_has_id(next, #[trigger] file[k].id) by {
            if k < m - 1 {
                let w = choose|i: int| 0 <= i < prev.len() && #[trigger] prev[i].chunk.id == file[k].id;
                assert(next[w] == prev[w]);
            } else if !expanded_has_id(prev, c.id) {
                assert(next[prev.len() as int].chunk.id == c.id);
            } else {
                let w = choose|i: int| 0 <= i < prev.len() && #[trigger] prev[i].chunk.id == c.id;
                assert(next[w] == prev[w]);
            }
        }
        if within_radius(c.chunk_index, seeds[j].chunk.chunk_index, radius) && !expanded_has_id(prev, c.id) {
            assert forall|a: int, b: int| 0 <= a < b < next.len() implies #[trigger] next[a].chunk.id
                != #[trigger] next[b].chunk.id by {
                if b == prev.len() {
                    assert(next[a] == prev[a]);
                    if prev[a].chunk.id == c.id {
                        assert(expanded_has_id(prev, c.id));
                    }
                } else {
                    assert(next[a] == prev[a]);
                    assert(next[b] == prev[b]);
                }
            }
        }
    }
}

/// Context expansion takes each chunk id at most once, and takes every chunk of
/// each seed's file that lies within the radius of that seed.
pub proof fn lemma_expand_laws(
    seeds: Seq<ScoredChunkView>,
    files: Seq<Seq<ChunkRecordView>>,
    radius: u32,
    n: nat,
)
    requires
        n <= seeds.len(),
        n <= files.len(),
    ensures
        distinct_ids(expand_prefix(seeds, files, radius, n)),
        forall|j: int, k: int|
            0 <= j < n && 0 <= k < files[j].len() && within_radius(
                files[j][k].chunk_index,
                seeds[j].chunk.chunk_index,
                radius,
            ) ==> expanded_has_id(expand_prefix(seeds, files, radius, n), #[trigger] files[j][k].id),
    decreases n,
{
    if n > 0 {
        lemma_expand_laws(seeds, files, radius, (n - 1) as nat);
        let prev = expand_prefix(seeds, files, radius, (n - 1) as nat);
        let file = files[n - 1];
        lemma_expand_seed_distinct(prev, seeds, n - 1, file, radius, file.len());
        let next = expand_prefix(seeds, files, radius, n);
        assert forall|j: int, k: int|
            0 <= j < n && 0 <= k < files[j].len() && within_radius(
                files[j][k].chunk_index,
                seeds[j].chunk.chunk_index,
                radius,
            ) implies expanded_has_id(next, #[trigger] files[j][k].id) by {
            if j < n - 1 {
                let w = choose|i: int| 0 <= i < prev.len() && #[trigger] prev[i].chunk.id == files[j][k].id;
                assert(next[w] == prev[w]);
            }
        }
    }
}

/// The last seed with a given id is one with that id, and no later seed has it.
pub proof fn lemma_last_seed_with_id(seeds: Seq<ScoredChunkView>, id: Seq<char>, n: int)
    requires
        0 <= n <= seeds.len(),
    ensures
        last_seed_with_id(seeds, id, n) matches Some(k) ==> 0 <= k < n && seeds[k].chunk.id == id
            && forall|later: int| k < later < n ==> #[trigger] seeds[later].chunk.id != id,
        last_seed_with_id(seeds, id, n) is None ==> forall|k: int|
            0 <= k < n ==> #[trigger] seeds[k].chunk.id != id,
    decreases n,
{
    if n > 0 {
        lemma_last_seed_with_id(seeds, id, n - 1);
    }
}

/// Whether an expanded chunk's score comes from the right place, after the
/// first `n` seeds: from the last seed that is this very chunk, if any seed
/// is; else from one of those `n` seeds whose neighbour it is.
pub open spec fn origin_fits(seeds: Seq<ScoredChunkView>, e: ExpandedChunkView, n: nat) -> bool {
    match e.origin {
        ScoreOrigin::Seed(k) => last_seed_with_id(seeds, e.chunk.id, seeds.len() as int) == Some(
            k as int,
        ),
        ScoreOrigin::Neighbor(j) => last_seed_with_id(seeds, e.chunk.id, seeds.len() as int) is None
            && j < n,
    }
}

proof fn lemma_expand_seed_origins(
    out: Seq<ExpandedChunkView>,
    seeds: Seq<ScoredChunkView>,
    j: int,
    file: Seq<ChunkRecordView>,
    radius: u32,
    m: nat,
)
    requires
        0 <= j < seeds.len(),
        seeds.len() <= usize::MAX,
        m <= file.len(),
        forall|i: int| 0 <= i < out.len() ==> origin_fits(seeds, #[trigger] out[i], (j + 1) as nat),
    ensures
        forall|i: int|
            0 <= i < expand_seed(out, seeds, j, file, radius, m).len() ==> origin_fits(
                seeds,
                #[trigger] expand_seed(out, seeds, j, file, radius, m)[i],
                (j + 1) as nat,
            ),
    decreases m,
{
    if m > 0 {
        lemma_expand_seed_origins(out, seeds, j, file, radius, (m - 1) as nat);
        let prev = expand_seed(out, seeds, j, file, radius, (m - 1) as nat);
        let next = expand_seed(out, seeds, j, file, radius, m);
        assert forall|i: int| 0 <= i < next.len() implies origin_fits(
            seeds,
            #[trigger] next[i],
            (j + 1) as nat,
        ) by {
            if i < prev.len() {
                assert(next[i] == prev[i]);
            } else {
                lemma_last_seed_with_id(seeds, file[m - 1].id, seeds.len() as int);
            }
        }
    }
}

/// Each expanded chunk that some seed holds gets the score of the last such
/// seed; every other one gets half the score of a seed whose neighbour it is.
pub proof fn lemma_expand_origins(
    seeds: Seq<ScoredChunkView>,
    files: Seq<Seq<ChunkRecordView>>,
    radius: u32,
    n: nat,
)
    requires
        n <= seeds.len(),
        n <= files.len(),
        seeds.len() <= usize::MAX,
    ensures
        forall|i: int|
            0 <= i < expand_prefix(seeds, files, radius, n).len() ==> origin_fits(
                seeds,
                #[trigger] expand_prefix(seeds, files, radius, n)[i],
                n,
            ),
    decreases n,
{
    if n > 0 {
        lemma_expand_origins(seeds, files, radius, (n - 1) as nat);
        let prev = expand_prefix(seeds, files, radius, (n - 1) as nat);
        assert forall|i: int| 0 <= i < prev.len() implies origin_fits(seeds, #[trigger] prev[i], n) by {
            assert(origin_fits(seeds, prev[i], (n - 1) as nat));
        }
        lemma_expand_seed_origins(prev, seeds, n - 1, files[n - 1], radius, files[n - 1].len());
    }
}

/// Whether every expanded chunk is one of the chunks of the files of the
/// first `n` seeds.
pub open spec fn expanded_from_files(
    out: Seq<ExpandedChunkView>,
    files: Seq<Seq<ChunkRecordView>>,
    n: nat,
) -> bool {
    forall|i: int|
        0 <= i < out.len() ==> exists|j: int, k: int|
            0 <= j < n && 0 <= k < files[j].len() && (#[trigger] out[i]).chunk == files[j][k]
}

proof fn lemma_expand_seed_sources(
    out: Seq<ExpandedChunkView>,
    seeds: Seq<ScoredChunkView>,
    j: int,
    files: Seq<Seq<ChunkRecordView>>,
    radius: u32,
    m: nat,
)
    requires
        0 <= j < files.len(),
        m <= files[j].len(),
        expanded_from_files(out, files, (j + 1) as nat),
    ensures
        expanded_from_files(expand_seed(out, seeds, j, files[j], radius, m), files, (j + 1) as nat),
    decreases m,
{
    if m > 0 {
        lemma_expand_seed_sources(out, seeds, j, files, radius, (m - 1) as nat);
        let prev = expand_seed(out, seeds, j, files[j], radius, (m - 1) as nat);
        let next = expand_seed(out, seeds, j, files[j], radius, m);
        assert forall|i: int| 0 <= i < next.len() implies exists|a: int, k: int|
            0 <= a < j + 1 && 0 <= k < files[a].len() && (#[trigger] next[i]).chunk == files[a][k] by {
            if i < prev.len() {
                assert(next[i] == prev[i]);
            } else {
                assert(next[i].chunk == files[j][m - 1]);
            }
        }
    }
}

/// Expansion brings in only chunks of the seeds' files: each expanded chunk
/// is one of the chunks given for some seed's file. So when every chunk given
/// for a seed lies in that seed's file, every expanded chunk lies in the file
/// of a seed, and a filter on paths that every seed passes is passed by every
/// expanded chunk.
pub proof fn lemma_expand_stays_in_seed_files(
    seeds: Seq<ScoredChunkView>,
    files: Seq<Seq<ChunkRecordView>>,
    radius: u32,
    passes: spec_fn(Seq<char>) -> bool,
)
    requires
        seeds.len() == files.len(),
    ensures
        expanded_from_files(expand_prefix(seeds, files, radius, seeds.len()), files, seeds.len()),
        ((forall|j: int, k: int|
            0 <= j < files.len() && 0 <= k < files[j].len() ==> (#[trigger] files[j][k]).file_path
                == seeds[j].chunk.file_path) && (forall|j: int|
            0 <= j < seeds.len() ==> passes(#[trigger] seeds[j].chunk.file_path))) ==> forall|i: int|
            0 <= i < expand_prefix(seeds, files, radius, seeds.len()).len() ==> passes(
                (#[trigger] expand_prefix(seeds, files, radius, seeds.len())[i]).chunk.file_path,
            ),
{
    lemma_expand_prefix_sources(seeds, files, radius, seeds.len());
    let out = expand_prefix(seeds, files, radius, seeds.len());
    if (forall|j: int, k: int|
        0 <= j < files.len() && 0 <= k < files[j].len() ==> (#[trigger] files[j][k]).file_path
            == seeds[j].chunk.file_path) && (forall|j: int|
        0 <= j < seeds.len() ==> passes(#[trigger] seeds[j].chunk.file_path)) {
        assert forall|i: int| 0 <= i < out.len() implies passes((#[trigger] out[i]).chunk.file_path) by {
            let (j, k) = choose|j: int, k: int|
                0 <= j < seeds.len() && 0 <= k < files[j].len() && (#[trigger] out[i]).chunk == files[j][k];
            assert(files[j][k].file_path == seeds[j].chunk.file_path);
            assert(passes(seeds[j].chunk.file_path));
        }
    }
}

proof fn lemma_expand_prefix_sources(
    seeds: Seq<ScoredChunkView>,
    files: Seq<Seq<ChunkRecordView>>,
    radius: u32,
    n: nat,
)
    requires
        n <= files.len(),
    ensures
        expanded_from_files(expand_prefix(seeds, files, radius, n), files, n),
    decreases n,
{
    if n > 0 {
        lemma_expand_prefix_sources(seeds, files, radius, (n - 1) as nat);
        let prev = expand_prefix(seeds, files, radius, (n - 1) as nat);
        assert forall|i: int| 0 <= i < prev.len() implies exists|j: int, k: int|
            0 <= j < n && 0 <= k < files[j].len() && (#[trigger] prev[i]).chunk == files[j][k] by {
            let (j, k) = choose|j: int, k: int|
                0 <= j < n - 1 && 0 <= k < files[j].len() && (#[trigger] prev[i]).chunk == files[j][k];
        }
        lemma_expand_seed_sources(prev, seeds, n - 1, files, radius, files[n - 1].len());
    } else {
        assert(expand_prefix(seeds, files, radius, n).len() == 0);
    }
}

/// The views of chunk lists.
pub open spec fn chunk_lists_view(files: Seq<Vec<ChunkRecord>>) -> Seq<Seq<ChunkRecordView>> {
    files.map_values(|f: Vec<ChunkRecord>| f@.map_values(|c: ChunkRecord| c@))
}

/// The views of expanded chunks.
pub open spec fn expanded_views(out: Seq<ExpandedChunk>) -> Seq<ExpandedChunkView> {
    out.map_values(|e: ExpandedChunk| e@)
}

fn last_seed_index(seeds: &[ScoredChunk], id: &str) -> (r: Option<usize>)
    ensures
        r matches Some(k) ==> last_seed_with_id(scored_views(seeds@), id@, seeds.len() as int) == Some(k as int),
        r is None ==> last_seed_with_id(scored_views(seeds@), id@, seeds.len() as int) is None,
{
    let ghost sv = scored_views(seeds@);
    let mut n = seeds.len();
    while n > 0
        invariant
            0 <= n <= seeds.len(),
            sv == scored_views(seeds@),
            last_seed_with_id(sv, id@, seeds.len() as int) == last_seed_with_id(sv, id@, n as int),
        decreases n,
    {
        assert(sv[n - 1] == seeds@[n - 1]@);
        if str_eq(seeds[n - 1].chunk.id.as_str(), id) {
            return Some(n - 1);
        }
        n = n - 1;
    }
    None
}

fn has_expanded_id(out: &Vec<ExpandedChunk>, id: &str) -> (r: bool)
    ensures
        r == expanded_has_id(expanded_views(out@), id@),
{
    let ghost ov = expanded_views(out@);
    let mut i: usize = 0;
    while i < out.len()
        invariant
            0 <= i <= out.len(),
            ov == expanded_views(out@),
            forall|k: int| 0 <= k < i ==> ov[k].chunk.id != id@,
        decreases out.len() - i,
    {
        assert(ov[i as int] == out@[i as int]@);
        if str_eq(out[i].chunk.id.as_str(), id) {
            assert(ov[i as int].chunk.id == id@);
            assert(expanded_has_id(ov, id@));
            return true;
        }
        i = i + 1;
    }
    false
}

fn is_within_radius(index: u32, center: u32, radius: u32) -> (r: bool)
    ensures
        r == within_radius(index, center, radius),
{
    if index >= center {
        index - center <= radius
    } else {
        center - index <= radius
    }
}

/// Context expansion: for each seed in order, the chunks of its file (in the
/// order given) that lie within `neighbor_radius` chunks of it, each chunk id
/// taken once (see [`expand_prefix`]). `seed_file_chunks[j]` holds the stored
/// chunks of the file of `seeds[j]`. Each result says where its score comes
/// from; [`lemma_expand_laws`] states what follows.
pub fn expand_neighbors(
    seeds: &[ScoredChunk],
    seed_file_chunks: &[Vec<ChunkRecord>],
    neighbor_radius: u32,
) -> (out: Vec<ExpandedChunk>)
    requires
        seeds.len() == seed_file_chunks.len(),
    ensures
        expanded_views(out@) == expand_prefix(
            scored_views(seeds@),
            chunk_lists_view(seed_file_chunks@),
            neighbor_radius,
            seeds.len() as nat,
        ),
{
    let ghost sv = scored_views(seeds@);
    let ghost fv = chunk_lists_view(seed_file_chunks@);
    let mut out: Vec<ExpandedChunk> = Vec::new();
    let mut j: usize = 0;
    assert(expanded_views(out@) =~= Seq::<ExpandedChunkView>::empty());
    while j < seeds.len()
        invariant
            0 <= j <= seeds.len(),
            seeds.len() == seed_file_chunks.len(),
            sv == scored_views(seeds@),
            fv == chunk_lists_view(seed_file_chunks@),
            expanded_views(out@) == expand_prefix(sv, fv, neighbor_radius, j as nat),
        decreases seeds.len() - j,
    {
        let file = &seed_file_chunks[j];
        let ghost file_v = fv[j as int];
        assert(file_v == file@.map_values(|c: ChunkRecord| c@));
        let ghost start = expanded_views(out@);
        let center = seeds[j].chunk.chunk_index;
        assert(sv[j as int].chunk.chunk_index == center);
        let mut m: usize = 0;
        while m < file.len()
            invariant
                0 <= m <= file.len(),
                j < seeds.len(),
                sv == scored_views(seeds@),
                file_v == file@.map_values(|c: ChunkRecord| c@),
                sv[j as int].chunk.chunk_index == center,
                expanded_views(out@) == expand_seed(start, sv, j as int, file_v, neighbor_radius, m as nat),
            decreases file.len() - m,
        {
            let c = &file[m];
            assert(file_v[m as int] == c@);
            let ghost before = expanded_views(out@);
            assert(expand_seed(start, sv, j as int, file_v, neighbor_radius, (m + 1) as nat)
                == expand_step(before, sv, j as int, c@, neighbor_radius));
            if is_within_radius(c.chunk_index, center, neighbor_radius) && !has_expanded_id(
                &out,
                c.id.as_str(),
            ) {
                let origin = match last_seed_index(seeds, c.id.as_str()) {
                    Some(k) => ScoreOrigin::Seed(k),
                    None => ScoreOrigin::Neighbor(j),
                };
                let e = ExpandedChunk { chunk: clone_chunk(c), origin };
                out.push(e);
                assert(expanded_views(out@) =~= before.push(e@));
            }
            m = m + 1;
        }
        j = j + 1;
    }
    out
}

} // verus!
