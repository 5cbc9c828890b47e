use vstd::prelude::*;

use crate::storage::{FileRecord, FileRecordView};
use crate::text::{
    chars_of, decimal, inclusive_lines, lemma_flatten_push, lemma_inclusive_lines_flatten,
    lemma_utf16_units_add, lemma_utf16_units_bounds, lemma_utf16_units_take, push_chars,
    push_decimal, split_lines_preserving_endings, str_eq, string_from_chars, utf16_len_chars,
    utf16_units,
};

verus! {

/// A piece of a file stored for retrieval: its id, file, position in the file
/// (chunk index, first and last line, UTF-16 offsets) and text.
#[derive(Debug, Clone, PartialEq, Eq)]
pub struct ChunkRecord {
    pub id: String,
    pub file_path: String,
    pub chunk_index: u32,
    pub start_line: u32,
    pub end_line: u32,
    pub start_utf16: u32,
    pub end_utf16: u32,
    pub breadcrumb: Option<String>,
    pub content: String,
}

/// The mathematical content of a [`ChunkRecord`].
pub struct ChunkRecordView {
    pub id: Seq<char>,
    pub file_path: Seq<char>,
    pub chunk_index: u32,
    pub start_line: u32,
    pub end_line: u32,
    pub start_utf16: u32,
    pub end_utf16: u32,
    pub breadcrumb: Option<Seq<char>>,
    pub content: Seq<char>,
}

/// The characters of an optional string.
pub open spec fn opt_view(s: Option<String>) -> Option<Seq<char>> {
    match s {
        Some(t) => Some(t@),
        None => None,
    }
}

impl View for ChunkRecord {
    type V = ChunkRecordView;

    open spec fn view(&self) -> ChunkRecordView {
        ChunkRecordView {
            id: self.id@,
            file_path: self.file_path@,
            chunk_index: self.chunk_index,
            start_line: self.start_line,
            end_line: self.end_line,
            start_utf16: self.start_utf16,
            end_utf16: self.end_utf16,
            breadcrumb: opt_view(self.breadcrumb),
            content: self.content@,
        }
    }
}

/// A copy of an optional string.
pub fn clone_opt_string(s: &Option<String>) -> (r: Option<String>)
    ensures
        opt_view(r) == opt_view(*s),
{
    match s {
        Some(t) => Some(t.clone()),
        None => None,
    }
}

/// A copy of a chunk record.
pub fn clone_chunk(c: &ChunkRecord) -> (r: ChunkRecord)
    ensures
        r@ == c@,
{
    ChunkRecord {
        id: c.id.clone(),
        file_path: c.file_path.clone(),
        chunk_index: c.chunk_index,
        start_line: c.start_line,
        end_line: c.end_line,
        start_utf16: c.start_utf16,
        end_utf16: c.end_utf16,
        breadcrumb: clone_opt_string(&c.breadcrumb),
        content: c.content.clone(),
    }
}

/// How large a chunk may grow, in UTF-16 code units.
#[derive(Debug, Clone, PartialEq, Eq)]
pub struct ChunkConfig {
    pub max_utf16_units: usize,
}

impl Default for ChunkConfig {
    fn default() -> (config: Self)
        ensures
            config.max_utf16_units == 8000,
    {
        ChunkConfig { max_utf16_units: 8000 }
    }
}

// ---------------------------------------------------------------------------
// The chunking rule
// ---------------------------------------------------------------------------

/// A chunk under construction.
pub struct PendingSpec {
    pub content: Seq<char>,
    pub utf16_len: nat,
    pub start_utf16: u32,
    pub end_utf16: u32,
    pub start_line: u32,
    pub end_line: u32,
}

/// An empty chunk that starts at the given UTF-16 offset and line.
pub open spec fn pending_new(start_utf16: u32, start_line: u32) -> PendingSpec {
    PendingSpec {
        content: Seq::empty(),
        utf16_len: 0,
        start_utf16,
        end_utf16: start_utf16,
        start_line,
        end_line: start_line.saturating_sub(1),
    }
}

/// A chunk with one more line at its end; the end offset and end line saturate.
pub open spec fn pending_push(p: PendingSpec, line: Seq<char>) -> PendingSpec {
    PendingSpec {
        content: p.content + line,
        utf16_len: p.utf16_len + utf16_units(line),
        end_utf16: p.end_utf16.saturating_add(utf16_units(line) as u32),
        end_line: p.end_line.saturating_add(1),
        ..p
    }
}

/// The id of chunk `index` of a file: `path:hash:index`.
pub open spec fn chunk_id(path: Seq<char>, hash: Seq<char>, index: u32) -> Seq<char> {
    path + seq![':'] + hash + seq![':'] + decimal(index as nat)
}

/// The record that a pending chunk becomes as chunk `index` of `record`.
pub open spec fn finish_spec(p: PendingSpec, record: FileRecordView, index: u32) -> ChunkRecordView {
    ChunkRecordView {
        id: chunk_id(record.path, record.hash, index),
        file_path: record.path,
        chunk_index: index,
        start_line: p.start_line,
        end_line: p.end_line,
        start_utf16: p.start_utf16,
        end_utf16: p.end_utf16,
        breadcrumb: Some(record.path),
        content: p.content,
    }
}

/// The chunks finished so far and the one under construction.
pub struct ChunkState {
    pub chunks: Seq<ChunkRecordView>,
    pub pending: PendingSpec,
}

/// Adds one line: when the pending chunk is nonempty and the line would take it
/// past `max` units, the pending chunk is finished first and a new one starts
/// where it ended.
pub open spec fn chunk_step(
    record: FileRecordView,
    max: nat,
    st: ChunkState,
    line: Seq<char>,
) -> ChunkState {
    let st2 = if st.pending.content.len() > 0 && st.pending.utf16_len + utf16_units(line) > max {
        ChunkState {
            chunks: st.chunks.push(finish_spec(st.pending, record, st.chunks.len() as u32)),
            pending: pending_new(st.pending.end_utf16, (st.pending.end_line + 1) as u32),
        }
    } else {
        st
    };
    ChunkState { chunks: st2.chunks, pending: pending_push(st2.pending, line) }
}

/// The state after feeding `lines` in order, starting from an empty chunk at
/// offset 0, line 1.
pub open spec fn chunk_lines(record: FileRecordView, max: nat, lines: Seq<Seq<char>>) -> ChunkState
    decreases lines.len(),
{
    if lines.len() == 0 {
        ChunkState { chunks: Seq::empty(), pending: pending_new(0, 1) }
    } else {
        chunk_step(record, max, chunk_lines(record, max, lines.drop_last()), lines.last())
    }
}

/// The budget actually used: a budget of 0 acts as 1.
pub open spec fn effective_budget(max_utf16_units: usize) -> nat {
    if max_utf16_units > 1 {
        max_utf16_units as nat
    } else {
        1
    }
}

/// The chunks of a file: none for an empty or binary file; otherwise its lines
/// (each with its ending) grouped greedily into chunks of at most the budget,
/// a single longer line making a chunk of its own.
pub open spec fn chunk_file_spec(record: FileRecordView, max_utf16_units: usize) -> Seq<
    ChunkRecordView,
> {
    if record.content.len() == 0 || record.language == "binary"@ {
        Seq::empty()
    } else {
        let st = chunk_lines(
            record,
            effective_budget(max_utf16_units),
            inclusive_lines(record.content),
        );
        if st.pending.content.len() > 0 {
            st.chunks.push(finish_spec(st.pending, record, st.chunks.len() as u32))
        } else {
            st.chunks
        }
    }
}

// ---------------------------------------------------------------------------
// Facts about the rule
// ---------------------------------------------------------------------------

/// The texts of a sequence of chunks.
pub open spec fn chunk_contents(chunks: Seq<ChunkRecordView>) -> Seq<Seq<char>> {
    chunks.map_values(|c: ChunkRecordView| c.content)
}

/// What every chunk finished from `record` satisfies, as chunk `k`.
pub open spec fn chunk_ok(
    record: FileRecordView,
    max: nat,
    c: ChunkRecordView,
    k: int,
    exact_offsets: bool,
) -> bool {
    &&& c.chunk_index == k
    &&& c.id == chunk_id(record.path, record.hash, k as u32)
    &&& c.file_path == record.path
    &&& c.breadcrumb == Some(record.path)
    &&& c.content.len() > 0
    &&& c.start_line <= c.end_line
    &&& utf16_units(c.content) <= max || c.start_line == c.end_line
    &&& exact_offsets ==> c.end_utf16 == c.start_utf16 + utf16_units(c.content)
}

/// What holds of the state that `chunk_lines` reaches on `lines`.
pub open spec fn chunk_state_wf(
    record: FileRecordView,
    max: nat,
    st: ChunkState,
    lines: Seq<Seq<char>>,
) -> bool {
    let exact = utf16_units(lines.flatten()) <= u32::MAX;
    let p = st.pending;
    &&& chunk_contents(st.chunks).flatten() + p.content == lines.flatten()
    &&& p.utf16_len == utf16_units(p.content)
    &&& st.chunks.len() <= lines.len()
    &&& p.end_line == lines.len()
    &&& 1 <= p.start_line <= lines.len() + 1
    &&& (p.content.len() == 0 <==> p.end_line + 1 == p.start_line)
    &&& (p.content.len() == 0 || utf16_units(p.content) <= max || p.end_line == p.start_line)
    &&& p.start_line == if st.chunks.len() == 0 {
        1
    } else {
        st.chunks.last().end_line + 1
    }
    &&& p.start_utf16 == if st.chunks.len() == 0 {
        0
    } else {
        st.chunks.last().end_utf16
    }
    &&& exact ==> p.start_utf16 == utf16_units(chunk_contents(st.chunks).flatten())
    &&& exact ==> p.end_utf16 == p.start_utf16 + utf16_units(p.content)
    &&& forall|k: int|
        0 <= k < st.chunks.len() ==> chunk_ok(record, max, #[trigger] st.chunks[k], k, exact)
    &&& forall|k: int|
        0 <= k < st.chunks.len() - 1 ==> {
            &&& #[trigger] st.chunks[k + 1].start_utf16 == st.chunks[k].end_utf16
            &&& st.chunks[k + 1].start_line == st.chunks[k].end_line + 1
        }
    &&& st.chunks.len() > 0 ==> st.chunks[0].start_utf16 == 0 && st.chunks[0].start_line == 1
}

proof fn lemma_chunk_contents_push(chunks: Seq<ChunkRecordView>, c: ChunkRecordView)
    ensures
        chunk_contents(chunks.push(c)) == chunk_contents(chunks).push(c.content),
{
    assert(chunk_contents(chunks.push(c)) =~= chunk_contents(chunks).push(c.content));
}

/// A sequence of nonempty pieces has at most as many pieces as elements.
pub proof fn lemma_pieces_le_flatten_len<A>(pieces: Seq<Seq<A>>)
    requires
        forall|i: int| 0 <= i < pieces.len() ==> #[trigger] pieces[i].len() > 0,
    ensures
        pieces.len() <= pieces.flatten().len(),
    decreases pieces.len(),
{
    if pieces.len() > 0 {
        let rest = pieces.drop_first();
        assert forall|i: int| 0 <= i < rest.len() implies #[trigger] rest[i].len() > 0 by {
            assert(rest[i] == pieces[i + 1]);
        }
        lemma_pieces_le_flatten_len(rest);
    }
}

/// Every state that `chunk_lines` reaches on nonempty lines is well formed.
pub proof fn lemma_chunk_lines_wf(record: FileRecordView, max: nat, lines: Seq<Seq<char>>)
    requires
        forall|i: int| 0 <= i < lines.len() ==> #[trigger] lines[i].len() > 0,
        lines.len() < u32::MAX,
    ensures
        chunk_state_wf(record, max, chunk_lines(record, max, lines), lines),
    decreases lines.len(),
{
    if lines.len() == 0 {
        let st = chunk_lines(record, max, lines);
        assert(chunk_contents(st.chunks) =~= Seq::<Seq<char>>::empty());
        assert(chunk_contents(st.chunks).flatten() + st.pending.content =~= lines.flatten());
    } else {
        let dl = lines.drop_last();
        let line = lines.last();
        assert forall|i: int| 0 <= i < dl.len() implies #[trigger] dl[i].len() > 0 by {
            assert(dl[i] == lines[i]);
        }
        lemma_chunk_lines_wf(record, max, dl);
        let prev = chunk_lines(record, max, dl);
        let st = chunk_lines(record, max, lines);
        assert(lines =~= dl.push(line));
        lemma_flatten_push(dl, line);
        lemma_utf16_units_add(dl.flatten(), line);
        let exact = utf16_units(lines.flatten()) <= u32::MAX;
        let exact_prev = utf16_units(dl.flatten()) <= u32::MAX;
        assert(exact ==> exact_prev);
        assert(line.len() > 0);
        if prev.pending.content.len() > 0 && prev.pending.utf16_len + utf16_units(line) > max {
            let n = prev.chunks.len();
            let c = finish_spec(prev.pending, record, n as u32);
            let mid = ChunkState {
                chunks: prev.chunks.push(c),
                pending: pending_new(prev.pending.end_utf16, (prev.pending.end_line + 1) as u32),
            };
            assert(st == ChunkState {
                chunks: mid.chunks,
                pending: pending_push(mid.pending, line),
            });
            lemma_chunk_contents_push(prev.chunks, c);
            lemma_flatten_push(chunk_contents(prev.chunks), prev.pending.content);
            assert(chunk_contents(st.chunks).flatten() + st.pending.content =~= lines.flatten());
            lemma_utf16_units_add(chunk_contents(prev.chunks).flatten(), prev.pending.content);
            if exact {
                lemma_utf16_units_add(
                    chunk_contents(prev.chunks).flatten() + prev.pending.content,
                    line,
                );
                assert(st.pending.content =~= Seq::<char>::empty() + line);
            }
            assert(st.pending.content =~= line);
            assert forall|k: int| 0 <= k < st.chunks.len() implies chunk_ok(
                record,
                max,
                #[trigger] st.chunks[k],
                k,
                exact,
            ) by {
                if k < n {
                    assert(st.chunks[k] == prev.chunks[k]);
                    assert(chunk_ok(record, max, prev.chunks[k], k, exact_prev));
                } else {
                    assert(st.chunks[k] == c);
                }
            }
            assert forall|k: int| 0 <= k < st.chunks.len() - 1 implies {
                &&& #[trigger] st.chunks[k + 1].start_utf16 == st.chunks[k].end_utf16
                &&& st.chunks[k + 1].start_line == st.chunks[k].end_line + 1
            } by {
                if k + 1 < n {
                    assert(st.chunks[k + 1] == prev.chunks[k + 1]);
                    assert(st.chunks[k] == prev.chunks[k]);
                }
            }
        } else {
            assert(st == ChunkState {
                chunks: prev.chunks,
                pending: pending_push(prev.pending, line),
            });
            assert(chunk_contents(st.chunks).flatten() + st.pending.content =~= lines.flatten());
            lemma_utf16_units_add(prev.pending.content, line);
            if exact {
                lemma_utf16_units_add(chunk_contents(prev.chunks).flatten(), prev.pending.content);
                lemma_utf16_units_add(
                    chunk_contents(prev.chunks).flatten() + prev.pending.content,
                    line,
                );
                assert(chunk_contents(prev.chunks).flatten() + prev.pending.content + line
                    =~= lines.flatten());
            }
            if prev.pending.content.len() == 0 {
                assert(st.pending.content =~= line);
            }
            assert forall|k: int| 0 <= k < st.chunks.len() implies chunk_ok(
                record,
                max,
                #[trigger] st.chunks[k],
                k,
                exact,
            ) by {
                assert(chunk_ok(record, max, prev.chunks[k], k, exact_prev));
            }
        }
    }
}

/// Each finished chunk is the run of lines from its first to its last line,
/// followed by a line that would have taken it past the budget; the pending
/// chunk is the run of lines from its first line to the last line fed.
proof fn lemma_chunk_lines_span(record: FileRecordView, max: nat, lines: Seq<Seq<char>>)
    requires
        forall|i: int| 0 <= i < lines.len() ==> #[trigger] lines[i].len() > 0,
        lines.len() < u32::MAX,
    ensures
        ({
            let st = chunk_lines(record, max, lines);
            &&& forall|k: int|
                0 <= k < st.chunks.len() ==> {
                    &&& 1 <= (#[trigger] st.chunks[k]).start_line
                    &&& st.chunks[k].end_line < lines.len()
                    &&& st.chunks[k].content == lines.subrange(
                        st.chunks[k].start_line - 1,
                        st.chunks[k].end_line as int,
                    ).flatten()
                    &&& utf16_units(st.chunks[k].content) + utf16_units(
                        lines[st.chunks[k].end_line as int],
                    ) > max
                }
            &&& st.pending.content == lines.subrange(
                st.pending.start_line - 1,
                st.pending.end_line as int,
            ).flatten()
        }),
    decreases lines.len(),
{
    let st = chunk_lines(record, max, lines);
    if lines.len() == 0 {
        assert(lines.subrange(0, 0) =~= Seq::<Seq<char>>::empty());
        assert(Seq::<Seq<char>>::empty().flatten() =~= Seq::<char>::empty());
    } else {
        let dl = lines.drop_last();
        let line = lines.last();
        assert forall|i: int| 0 <= i < dl.len() implies #[trigger] dl[i].len() > 0 by {
            assert(dl[i] == lines[i]);
        }
        lemma_chunk_lines_span(record, max, dl);
        lemma_chunk_lines_wf(record, max, dl);
        let prev = chunk_lines(record, max, dl);
        let p = prev.pending;
        assert(p.end_line == dl.len());
        let ps = p.start_line - 1;
        assert(dl.subrange(ps, dl.len() as int) =~= lines.subrange(ps, dl.len() as int));
        assert forall|k: int| 0 <= k < prev.chunks.len() implies {
            &&& lines.subrange(prev.chunks[k].start_line - 1, prev.chunks[k].end_line as int)
                =~= dl.subrange(prev.chunks[k].start_line - 1, prev.chunks[k].end_line as int)
            &&& lines[prev.chunks[k].end_line as int] == dl[prev.chunks[k].end_line as int]
        } by {
            let c = prev.chunks[k];
            assert(1 <= c.start_line && c.end_line < dl.len());
            assert(c.start_line - 1 <= c.end_line) by {
                assert(chunk_ok(record, max, c, k, utf16_units(dl.flatten()) <= u32::MAX));
            }
        }
        if p.content.len() > 0 && p.utf16_len + utf16_units(line) > max {
            let n = prev.chunks.len();
            let c = finish_spec(p, record, n as u32);
            assert(st.chunks == prev.chunks.push(c));
            assert(st.pending == pending_push(
                pending_new(p.end_utf16, (p.end_line + 1) as u32),
                line,
            ));
            assert(lines.subrange(dl.len() as int, lines.len() as int) =~= seq![line]);
            assert(seq![line].flatten() == line) by {
                crate::text::lemma_flatten_prepend(line, Seq::<Seq<char>>::empty());
                assert(seq![line] =~= seq![line] + Seq::<Seq<char>>::empty());
            }
            assert(st.pending.content =~= line);
            assert forall|k: int| 0 <= k < st.chunks.len() implies {
                &&& 1 <= (#[trigger] st.chunks[k]).start_line
                &&& st.chunks[k].end_line < lines.len()
                &&& st.chunks[k].content == lines.subrange(
                    st.chunks[k].start_line - 1,
                    st.chunks[k].end_line as int,
                ).flatten()
                &&& utf16_units(st.chunks[k].content) + utf16_units(
                    lines[st.chunks[k].end_line as int],
                ) > max
            } by {
                if k < n {
                    assert(st.chunks[k] == prev.chunks[k]);
                } else {
                    assert(st.chunks[k] == c);
                    assert(lines[dl.len() as int] == line);
                }
            }
        } else {
            assert(st.chunks == prev.chunks);
            assert(st.pending == pending_push(p, line));
            assert(lines.subrange(ps, lines.len() as int) =~= lines.subrange(
                ps,
                dl.len() as int,
            ).push(line));
            crate::text::lemma_flatten_push(lines.subrange(ps, dl.len() as int), line);
            assert forall|k: int| 0 <= k < st.chunks.len() implies {
                &&& 1 <= (#[trigger] st.chunks[k]).start_line
                &&& st.chunks[k].end_line < lines.len()
                &&& st.chunks[k].content == lines.subrange(
                    st.chunks[k].start_line - 1,
                    st.chunks[k].end_line as int,
                ).flatten()
                &&& utf16_units(st.chunks[k].content) + utf16_units(
                    lines[st.chunks[k].end_line as int],
                ) > max
            } by {
                assert(st.chunks[k] == prev.chunks[k]);
            }
        }
    }
}

/// The chunks of a file concatenate back to its text; each is nonempty, knows its
/// place (index, id, path) and begins where the previous one ended, in UTF-16
/// offsets and in lines; each fits the budget unless it is a single line; and,
/// when the whole text has at most `u32::MAX` UTF-16 units, each chunk's offsets
/// span exactly its own text.
pub proof fn lemma_chunk_file_laws(record: FileRecordView, max_utf16_units: usize)
    requires
        inclusive_lines(record.content).len() < u32::MAX,
    ensures
        ({
            let cs = chunk_file_spec(record, max_utf16_units);
            let exact = utf16_units(record.content) <= u32::MAX;
            &&& cs.len() == 0 <==> (record.content.len() == 0 || record.language == "binary"@)
            &&& cs.len() > 0 ==> chunk_contents(cs).flatten() == record.content
            &&& forall|k: int|
                0 <= k < cs.len() ==> chunk_ok(
                    record,
                    effective_budget(max_utf16_units),
                    #[trigger] cs[k],
                    k,
                    exact,
                )
            &&& forall|k: int|
                0 <= k < cs.len() - 1 ==> {
                    &&& #[trigger] cs[k + 1].start_utf16 == cs[k].end_utf16
                    &&& cs[k + 1].start_line == cs[k].end_line + 1
                }
            &&& cs.len() > 0 ==> cs[0].start_utf16 == 0 && cs[0].start_line == 1
        }),
{
    if !(record.content.len() == 0 || record.language == "binary"@) {
        let max = effective_budget(max_utf16_units);
        let lines = inclusive_lines(record.content);
        lemma_inclusive_lines_flatten(record.content);
        lemma_chunk_lines_wf(record, max, lines);
        let st = chunk_lines(record, max, lines);
        let cs = chunk_file_spec(record, max_utf16_units);
        let exact = utf16_units(record.content) <= u32::MAX;
        assert(lines.len() > 0) by {
            if lines.len() == 0 {
                assert(lines.flatten() =~= Seq::<char>::empty());
            }
        }
        assert(st.pending.content.len() > 0);
        let n = st.chunks.len();
        let c = finish_spec(st.pending, record, n as u32);
        assert(cs == st.chunks.push(c));
        lemma_chunk_contents_push(st.chunks, c);
        lemma_flatten_push(chunk_contents(st.chunks), st.pending.content);
        assert forall|k: int| 0 <= k < cs.len() implies chunk_ok(
            record,
            max,
            #[trigger] cs[k],
            k,
            exact,
        ) by {
            if k < n {
                assert(cs[k] == st.chunks[k]);
            } else {
                lemma_utf16_units_add(chunk_contents(st.chunks).flatten(), st.pending.content);
            }
        }
        assert forall|k: int| 0 <= k < cs.len() - 1 implies {
            &&& #[trigger] cs[k + 1].start_utf16 == cs[k].end_utf16
            &&& cs[k + 1].start_line == cs[k].end_line + 1
        } by {
            if k + 1 < n {
                assert(cs[k + 1] == st.chunks[k + 1]);
                assert(cs[k] == st.chunks[k]);
            }
        }
    }
}


/// How a file's chunks lie on its lines: each chunk is exactly the lines from
/// its first to its last line, so its line span is its number of lines; every
/// chunk but the last ends with a line ending; the chunks are greedy (a chunk
/// together with the first line of the next one exceeds the budget); the last
/// chunk ends at the file's last line and, when the text has at most
/// `u32::MAX` UTF-16 units, at its total UTF-16 length.
pub proof fn lemma_chunk_file_layout(record: FileRecordView, max_utf16_units: usize)
    requires
        inclusive_lines(record.content).len() < u32::MAX,
    ensures
        ({
            let cs = chunk_file_spec(record, max_utf16_units);
            let lines = inclusive_lines(record.content);
            &&& forall|k: int|
                0 <= k < cs.len() ==> (#[trigger] cs[k]).content == lines.subrange(
                    cs[k].start_line - 1,
                    cs[k].end_line as int,
                ).flatten()
            &&& forall|k: int|
                0 <= k < cs.len() ==> (#[trigger] cs[k]).end_line - cs[k].start_line + 1
                    == inclusive_lines(cs[k].content).len()
            &&& forall|k: int| 0 <= k < cs.len() - 1 ==> (#[trigger] cs[k]).content.last() == '\n'
            &&& forall|k: int|
                0 <= k < cs.len() - 1 ==> utf16_units((#[trigger] cs[k]).content) + utf16_units(
                    inclusive_lines(cs[k + 1].content)[0],
                ) > effective_budget(max_utf16_units)
            &&& cs.len() > 0 ==> cs.last().end_line == lines.len()
            &&& cs.len() > 0 && utf16_units(record.content) <= u32::MAX ==> cs.last().end_utf16
                == utf16_units(record.content)
        }),
{
    if !(record.content.len() == 0 || record.language == "binary"@) {
        let max = effective_budget(max_utf16_units);
        let lines = inclusive_lines(record.content);
        lemma_inclusive_lines_flatten(record.content);
        crate::text::lemma_inclusive_lines_well_lined(record.content);
        lemma_chunk_lines_wf(record, max, lines);
        lemma_chunk_lines_span(record, max, lines);
        lemma_chunk_file_laws(record, max_utf16_units);
        let st = chunk_lines(record, max, lines);
        let cs = chunk_file_spec(record, max_utf16_units);
        let exact = utf16_units(record.content) <= u32::MAX;
        let n = st.chunks.len();
        assert(lines.len() > 0) by {
            if lines.len() == 0 {
                assert(lines.flatten() =~= Seq::<char>::empty());
            }
        }
        assert(st.pending.content.len() > 0);
        let c = finish_spec(st.pending, record, n as u32);
        assert(cs == st.chunks.push(c));
        assert forall|k: int| 0 <= k < cs.len() implies {
            &&& (#[trigger] cs[k]).content == lines.subrange(
                cs[k].start_line - 1,
                cs[k].end_line as int,
            ).flatten()
            &&& 1 <= cs[k].start_line <= cs[k].end_line <= lines.len()
            &&& k < cs.len() - 1 ==> cs[k].end_line < lines.len()
        } by {
            assert(chunk_ok(record, max, cs[k], k, exact));
            if k < n {
                assert(cs[k] == st.chunks[k]);
            } else {
                assert(cs[k] == c);
            }
        }
        assert forall|k: int| 0 <= k < cs.len() implies (#[trigger] cs[k]).end_line
            - cs[k].start_line + 1 == inclusive_lines(cs[k].content).len() by {
            let r = lines.subrange(cs[k].start_line - 1, cs[k].end_line as int);
            crate::text::lemma_well_lined_subrange(
                lines,
                cs[k].start_line - 1,
                cs[k].end_line as int,
            );
            crate::text::lemma_well_lined_split(r);
        }
        assert forall|k: int| 0 <= k < cs.len() - 1 implies (#[trigger] cs[k]).content.last()
            == '\n' by {
            let a = cs[k].start_line - 1;
            let e = cs[k].end_line as int;
            let r = lines.subrange(a, e);
            assert(r.len() > 0);
            assert(r =~= r.drop_last().push(r.last()));
            crate::text::lemma_flatten_push(r.drop_last(), r.last());
            assert(r.last() == lines[e - 1]);
            assert(lines[e - 1].len() > 0);
            assert(lines[e - 1].last() == '\n');
            assert(r.flatten().last() == r.last().last());
        }
        assert forall|k: int| 0 <= k < cs.len() - 1 implies utf16_units((#[trigger] cs[k]).content)
            + utf16_units(inclusive_lines(cs[k + 1].content)[0]) > max by {
            assert(cs[k] == st.chunks[k]);
            assert(cs[k + 1].start_utf16 == cs[k].end_utf16);
            assert(cs[k + 1].start_line == cs[k].end_line + 1);
            let a = cs[k + 1].start_line - 1;
            let e = cs[k + 1].end_line as int;
            let r = lines.subrange(a, e);
            crate::text::lemma_well_lined_subrange(lines, a, e);
            crate::text::lemma_well_lined_split(r);
            assert(inclusive_lines(cs[k + 1].content)[0] == lines[cs[k].end_line as int]);
        }
        if exact {
            lemma_utf16_units_add(chunk_contents(st.chunks).flatten(), st.pending.content);
        }
    }
}

/// A file has no chunks exactly when it is empty or binary, whatever its size.
pub proof fn lemma_chunk_file_empty(record: FileRecordView, max_utf16_units: usize)
    ensures
        chunk_file_spec(record, max_utf16_units).len() == 0 <==> (record.content.len() == 0
            || record.language == "binary"@),
{
    if !(record.content.len() == 0 || record.language == "binary"@) {
        let lines = inclusive_lines(record.content);
        lemma_inclusive_lines_flatten(record.content);
        assert(lines.len() > 0) by {
            if lines.len() == 0 {
                assert(lines.flatten() =~= Seq::<char>::empty());
            }
        }
        assert(lines.last().len() > 0);
        let st = chunk_lines(record, effective_budget(max_utf16_units), lines);
        assert(st.pending.content.len() >= lines.last().len());
    }
}

/// Units in the first `i + 1` lines, split as the first `i` and line `i`.
proof fn lemma_prefix_units(lines: Seq<Seq<char>>, i: int)
    requires
        0 <= i < lines.len(),
    ensures
        lines.take(i + 1).flatten() == lines.take(i).flatten() + lines[i],
        utf16_units(lines.take(i).flatten()) + utf16_units(lines[i]) == utf16_units(
            lines.take(i + 1).flatten(),
        ),
        utf16_units(lines.take(i + 1).flatten()) <= utf16_units(lines.flatten()),
{
    assert(lines.take(i + 1) =~= lines.take(i).push(lines[i]));
    lemma_flatten_push(lines.take(i), lines[i]);
    lemma_utf16_units_add(lines.take(i).flatten(), lines[i]);
    assert(lines =~= lines.take(i + 1) + lines.skip(i + 1));
    vstd::seq_lib::lemma_flatten_concat(lines.take(i + 1), lines.skip(i + 1));
    lemma_utf16_units_add(lines.take(i + 1).flatten(), lines.skip(i + 1).flatten());
}

/// A chunk under construction.
struct PendingChunk {
    content: Vec<char>,
    utf16_len: usize,
    start_utf16: u32,
    end_utf16: u32,
    start_line: u32,
    end_line: u32,
}

impl View for PendingChunk {
    type V = PendingSpec;

    closed spec fn view(&self) -> PendingSpec {
        PendingSpec {
            content: self.content@,
            utf16_len: self.utf16_len as nat,
            start_utf16: self.start_utf16,
            end_utf16: self.end_utf16,
            start_line: self.start_line,
            end_line: self.end_line,
        }
    }
}

impl PendingChunk {
    fn new(start_utf16: u32, start_line: u32) -> (p: Self)
        ensures
            p@ == pending_new(start_utf16, start_line),
    {
        PendingChunk {
            content: Vec::new(),
            utf16_len: 0,
            start_utf16,
            end_utf16: start_utf16,
            start_line,
            end_line: start_line.saturating_sub(1),
        }
    }

    fn push_line(&mut self, line: &[char])
        requires
            old(self).utf16_len + utf16_units(line@) <= usize::MAX,
        ensures
            final(self)@ == pending_push(old(self)@, line@),
    {
        proof {
            lemma_utf16_units_bounds(line@);
        }
        let line_utf16 = utf16_len_chars(line);
        let mut k: usize = 0;
        while k < line.len()
            invariant
                0 <= k <= line.len(),
                self.content@ == old(self).content@ + line@.take(k as int),
                self.utf16_len == old(self).utf16_len,
                self.start_utf16 == old(self).start_utf16,
                self.end_utf16 == old(self).end_utf16,
                self.start_line == old(self).start_line,
                self.end_line == old(self).end_line,
            decreases line.len() - k,
        {
            self.content.push(line[k]);
            k = k + 1;
            assert(self.content@ =~= old(self).content@ + line@.take(k as int));
        }
        assert(line@.take(k as int) =~= line@);
        self.utf16_len = self.utf16_len + line_utf16;
        self.end_utf16 = self.end_utf16.saturating_add(line_utf16 as u32);
        self.end_line = self.end_line.saturating_add(1);
    }

    fn finish(self, record: &FileRecord, chunk_index: u32) -> (c: ChunkRecord)
        ensures
            c@ == finish_spec(self@, record@, chunk_index),
    {
        let mut id = record.path.clone();
        crate::text::push_char(&mut id, ':');
        let hash = chars_of(record.hash.as_str());
        push_chars(&mut id, hash.as_slice());
        crate::text::push_char(&mut id, ':');
        push_decimal(&mut id, chunk_index as u64);
        assert(id@ =~= chunk_id(record.path@, record.hash@, chunk_index));
        ChunkRecord {
            id,
            file_path: record.path.clone(),
            chunk_index,
            start_line: self.start_line,
            end_line: self.end_line,
            start_utf16: self.start_utf16,
            end_utf16: self.end_utf16,
            breadcrumb: Some(record.path.clone()),
            content: string_from_chars(self.content.as_slice()),
        }
    }
}

/// Splits a file into chunks for retrieval, along line boundaries.
///
/// An empty file and a file of language `"binary"` give no chunks. Otherwise the
/// lines (each with its ending) are grouped greedily: a line joins the current
/// chunk unless the chunk is nonempty and the line would take it past the
/// budget (`max_utf16_units`, at least 1), in which case the chunk is closed and
/// the line starts the next one. The exact result is [`chunk_file_spec`];
/// [`lemma_chunk_file_laws`] states what follows of it.
pub fn chunk_file(record: &FileRecord, config: &ChunkConfig) -> (chunks: Vec<ChunkRecord>)
    requires
        inclusive_lines(record.content@).len() < u32::MAX,
        utf16_units(record.content@) <= usize::MAX,
    ensures
        chunks.len() == chunk_file_spec(record@, config.max_utf16_units).len(),
        chunks.len() == 0 <==> (record.content@.len() == 0 || record.language@ == "binary"@),
        forall|k: int|
            0 <= k < chunks.len() ==> #[trigger] chunks[k]@ == chunk_file_spec(
                record@,
                config.max_utf16_units,
            )[k],
{
    proof {
        lemma_chunk_file_empty(record@, config.max_utf16_units);
    }
    let content = chars_of(record.content.as_str());
    if content.len() == 0 || str_eq(record.language.as_str(), "binary") {
        return Vec::new();
    }
    let max_utf16_units = if config.max_utf16_units > 1 {
        config.max_utf16_units
    } else {
        1
    };
    let ghost max = effective_budget(config.max_utf16_units);
    let lines = split_lines_preserving_endings(content.as_slice());
    let ghost ls = inclusive_lines(record.content@);
    proof {
        lemma_inclusive_lines_flatten(content@);
        lemma_pieces_le_flatten_len(ls);
        assert(ls.take(0) =~= Seq::<Seq<char>>::empty());
    }
    let mut chunks: Vec<ChunkRecord> = Vec::new();
    let mut current = PendingChunk::new(0, 1);
    let mut i: usize = 0;
    while i < lines.len()
        invariant
            0 <= i <= lines.len(),
            lines.len() == ls.len(),
            ls.len() < u32::MAX,
            ls == inclusive_lines(record.content@),
            ls.flatten() == record.content@,
            forall|j: int| 0 <= j < ls.len() ==> #[trigger] ls[j].len() > 0,
            forall|j: int| 0 <= j < lines.len() ==> #[trigger] lines[j]@ == ls[j],
            utf16_units(record.content@) <= usize::MAX,
            max == effective_budget(config.max_utf16_units),
            max_utf16_units == max,
            chunks.len() == chunk_lines(record@, max, ls.take(i as int)).chunks.len(),
            forall|k: int|
                0 <= k < chunks.len() ==> #[trigger] chunks[k]@ == chunk_lines(
                    record@,
                    max,
                    ls.take(i as int),
                ).chunks[k],
            current@ == chunk_lines(record@, max, ls.take(i as int)).pending,
            chunk_state_wf(record@, max, chunk_lines(record@, max, ls.take(i as int)), ls.take(i as int)),
        decreases lines.len() - i,
    {
        let ghost prev = chunk_lines(record@, max, ls.take(i as int));
        proof {
            lemma_prefix_units(ls, i as int);
            lemma_utf16_units_add(chunk_contents(prev.chunks).flatten(), prev.pending.content);
            assert(ls.take(i + 1).drop_last() =~= ls.take(i as int));
            assert forall|j: int| 0 <= j < ls.take(i + 1).len() implies #[trigger] ls.take(i + 1)[j].len() > 0 by {
                assert(ls.take(i + 1)[j] == ls[j]);
            }
            lemma_chunk_lines_wf(record@, max, ls.take(i + 1));
        }
        let line = &lines[i];
        let line_utf16 = utf16_len_chars(line.as_slice());
        if !current.content.is_empty() && current.utf16_len + line_utf16 > max_utf16_units {
            let next_start_utf16 = current.end_utf16;
            let next_start_line = current.end_line + 1;
            let idx = chunks.len() as u32;
            let finished = current.finish(record, idx);
            chunks.push(finished);
            current = PendingChunk::new(next_start_utf16, next_start_line);
        }
        current.push_line(line.as_slice());
        i = i + 1;
    }
    proof {
        assert(ls.take(i as int) =~= ls);
    }
    if !current.content.is_empty() {
        let idx = chunks.len() as u32;
        chunks.push(current.finish(record, idx));
    }
    chunks
}

} // verus!
