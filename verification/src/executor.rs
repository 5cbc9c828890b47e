use vstd::prelude::*;

use crate::chunking::{clone_chunk, opt_view, ChunkRecord, ChunkRecordView};
use crate::contract::{
    CodebaseRetrievalRequest, CodebaseRetrievalResponse, CoreError, IndexedFileEntry, IndexedFileEntryView,
    ListFilesRequest, ListFilesResponse, LowConfidenceBehavior, OutputFormat, RetrievalDebug,
    RetrievalMode, RetrievalPack,
};
use crate::indexer::{contains_str, string_views};
use crate::markdown::{count_segments, markdown_of, render_markdown, segment_total, strings_view};
use crate::packing::{files_view, scored_views};
use crate::search::{ScoredChunk, ScoredChunkView};
use crate::symbols::{chunk_views, contains_substring, has_substring, listed_language, lookup_language};
use crate::glob::{glob_match, matches_glob};
use crate::packing::{
    expand_prefix, ExpandedChunkView, lemma_expand_stays_in_seed_files, lemma_pack_files_come_from_items, pack_result,
    PackConfig,
};
use crate::search::{SearchConfig, MIN_SCORE_0_02_BITS, RRF_K_20_BITS};
use crate::stats::non_negative_count;
use crate::storage::{indexed_views, IndexedFile, IndexedFileView};
use crate::text::{owned, push_char, push_str};

verus! {

// ---------------------------------------------------------------------------
// Project names
// ---------------------------------------------------------------------------

/// The last component of a path, as `std::path::Path::file_name` gives it.
/// Which characters separate components is the target platform's rule,
/// fixed for one build (`/`, and also `\` on Windows).
pub uninterp spec fn path_file_name(path: Seq<char>) -> Option<Seq<char>>;

/// Calls `std::path::Path::file_name` on `path` and keeps the name when it
/// is valid Unicode (it always is for a `&str`). The contract claims only
/// that the result depends on the path alone.
#[verifier::external_body]
fn file_name_of(path: &str) -> (name: Option<String>)
    ensures
        name matches Some(n) ==> path_file_name(path@) == Some(n@),
        name is None ==> path_file_name(path@) is None,
{
    std::path::Path::new(path).file_name().and_then(|n| n.to_str()).map(|n| n.to_string())
}

/// The project name for a repository whose directory has this name: the
/// name itself, or `randdb` when there is none or it is empty.
pub open spec fn project_label(file_name: Option<Seq<char>>) -> Seq<char> {
    match file_name {
        Some(n) => if n.len() > 0 {
            n
        } else {
            "randdb"@
        },
        None => "randdb"@,
    }
}

/// The project name for a repository directory with this name.
pub fn project_id_for_name(file_name: Option<&str>) -> (id: String)
    ensures
        id@ == project_label(
            match file_name {
                Some(n) => Some(n@),
                None => None,
            },
        ),
{
    proof {
        reveal_strlit("randdb");
    }
    match file_name {
        Some(n) => if n.unicode_len() > 0 {
            owned(n)
        } else {
            owned("randdb")
        },
        None => owned("randdb"),
    }
}

/// The project name for the repository at `repo_path`: its directory name.
pub fn project_id(repo_path: &str) -> (id: String)
    ensures
        id@ == project_label(path_file_name(repo_path@)),
{
    let name = file_name_of(repo_path);
    match &name {
        Some(n) => project_id_for_name(Some(n.as_str())),
        None => project_id_for_name(None),
    }
}

// ---------------------------------------------------------------------------
// File listings
// ---------------------------------------------------------------------------

/// The listing entry for an indexed file: a negative size reads as zero.
pub open spec fn entry_of(f: IndexedFileView) -> IndexedFileEntryView {
    IndexedFileEntryView {
        path: f.path,
        language: f.language,
        size: if f.size_bytes < 0 {
            0
        } else {
            f.size_bytes as u64
        },
        hash: Some(f.hash),
    }
}

/// The listing entry for an indexed file.
pub fn indexed_file_entry(file: IndexedFile) -> (entry: IndexedFileEntry)
    ensures
        entry@ == entry_of(file@),
{
    IndexedFileEntry {
        path: file.path,
        language: file.language,
        size: non_negative_count(file.size_bytes),
        hash: Some(file.hash),
    }
}

/// Whether a file passes a listing's filters: its language, when one is
/// asked for, and the glob, when one is given.
pub open spec fn file_listed(
    f: IndexedFileView,
    language: Option<Seq<char>>,
    glob: Option<Seq<char>>,
) -> bool {
    &&& match language {
        Some(l) => f.language == l,
        None => true,
    }
    &&& match glob {
        Some(g) => glob_match(vstd::utf8::encode_utf8(f.path), vstd::utf8::encode_utf8(g)),
        None => true,
    }
}

/// The files that pass a listing's filters, in order.
pub open spec fn listed_files(
    files: Seq<IndexedFileView>,
    language: Option<Seq<char>>,
    glob: Option<Seq<char>>,
) -> Seq<IndexedFileView>
    decreases files.len(),
{
    if files.len() == 0 {
        Seq::empty()
    } else if file_listed(files.last(), language, glob) {
        listed_files(files.drop_last(), language, glob).push(files.last())
    } else {
        listed_files(files.drop_last(), language, glob)
    }
}

/// A listing keeps exactly the files that pass its filters, in their order:
/// each listed file is one of the files, has the requested language when one
/// is asked for and matches the glob when one is given, and every file that
/// has that language and matches that glob is listed.
pub proof fn lemma_listed_files_laws(
    files: Seq<IndexedFileView>,
    language: Option<Seq<char>>,
    glob: Option<Seq<char>>,
)
    ensures
        listed_files(files, language, glob).len() <= files.len(),
        forall|i: int|
            0 <= i < listed_files(files, language, glob).len() ==> {
                let f = #[trigger] listed_files(files, language, glob)[i];
                &&& files.contains(f)
                &&& language matches Some(l) ==> f.language == l
                &&& glob matches Some(g) ==> glob_match(
                    vstd::utf8::encode_utf8(f.path),
                    vstd::utf8::encode_utf8(g),
                )
            },
        forall|j: int|
            0 <= j < files.len() && (language matches Some(l) ==> files[j].language == l) && (
            glob matches Some(g) ==> glob_match(
                vstd::utf8::encode_utf8(files[j].path),
                vstd::utf8::encode_utf8(g),
            )) ==> listed_files(files, language, glob).contains(#[trigger] files[j]),
    decreases files.len(),
{
    if files.len() > 0 {
        let rest = files.drop_last();
        lemma_listed_files_laws(rest, language, glob);
        let prev = listed_files(rest, language, glob);
        let cur = listed_files(files, language, glob);
        assert forall|i: int| 0 <= i < cur.len() implies {
            let f = #[trigger] cur[i];
            &&& files.contains(f)
            &&& language matches Some(l) ==> f.language == l
            &&& glob matches Some(g) ==> glob_match(
                vstd::utf8::encode_utf8(f.path),
                vstd::utf8::encode_utf8(g),
            )
        } by {
            if i < prev.len() {
                assert(cur[i] == prev[i]);
                let f = prev[i];
                let k = choose|k: int| 0 <= k < rest.len() && rest[k] == f;
                assert(files[k] == f);
            } else {
                assert(cur[i] == files.last());
                assert(files[files.len() - 1] == files.last());
            }
        }
        assert forall|j: int|
            0 <= j < files.len() && (language matches Some(l) ==> files[j].language == l) && (
            glob matches Some(g) ==> glob_match(
                vstd::utf8::encode_utf8(files[j].path),
                vstd::utf8::encode_utf8(g),
            )) implies cur.contains(#[trigger] files[j]) by {
            if j < rest.len() {
                assert(rest[j] == files[j]);
                assert(prev.contains(rest[j]));
                let k = choose|k: int| 0 <= k < prev.len() && prev[k] == rest[j];
                if file_listed(files.last(), language, glob) {
                    assert(cur[k] == prev[k]);
                } else {
                    assert(cur == prev);
                }
            } else {
                assert(files[j] == files.last());
                assert(file_listed(files.last(), language, glob));
                assert(cur[cur.len() - 1] == files.last());
            }
        }
    }
}

/// How many files a listing returns at most: 200 unless the request says.
pub open spec fn list_cap(max_results: Option<u32>) -> nat {
    match max_results {
        Some(m) => m as nat,
        None => 200,
    }
}

/// Answers a list-files request from the indexed files, in their order: the
/// entries of the files that pass the filters, at most `list_cap` of them,
/// and whether more passed.
pub fn list_files_response(request: &ListFilesRequest, files: Vec<IndexedFile>) -> (response:
    ListFilesResponse)
    ensures
        ({
            let listed = listed_files(
                indexed_views(files@),
                opt_view(request.language),
                opt_view(request.glob),
            );
            let cap = list_cap(request.max_results);
            &&& response.truncated == (listed.len() > cap)
            &&& response.files@.len() == if listed.len() > cap {
                cap
            } else {
                listed.len()
            }
            &&& forall|i: int|
                0 <= i < response.files@.len() ==> #[trigger] response.files@[i]@ == entry_of(
                    listed[i],
                )
        }),
        forall|i: int|
            0 <= i < response.files@.len() ==> (request.language matches Some(l) ==> (
            #[trigger] response.files@[i]).language@ == l@),
{
    let ghost fv = indexed_views(files@);
    let ghost lang = opt_view(request.language);
    let ghost glob = opt_view(request.glob);
    let max_results: u32 = match request.max_results {
        Some(m) => m,
        None => 200,
    };
    let mut entries: Vec<IndexedFileEntry> = Vec::new();
    let mut i: usize = 0;
    assert(fv.take(0) =~= Seq::<IndexedFileView>::empty());
    while i < files.len()
        invariant
            0 <= i <= files.len(),
            fv == indexed_views(files@),
            lang == opt_view(request.language),
            glob == opt_view(request.glob),
            entries@.len() == listed_files(fv.take(i as int), lang, glob).len(),
            forall|t: int|
                0 <= t < entries@.len() ==> #[trigger] entries@[t]@ == entry_of(
                    listed_files(fv.take(i as int), lang, glob)[t],
                ),
        decreases files.len() - i,
    {
        let f = &files[i];
        let ghost prefix = fv.take(i + 1);
        assert(prefix.drop_last() =~= fv.take(i as int));
        assert(prefix.last() == f@);
        let language_ok = match &request.language {
            Some(l) => crate::text::str_eq(f.language.as_str(), l.as_str()),
            None => true,
        };
        let glob_ok = match &request.glob {
            Some(g) => matches_glob(f.path.as_str(), g.as_str()),
            None => true,
        };
        if language_ok && glob_ok {
            let copy = IndexedFile {
                path: f.path.clone(),
                hash: f.hash.clone(),
                size_bytes: f.size_bytes,
                language: f.language.clone(),
            };
            entries.push(indexed_file_entry(copy));
        }
        i = i + 1;
    }
    assert(fv.take(i as int) =~= fv);
    proof {
        lemma_listed_files_laws(fv, lang, glob);
    }
    let truncated = entries.len() > max_results as usize;
    entries.truncate(max_results as usize);
    proof {
        let listed = listed_files(fv, lang, glob);
        assert forall|t: int| 0 <= t < entries@.len() implies (lang matches Some(l) ==> (
        #[trigger] entries@[t])@.language == l) by {
            assert(entries@[t]@ == entry_of(listed[t]));
        }
    }
    ListFilesResponse { files: entries, truncated }
}

// ---------------------------------------------------------------------------
// Retrieval settings
// ---------------------------------------------------------------------------

/// Parts joined with a separator between each two.
pub open spec fn joined(parts: Seq<Seq<char>>, sep: Seq<char>) -> Seq<char>
    decreases parts.len(),
{
    if parts.len() == 0 {
        Seq::empty()
    } else if parts.len() == 1 {
        parts[0]
    } else {
        joined(parts.drop_last(), sep) + sep + parts.last()
    }
}

/// The lexical query of a retrieval: its technical terms joined by spaces,
/// or the information request when it names none.
pub open spec fn lexical_query_of(information_request: Seq<char>, terms: Seq<Seq<char>>) -> Seq<
    char,
> {
    if terms.len() == 0 {
        information_request
    } else {
        joined(terms, " "@)
    }
}

/// The lexical query of a retrieval request.
pub fn retrieval_query(request: &CodebaseRetrievalRequest) -> (query: String)
    ensures
        query@ == lexical_query_of(
            request.information_request@,
            crate::indexer::string_views(request.technical_terms@),
        ),
{
    let ghost tv = crate::indexer::string_views(request.technical_terms@);
    let terms = &request.technical_terms;
    if terms.len() == 0 {
        return request.information_request.clone();
    }
    let mut query = terms[0].clone();
    let mut i: usize = 1;
    assert(tv.take(1) =~= seq![tv[0]]);
    while i < terms.len()
        invariant
            1 <= i <= terms.len(),
            tv == crate::indexer::string_views(terms@),
            query@ == joined(tv.take(i as int), " "@),
        decreases terms.len() - i,
    {
        assert(tv.take(i + 1).drop_last() =~= tv.take(i as int));
        assert(tv.take(i + 1).last() == terms@[i as int]@);
        proof {
            reveal_strlit(" ");
        }
        push_char(&mut query, ' ');
        push_str(&mut query, terms[i].as_str());
        assert(query@ =~= joined(tv.take(i + 1), " "@));
        i = i + 1;
    }
    assert(tv.take(i as int) =~= tv);
    query
}

/// The retrieval mode of a request: balanced unless it says.
pub open spec fn mode_of(mode: Option<RetrievalMode>) -> RetrievalMode {
    match mode {
        Some(m) => m,
        None => RetrievalMode::Balanced,
    }
}

/// The bit pattern of `1.0_f32`.
pub const WEIGHT_ONE_BITS: u32 = 0x3f80_0000;

/// The search settings of a retrieval request: lexical ranking only (weights
/// 0 and 1), candidate counts by mode (quick 20/10/4, balanced 40/20/8, deep
/// 80/40/16 lexical/fused/seeds), and the request's low-confidence behavior,
/// the best candidate alone unless it says.
pub fn search_config(request: &CodebaseRetrievalRequest) -> (config: SearchConfig)
    ensures
        config.vector_top_k == 40,
        config.rrf_k_bits == RRF_K_20_BITS,
        config.w_vec_bits == 0,
        config.w_lex_bits == WEIGHT_ONE_BITS,
        config.min_score_bits == MIN_SCORE_0_02_BITS,
        config.low_confidence_behavior == match request.low_confidence_behavior {
            Some(b) => b,
            None => LowConfidenceBehavior::ReturnTop1,
        },
        match mode_of(request.mode) {
            RetrievalMode::Quick => config.lexical_top_k == 20 && config.fused_top_m == 10
                && config.seed_top_k == 4,
            RetrievalMode::Balanced => config.lexical_top_k == 40 && config.fused_top_m == 20
                && config.seed_top_k == 8,
            RetrievalMode::Deep => config.lexical_top_k == 80 && config.fused_top_m == 40
                && config.seed_top_k == 16,
        },
{
    let mut config = SearchConfig::default();
    config.w_vec_bits = 0;
    config.w_lex_bits = WEIGHT_ONE_BITS;
    config.low_confidence_behavior = match request.low_confidence_behavior {
        Some(b) => b,
        None => LowConfidenceBehavior::ReturnTop1,
    };
    let mode = match request.mode {
        Some(m) => m,
        None => RetrievalMode::Balanced,
    };
    match mode {
        RetrievalMode::Quick => {
            config.lexical_top_k = 20;
            config.fused_top_m = 10;
            config.seed_top_k = 4;
        },
        RetrievalMode::Balanced => {},
        RetrievalMode::Deep => {
            config.lexical_top_k = 80;
            config.fused_top_m = 40;
            config.seed_top_k = 16;
        },
    }
    config
}

/// The packing limits of a retrieval request: the defaults, replaced by
/// each limit the request gives, and a neighbor radius by mode (quick 0,
/// balanced 1, deep 2).
pub fn pack_config(request: &CodebaseRetrievalRequest) -> (config: PackConfig)
    ensures
        config.max_total_chars == match request.max_total_chars {
            Some(m) => m,
            None => 20_000,
        },
        config.max_files == match request.max_files {
            Some(m) => m as usize,
            None => 8,
        },
        config.max_segments_per_file == match request.max_segments_per_file {
            Some(m) => m as usize,
            None => 4,
        },
        config.neighbor_radius == match mode_of(request.mode) {
            RetrievalMode::Quick => 0u32,
            RetrievalMode::Balanced => 1u32,
            RetrievalMode::Deep => 2u32,
        },
{
    let mut config = PackConfig::default();
    if let Some(max_total_chars) = request.max_total_chars {
        config.max_total_chars = max_total_chars;
    }
    if let Some(max_files) = request.max_files {
        config.max_files = max_files as usize;
    }
    if let Some(max_segments_per_file) = request.max_segments_per_file {
        config.max_segments_per_file = max_segments_per_file as usize;
    }
    let mode = match request.mode {
        Some(m) => m,
        None => RetrievalMode::Balanced,
    };
    config.neighbor_radius = match mode {
        RetrievalMode::Quick => 0,
        RetrievalMode::Balanced => 1,
        RetrievalMode::Deep => 2,
    };
    config
}

// ---------------------------------------------------------------------------
// Seeds of a retrieval
// ---------------------------------------------------------------------------

/// Whether `path` matches one of `globs`.
pub open spec fn any_glob_matches(path: Seq<char>, globs: Seq<Seq<char>>) -> bool {
    exists|i: int|
        0 <= i < globs.len() && glob_match(
            vstd::utf8::encode_utf8(path),
            vstd::utf8::encode_utf8(#[trigger] globs[i]),
        )
}

/// Whether a path passes a request's globs: it matches one of the globs that
/// select paths (or there are none) and none of the globs that reject them.
pub open spec fn path_included(
    path: Seq<char>,
    keep_globs: Seq<Seq<char>>,
    skip_globs: Seq<Seq<char>>,
) -> bool {
    (keep_globs.len() == 0 || any_glob_matches(path, keep_globs)) && !any_glob_matches(path, skip_globs)
}

fn any_matches(path: &str, globs: &[String]) -> (r: bool)
    ensures
        r == any_glob_matches(path@, string_views(globs@)),
{
    let ghost gv = string_views(globs@);
    let mut i: usize = 0;
    while i < globs.len()
        invariant
            0 <= i <= globs.len(),
            gv == string_views(globs@),
            forall|t: int|
                0 <= t < i ==> !glob_match(
                    vstd::utf8::encode_utf8(path@),
                    vstd::utf8::encode_utf8(#[trigger] gv[t]),
                ),
        decreases globs.len() - i,
    {
        assert(gv[i as int] == globs@[i as int]@);
        if matches_glob(path, globs[i].as_str()) {
            return true;
        }
        i = i + 1;
    }
    false
}

/// Whether a path passes the keep_globs and skip_globs globs of a request.
pub fn include_path(path: &str, request: &CodebaseRetrievalRequest) -> (included: bool)
    ensures
        included == path_included(
            path@,
            string_views(request.include_globs@),
            string_views(request.exclude_globs@),
        ),
{
    let included = request.include_globs.len() == 0 || any_matches(
        path,
        request.include_globs.as_slice(),
    );
    let excluded = any_matches(path, request.exclude_globs.as_slice());
    included && !excluded
}

/// Whether a file's listed language is one a request asks for (any language
/// when it names none; a file without a listed language only then).
pub open spec fn language_wanted(wanted: Seq<Seq<char>>, listed: Option<Seq<char>>) -> bool {
    wanted.len() == 0 || (listed matches Some(l) && wanted.contains(l))
}

/// Whether a scored chunk passes a request's filters.
pub open spec fn seed_kept(
    c: ScoredChunkView,
    keep_globs: Seq<Seq<char>>,
    skip_globs: Seq<Seq<char>>,
    wanted: Seq<Seq<char>>,
    langs: Seq<IndexedFileView>,
) -> bool {
    path_included(c.chunk.file_path, keep_globs, skip_globs) && language_wanted(
        wanted,
        listed_language(langs, c.chunk.file_path, langs.len() as int),
    )
}

/// The scored chunks that pass a request's filters, in order.
pub open spec fn kept_seeds(
    pool: Seq<ScoredChunkView>,
    keep_globs: Seq<Seq<char>>,
    skip_globs: Seq<Seq<char>>,
    wanted: Seq<Seq<char>>,
    langs: Seq<IndexedFileView>,
) -> Seq<ScoredChunkView>
    decreases pool.len(),
{
    if pool.len() == 0 {
        Seq::empty()
    } else if seed_kept(pool.last(), keep_globs, skip_globs, wanted, langs) {
        kept_seeds(pool.drop_last(), keep_globs, skip_globs, wanted, langs).push(pool.last())
    } else {
        kept_seeds(pool.drop_last(), keep_globs, skip_globs, wanted, langs)
    }
}

/// The filters of a request applied to a pool of scored chunks.
pub open spec fn request_seeds(
    pool: Seq<ScoredChunkView>,
    request: CodebaseRetrievalRequest,
    langs: Seq<IndexedFileView>,
) -> Seq<ScoredChunkView> {
    kept_seeds(
        pool,
        string_views(request.include_globs@),
        string_views(request.exclude_globs@),
        string_views(request.language@),
        langs,
    )
}

pub(crate) fn clone_scored(c: &ScoredChunk) -> (r: ScoredChunk)
    ensures
        r@ == c@,
{
    ScoredChunk {
        chunk: clone_chunk(&c.chunk),
        score_bits: c.score_bits,
        vector_score_bits: c.vector_score_bits,
        lexical_score_bits: c.lexical_score_bits,
    }
}

/// Keeps the scored chunks whose path passes the request's globs and whose
/// listed language (from `languages`) is one the request asks for.
pub fn filter_scored_chunks(
    seeds: Vec<ScoredChunk>,
    request: &CodebaseRetrievalRequest,
    languages: &[IndexedFile],
) -> (kept: Vec<ScoredChunk>)
    ensures
        scored_views(kept@) == request_seeds(
            scored_views(seeds@),
            *request,
            indexed_views(languages@),
        ),
{
    let ghost pool = scored_views(seeds@);
    let ghost inc = string_views(request.include_globs@);
    let ghost exc = string_views(request.exclude_globs@);
    let ghost wanted = string_views(request.language@);
    let ghost lv = indexed_views(languages@);
    let mut kept: Vec<ScoredChunk> = Vec::new();
    let mut i: usize = 0;
    assert(pool.take(0) =~= Seq::<ScoredChunkView>::empty());
    assert(scored_views(kept@) =~= Seq::<ScoredChunkView>::empty());
    while i < seeds.len()
        invariant
            0 <= i <= seeds.len(),
            pool == scored_views(seeds@),
            inc == string_views(request.include_globs@),
            exc == string_views(request.exclude_globs@),
            wanted == string_views(request.language@),
            lv == indexed_views(languages@),
            scored_views(kept@) == kept_seeds(pool.take(i as int), inc, exc, wanted, lv),
        decreases seeds.len() - i,
    {
        let c = &seeds[i];
        let ghost prefix = pool.take(i + 1);
        assert(prefix.drop_last() =~= pool.take(i as int));
        assert(prefix.last() == c@);
        let path = c.chunk.file_path.as_str();
        let mut keep = include_path(path, request);
        if keep && request.language.len() > 0 {
            keep = match lookup_language(languages, path) {
                Some(l) => contains_str(request.language.as_slice(), l.as_str()),
                None => false,
            };
        }
        if keep {
            let ghost before = scored_views(kept@);
            kept.push(clone_scored(c));
            assert(scored_views(kept@) =~= before.push(c@));
        }
        i = i + 1;
    }
    assert(pool.take(i as int) =~= pool);
    kept
}

/// The seeds that a retrieval packs: from the search's seeds when its
/// confidence was low, else from all its ranked candidates, those that pass
/// the request's filters, at most `seed_top_k` of them.
pub fn retrieval_seeds(
    low_confidence: bool,
    seeds: Vec<ScoredChunk>,
    candidates: Vec<ScoredChunk>,
    request: &CodebaseRetrievalRequest,
    languages: &[IndexedFile],
    seed_top_k: usize,
) -> (chosen: Vec<ScoredChunk>)
    ensures
        ({
            let pool = if low_confidence {
                seeds@
            } else {
                candidates@
            };
            let kept = request_seeds(scored_views(pool), *request, indexed_views(languages@));
            scored_views(chosen@) == kept.take(
                if kept.len() < seed_top_k {
                    kept.len() as int
                } else {
                    seed_top_k as int
                },
            )
        }),
{
    let pool = if low_confidence {
        seeds
    } else {
        candidates
    };
    let mut kept = filter_scored_chunks(pool, request, languages);
    let ghost before = kept@;
    kept.truncate(seed_top_k);
    assert(scored_views(kept@) =~= scored_views(before).take(
        if before.len() < seed_top_k {
            before.len() as int
        } else {
            seed_top_k as int
        },
    ));
    kept
}

// ---------------------------------------------------------------------------
// Retrieval responses
// ---------------------------------------------------------------------------

/// Whether a file path passes a request's globs and language filter.
pub open spec fn path_passes_request(
    request: CodebaseRetrievalRequest,
    langs: Seq<IndexedFileView>,
) -> spec_fn(Seq<char>) -> bool {
    |p: Seq<char>|
        path_included(p, string_views(request.include_globs@), string_views(request.exclude_globs@))
            && language_wanted(
            string_views(request.language@),
            listed_language(langs, p, langs.len() as int),
        )
}

/// Every chunk that the filters keep passes them.
proof fn lemma_kept_seeds_pass(
    pool: Seq<ScoredChunkView>,
    keep_globs: Seq<Seq<char>>,
    skip_globs: Seq<Seq<char>>,
    wanted: Seq<Seq<char>>,
    langs: Seq<IndexedFileView>,
)
    ensures
        forall|i: int|
            0 <= i < kept_seeds(pool, keep_globs, skip_globs, wanted, langs).len() ==> seed_kept(
                #[trigger] kept_seeds(pool, keep_globs, skip_globs, wanted, langs)[i],
                keep_globs,
                skip_globs,
                wanted,
                langs,
            ),
    decreases pool.len(),
{
    if pool.len() > 0 {
        lemma_kept_seeds_pass(pool.drop_last(), keep_globs, skip_globs, wanted, langs);
        let prev = kept_seeds(pool.drop_last(), keep_globs, skip_globs, wanted, langs);
        let cur = kept_seeds(pool, keep_globs, skip_globs, wanted, langs);
        assert forall|i: int| 0 <= i < cur.len() implies seed_kept(
            #[trigger] cur[i],
            keep_globs,
            skip_globs,
            wanted,
            langs,
        ) by {
            if i < prev.len() {
                assert(cur[i] == prev[i]);
            }
        }
    }
}

/// Whether `c` is the chunk of one of the expanded chunks `out`.
pub open spec fn chunk_expanded(c: ChunkRecordView, out: Seq<ExpandedChunkView>) -> bool {
    exists|e: int| 0 <= e < out.len() && (#[trigger] out[e]).chunk == c
}

/// The filters of a retrieval request hold of every file that it packs: the
/// seeds taken from the filtered chunks pass them, expansion adds only chunks
/// of each seed's own file, and packing keeps only files of the chunks it is
/// offered, whatever their order and scores.
pub proof fn lemma_retrieval_pack_passes_filters(
    pool: Seq<ScoredChunkView>,
    request: CodebaseRetrievalRequest,
    langs: Seq<IndexedFileView>,
    n: int,
    files: Seq<Seq<ChunkRecordView>>,
    radius: u32,
    offered: Seq<ScoredChunkView>,
    contents: Seq<Option<Seq<char>>>,
    cfg: PackConfig,
)
    requires
        0 <= n <= request_seeds(pool, request, langs).len(),
        files.len() == n,
        forall|j: int, k: int|
            0 <= j < n && 0 <= k < files[j].len() ==> (#[trigger] files[j][k]).file_path
                == request_seeds(pool, request, langs)[j].chunk.file_path,
        forall|i: int|
            0 <= i < offered.len() ==> chunk_expanded(
                (#[trigger] offered[i]).chunk,
                expand_prefix(request_seeds(pool, request, langs).take(n), files, radius, n as nat),
            ),
        offered.len() == contents.len(),
    ensures
        forall|i: int|
            0 <= i < pack_result(offered, contents, cfg).files.len() ==> path_passes_request(
                request,
                langs,
            )((#[trigger] pack_result(offered, contents, cfg).files[i]).path),
{
    let passes = path_passes_request(request, langs);
    let kept = request_seeds(pool, request, langs);
    let seeds = kept.take(n);
    lemma_kept_seeds_pass(
        pool,
        string_views(request.include_globs@),
        string_views(request.exclude_globs@),
        string_views(request.language@),
        langs,
    );
    assert forall|j: int| 0 <= j < seeds.len() implies passes(#[trigger] seeds[j].chunk.file_path) by {
        assert(seeds[j] == kept[j]);
    }
    assert forall|j: int, k: int| 0 <= j < files.len() && 0 <= k < files[j].len() implies (
    #[trigger] files[j][k]).file_path == seeds[j].chunk.file_path by {
        assert(seeds[j] == kept[j]);
    }
    lemma_expand_stays_in_seed_files(seeds, files, radius, passes);
    let out = expand_prefix(seeds, files, radius, seeds.len());
    assert(seeds.len() == n);
    assert forall|i: int| 0 <= i < offered.len() implies passes(#[trigger] offered[i].chunk.file_path) by {
        let e = choose|e: int| 0 <= e < out.len() && (#[trigger] out[e]).chunk == offered[i].chunk;
        assert(passes(out[e].chunk.file_path));
    }
    lemma_pack_files_come_from_items(offered, contents, cfg, passes);
}

/// The output format of a request: Markdown unless it says.
pub open spec fn format_of(format: Option<OutputFormat>) -> OutputFormat {
    match format {
        Some(f) => f,
        None => OutputFormat::Markdown,
    }
}

/// Assembles the answer to a retrieval: the Markdown rendering of the pack
/// and warnings for the Markdown and both formats, the pack for the JSON and
/// both formats, and, when asked for, the queries, the number of candidates
/// and the number of packed segments.
pub fn codebase_retrieval_response(
    output_format: Option<OutputFormat>,
    pack: RetrievalPack,
    warnings: Vec<String>,
    return_debug: bool,
    lexical_query: String,
    semantic_query: String,
    candidate_count: u32,
) -> (response: CodebaseRetrievalResponse)
    requires
        segment_total(files_view(pack.files@)) <= u32::MAX,
    ensures
        response.format == format_of(output_format),
        response.markdown is Some <==> format_of(output_format) != OutputFormat::Json,
        response.markdown matches Some(m) ==> m@ == markdown_of(
            files_view(pack.files@),
            strings_view(warnings@),
        ),
        response.pack is Some <==> format_of(output_format) != OutputFormat::Markdown,
        response.pack matches Some(p) ==> p == pack,
        response.debug is Some <==> return_debug,
        response.debug matches Some(d) ==> d.lexical_query@ == lexical_query@
            && d.semantic_query@ == semantic_query@ && d.candidate_count == candidate_count
            && d.packed_segment_count == segment_total(files_view(pack.files@)),
        response.warnings@ == warnings@,
{
    let packed_segment_count = count_segments(&pack);
    let format = match output_format {
        Some(f) => f,
        None => OutputFormat::Markdown,
    };
    let markdown = match format {
        OutputFormat::Markdown | OutputFormat::Both => Some(
            render_markdown(&pack, warnings.as_slice()),
        ),
        OutputFormat::Json => None,
    };
    let pack = match format {
        OutputFormat::Json | OutputFormat::Both => Some(pack),
        OutputFormat::Markdown => None,
    };
    let debug = if return_debug {
        Some(
            RetrievalDebug {
                lexical_query,
                semantic_query,
                candidate_count,
                packed_segment_count,
            },
        )
    } else {
        None
    };
    CodebaseRetrievalResponse { format, markdown, pack, debug, warnings }
}

// ---------------------------------------------------------------------------
// Chunks that may mention a symbol
// ---------------------------------------------------------------------------

/// The first occurrence of each value, in order.
pub open spec fn first_occurrences(s: Seq<Seq<char>>) -> Seq<Seq<char>>
    decreases s.len(),
{
    if s.len() == 0 {
        Seq::empty()
    } else if first_occurrences(s.drop_last()).contains(s.last()) {
        first_occurrences(s.drop_last())
    } else {
        first_occurrences(s.drop_last()).push(s.last())
    }
}

/// Keeping first occurrences drops no value, adds none, and leaves no value
/// twice.
pub proof fn lemma_first_occurrences(s: Seq<Seq<char>>)
    ensures
        first_occurrences(s).no_duplicates(),
        forall|x: Seq<char>| first_occurrences(s).contains(x) <==> s.contains(x),
    decreases s.len(),
{
    broadcast use vstd::seq_lib::group_seq_properties;

    if s.len() > 0 {
        let r = first_occurrences(s.drop_last());
        lemma_first_occurrences(s.drop_last());
        assert(s =~= s.drop_last().push(s.last()));
        if !r.contains(s.last()) {
            assert forall|i: int, j: int|
                0 <= i < r.push(s.last()).len() && 0 <= j < r.push(s.last()).len() && i != j
                    implies r.push(s.last())[i] != r.push(s.last())[j] by {
                if i < r.len() && j < r.len() {
                    assert(r[i] != r[j]);
                } else if i < r.len() {
                    assert(r.contains(r[i]));
                } else if j < r.len() {
                    assert(r.contains(r[j]));
                }
            }
        }
    }
}

/// The chunk ids of a full-text search with each id kept once, at its first
/// place.
pub fn distinct_ids(ids: &[String]) -> (unique: Vec<String>)
    ensures
        string_views(unique@) == first_occurrences(string_views(ids@)),
{
    let ghost iv = string_views(ids@);
    let mut unique: Vec<String> = Vec::new();
    let mut i: usize = 0;
    assert(iv.take(0) =~= Seq::<Seq<char>>::empty());
    assert(string_views(unique@) =~= Seq::<Seq<char>>::empty());
    while i < ids.len()
        invariant
            0 <= i <= ids.len(),
            iv == string_views(ids@),
            string_views(unique@) == first_occurrences(iv.take(i as int)),
        decreases ids.len() - i,
    {
        let ghost prefix = iv.take(i + 1);
        assert(prefix.drop_last() =~= iv.take(i as int));
        assert(prefix.last() == ids@[i as int]@);
        if !contains_str(unique.as_slice(), ids[i].as_str()) {
            let ghost before = string_views(unique@);
            unique.push(ids[i].clone());
            assert(string_views(unique@) =~= before.push(ids@[i as int]@));
        }
        i = i + 1;
    }
    assert(iv.take(i as int) =~= iv);
    unique
}

/// The chunks whose text contains `symbol`, in order.
pub open spec fn chunks_with_text(chunks: Seq<ChunkRecordView>, symbol: Seq<char>) -> Seq<
    ChunkRecordView,
>
    decreases chunks.len(),
{
    if chunks.len() == 0 {
        Seq::empty()
    } else if has_substring(chunks.last().content, symbol) {
        chunks_with_text(chunks.drop_last(), symbol).push(chunks.last())
    } else {
        chunks_with_text(chunks.drop_last(), symbol)
    }
}

/// Keeps the chunks whose text contains `symbol` (the fallback when the
/// full-text index finds no chunk for it).
pub fn chunks_containing(chunks: Vec<ChunkRecord>, symbol: &str) -> (found: Vec<ChunkRecord>)
    ensures
        chunk_views(found@) == chunks_with_text(chunk_views(chunks@), symbol@),
{
    let ghost cv = chunk_views(chunks@);
    let mut found: Vec<ChunkRecord> = Vec::new();
    let mut i: usize = 0;
    assert(cv.take(0) =~= Seq::<ChunkRecordView>::empty());
    assert(chunk_views(found@) =~= Seq::<ChunkRecordView>::empty());
    while i < chunks.len()
        invariant
            0 <= i <= chunks.len(),
            cv == chunk_views(chunks@),
            chunk_views(found@) == chunks_with_text(cv.take(i as int), symbol@),
        decreases chunks.len() - i,
    {
        let c = &chunks[i];
        let ghost prefix = cv.take(i + 1);
        assert(prefix.drop_last() =~= cv.take(i as int));
        assert(prefix.last() == c@);
        if contains_substring(c.content.as_str(), symbol) {
            let ghost before = chunk_views(found@);
            found.push(clone_chunk(c));
            assert(chunk_views(found@) =~= before.push(c@));
        }
        i = i + 1;
    }
    assert(cv.take(i as int) =~= cv);
    found
}

// ---------------------------------------------------------------------------
// Errors
// ---------------------------------------------------------------------------

/// The error reported when an operation fails while it runs: code
/// `core_execution_error`, the failure's message, the operation's name, not
/// retryable.
pub fn execution_error(operation: &str, message: String) -> (error: CoreError)
    ensures
        error.code@ == "core_execution_error"@,
        error.message@ == message@,
        error.operation matches Some(o) && o@ == operation@,
        !error.retryable,
{
    proof {
        reveal_strlit("core_execution_error");
    }
    CoreError {
        code: owned("core_execution_error"),
        message,
        operation: Some(owned(operation)),
        retryable: false,
    }
}

/// The error reported for an operation that this build does not implement:
/// code `unsupported_operation`, a fixed message, the operation's name, not
/// retryable.
pub fn unsupported_error(operation: &str) -> (error: CoreError)
    ensures
        error.code@ == "unsupported_operation"@,
        error.message@ == "operation is not implemented by this RandDB core build"@,
        error.operation matches Some(o) && o@ == operation@,
        !error.retryable,
{
    proof {
        reveal_strlit("unsupported_operation");
        reveal_strlit("operation is not implemented by this RandDB core build");
    }
    CoreError {
        code: owned("unsupported_operation"),
        message: owned("operation is not implemented by this RandDB core build"),
        operation: Some(owned(operation)),
        retryable: false,
    }
}

/// The path that `std::path::Path::join` makes of `base` and `part`: `part`
/// after `base`, with the target platform's separator between them when one
/// is needed (fixed for one build).
pub uninterp spec fn joined_path(base: Seq<char>, part: Seq<char>) -> Seq<char>;

/// Calls `std::path::Path::join` on `base` and `part` and gives the result as
/// a string (lossless, since both are valid Unicode). The contract claims
/// only that the result depends on the two paths alone.
#[verifier::external_body]
fn join_path(base: &str, part: &str) -> (joined: String)
    ensures
        joined@ == joined_path(base@, part@),
{
    std::path::Path::new(base).join(part).to_string_lossy().into_owned()
}

/// The path of a repository's index database: `.randdb`, then `index.db`,
/// joined to the repository path.
pub fn database_path(repo_path: &str) -> (path: String)
    ensures
        path@ == joined_path(joined_path(repo_path@, ".randdb"@), "index.db"@),
{
    let dir = join_path(repo_path, ".randdb");
    join_path(dir.as_str(), "index.db")
}

} // verus!
