use randdb::chunking::ChunkRecord;
use randdb::contract::{
    CodebaseRetrievalRequest, ListFilesRequest, LowConfidenceBehavior, OutputFormat, PackedFile,
    PackedSegment, RetrievalMode, RetrievalPack,
};
use randdb::executor::{
    chunks_containing, codebase_retrieval_response, database_path, distinct_ids, execution_error,
    unsupported_error, filter_scored_chunks,
    include_path, indexed_file_entry, list_files_response, pack_config, project_id,
    project_id_for_name, retrieval_query, retrieval_seeds, search_config, WEIGHT_ONE_BITS,
};
use randdb::packing::{expand_neighbors, pack_segments, PackConfig};
use randdb::search::ScoredChunk;
use randdb::storage::IndexedFile;

fn request() -> CodebaseRetrievalRequest {
    CodebaseRetrievalRequest {
        repo_path: "/repo".to_string(),
        information_request: "Find search target".to_string(),
        technical_terms: vec!["search_target".to_string()],
        mode: Some(RetrievalMode::Quick),
        include_globs: vec!["src/*.rs".to_string()],
        exclude_globs: Vec::new(),
        language: vec!["rust".to_string()],
        max_total_chars: Some(2_000),
        max_files: Some(2),
        max_segments_per_file: Some(2),
        return_debug: true,
        low_confidence_behavior: Some(LowConfidenceBehavior::ReturnWithWarning),
        output_format: Some(OutputFormat::Both),
    }
}

fn file(path: &str, language: &str, size: i64) -> IndexedFile {
    IndexedFile {
        path: path.to_string(),
        hash: format!("hash-{path}"),
        size_bytes: size,
        language: language.to_string(),
    }
}

fn chunk(id: &str, path: &str, content: &str) -> ChunkRecord {
    ChunkRecord {
        id: id.to_string(),
        file_path: path.to_string(),
        chunk_index: 0,
        start_line: 1,
        end_line: 1,
        start_utf16: 0,
        end_utf16: content.encode_utf16().count() as u32,
        breadcrumb: None,
        content: content.to_string(),
    }
}

fn scored(id: &str, path: &str) -> ScoredChunk {
    ScoredChunk {
        chunk: chunk(id, path, "x\n"),
        score_bits: 1.0f32.to_bits(),
        vector_score_bits: None,
        lexical_score_bits: None,
    }
}

#[test]
fn project_ids_come_from_the_directory_name() {
    assert_eq!(project_id("/tmp/work/my-repo"), "my-repo");
    assert_eq!(project_id("/tmp/work/my-repo/"), "my-repo");
    assert_eq!(project_id("/"), "randdb");
    assert_eq!(project_id(""), "randdb");
    assert_eq!(project_id_for_name(Some("")), "randdb");
    assert_eq!(project_id_for_name(Some("x")), "x");
    assert_eq!(project_id_for_name(None), "randdb");
}

#[test]
fn listing_filters_by_language_and_glob() {
    let files = vec![file("src.rs", "rust", 19), file("notes.md", "markdown", 4), file("src/lib.rs", "rust", 7)];
    let response = list_files_response(
        &ListFilesRequest {
            repo_path: "/repo".to_string(),
            glob: Some("*.rs".to_string()),
            language: Some("rust".to_string()),
            max_results: Some(10),
        },
        files,
    );

    assert_eq!(response.files.len(), 1);
    assert_eq!(response.files[0].path, "src.rs");
    assert_eq!(response.files[0].size, 19);
    assert_eq!(response.files[0].hash.as_deref(), Some("hash-src.rs"));
    assert!(!response.truncated);
}

#[test]
fn listing_truncates_to_the_maximum() {
    let files = vec![file("a", "text", 1), file("b", "text", 2), file("c", "text", 3)];
    let response = list_files_response(
        &ListFilesRequest { repo_path: String::new(), glob: None, language: None, max_results: Some(2) },
        files,
    );

    assert!(response.truncated);
    let paths: Vec<&str> = response.files.iter().map(|f| f.path.as_str()).collect();
    assert_eq!(paths, ["a", "b"]);
}

#[test]
fn negative_sizes_list_as_zero() {
    let entry = indexed_file_entry(file("x", "text", -4));

    assert_eq!(entry.size, 0);
    assert_eq!(entry.language, "text");
}

#[test]
fn lexical_query_joins_technical_terms() {
    let mut req = request();
    assert_eq!(retrieval_query(&req), "search_target");

    req.technical_terms = vec!["SearchService".to_string(), "retrieve".to_string(), "flow".to_string()];
    assert_eq!(retrieval_query(&req), "SearchService retrieve flow");

    req.technical_terms.clear();
    assert_eq!(retrieval_query(&req), "Find search target");
}

#[test]
fn search_settings_follow_the_mode() {
    let mut req = request();
    let quick = search_config(&req);
    assert_eq!((quick.lexical_top_k, quick.fused_top_m, quick.seed_top_k), (20, 10, 4));
    assert_eq!(quick.w_vec_bits, 0);
    assert_eq!(quick.w_lex_bits, WEIGHT_ONE_BITS);
    assert_eq!(f32::from_bits(WEIGHT_ONE_BITS), 1.0);
    assert_eq!(quick.low_confidence_behavior, LowConfidenceBehavior::ReturnWithWarning);

    req.mode = None;
    req.low_confidence_behavior = None;
    let balanced = search_config(&req);
    assert_eq!((balanced.lexical_top_k, balanced.fused_top_m, balanced.seed_top_k), (40, 20, 8));
    assert_eq!(balanced.low_confidence_behavior, LowConfidenceBehavior::ReturnTop1);

    req.mode = Some(RetrievalMode::Deep);
    let deep = search_config(&req);
    assert_eq!((deep.lexical_top_k, deep.fused_top_m, deep.seed_top_k), (80, 40, 16));
}

#[test]
fn pack_settings_follow_the_request() {
    let mut req = request();
    let quick = pack_config(&req);
    assert_eq!(quick.max_total_chars, 2_000);
    assert_eq!(quick.max_files, 2);
    assert_eq!(quick.max_segments_per_file, 2);
    assert_eq!(quick.neighbor_radius, 0);

    req.mode = Some(RetrievalMode::Deep);
    req.max_total_chars = None;
    req.max_files = None;
    req.max_segments_per_file = None;
    let deep = pack_config(&req);
    assert_eq!(deep.max_total_chars, 20_000);
    assert_eq!(deep.max_files, 8);
    assert_eq!(deep.max_segments_per_file, 4);
    assert_eq!(deep.neighbor_radius, 2);

    req.mode = None;
    assert_eq!(pack_config(&req).neighbor_radius, 1);
}

#[test]
fn paths_pass_the_globs_of_a_request() {
    let mut req = request();
    assert!(include_path("src/lib.rs", &req));
    assert!(!include_path("notes.md", &req));

    req.exclude_globs = vec!["**/lib.rs".to_string()];
    assert!(!include_path("src/lib.rs", &req));

    req.include_globs.clear();
    req.exclude_globs.clear();
    assert!(include_path("notes.md", &req));
}

#[test]
fn seeds_keep_matching_paths_and_languages() {
    let req = request();
    let languages = vec![file("src/lib.rs", "rust", 1), file("notes.md", "markdown", 1), file("src/gen.rs", "text", 1)];
    let pool = vec![scored("1", "src/lib.rs"), scored("2", "notes.md"), scored("3", "src/gen.rs"), scored("4", "src/new.rs")];

    let kept = filter_scored_chunks(pool, &req, &languages);

    let ids: Vec<&str> = kept.iter().map(|c| c.chunk.id.as_str()).collect();
    assert_eq!(ids, ["1"]);
}

#[test]
fn retrieval_seeds_come_from_the_right_pool() {
    let mut req = request();
    req.include_globs.clear();
    req.language.clear();
    let seeds = vec![scored("s", "a.rs")];
    let candidates = vec![scored("c1", "a.rs"), scored("c2", "b.rs"), scored("c3", "c.rs")];

    let low = retrieval_seeds(true, seeds.clone(), candidates.clone(), &req, &[], 2);
    assert_eq!(low.len(), 1);
    assert_eq!(low[0].chunk.id, "s");

    let confident = retrieval_seeds(false, seeds, candidates, &req, &[], 2);
    let ids: Vec<&str> = confident.iter().map(|c| c.chunk.id.as_str()).collect();
    assert_eq!(ids, ["c1", "c2"]);
}

fn pack() -> RetrievalPack {
    RetrievalPack {
        files: vec![PackedFile {
            path: "src/lib.rs".to_string(),
            language: "rust".to_string(),
            segments: vec![PackedSegment {
                start_line: 1,
                end_line: 1,
                start_utf16: 0,
                end_utf16: 26,
                breadcrumb: None,
                text: "pub fn search_target() {}\n".to_string(),
                score_bits: Some(1.0f32.to_bits()),
            }],
        }],
        char_count: 26,
        truncated: false,
    }
}

#[test]
fn retrieval_responses_follow_the_output_format() {
    let both = codebase_retrieval_response(
        Some(OutputFormat::Both),
        pack(),
        vec!["careful".to_string()],
        true,
        "search_target".to_string(),
        "Find search target".to_string(),
        3,
    );
    assert!(both.markdown.as_deref().expect("markdown").contains("search_target"));
    assert!(both.markdown.as_deref().expect("markdown").contains("Warning: careful"));
    assert_eq!(both.pack.expect("pack").files[0].path, "src/lib.rs");
    let debug = both.debug.expect("debug");
    assert_eq!(debug.lexical_query, "search_target");
    assert_eq!(debug.semantic_query, "Find search target");
    assert_eq!(debug.candidate_count, 3);
    assert_eq!(debug.packed_segment_count, 1);
    assert_eq!(both.warnings, vec!["careful".to_string()]);

    let json = codebase_retrieval_response(Some(OutputFormat::Json), pack(), Vec::new(), false, String::new(), String::new(), 0);
    assert!(json.markdown.is_none());
    assert!(json.pack.is_some());
    assert!(json.debug.is_none());

    let markdown = codebase_retrieval_response(None, pack(), Vec::new(), false, String::new(), String::new(), 0);
    assert_eq!(markdown.format, OutputFormat::Markdown);
    assert!(markdown.markdown.is_some());
    assert!(markdown.pack.is_none());
}

#[test]
fn full_text_ids_are_kept_once_in_order() {
    let ids: Vec<String> = ["b", "a", "b", "c", "a"].iter().map(|s| s.to_string()).collect();

    assert_eq!(distinct_ids(&ids), vec!["b".to_string(), "a".to_string(), "c".to_string()]);
}

#[test]
fn fallback_keeps_chunks_that_contain_the_symbol() {
    let chunks = vec![
        chunk("1", "a.rs", "fn source() {}\n"),
        chunk("2", "a.rs", "fn other() {}\n"),
        chunk("3", "b.rs", "let sourceful = 1;\n"),
    ];

    let found = chunks_containing(chunks, "source");

    let ids: Vec<&str> = found.iter().map(|c| c.id.as_str()).collect();
    assert_eq!(ids, ["1", "3"]);
}

#[test]
fn databases_live_under_the_repository() {
    assert_eq!(database_path("/tmp/repo"), "/tmp/repo/.randdb/index.db");
    assert_eq!(database_path("/tmp/repo/"), "/tmp/repo/.randdb/index.db");
    assert_eq!(database_path(""), ".randdb/index.db");
    assert_eq!(
        std::path::Path::new(&database_path("/tmp/repo")),
        std::path::Path::new("/tmp/repo").join(".randdb").join("index.db")
    );
}

#[test]
fn errors_name_their_operation() {
    let failed = execution_error("stats", "disk I/O error".to_string());
    assert_eq!(failed.code, "core_execution_error");
    assert_eq!(failed.message, "disk I/O error");
    assert_eq!(failed.operation.as_deref(), Some("stats"));
    assert!(!failed.retryable);

    let unsupported = unsupported_error("embed");
    assert_eq!(unsupported.code, "unsupported_operation");
    assert_eq!(unsupported.message, "operation is not implemented by this RandDB core build");
    assert_eq!(unsupported.operation.as_deref(), Some("embed"));
    assert!(!unsupported.retryable);
}

#[test]
fn packed_files_pass_the_request_filters() {
    let req = request();
    let languages = vec![file("src/lib.rs", "rust", 1), file("notes.md", "markdown", 1)];
    let pool = vec![scored("1", "src/lib.rs"), scored("2", "notes.md")];
    let seeds = filter_scored_chunks(pool, &req, &languages);
    assert_eq!(seeds.len(), 1);

    let mut neighbour = chunk("1b", "src/lib.rs", "y\n");
    neighbour.chunk_index = 1;
    let file_chunks = vec![vec![seeds[0].chunk.clone(), neighbour]];
    let expanded = expand_neighbors(&seeds, &file_chunks, 1);
    assert_eq!(expanded.len(), 2);

    let offered: Vec<ScoredChunk> = expanded
        .into_iter()
        .map(|e| ScoredChunk {
            chunk: e.chunk,
            score_bits: 1.0f32.to_bits(),
            vector_score_bits: None,
            lexical_score_bits: None,
        })
        .collect();
    let contents: Vec<Option<String>> = offered.iter().map(|_| Some("x\ny\n".to_string())).collect();
    let pack = pack_segments(&offered, &contents, &PackConfig::default());
    assert_eq!(pack.files.len(), 1);
    for f in &pack.files {
        assert_eq!(f.path, "src/lib.rs");
        assert!(include_path(&f.path, &req));
    }
}
