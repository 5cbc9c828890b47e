use randdb::chunking::ChunkRecord;
use randdb::packing::{
    char_index_for_utf16, expand_neighbors, pack_segments, slice_utf16, PackConfig, ScoreOrigin,
};
use randdb::ranking::order_expanded;
use randdb::search::ScoredChunk;

fn chunk(path: &str, index: u32, start_utf16: u32, end_utf16: u32, content: &str) -> ChunkRecord {
    ChunkRecord {
        id: format!("{path}:hash:{index}"),
        file_path: path.to_string(),
        chunk_index: index,
        start_line: index + 1,
        end_line: index + 1,
        start_utf16,
        end_utf16,
        breadcrumb: Some(format!("chunk_{index}")),
        content: content.to_string(),
    }
}

fn seed(chunk: ChunkRecord, score: f32) -> ScoredChunk {
    ScoredChunk {
        chunk,
        score_bits: score.to_bits(),
        vector_score_bits: None,
        lexical_score_bits: None,
    }
}

/// Expands seeds over the chunks of their files and orders the result, with
/// each chunk scored by where its score comes from.
fn expand(seeds: &[ScoredChunk], file_chunks: &[Vec<ChunkRecord>], radius: u32) -> Vec<ScoredChunk> {
    let expanded = expand_neighbors(seeds, file_chunks, radius);
    let scored = expanded
        .into_iter()
        .map(|item| {
            let score = match item.origin {
                ScoreOrigin::Seed(k) => f32::from_bits(seeds[k].score_bits),
                ScoreOrigin::Neighbor(k) => f32::from_bits(seeds[k].score_bits) * 0.5,
            };
            seed(item.chunk, score)
        })
        .collect();
    order_expanded(scored)
}

#[test]
fn packs_authoritative_utf16_slices_from_file_content() {
    let content = "a🚀文\nnext\n";
    let mut first = chunk("src/lib.rs", 0, 0, 5, "stale chunk text");
    first.breadcrumb = Some("emoji_width_marker".to_string());
    let mut second = chunk("src/lib.rs", 1, 5, 10, "next\n");
    second.breadcrumb = Some("next".to_string());
    let file_chunks = vec![first.clone(), second];

    let expanded = expand(&[seed(first, 1.0)], &[file_chunks], 1);
    let contents: Vec<Option<String>> = expanded.iter().map(|_| Some(content.to_string())).collect();
    let pack = pack_segments(
        &expanded,
        &contents,
        &PackConfig {
            max_total_chars: 10,
            max_files: 1,
            max_segments_per_file: 2,
            neighbor_radius: 1,
        },
    );

    assert_eq!(pack.char_count, 10);
    assert!(!pack.truncated);
    assert_eq!(pack.files[0].segments[0].text, "a🚀文\n");
    assert_eq!(pack.files[0].segments[0].end_utf16, 5);
    assert_eq!(pack.files[0].segments[1].text, "next\n");
}

#[test]
fn packing_enforces_budget_and_segment_limits() {
    let content = "first\nsecond\nthird\n";
    let file_chunks = vec![
        chunk("src/lib.rs", 0, 0, 6, "first\n"),
        chunk("src/lib.rs", 1, 6, 13, "second\n"),
        chunk("src/lib.rs", 2, 13, 19, "third\n"),
    ];

    let expanded = expand(&[seed(file_chunks[1].clone(), 1.0)], &[file_chunks], 2);
    let contents: Vec<Option<String>> = expanded.iter().map(|_| Some(content.to_string())).collect();
    let pack = pack_segments(
        &expanded,
        &contents,
        &PackConfig {
            max_total_chars: 12,
            max_files: 1,
            max_segments_per_file: 1,
            neighbor_radius: 2,
        },
    );

    assert!(pack.truncated);
    assert_eq!(pack.files[0].segments.len(), 1);
    assert!(pack.char_count <= 12);
}

#[test]
fn expansion_promotes_seed_score_when_seed_was_first_added_as_neighbor() {
    let file_chunks = vec![
        chunk("src/lib.rs", 0, 0, 6, "first\n"),
        chunk("src/lib.rs", 1, 6, 13, "second\n"),
    ];
    let first = seed(file_chunks[0].clone(), 0.8);
    let second = seed(file_chunks[1].clone(), 1.0);

    let expanded = expand(&[first, second], &[file_chunks.clone(), file_chunks], 1);

    assert_eq!(expanded[0].chunk.id, "src/lib.rs:hash:1");
    assert_eq!(f32::from_bits(expanded[0].score_bits), 1.0);
}

#[test]
fn expansion_takes_each_chunk_once_and_marks_its_origin() {
    let file_chunks = vec![
        chunk("src/lib.rs", 0, 0, 6, "first\n"),
        chunk("src/lib.rs", 1, 6, 13, "second\n"),
        chunk("src/lib.rs", 2, 13, 19, "third\n"),
        chunk("src/lib.rs", 3, 19, 25, "forth\n"),
    ];
    let seeds = vec![seed(file_chunks[1].clone(), 1.0), seed(file_chunks[2].clone(), 0.5)];

    let expanded = expand_neighbors(&seeds, &[file_chunks.clone(), file_chunks], 1);

    let ids: Vec<&str> = expanded.iter().map(|item| item.chunk.id.as_str()).collect();
    assert_eq!(
        ids,
        ["src/lib.rs:hash:0", "src/lib.rs:hash:1", "src/lib.rs:hash:2", "src/lib.rs:hash:3"]
    );
    assert_eq!(expanded[0].origin, ScoreOrigin::Neighbor(0));
    assert_eq!(expanded[1].origin, ScoreOrigin::Seed(0));
    assert_eq!(expanded[2].origin, ScoreOrigin::Seed(1));
    assert_eq!(expanded[3].origin, ScoreOrigin::Neighbor(1));
}

#[test]
fn packing_groups_by_file_in_path_order_and_keeps_missing_files_empty() {
    let a = chunk("b/second.rs", 0, 0, 3, "bb\n");
    let b = chunk("a/first.rs", 0, 0, 3, "aa\n");
    let c = chunk("gone.rs", 0, 0, 3, "xx\n");
    let items = vec![seed(a, 0.9), seed(b, 0.8), seed(c, 0.7)];
    let contents = vec![Some("bb\n".to_string()), Some("aa\n".to_string()), None];

    let pack = pack_segments(&items, &contents, &PackConfig::default());

    assert!(pack.truncated);
    assert_eq!(pack.files.len(), 3);
    assert_eq!(pack.files[0].path, "a/first.rs");
    assert_eq!(pack.files[0].language, "rust");
    assert_eq!(pack.files[1].path, "b/second.rs");
    assert_eq!(pack.files[2].path, "gone.rs");
    assert!(pack.files[2].segments.is_empty());
    assert_eq!(pack.char_count, 6);
    assert_eq!(pack.files[1].segments[0].score_bits, Some(0.9f32.to_bits()));
}

#[test]
fn packing_stops_at_the_character_budget() {
    let items = vec![
        seed(chunk("a.md", 0, 0, 4, "abc\n"), 1.0),
        seed(chunk("a.md", 1, 4, 8, "def\n"), 0.9),
    ];
    let contents = vec![Some("abc\ndef\n".to_string()), Some("abc\ndef\n".to_string())];

    let pack = pack_segments(
        &items,
        &contents,
        &PackConfig { max_total_chars: 6, max_files: 8, max_segments_per_file: 4, neighbor_radius: 1 },
    );

    assert!(pack.truncated);
    assert_eq!(pack.char_count, 4);
    assert_eq!(pack.files[0].language, "markdown");
    assert_eq!(pack.files[0].segments.len(), 1);
}

#[test]
fn utf16_offsets_fall_on_character_boundaries() {
    let text: Vec<char> = "a🚀文\n".chars().collect();

    assert_eq!(char_index_for_utf16(&text, 0), Some(0));
    assert_eq!(char_index_for_utf16(&text, 1), Some(1));
    assert_eq!(char_index_for_utf16(&text, 2), None);
    assert_eq!(char_index_for_utf16(&text, 3), Some(2));
    assert_eq!(char_index_for_utf16(&text, 5), Some(4));
    assert_eq!(char_index_for_utf16(&text, 6), None);
    assert_eq!(slice_utf16(&text, 1, 4), Some("🚀文".chars().collect()));
    assert_eq!(slice_utf16(&text, 4, 1), None);
    assert_eq!(slice_utf16(&text, 0, 2), None);
}

#[test]
fn pack_defaults() {
    let config = PackConfig::default();

    assert_eq!(config.max_total_chars, 20_000);
    assert_eq!(config.max_files, 8);
    assert_eq!(config.max_segments_per_file, 4);
    assert_eq!(config.neighbor_radius, 1);
}
