use randdb::chunking::{chunk_file, ChunkConfig};
use randdb::storage::FileRecord;

fn record(content: &str) -> FileRecord {
    FileRecord {
        path: "src/lib.rs".to_string(),
        hash: "hash".to_string(),
        mtime_ms: 0,
        size_bytes: content.len() as i64,
        content: content.to_string(),
        language: "rust".to_string(),
    }
}

#[test]
fn chunks_small_file_as_single_utf16_span() {
    let chunks = chunk_file(&record("a🚀文\n"), &ChunkConfig::default());

    assert_eq!(chunks.len(), 1);
    assert_eq!(chunks[0].start_utf16, 0);
    assert_eq!(chunks[0].end_utf16, 5);
    assert_eq!(chunks[0].start_line, 1);
    assert_eq!(chunks[0].end_line, 1);
    assert_eq!(chunks[0].content, "a🚀文\n");
}

#[test]
fn splits_on_line_boundaries_when_budget_is_exceeded() {
    let chunks = chunk_file(
        &record("one\ntwo\nthree\n"),
        &ChunkConfig { max_utf16_units: 8 },
    );

    assert_eq!(chunks.len(), 2);
    assert_eq!(chunks[0].content, "one\ntwo\n");
    assert_eq!(chunks[0].start_utf16, 0);
    assert_eq!(chunks[0].end_utf16, 8);
    assert_eq!(chunks[0].start_line, 1);
    assert_eq!(chunks[0].end_line, 2);
    assert_eq!(chunks[1].content, "three\n");
    assert_eq!(chunks[1].start_utf16, 8);
    assert_eq!(chunks[1].end_utf16, 14);
    assert_eq!(chunks[1].start_line, 3);
    assert_eq!(chunks[1].end_line, 3);
}

#[test]
fn binary_files_do_not_produce_chunks() {
    let mut binary = record("");
    binary.language = "binary".to_string();

    assert!(chunk_file(&binary, &ChunkConfig::default()).is_empty());
}

#[test]
fn chunk_ids_name_path_hash_and_index() {
    let chunks = chunk_file(
        &record("one\ntwo\nthree\n"),
        &ChunkConfig { max_utf16_units: 4 },
    );

    assert_eq!(chunks.len(), 3);
    for (index, chunk) in chunks.iter().enumerate() {
        assert_eq!(chunk.id, format!("src/lib.rs:hash:{index}"));
        assert_eq!(chunk.chunk_index, index as u32);
        assert_eq!(chunk.file_path, "src/lib.rs");
    }
}

#[test]
fn chunks_concatenate_to_the_file_and_touch_end_to_end() {
    let text = "alpha\nbeta\n\ngamma delta\nεψιλον\nlast line without newline";
    let chunks = chunk_file(&record(text), &ChunkConfig { max_utf16_units: 12 });

    let joined: String = chunks.iter().map(|chunk| chunk.content.as_str()).collect();
    assert_eq!(joined, text);
    assert_eq!(chunks[0].start_utf16, 0);
    for pair in chunks.windows(2) {
        assert_eq!(pair[0].end_utf16, pair[1].start_utf16);
        assert_eq!(pair[0].end_line + 1, pair[1].start_line);
    }
    let last = chunks.last().expect("chunks");
    assert_eq!(last.end_utf16 as usize, text.encode_utf16().count());
}

#[test]
fn a_line_longer_than_the_budget_stays_whole() {
    let chunks = chunk_file(
        &record("short\nthis line is much longer than the budget\nend\n"),
        &ChunkConfig { max_utf16_units: 8 },
    );

    assert_eq!(chunks.len(), 3);
    assert_eq!(chunks[1].content, "this line is much longer than the budget\n");
    assert_eq!(chunks[1].start_line, 2);
    assert_eq!(chunks[1].end_line, 2);
}

#[test]
fn empty_files_do_not_produce_chunks() {
    assert!(chunk_file(&record(""), &ChunkConfig::default()).is_empty());
}

#[test]
fn chunk_offsets_cut_the_chunk_text_out_of_the_file() {
    let text = "a🚀文\nnext line\n你好 🚀\nlast";
    let chunks = chunk_file(&record(text), &ChunkConfig { max_utf16_units: 6 });
    let chars: Vec<char> = text.chars().collect();

    assert!(chunks.len() > 1);
    for chunk in &chunks {
        let slice = randdb::packing::slice_utf16(&chars, chunk.start_utf16, chunk.end_utf16)
            .expect("offsets fall between characters");
        assert_eq!(slice.into_iter().collect::<String>(), chunk.content);
    }
}

#[test]
fn chunks_are_runs_of_whole_lines_grouped_greedily() {
    let text = "aa\nbbb\nc\ndddd\ne";
    let chunks = chunk_file(&record(text), &ChunkConfig { max_utf16_units: 7 });
    let lines: Vec<&str> = text.split_inclusive('\n').collect();

    for (k, chunk) in chunks.iter().enumerate() {
        let span = (chunk.end_line - chunk.start_line + 1) as usize;
        assert_eq!(span, chunk.content.split_inclusive('\n').count());
        let run: String = lines[chunk.start_line as usize - 1..chunk.end_line as usize].concat();
        assert_eq!(run, chunk.content);
        if k + 1 < chunks.len() {
            assert!(chunk.content.ends_with('\n'));
            let next_first = chunks[k + 1].content.split_inclusive('\n').next().expect("line");
            assert!(chunk.content.encode_utf16().count() + next_first.encode_utf16().count() > 7);
        }
    }
    assert_eq!(chunks.last().expect("chunks").end_line as usize, lines.len());
}
