use randdb::contract::{PackedFile, PackedSegment, RetrievalPack};
use randdb::markdown::{count_segments, render_markdown};

fn segment(start: u32, end: u32, text: &str) -> PackedSegment {
    PackedSegment {
        start_line: start,
        end_line: end,
        start_utf16: 0,
        end_utf16: 0,
        breadcrumb: None,
        text: text.to_string(),
        score_bits: None,
    }
}

#[test]
fn renders_one_block() {
    let pack = RetrievalPack {
        files: vec![PackedFile {
            path: "src/lib.rs".to_string(),
            language: "rust".to_string(),
            segments: vec![segment(1, 2, "fn a() {}\nfn b() {}\n")],
        }],
        char_count: 20,
        truncated: false,
    };

    assert_eq!(
        render_markdown(&pack, &[]),
        "Found 1 relevant code block | Files: 1 | Total segments: 1\n\n## src/lib.rs (rust)\n\n```rust:1-2\nfn a() {}\nfn b() {}\n```\n"
    );
}

#[test]
fn renders_warnings_and_adds_missing_newlines() {
    let pack = RetrievalPack {
        files: vec![
            PackedFile {
                path: "a.md".to_string(),
                language: "markdown".to_string(),
                segments: vec![segment(3, 3, "# title"), segment(10, 11, "x\n")],
            },
            PackedFile {
                path: "b.rs".to_string(),
                language: "rust".to_string(),
                segments: vec![segment(1, 1, "y\n")],
            },
        ],
        char_count: 0,
        truncated: true,
    };

    assert_eq!(count_segments(&pack), 3);
    assert_eq!(
        render_markdown(&pack, &["first".to_string(), "second".to_string()]),
        "Found 3 relevant code blocks | Files: 2 | Total segments: 3\n\nWarning: first\n\nWarning: second\n\n## a.md (markdown)\n\n```markdown:3-3\n# title\n```\n\n```markdown:10-11\nx\n```\n\n## b.rs (rust)\n\n```rust:1-1\ny\n```\n"
    );
}

#[test]
fn renders_an_empty_pack() {
    let pack = RetrievalPack { files: Vec::new(), char_count: 0, truncated: false };

    assert_eq!(count_segments(&pack), 0);
    assert_eq!(
        render_markdown(&pack, &[]),
        "Found 0 relevant code blocks | Files: 0 | Total segments: 0\n"
    );
}
