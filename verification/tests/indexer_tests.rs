use randdb::contract::HealthState;
use randdb::indexer::{
    classify_file, file_record, hash_bytes, index_run_summary, language_for_path,
    normalize_separators, sort_by_path, stale_paths, FileChange,
};
use randdb::language::should_skip_path;
use randdb::storage::FileRecord;

fn strings(items: &[&str]) -> Vec<String> {
    items.iter().map(|s| s.to_string()).collect()
}

#[test]
fn hashes_are_lowercase_hex_sha256() {
    assert_eq!(
        hash_bytes(b"abc"),
        "ba7816bf8f01cfea414140de5dae2223b00361a396177a9cb410ff61f20015ad"
    );
    assert_eq!(
        hash_bytes(b""),
        "e3b0c44298fc1c149afbf4c8996fb92427ae41e4649b934ca495991b7852b855"
    );
    assert_eq!(hash_bytes(b"pub fn first() {}\n").len(), 64);
    assert_ne!(hash_bytes(b"pub fn first() {}\n"), hash_bytes(b"pub fn second() {}\n"));
}

#[test]
fn text_files_keep_their_multibyte_content() {
    let content = "pub fn greeting() -> &'static str { \"你好 🚀\" }\n";
    let record = file_record(
        "src/lib.rs".to_string(),
        "/repo/src/lib.rs",
        content.as_bytes().to_vec(),
        17,
        content.len() as i64,
    );

    assert_eq!(record.path, "src/lib.rs");
    assert_eq!(record.content, content);
    assert_eq!(record.language, "rust");
    assert_eq!(record.hash, hash_bytes(content.as_bytes()));
    assert_eq!(record.mtime_ms, 17);
    assert_eq!(record.size_bytes, content.len() as i64);
}

#[test]
fn binary_files_are_recorded_without_text() {
    let record = file_record("src/blob.bin".to_string(), "/repo/src/blob.bin", vec![0xff, 0xfe, 0xfd], 0, 3);

    assert_eq!(record.language, "binary");
    assert_eq!(record.content, "");
    assert_eq!(record.hash, hash_bytes(&[0xff, 0xfe, 0xfd]));
}

#[test]
fn languages_follow_the_extension() {
    assert_eq!(language_for_path("src/lib.rs"), "rust");
    assert_eq!(language_for_path("web/app.tsx"), "typescript");
    assert_eq!(language_for_path("web/app.mjs"), "javascript");
    assert_eq!(language_for_path("README.md"), "markdown");
    assert_eq!(language_for_path("config.yml"), "yaml");
    assert_eq!(language_for_path("main.cpp"), "cpp");
    assert_eq!(language_for_path("include/x.h"), "c");
    assert_eq!(language_for_path("Makefile"), "text");
    assert_eq!(language_for_path(".gitignore"), "text");
    assert_eq!(language_for_path("archive.tar.gz"), "text");
}

#[test]
fn derived_directories_are_skipped() {
    for name in [".git", ".serena", "node_modules", "target", "dist"] {
        assert!(should_skip_path(Some(name)));
    }
    assert!(!should_skip_path(Some("src")));
    assert!(!should_skip_path(Some("targets")));
    assert!(!should_skip_path(None));
}

#[test]
fn relative_paths_use_forward_slashes() {
    assert_eq!(normalize_separators("src\\nested\\lib.rs"), "src/nested/lib.rs");
    assert_eq!(normalize_separators("src/lib.rs"), "src/lib.rs");
}

#[test]
fn changes_compare_stored_and_scanned_hashes() {
    assert_eq!(classify_file(Some("h1"), "h1"), FileChange::Unchanged);
    assert_eq!(classify_file(Some("h1"), "h2"), FileChange::Modified);
    assert_eq!(classify_file(None, "h1"), FileChange::Added);
}

#[test]
fn run_summaries_count_each_change() {
    // First run: two new files.
    let first = index_run_summary(1, 2, &[FileChange::Added, FileChange::Added], 0);
    assert_eq!(first.scanned_files, 2);
    assert_eq!(first.added_files, 2);
    assert_eq!(first.modified_files, 0);
    assert_eq!(first.deleted_files, 0);

    // Second run: nothing changed.
    let second = index_run_summary(3, 4, &[FileChange::Unchanged, FileChange::Unchanged], 0);
    assert_eq!(second.added_files, 0);
    assert_eq!(second.modified_files, 0);
    assert_eq!(second.unchanged_files, 2);
    assert_eq!(second.skipped_embeddings, 2);

    // Third run: one file modified, one deleted.
    let third = index_run_summary(5, 6, &[FileChange::Modified], 1);
    assert_eq!(third.scanned_files, 1);
    assert_eq!(third.modified_files, 1);
    assert_eq!(third.deleted_files, 1);
    assert_eq!(third.started_at_unix_ms, 5);
    assert_eq!(third.finished_at_unix_ms, 6);
    assert_eq!(third.embedded_chunks, 0);
    assert_eq!(third.health_state, HealthState::Healthy);
}

#[test]
fn stale_paths_are_the_indexed_ones_not_scanned() {
    let indexed = strings(&["README.md", "src/lib.rs", "old.rs"]);
    let scanned = strings(&["src/lib.rs"]);

    assert_eq!(stale_paths(&indexed, &scanned), strings(&["README.md", "old.rs"]));
    assert!(stale_paths(&scanned, &indexed).is_empty());
}

#[test]
fn scanned_records_sort_by_path() {
    let record = |path: &str| FileRecord {
        path: path.to_string(),
        hash: String::new(),
        mtime_ms: 0,
        size_bytes: 0,
        content: String::new(),
        language: "text".to_string(),
    };
    let sorted = sort_by_path(vec![
        record("src/lib.rs"),
        record("Cargo.toml"),
        record("src/blob.bin"),
        record("README.md"),
        record("é.txt"),
    ]);

    let paths: Vec<&str> = sorted.iter().map(|r| r.path.as_str()).collect();
    assert_eq!(paths, ["Cargo.toml", "README.md", "src/blob.bin", "src/lib.rs", "é.txt"]);
}
