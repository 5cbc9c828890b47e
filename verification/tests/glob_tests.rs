use randdb::glob::matches_glob;

#[test]
fn wildcard_glob_matches_common_patterns() {
    assert!(matches_glob("src/lib.rs", "src/*.rs"));
    assert!(matches_glob("src/lib.rs", "s*/lib.rs"));
    assert!(!matches_glob("src/lib.rs", "*.rs"));
    assert!(matches_glob("src/lib.rs", "src/*"));
    assert!(!matches_glob("src/lib.ts", "*.rs"));
    assert!(!matches_glob("src/dir/lib.rs", "src/*.rs"));
    assert!(matches_glob("src/dir/lib.rs", "src/**/*.rs"));
    assert!(matches_glob("src/dir/lib.rs", "**/*.rs"));
}

#[test]
fn literal_patterns_match_only_themselves() {
    assert!(matches_glob("src/lib.rs", "src/lib.rs"));
    assert!(!matches_glob("src/lib.rs", "src/lib.r"));
    assert!(!matches_glob("src/lib.r", "src/lib.rs"));
    assert!(matches_glob("", ""));
    assert!(!matches_glob("a", ""));
}

#[test]
fn double_star_matches_every_path() {
    for path in ["", "a", "src/lib.rs", "deep/nested/dir/file.txt", "文件/名"] {
        assert!(matches_glob(path, "**"));
    }
}

#[test]
fn single_star_does_not_cross_a_slash() {
    assert!(matches_glob("lib.rs", "*"));
    assert!(!matches_glob("src/lib.rs", "*"));
    assert!(matches_glob("", "*"));
}

#[test]
fn globs_compare_multibyte_paths_by_bytes() {
    assert!(matches_glob("文档/说明.md", "文档/*.md"));
    assert!(!matches_glob("文档/说明.md", "文件/*.md"));
}
