use randdb::language::infer_language;
use randdb::text::{split_lines_preserving_endings, utf16_len};

#[test]
fn utf16_lengths_count_surrogate_pairs() {
    assert_eq!(utf16_len(""), 0);
    assert_eq!(utf16_len("abc"), 3);
    assert_eq!(utf16_len("a🚀文\n"), 5);
}

#[test]
fn lines_keep_their_endings() {
    let text: Vec<char> = "one\ntwo\n\nlast".chars().collect();
    let lines: Vec<String> = split_lines_preserving_endings(&text)
        .into_iter()
        .map(|line| line.into_iter().collect())
        .collect();

    assert_eq!(lines, ["one\n", "two\n", "\n", "last"]);
}

#[test]
fn retrieval_languages_follow_the_last_dot() {
    assert_eq!(infer_language("src/lib.rs"), "rust");
    assert_eq!(infer_language("web/app.tsx"), "typescript");
    assert_eq!(infer_language("web/app.cjs"), "javascript");
    assert_eq!(infer_language("notes.markdown"), "markdown");
    assert_eq!(infer_language("package.json"), "json");
    assert_eq!(infer_language("Cargo.toml"), "toml");
    assert_eq!(infer_language("config.yaml"), "text");
    assert_eq!(infer_language("Makefile"), "text");
}
