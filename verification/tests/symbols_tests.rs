use randdb::chunking::{chunk_file, ChunkConfig};
use randdb::contract::{FindReferencesRequest, GetSymbolDefinitionRequest};
use randdb::storage::{FileRecord, IndexedFile};
use randdb::symbols::{
    contains_symbol, find_references_response, get_symbol_definition_response,
    is_definition_line, is_identifier_char, trim_chars,
};

fn chars(s: &str) -> Vec<char> {
    s.chars().collect()
}

fn indexed_source() -> (Vec<randdb::chunking::ChunkRecord>, Vec<IndexedFile>) {
    let content = "pub fn source() {}\nfn caller() { source(); }\nfn sourceful() {}\n";
    let record = FileRecord {
        path: "src/lib.rs".to_string(),
        hash: "hash".to_string(),
        mtime_ms: 0,
        size_bytes: content.len() as i64,
        content: content.to_string(),
        language: "rust".to_string(),
    };
    let chunks = chunk_file(&record, &ChunkConfig::default());
    let languages = vec![IndexedFile {
        path: "src/lib.rs".to_string(),
        hash: "hash".to_string(),
        size_bytes: content.len() as i64,
        language: "rust".to_string(),
    }];
    (chunks, languages)
}

#[test]
fn symbol_tools_return_references_and_definition() {
    let (chunks, languages) = indexed_source();

    let definitions = get_symbol_definition_response(
        &GetSymbolDefinitionRequest {
            repo_path: "/repo".to_string(),
            symbol: "source".to_string(),
            hint_path: Some("src/lib.rs".to_string()),
            max_results: Some(5),
        },
        &chunks,
        &languages,
    );
    assert_eq!(definitions.definitions.len(), 1);
    assert_eq!(definitions.definitions[0].text, "pub fn source() {}");
    assert_eq!(definitions.definitions[0].start_line, 1);
    assert_eq!(definitions.definitions[0].language, "rust");
    assert!(!definitions.truncated);

    let references = find_references_response(
        &FindReferencesRequest {
            repo_path: "/repo".to_string(),
            symbol: "source".to_string(),
            exclude_definition: Some(true),
            max_results: Some(10),
        },
        &chunks,
        &languages,
    );
    assert_eq!(references.references.len(), 1);
    assert_eq!(references.references[0].snippet, "fn caller() { source(); }");
    assert_eq!(references.references[0].start_line, 2);
}

#[test]
fn references_include_definitions_unless_excluded() {
    let (chunks, languages) = indexed_source();
    let references = find_references_response(
        &FindReferencesRequest {
            repo_path: "/repo".to_string(),
            symbol: "source".to_string(),
            exclude_definition: None,
            max_results: Some(1),
        },
        &chunks,
        &languages,
    );

    assert_eq!(references.references.len(), 1);
    assert_eq!(references.references[0].snippet, "pub fn source() {}");
    assert!(references.truncated);
}

#[test]
fn definitions_outside_the_hint_path_are_ignored() {
    let (chunks, languages) = indexed_source();
    let definitions = get_symbol_definition_response(
        &GetSymbolDefinitionRequest {
            repo_path: "/repo".to_string(),
            symbol: "source".to_string(),
            hint_path: Some("src/other.rs".to_string()),
            max_results: None,
        },
        &chunks,
        &languages,
    );

    assert!(definitions.definitions.is_empty());
    assert!(!definitions.truncated);
}

#[test]
fn symbols_match_whole_identifiers() {
    assert!(contains_symbol(&chars("fn caller() { source(); }"), &chars("source")));
    assert!(!contains_symbol(&chars("fn sourceful() {}"), &chars("source")));
    assert!(!contains_symbol(&chars("resource"), &chars("source")));
    assert!(contains_symbol(&chars("x = source"), &chars("source")));
    assert!(!contains_symbol(&chars("anything"), &chars("")));
    assert!(contains_symbol(&chars("sourceful source"), &chars("source")));
}

#[test]
fn definition_lines_start_with_a_definition_keyword() {
    assert!(is_definition_line(&chars("pub fn source() {}"), &chars("source")));
    assert!(is_definition_line(&chars("    struct   Source;"), &chars("Source")));
    assert!(is_definition_line(&chars("export class Widget {"), &chars("Widget")));
    assert!(!is_definition_line(&chars("fn sourceful() {}"), &chars("source")));
    assert!(!is_definition_line(&chars("fn caller() { source(); }"), &chars("source")));
    assert!(!is_definition_line(&chars("pubfn source() {}"), &chars("source")));
}

#[test]
fn whitespace_is_the_unicode_white_space_set() {
    for c in (0u32..=0x10ffff).filter_map(char::from_u32) {
        assert_eq!(trim_chars(&[c]).is_empty(), c.is_whitespace(), "{:x}", c as u32);
    }
    let text = "\u{3000} \tfn x() {}\u{2028}\n";
    assert_eq!(trim_chars(&chars(text)).into_iter().collect::<String>(), text.trim());
}

#[test]
fn ascii_identifier_characters_match_std() {
    for c in (0u8..128).map(char::from) {
        assert_eq!(is_identifier_char(c), c == '_' || c.is_alphanumeric(), "{c:?}");
    }
}

#[test]
fn identifier_characters() {
    assert!(is_identifier_char('_'));
    assert!(is_identifier_char('a'));
    assert!(is_identifier_char('Z'));
    assert!(is_identifier_char('7'));
    assert!(is_identifier_char('é'));
    assert!(!is_identifier_char('('));
    assert!(!is_identifier_char(' '));
}

#[test]
fn reference_snippets_are_trimmed_and_mention_the_whole_symbol() {
    let content = "    let x = source_map;\n\tcall(source);\u{3000}\n";
    let record = FileRecord {
        path: "src/main.rs".to_string(),
        hash: "h2".to_string(),
        mtime_ms: 0,
        size_bytes: content.len() as i64,
        content: content.to_string(),
        language: "rust".to_string(),
    };
    let chunks = chunk_file(&record, &ChunkConfig::default());
    let languages = vec![IndexedFile {
        path: "src/main.rs".to_string(),
        hash: "h2".to_string(),
        size_bytes: content.len() as i64,
        language: "rust".to_string(),
    }];
    let references = find_references_response(
        &FindReferencesRequest {
            repo_path: "/repo".to_string(),
            symbol: "source".to_string(),
            exclude_definition: None,
            max_results: Some(10),
        },
        &chunks,
        &languages,
    );
    assert_eq!(references.references.len(), 1);
    let snippet = &references.references[0].snippet;
    assert_eq!(snippet, "call(source);");
    assert_eq!(snippet.trim(), snippet);
    assert!(contains_symbol(&chars(snippet), &chars("source")));
    assert_eq!(references.references[0].start_line, 2);
}
