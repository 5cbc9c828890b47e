use vstd::prelude::*;

use crate::text::{chars_eq, chars_of, chars_slice};

verus! {

broadcast use vstd::string::group_string_axioms;

/// Index of the last `c` in `s`, or -1 when `s` has none.
pub open spec fn last_index_of(s: Seq<char>, c: char) -> int
    decreases s.len(),
{
    if s.len() == 0 {
        -1
    } else if s.last() == c {
        s.len() - 1
    } else {
        last_index_of(s.drop_last(), c)
    }
}

pub proof fn lemma_last_index_of(s: Seq<char>, c: char)
    ensures
        -1 <= last_index_of(s, c) < s.len(),
        last_index_of(s, c) >= 0 ==> s[last_index_of(s, c)] == c,
        forall|j: int| last_index_of(s, c) < j < s.len() ==> s[j] != c,
    decreases s.len(),
{
    if s.len() > 0 && s.last() != c {
        lemma_last_index_of(s.drop_last(), c);
        assert forall|j: int| last_index_of(s, c) < j < s.len() implies s[j] != c by {
            if j < s.len() - 1 {
                assert(s[j] == s.drop_last()[j]);
            }
        }
    }
}

/// What follows the last `.` of a path, or nothing when it has no `.`
/// (`path.rsplit_once('.')`).
pub open spec fn dot_extension(path: Seq<char>) -> Seq<char> {
    let i = last_index_of(path, '.');
    if i < 0 {
        Seq::empty()
    } else {
        path.skip(i + 1)
    }
}

/// The language that retrieval reports for a file extension.
pub open spec fn retrieval_language_of(ext: Seq<char>) -> Seq<char> {
    if ext == "rs"@ {
        "rust"@
    } else if ext == "ts"@ || ext == "tsx"@ {
        "typescript"@
    } else if ext == "js"@ || ext == "jsx"@ || ext == "mjs"@ || ext == "cjs"@ {
        "javascript"@
    } else if ext == "md"@ || ext == "markdown"@ {
        "markdown"@
    } else if ext == "json"@ {
        "json"@
    } else if ext == "toml"@ {
        "toml"@
    } else {
        "text"@
    }
}

/// The language that retrieval reports for a path, from what follows its last `.`.
pub open spec fn inferred_language(path: Seq<char>) -> Seq<char> {
    retrieval_language_of(dot_extension(path))
}

/// The language that indexing records for a file extension.
pub open spec fn indexed_language_of(ext: Seq<char>) -> Seq<char> {
    if ext == "rs"@ {
        "rust"@
    } else if ext == "ts"@ || ext == "tsx"@ {
        "typescript"@
    } else if ext == "js"@ || ext == "jsx"@ || ext == "mjs"@ || ext == "cjs"@ {
        "javascript"@
    } else if ext == "json"@ {
        "json"@
    } else if ext == "md"@ || ext == "markdown"@ {
        "markdown"@
    } else if ext == "toml"@ {
        "toml"@
    } else if ext == "yaml"@ || ext == "yml"@ {
        "yaml"@
    } else if ext == "py"@ {
        "python"@
    } else if ext == "go"@ {
        "go"@
    } else if ext == "java"@ {
        "java"@
    } else if ext == "c"@ || ext == "h"@ {
        "c"@
    } else if ext == "cpp"@ || ext == "cc"@ || ext == "cxx"@ || ext == "hpp"@ {
        "cpp"@
    } else {
        "text"@
    }
}

/// Whether the characters `a` spell `b`.
pub fn chars_eq_str(a: &[char], b: &str) -> (r: bool)
    ensures
        r == (a@ == b@),
{
    let bc = chars_of(b);
    chars_eq(a, bc.as_slice())
}

/// Whether `s` holds the character `c`.
pub fn chars_contain(s: &[char], c: char) -> (r: bool)
    ensures
        r == s@.contains(c),
{
    let mut i: usize = 0;
    while i < s.len()
        invariant
            0 <= i <= s.len(),
            forall|j: int| 0 <= j < i ==> s@[j] != c,
        decreases s.len() - i,
    {
        if s[i] == c {
            return true;
        }
        i = i + 1;
    }
    false
}

/// What follows the last `.` of `path`.
pub fn path_dot_extension(path: &[char]) -> (ext: Vec<char>)
    ensures
        ext@ == dot_extension(path@),
{
    proof {
        lemma_last_index_of(path@, '.');
    }
    let mut i = path.len();
    while i > 0 && path[i - 1] != '.'
        invariant
            0 <= i <= path.len(),
            forall|j: int| i <= j < path.len() ==> path@[j] != '.',
            last_index_of(path@, '.') < i,
            last_index_of(path@, '.') >= 0 ==> path@[last_index_of(path@, '.')] == '.',
        decreases i,
    {
        i = i - 1;
    }
    if i == 0 {
        assert(last_index_of(path@, '.') == -1) by {
            if last_index_of(path@, '.') >= 0 {
                assert(path@[last_index_of(path@, '.')] == '.');
            }
        }
        Vec::new()
    } else {
        assert(last_index_of(path@, '.') == i - 1) by {
            if last_index_of(path@, '.') < i - 1 {
                assert(path@[i - 1] == '.');
            }
        }
        let ext = chars_slice(path, i, path.len());
        assert(ext@ =~= path@.skip(i as int));
        ext
    }
}

/// The language that retrieval reports for an extension.
pub fn retrieval_language_for_extension(ext: &[char]) -> (lang: &'static str)
    ensures
        lang@ == retrieval_language_of(ext@),
{
    if chars_eq_str(ext, "rs") {
        "rust"
    } else if chars_eq_str(ext, "ts") || chars_eq_str(ext, "tsx") {
        "typescript"
    } else if chars_eq_str(ext, "js") || chars_eq_str(ext, "jsx") || chars_eq_str(ext, "mjs")
        || chars_eq_str(ext, "cjs") {
        "javascript"
    } else if chars_eq_str(ext, "md") || chars_eq_str(ext, "markdown") {
        "markdown"
    } else if chars_eq_str(ext, "json") {
        "json"
    } else if chars_eq_str(ext, "toml") {
        "toml"
    } else {
        "text"
    }
}

/// The language that retrieval reports for a path, from what follows its last
/// `.`: `rust`, `typescript`, `javascript`, `markdown`, `json`, `toml`, or `text`.
pub fn infer_language(path: &str) -> (lang: &'static str)
    ensures
        lang@ == inferred_language(path@),
{
    let chars = chars_of(path);
    let ext = path_dot_extension(chars.as_slice());
    retrieval_language_for_extension(ext.as_slice())
}

/// The language that indexing records for a file with this extension
/// (`None` when the file name has no extension).
pub fn language_for_extension(ext: Option<&str>) -> (lang: &'static str)
    ensures
        lang@ == match ext {
            Some(e) => indexed_language_of(e@),
            None => indexed_language_of(Seq::empty()),
        },
{
    let e: Vec<char> = match ext {
        Some(s) => chars_of(s),
        None => Vec::new(),
    };
    let e = e.as_slice();
    if chars_eq_str(e, "rs") {
        "rust"
    } else if chars_eq_str(e, "ts") || chars_eq_str(e, "tsx") {
        "typescript"
    } else if chars_eq_str(e, "js") || chars_eq_str(e, "jsx") || chars_eq_str(e, "mjs")
        || chars_eq_str(e, "cjs") {
        "javascript"
    } else if chars_eq_str(e, "json") {
        "json"
    } else if chars_eq_str(e, "md") || chars_eq_str(e, "markdown") {
        "markdown"
    } else if chars_eq_str(e, "toml") {
        "toml"
    } else if chars_eq_str(e, "yaml") || chars_eq_str(e, "yml") {
        "yaml"
    } else if chars_eq_str(e, "py") {
        "python"
    } else if chars_eq_str(e, "go") {
        "go"
    } else if chars_eq_str(e, "java") {
        "java"
    } else if chars_eq_str(e, "c") || chars_eq_str(e, "h") {
        "c"
    } else if chars_eq_str(e, "cpp") || chars_eq_str(e, "cc") || chars_eq_str(e, "cxx")
        || chars_eq_str(e, "hpp") {
        "cpp"
    } else {
        "text"
    }
}

/// The directory and file names that a repository scan passes over.
pub open spec fn skipped_name(name: Seq<char>) -> bool {
    name == ".git"@ || name == ".serena"@ || name == "node_modules"@ || name == "target"@ || name
        == "dist"@
}

/// Whether a scan passes over an entry with this file name (`None` when the
/// entry has no name or it is not valid Unicode).
pub fn should_skip_path(file_name: Option<&str>) -> (skip: bool)
    ensures
        skip == match file_name {
            Some(n) => skipped_name(n@),
            None => false,
        },
{
    match file_name {
        Some(n) => {
            let c = chars_of(n);
            let c = c.as_slice();
            chars_eq_str(c, ".git") || chars_eq_str(c, ".serena") || chars_eq_str(c, "node_modules")
                || chars_eq_str(c, "target") || chars_eq_str(c, "dist")
        },
        None => false,
    }
}

} // verus!
