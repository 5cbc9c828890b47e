use vstd::prelude::*;

use crate::chunking::{clone_opt_string, opt_view, ChunkRecord, ChunkRecordView};
use crate::contract::{
    FindReferencesRequest, FindReferencesResponse, GetSymbolDefinitionRequest,
    GetSymbolDefinitionResponse, SymbolDefinition, SymbolReference,
};
use crate::language::{infer_language, inferred_language};
use crate::storage::{indexed_views, IndexedFile, IndexedFileView};
use crate::text::{
    chars_match_at, chars_of, chars_slice, inclusive_lines, owned, split_lines_preserving_endings,
    str_eq, string_from_chars,
};

verus! {

broadcast use vstd::string::group_string_axioms;

// ---------------------------------------------------------------------------
// Character classes
// ---------------------------------------------------------------------------

/// Whether a character is alphabetic or numeric in Unicode (`char::is_alphanumeric`).
pub uninterp spec fn char_is_alphanumeric(c: char) -> bool;

/// Whether a character has the Unicode `White_Space` property, the set that
/// `char::is_whitespace` documents: `\t` to `\r`, the space, U+0085, U+00A0,
/// U+1680, U+2000 to U+200A, U+2028, U+2029, U+202F, U+205F and U+3000.
pub open spec fn char_is_whitespace(c: char) -> bool {
    let u = c as u32;
    ||| 9 <= u <= 13
    ||| u == 32
    ||| u == 0x85
    ||| u == 0xa0
    ||| u == 0x1680
    ||| 0x2000 <= u <= 0x200a
    ||| u == 0x2028
    ||| u == 0x2029
    ||| u == 0x202f
    ||| u == 0x205f
    ||| u == 0x3000
}

/// Whether a character is `_` or an ASCII letter or digit: the identifier
/// characters among ASCII characters.
pub open spec fn ascii_ident_char(c: char) -> bool {
    let u = c as u32;
    u == 95 || 65 <= u <= 90 || 97 <= u <= 122 || 48 <= u <= 57
}

/// Whether every character of `s` is ASCII.
pub open spec fn is_ascii_text(s: Seq<char>) -> bool {
    forall|i: int| 0 <= i < s.len() ==> (#[trigger] s[i] as u32) < 128
}

/// `char::is_alphanumeric`: Unicode letters and digits; among ASCII characters
/// exactly `A`-`Z`, `a`-`z` and `0`-`9`.
#[verifier::external_body]
fn is_alphanumeric(c: char) -> (r: bool)
    ensures
        r == char_is_alphanumeric(c),
        (c as u32) < 128 ==> (r <==> (65 <= (c as u32) <= 90 || 97 <= (c as u32) <= 122 || 48
            <= (c as u32) <= 57)),
{
    c.is_alphanumeric()
}

/// Whether a character has the Unicode `White_Space` property.
fn is_whitespace(c: char) -> (r: bool)
    ensures
        r == char_is_whitespace(c),
{
    let u = c as u32;
    (9 <= u && u <= 13) || u == 32 || u == 0x85 || u == 0xa0 || u == 0x1680 || (0x2000 <= u && u
        <= 0x200a) || u == 0x2028 || u == 0x2029 || u == 0x202f || u == 0x205f || u == 0x3000
}

/// Characters that can be part of an identifier: `_` and alphanumerics.
pub open spec fn is_ident_char(c: char) -> bool {
    c == '_' || char_is_alphanumeric(c)
}

/// Whether `c` can be part of an identifier; for an ASCII character, exactly
/// when it is `_`, a letter or a digit.
pub fn is_identifier_char(c: char) -> (r: bool)
    ensures
        r == is_ident_char(c),
        (c as u32) < 128 ==> (r <==> ascii_ident_char(c)),
{
    c == '_' || is_alphanumeric(c)
}

// ---------------------------------------------------------------------------
// Trimming and lines
// ---------------------------------------------------------------------------

/// Number of whitespace characters at the start of `s`.
pub open spec fn leading_ws(s: Seq<char>) -> nat
    decreases s.len(),
{
    if s.len() > 0 && char_is_whitespace(s[0]) {
        1 + leading_ws(s.drop_first())
    } else {
        0
    }
}

/// Number of whitespace characters at the end of `s`.
pub open spec fn trailing_ws(s: Seq<char>) -> nat
    decreases s.len(),
{
    if s.len() > 0 && char_is_whitespace(s.last()) {
        1 + trailing_ws(s.drop_last())
    } else {
        0
    }
}

proof fn lemma_leading_ws_bound(s: Seq<char>)
    ensures
        leading_ws(s) <= s.len(),
    decreases s.len(),
{
    if s.len() > 0 && char_is_whitespace(s[0]) {
        lemma_leading_ws_bound(s.drop_first());
    }
}

proof fn lemma_trailing_ws_bound(s: Seq<char>)
    ensures
        trailing_ws(s) <= s.len(),
    decreases s.len(),
{
    if s.len() > 0 && char_is_whitespace(s.last()) {
        lemma_trailing_ws_bound(s.drop_last());
    }
}

/// `s` without leading whitespace (`str::trim_start`).
pub open spec fn trim_start(s: Seq<char>) -> Seq<char> {
    s.skip(leading_ws(s) as int)
}

/// `s` without leading and trailing whitespace (`str::trim`).
pub open spec fn trim(s: Seq<char>) -> Seq<char> {
    let t = trim_start(s);
    t.take(t.len() - trailing_ws(t))
}

/// Index of the first non-whitespace character of `s` at or after `from`.
fn skip_whitespace(s: &[char], from: usize) -> (i: usize)
    requires
        from <= s.len(),
    ensures
        i == from + leading_ws(s@.skip(from as int)),
        i <= s.len(),
{
    let mut i = from;
    assert(s@.skip(from as int) =~= s@.skip(from as int));
    while i < s.len() && is_whitespace(s[i])
        invariant
            from <= i <= s.len(),
            from + leading_ws(s@.skip(from as int)) == i + leading_ws(s@.skip(i as int)),
        decreases s.len() - i,
    {
        assert(s@.skip(i as int).drop_first() =~= s@.skip(i + 1));
        i = i + 1;
    }
    i
}

/// `s` without leading whitespace.
pub fn trim_start_chars(s: &[char]) -> (t: Vec<char>)
    ensures
        t@ == trim_start(s@),
{
    assert(s@.skip(0) =~= s@);
    let i = skip_whitespace(s, 0);
    let t = chars_slice(s, i, s.len());
    assert(t@ =~= trim_start(s@));
    t
}

/// `s` without leading and trailing whitespace.
pub fn trim_chars(s: &[char]) -> (t: Vec<char>)
    ensures
        t@ == trim(s@),
{
    let st = trim_start_chars(s);
    let mut end = st.len();
    assert(st@.take(end as int) =~= st@);
    proof {
        lemma_trailing_ws_bound(st@);
    }
    while end > 0 && is_whitespace(st[end - 1])
        invariant
            0 <= end <= st.len(),
            trailing_ws(st@) == (st.len() - end) + trailing_ws(st@.take(end as int)),
        decreases end,
    {
        assert(st@.take(end as int).drop_last() =~= st@.take(end - 1));
        end = end - 1;
    }
    let t = chars_slice(st.as_slice(), 0, end);
    assert(t@ =~= trim(s@));
    t
}

/// A line without its ending: a final `\n`, and then a `\r` before it.
pub open spec fn strip_line_ending(l: Seq<char>) -> Seq<char> {
    if l.len() > 0 && l.last() == '\n' {
        let t = l.drop_last();
        if t.len() > 0 && t.last() == '\r' {
            t.drop_last()
        } else {
            t
        }
    } else {
        l
    }
}

/// The lines of `s` without their endings (`str::lines`).
pub open spec fn text_lines(s: Seq<char>) -> Seq<Seq<char>> {
    inclusive_lines(s).map_values(|l: Seq<char>| strip_line_ending(l))
}

fn strip_ending(l: &Vec<char>) -> (r: Vec<char>)
    ensures
        r@ == strip_line_ending(l@),
{
    let n = l.len();
    if n > 0 && l[n - 1] == '\n' {
        if n > 1 && l[n - 2] == '\r' {
            let r = chars_slice(l.as_slice(), 0, n - 2);
            assert(r@ =~= strip_line_ending(l@));
            r
        } else {
            let r = chars_slice(l.as_slice(), 0, n - 1);
            assert(r@ =~= strip_line_ending(l@));
            r
        }
    } else {
        let r = chars_slice(l.as_slice(), 0, n);
        assert(r@ =~= l@);
        r
    }
}

/// The lines of `s`, without their endings.
pub fn lines_of(s: &[char]) -> (lines: Vec<Vec<char>>)
    ensures
        lines.len() == text_lines(s@).len(),
        forall|i: int| 0 <= i < lines.len() ==> #[trigger] lines[i]@ == text_lines(s@)[i],
{
    let raw = split_lines_preserving_endings(s);
    let mut lines: Vec<Vec<char>> = Vec::new();
    let mut i: usize = 0;
    while i < raw.len()
        invariant
            0 <= i <= raw.len(),
            raw.len() == inclusive_lines(s@).len(),
            forall|j: int| 0 <= j < raw.len() ==> #[trigger] raw[j]@ == inclusive_lines(s@)[j],
            lines.len() == i,
            forall|j: int| 0 <= j < i ==> #[trigger] lines[j]@ == text_lines(s@)[j],
        decreases raw.len() - i,
    {
        lines.push(strip_ending(&raw[i]));
        i = i + 1;
    }
    lines
}

// ---------------------------------------------------------------------------
// Symbol occurrences
// ---------------------------------------------------------------------------

/// Whether `sym` occurs in `line` at position `i`.
pub open spec fn occurs_at(line: Seq<char>, sym: Seq<char>, i: int) -> bool {
    0 <= i && i + sym.len() <= line.len() && line.subrange(i, i + sym.len()) == sym
}

/// The first position at or after `from` where `sym` occurs in `line`.
pub open spec fn next_occurrence(line: Seq<char>, sym: Seq<char>, from: int) -> Option<int>
    decreases line.len() + 1 - from,
{
    if from < 0 || from + sym.len() > line.len() {
        None
    } else if occurs_at(line, sym, from) {
        Some(from)
    } else {
        next_occurrence(line, sym, from + 1)
    }
}

/// Whether the occurrence of `sym` at `i` stands alone: no identifier
/// character right before or right after it.
pub open spec fn stands_alone(line: Seq<char>, sym: Seq<char>, i: int) -> bool {
    &&& (i == 0 || !is_ident_char(line[i - 1]))
    &&& (i + sym.len() == line.len() || !is_ident_char(line[i + sym.len()]))
}

/// Whether one of the occurrences of `sym` found scanning from `from` stands
/// alone; occurrences are found left to right without overlapping
/// (`str::match_indices`).
pub open spec fn alone_occurrence_from(line: Seq<char>, sym: Seq<char>, from: int) -> bool
    decreases line.len() + 1 - from,
{
    if sym.len() == 0 {
        false
    } else {
        match next_occurrence(line, sym, from) {
            None => false,
            Some(i) => if i < from || i + sym.len() > line.len() {
                false
            } else {
                stands_alone(line, sym, i) || alone_occurrence_from(line, sym, i + sym.len())
            },
        }
    }
}

/// Whether `line` mentions `symbol` as a whole identifier.
pub open spec fn mentions_symbol(line: Seq<char>, symbol: Seq<char>) -> bool {
    symbol.len() > 0 && alone_occurrence_from(line, symbol, 0)
}

proof fn lemma_next_occurrence(line: Seq<char>, sym: Seq<char>, from: int)
    ensures
        next_occurrence(line, sym, from) matches Some(i) ==> from <= i && occurs_at(line, sym, i),
    decreases line.len() + 1 - from,
{
    if !(from < 0 || from + sym.len() > line.len()) && !occurs_at(line, sym, from) {
        lemma_next_occurrence(line, sym, from + 1);
    }
}

fn find_occurrence(line: &[char], sym: &[char], from: usize) -> (r: Option<usize>)
    requires
        from <= line.len(),
    ensures
        r matches Some(i) ==> next_occurrence(line@, sym@, from as int) == Some(i as int),
        r is None ==> next_occurrence(line@, sym@, from as int) is None,
{
    let mut i = from;
    while i < line.len()
        invariant
            from <= i <= line.len(),
            next_occurrence(line@, sym@, from as int) == next_occurrence(line@, sym@, i as int),
        decreases line.len() - i,
    {
        if sym.len() > line.len() - i {
            return None;
        }
        if chars_match_at(line, i, sym) {
            return Some(i);
        }
        i = i + 1;
    }
    if sym.len() == 0 {
        assert(occurs_at(line@, sym@, i as int)) by {
            assert(line@.subrange(i as int, i as int) =~= sym@);
        }
        Some(i)
    } else {
        None
    }
}

/// Whether `line` mentions `symbol` as a whole identifier: some occurrence, in
/// the left-to-right non-overlapping scan, has no identifier character right
/// before or after it. An empty symbol is never mentioned.
pub fn contains_symbol(line: &[char], symbol: &[char]) -> (r: bool)
    ensures
        r == mentions_symbol(line@, symbol@),
{
    if symbol.len() == 0 {
        return false;
    }
    let mut from: usize = 0;
    while from <= line.len()
        invariant
            symbol.len() > 0,
            mentions_symbol(line@, symbol@) == alone_occurrence_from(line@, symbol@, from as int),
        decreases line.len() + 1 - from,
    {
        match find_occurrence(line, symbol, from) {
            None => return false,
            Some(i) => {
                proof {
                    lemma_next_occurrence(line@, symbol@, from as int);
                }
                let before_ok = i == 0 || !is_identifier_char(line[i - 1]);
                let after_ok = i + symbol.len() == line.len() || !is_identifier_char(
                    line[i + symbol.len()],
                );
                if before_ok && after_ok {
                    return true;
                }
                from = i + symbol.len();
            },
        }
    }
    assert(alone_occurrence_from(line@, symbol@, from as int) == false) by {
        assert(next_occurrence(line@, symbol@, from as int) is None);
    }
    false
}

/// Whether the text `content` mentions `symbol` anywhere (`str::contains`).
pub open spec fn has_substring(content: Seq<char>, symbol: Seq<char>) -> bool {
    next_occurrence(content, symbol, 0) is Some
}

/// Whether `content` contains `symbol` as a substring.
pub fn contains_substring(content: &str, symbol: &str) -> (r: bool)
    ensures
        r == has_substring(content@, symbol@),
{
    let c = chars_of(content);
    let s = chars_of(symbol);
    find_occurrence(c.as_slice(), s.as_slice(), 0).is_some()
}

// ---------------------------------------------------------------------------
// Definitions
// ---------------------------------------------------------------------------

/// The line starts that introduce a definition.
pub open spec fn definition_prefixes() -> Seq<Seq<char>> {
    seq![
        "fn "@,
        "pub fn "@,
        "async fn "@,
        "pub async fn "@,
        "struct "@,
        "pub struct "@,
        "enum "@,
        "pub enum "@,
        "trait "@,
        "pub trait "@,
        "type "@,
        "pub type "@,
        "const "@,
        "pub const "@,
        "let "@,
        "export function "@,
        "function "@,
        "class "@,
        "export class "@,
        "interface "@,
        "export interface "@,
    ]
}

fn definition_prefix(k: usize) -> (p: &'static str)
    requires
        k < 21,
    ensures
        p@ == definition_prefixes()[k as int],
{
    if k == 0 {
        "fn "
    } else if k == 1 {
        "pub fn "
    } else if k == 2 {
        "async fn "
    } else if k == 3 {
        "pub async fn "
    } else if k == 4 {
        "struct "
    } else if k == 5 {
        "pub struct "
    } else if k == 6 {
        "enum "
    } else if k == 7 {
        "pub enum "
    } else if k == 8 {
        "trait "
    } else if k == 9 {
        "pub trait "
    } else if k == 10 {
        "type "
    } else if k == 11 {
        "pub type "
    } else if k == 12 {
        "const "
    } else if k == 13 {
        "pub const "
    } else if k == 14 {
        "let "
    } else if k == 15 {
        "export function "
    } else if k == 16 {
        "function "
    } else if k == 17 {
        "class "
    } else if k == 18 {
        "export class "
    } else if k == 19 {
        "interface "
    } else {
        "export interface "
    }
}

/// Whether `line`, after leading whitespace, starts with `prefix`, then
/// (after more whitespace) `symbol`, not followed by an identifier character.
pub open spec fn defines_with(line: Seq<char>, symbol: Seq<char>, prefix: Seq<char>) -> bool {
    let t = trim_start(line);
    prefix.is_prefix_of(t) && {
        let rest = trim_start(t.skip(prefix.len() as int));
        symbol.is_prefix_of(rest) && {
            let tail = rest.skip(symbol.len() as int);
            !(tail.len() > 0 && is_ident_char(tail[0]))
        }
    }
}

/// [`defines_with`] for a line of ASCII text, where an identifier character
/// is `_`, an ASCII letter or an ASCII digit.
pub open spec fn defines_with_ascii(line: Seq<char>, symbol: Seq<char>, prefix: Seq<char>) -> bool {
    let t = trim_start(line);
    prefix.is_prefix_of(t) && {
        let rest = trim_start(t.skip(prefix.len() as int));
        symbol.is_prefix_of(rest) && {
            let tail = rest.skip(symbol.len() as int);
            !(tail.len() > 0 && ascii_ident_char(tail[0]))
        }
    }
}

/// [`defines_symbol`] for a line of ASCII text.
pub open spec fn defines_symbol_ascii(line: Seq<char>, symbol: Seq<char>) -> bool {
    exists|k: int| 0 <= k < 21 && defines_with_ascii(line, symbol, #[trigger] definition_prefixes()[k])
}

/// Whether `line` defines `symbol` with one of the definition prefixes.
pub open spec fn defines_symbol(line: Seq<char>, symbol: Seq<char>) -> bool {
    exists|k: int| 0 <= k < 21 && defines_with(line, symbol, #[trigger] definition_prefixes()[k])
}

fn defines_with_prefix(t: &[char], symbol: &[char], prefix: &[char]) -> (r: bool)
    requires
        t@ == trim_start(t@),
    ensures
        r == (prefix@.is_prefix_of(t@) && {
            let rest = trim_start(t@.skip(prefix@.len() as int));
            symbol@.is_prefix_of(rest) && {
                let tail = rest.skip(symbol@.len() as int);
                !(tail.len() > 0 && is_ident_char(tail[0]))
            }
        }),
        is_ascii_text(t@) ==> r == (prefix@.is_prefix_of(t@) && {
            let rest = trim_start(t@.skip(prefix@.len() as int));
            symbol@.is_prefix_of(rest) && {
                let tail = rest.skip(symbol@.len() as int);
                !(tail.len() > 0 && ascii_ident_char(tail[0]))
            }
        }),
{
    if !chars_match_at(t, 0, prefix) {
        assert(!prefix@.is_prefix_of(t@)) by {
            if prefix@.is_prefix_of(t@) {
                assert(t@.subrange(0, prefix@.len() as int) =~= prefix@);
            }
        }
        return false;
    }
    assert(prefix@.is_prefix_of(t@)) by {
        assert forall|i: int| 0 <= i < prefix@.len() implies prefix@[i] == t@[i] by {
            assert(t@.subrange(0, prefix@.len() as int)[i] == t@[i]);
        }
    }
    let j = skip_whitespace(t, prefix.len());
    let ghost rest = trim_start(t@.skip(prefix@.len() as int));
    assert(rest =~= t@.skip(j as int));
    if !chars_match_at(t, j, symbol) {
        assert(!symbol@.is_prefix_of(rest)) by {
            if symbol@.is_prefix_of(rest) {
                assert(t@.subrange(j as int, j + symbol@.len()) =~= symbol@);
            }
        }
        return false;
    }
    assert(symbol@.is_prefix_of(rest)) by {
        assert forall|i: int| 0 <= i < symbol@.len() implies symbol@[i] == rest[i] by {
            assert(t@.subrange(j as int, j + symbol@.len())[i] == t@[j + i]);
        }
    }
    let k = j + symbol.len();
    let ghost tail = rest.skip(symbol@.len() as int);
    assert(tail =~= t@.skip(k as int));
    if k < t.len() {
        assert(tail[0] == t@[k as int]);
    }
    !(k < t.len() && is_identifier_char(t[k]))
}

/// Whether `k` is one of the keywords that open a definition line.
spec fn definition_keyword(k: Seq<char>) -> bool {
    k == "fn "@
        || k == "pub fn "@
        || k == "async fn "@
        || k == "pub async fn "@
        || k == "struct "@
        || k == "pub struct "@
        || k == "enum "@
        || k == "pub enum "@
        || k == "trait "@
        || k == "pub trait "@
        || k == "type "@
        || k == "pub type "@
        || k == "const "@
        || k == "pub const "@
        || k == "let "@
        || k == "export function "@
        || k == "function "@
        || k == "class "@
        || k == "export class "@
        || k == "interface "@
        || k == "export interface "@
}

proof fn lemma_keyword_listed(k: Seq<char>)
    requires
        definition_keyword(k),
    ensures
        exists|i: int| 0 <= i < 21 && definition_prefixes()[i] == k,
        k.len() > 0,
        !char_is_whitespace(k[0]),
{
    reveal_strlit("fn ");
    reveal_strlit("pub fn ");
    reveal_strlit("async fn ");
    reveal_strlit("pub async fn ");
    reveal_strlit("struct ");
    reveal_strlit("pub struct ");
    reveal_strlit("enum ");
    reveal_strlit("pub enum ");
    reveal_strlit("trait ");
    reveal_strlit("pub trait ");
    reveal_strlit("type ");
    reveal_strlit("pub type ");
    reveal_strlit("const ");
    reveal_strlit("pub const ");
    reveal_strlit("let ");
    reveal_strlit("export function ");
    reveal_strlit("function ");
    reveal_strlit("class ");
    reveal_strlit("export class ");
    reveal_strlit("interface ");
    reveal_strlit("export interface ");
    if k == "fn "@ { assert(definition_prefixes()[0] == k); }
    if k == "pub fn "@ { assert(definition_prefixes()[1] == k); }
    if k == "async fn "@ { assert(definition_prefixes()[2] == k); }
    if k == "pub async fn "@ { assert(definition_prefixes()[3] == k); }
    if k == "struct "@ { assert(definition_prefixes()[4] == k); }
    if k == "pub struct "@ { assert(definition_prefixes()[5] == k); }
    if k == "enum "@ { assert(definition_prefixes()[6] == k); }
    if k == "pub enum "@ { assert(definition_prefixes()[7] == k); }
    if k == "trait "@ { assert(definition_prefixes()[8] == k); }
    if k == "pub trait "@ { assert(definition_prefixes()[9] == k); }
    if k == "type "@ { assert(definition_prefixes()[10] == k); }
    if k == "pub type "@ { assert(definition_prefixes()[11] == k); }
    if k == "const "@ { assert(definition_prefixes()[12] == k); }
    if k == "pub const "@ { assert(definition_prefixes()[13] == k); }
    if k == "let "@ { assert(definition_prefixes()[14] == k); }
    if k == "export function "@ { assert(definition_prefixes()[15] == k); }
    if k == "function "@ { assert(definition_prefixes()[16] == k); }
    if k == "class "@ { assert(definition_prefixes()[17] == k); }
    if k == "export class "@ { assert(definition_prefixes()[18] == k); }
    if k == "interface "@ { assert(definition_prefixes()[19] == k); }
    if k == "export interface "@ { assert(definition_prefixes()[20] == k); }
}

proof fn lemma_listed_keyword(i: int)
    requires
        0 <= i < 21,
    ensures
        definition_keyword(definition_prefixes()[i]),
{
    if i == 0 { assert(definition_prefixes()[i] == "fn "@); }
    if i == 1 { assert(definition_prefixes()[i] == "pub fn "@); }
    if i == 2 { assert(definition_prefixes()[i] == "async fn "@); }
    if i == 3 { assert(definition_prefixes()[i] == "pub async fn "@); }
    if i == 4 { assert(definition_prefixes()[i] == "struct "@); }
    if i == 5 { assert(definition_prefixes()[i] == "pub struct "@); }
    if i == 6 { assert(definition_prefixes()[i] == "enum "@); }
    if i == 7 { assert(definition_prefixes()[i] == "pub enum "@); }
    if i == 8 { assert(definition_prefixes()[i] == "trait "@); }
    if i == 9 { assert(definition_prefixes()[i] == "pub trait "@); }
    if i == 10 { assert(definition_prefixes()[i] == "type "@); }
    if i == 11 { assert(definition_prefixes()[i] == "pub type "@); }
    if i == 12 { assert(definition_prefixes()[i] == "const "@); }
    if i == 13 { assert(definition_prefixes()[i] == "pub const "@); }
    if i == 14 { assert(definition_prefixes()[i] == "let "@); }
    if i == 15 { assert(definition_prefixes()[i] == "export function "@); }
    if i == 16 { assert(definition_prefixes()[i] == "function "@); }
    if i == 17 { assert(definition_prefixes()[i] == "class "@); }
    if i == 18 { assert(definition_prefixes()[i] == "export class "@); }
    if i == 19 { assert(definition_prefixes()[i] == "interface "@); }
    if i == 20 { assert(definition_prefixes()[i] == "export interface "@); }
}

proof fn lemma_leading_ws_after_indent(indent: Seq<char>, x: Seq<char>)
    requires
        forall|i: int| 0 <= i < indent.len() ==> char_is_whitespace(#[trigger] indent[i]),
        x.len() > 0,
        !char_is_whitespace(x[0]),
    ensures
        leading_ws(indent + x) == indent.len(),
    decreases indent.len(),
{
    if indent.len() == 0 {
        assert(indent + x =~= x);
    } else {
        let rest = indent.drop_first();
        assert forall|i: int| 0 <= i < rest.len() implies char_is_whitespace(#[trigger] rest[i]) by {
            assert(rest[i] == indent[i + 1]);
        }
        lemma_leading_ws_after_indent(rest, x);
        assert((indent + x).drop_first() =~= rest + x);
        assert((indent + x)[0] == indent[0]);
    }
}

/// A line that, after leading whitespace, starts with a definition keyword
/// (`fn `, `pub struct `, `class `, ...) followed by the symbol, itself not
/// followed by an identifier character, defines that symbol; and a line that
/// defines a symbol starts, after leading whitespace, with one of those
/// keywords.
pub proof fn lemma_keyword_lines_define(
    indent: Seq<char>,
    keyword: Seq<char>,
    symbol: Seq<char>,
    rest: Seq<char>,
    line: Seq<char>,
)
    ensures
        ((forall|i: int| 0 <= i < indent.len() ==> char_is_whitespace(#[trigger] indent[i]))
            && (keyword == "fn "@
            || keyword == "pub fn "@
            || keyword == "async fn "@
            || keyword == "pub async fn "@
            || keyword == "struct "@
            || keyword == "pub struct "@
            || keyword == "enum "@
            || keyword == "pub enum "@
            || keyword == "trait "@
            || keyword == "pub trait "@
            || keyword == "type "@
            || keyword == "pub type "@
            || keyword == "const "@
            || keyword == "pub const "@
            || keyword == "let "@
            || keyword == "export function "@
            || keyword == "function "@
            || keyword == "class "@
            || keyword == "export class "@
            || keyword == "interface "@
            || keyword == "export interface "@) && symbol.len() > 0 && !char_is_whitespace(symbol[0]) && (
        rest.len() == 0 || !is_ident_char(rest[0]))) ==> defines_symbol(
            indent + keyword + symbol + rest,
            symbol,
        ),
        defines_symbol(line, symbol) ==> ("fn "@.is_prefix_of(trim_start(line))
            || "pub fn "@.is_prefix_of(trim_start(line))
            || "async fn "@.is_prefix_of(trim_start(line))
            || "pub async fn "@.is_prefix_of(trim_start(line))
            || "struct "@.is_prefix_of(trim_start(line))
            || "pub struct "@.is_prefix_of(trim_start(line))
            || "enum "@.is_prefix_of(trim_start(line))
            || "pub enum "@.is_prefix_of(trim_start(line))
            || "trait "@.is_prefix_of(trim_start(line))
            || "pub trait "@.is_prefix_of(trim_start(line))
            || "type "@.is_prefix_of(trim_start(line))
            || "pub type "@.is_prefix_of(trim_start(line))
            || "const "@.is_prefix_of(trim_start(line))
            || "pub const "@.is_prefix_of(trim_start(line))
            || "let "@.is_prefix_of(trim_start(line))
            || "export function "@.is_prefix_of(trim_start(line))
            || "function "@.is_prefix_of(trim_start(line))
            || "class "@.is_prefix_of(trim_start(line))
            || "export class "@.is_prefix_of(trim_start(line))
            || "interface "@.is_prefix_of(trim_start(line))
            || "export interface "@.is_prefix_of(trim_start(line))),
{
    if (forall|i: int| 0 <= i < indent.len() ==> char_is_whitespace(#[trigger] indent[i]))
        && definition_keyword(keyword) && symbol.len() > 0 && !char_is_whitespace(symbol[0]) && (
    rest.len() == 0 || !is_ident_char(rest[0])) {
        lemma_keyword_listed(keyword);
        let x = keyword + symbol + rest;
        let l = indent + keyword + symbol + rest;
        assert(l =~= indent + x);
        assert(x[0] == keyword[0]);
        lemma_leading_ws_after_indent(indent, x);
        let t = trim_start(l);
        assert(t =~= x);
        assert(keyword.is_prefix_of(t)) by {
            assert(t.subrange(0, keyword.len() as int) =~= keyword);
        }
        let sr = t.skip(keyword.len() as int);
        assert(sr =~= symbol + rest);
        lemma_leading_ws_after_indent(Seq::empty(), sr);
        assert(Seq::<char>::empty() + sr =~= sr);
        assert(trim_start(sr) =~= sr);
        assert(symbol.is_prefix_of(sr)) by {
            assert(sr.subrange(0, symbol.len() as int) =~= symbol);
        }
        assert(sr.skip(symbol.len() as int) =~= rest);
        let i = choose|i: int| 0 <= i < 21 && definition_prefixes()[i] == keyword;
        assert(defines_with(l, symbol, definition_prefixes()[i]));
    }
    if defines_symbol(line, symbol) {
        let i = choose|i: int| 0 <= i < 21 && defines_with(line, symbol, #[trigger] definition_prefixes()[i]);
        lemma_listed_keyword(i);
        assert(definition_prefixes()[i].is_prefix_of(trim_start(line)));
        assert(definition_keyword(definition_prefixes()[i]));
    }
}

/// Whether `line` defines `symbol`: after leading whitespace it starts with one
/// of the definition prefixes (`fn `, `pub struct `, `class `, ...), then,
/// after more whitespace, with `symbol` not followed by an identifier character.
pub fn is_definition_line(line: &[char], symbol: &[char]) -> (r: bool)
    ensures
        r == defines_symbol(line@, symbol@),
        is_ascii_text(line@) ==> r == defines_symbol_ascii(line@, symbol@),
{
    let t = trim_start_chars(line);
    proof {
        lemma_leading_ws_bound(line@);
        lemma_trim_start_idempotent(line@);
        if is_ascii_text(line@) {
            assert forall|i: int| 0 <= i < t@.len() implies (#[trigger] t@[i] as u32) < 128 by {
                assert(t@[i] == line@[i + leading_ws(line@)]);
            }
        }
    }
    let mut k: usize = 0;
    while k < 21
        invariant
            0 <= k <= 21,
            t@ == trim_start(line@),
            t@ == trim_start(t@),
            forall|j: int| 0 <= j < k ==> !defines_with(line@, symbol@, #[trigger] definition_prefixes()[j]),
            is_ascii_text(line@) ==> is_ascii_text(t@),
            is_ascii_text(line@) ==> forall|j: int|
                0 <= j < k ==> !defines_with_ascii(line@, symbol@, #[trigger] definition_prefixes()[j]),
        decreases 21 - k,
    {
        let p = chars_of(definition_prefix(k));
        if defines_with_prefix(t.as_slice(), symbol, p.as_slice()) {
            assert(defines_with(line@, symbol@, definition_prefixes()[k as int]));
            assert(is_ascii_text(line@) ==> defines_with_ascii(line@, symbol@, definition_prefixes()[k as int]));
            return true;
        }
        k = k + 1;
    }
    false
}

proof fn lemma_trim_start_idempotent(s: Seq<char>)
    ensures
        trim_start(trim_start(s)) == trim_start(s),
    decreases s.len(),
{
    lemma_leading_ws_bound(s);
    if s.len() > 0 && char_is_whitespace(s[0]) {
        lemma_trim_start_idempotent(s.drop_first());
        assert(trim_start(s) =~= trim_start(s.drop_first()));
    } else {
        assert(s.skip(0) =~= s);
    }
}

proof fn lemma_leading_ws_facts(s: Seq<char>)
    ensures
        leading_ws(s) <= s.len(),
        forall|k: int| 0 <= k < leading_ws(s) ==> char_is_whitespace(#[trigger] s[k]),
        leading_ws(s) < s.len() ==> !char_is_whitespace(s[leading_ws(s) as int]),
    decreases s.len(),
{
    if s.len() > 0 && char_is_whitespace(s[0]) {
        let r = s.drop_first();
        lemma_leading_ws_facts(r);
        assert forall|k: int| 0 <= k < leading_ws(s) implies char_is_whitespace(#[trigger] s[k]) by {
            if k > 0 {
                assert(s[k] == r[k - 1]);
            }
        }
        if leading_ws(s) < s.len() {
            assert(s[leading_ws(s) as int] == r[leading_ws(r) as int]);
        }
    }
}

proof fn lemma_trailing_ws_facts(s: Seq<char>)
    ensures
        trailing_ws(s) <= s.len(),
        forall|k: int| s.len() - trailing_ws(s) <= k < s.len() ==> char_is_whitespace(#[trigger] s[k]),
        trailing_ws(s) < s.len() ==> !char_is_whitespace(s[s.len() - trailing_ws(s) - 1]),
    decreases s.len(),
{
    if s.len() > 0 && char_is_whitespace(s.last()) {
        let r = s.drop_last();
        lemma_trailing_ws_facts(r);
        assert forall|k: int| s.len() - trailing_ws(s) <= k < s.len() implies char_is_whitespace(
            #[trigger] s[k],
        ) by {
            if k < s.len() - 1 {
                assert(s[k] == r[k]);
            }
        }
        if trailing_ws(s) < s.len() {
            assert(s[s.len() - trailing_ws(s) - 1] == r[r.len() - trailing_ws(r) - 1]);
        }
    }
}

/// Trimming twice trims no more than trimming once.
pub proof fn lemma_trim_idempotent(s: Seq<char>)
    ensures
        trim(trim(s)) == trim(s),
{
    let t = trim_start(s);
    let u = trim(s);
    lemma_leading_ws_facts(s);
    lemma_trailing_ws_facts(t);
    assert(u == t.take(t.len() - trailing_ws(t)));
    if u.len() > 0 {
        assert(u[0] == s[leading_ws(s) as int]);
        assert(leading_ws(u) == 0);
        assert(trim_start(u) =~= u);
        assert(u.last() == t[t.len() - trailing_ws(t) - 1]);
        assert(trailing_ws(u) == 0);
        assert(trim(u) =~= u);
    } else {
        assert(trim(u) =~= u);
    }
}

proof fn lemma_alone_occurrence_exists(line: Seq<char>, sym: Seq<char>, from: int)
    requires
        alone_occurrence_from(line, sym, from),
    ensures
        exists|i: int| occurs_at(line, sym, i),
    decreases line.len() + 1 - from,
{
    lemma_next_occurrence(line, sym, from);
    let i = next_occurrence(line, sym, from)->0;
    if !stands_alone(line, sym, i) {
        lemma_alone_occurrence_exists(line, sym, i + sym.len());
    }
}

proof fn lemma_occurrence_found(line: Seq<char>, sym: Seq<char>, from: int, k: int)
    requires
        0 <= from <= k,
        occurs_at(line, sym, k),
    ensures
        next_occurrence(line, sym, from) is Some,
    decreases k - from,
{
    if !occurs_at(line, sym, from) {
        lemma_occurrence_found(line, sym, from + 1, k);
    }
}

/// Where the scan of a trimmed line starts, for a scan of the whole line
/// from `from`.
pub open spec fn trimmed_from(line: Seq<char>, from: int) -> int {
    if from < leading_ws(line) {
        0
    } else {
        from - leading_ws(line)
    }
}

/// An occurrence of a symbol without whitespace at its ends lies inside the
/// trimmed line, and every occurrence in the trimmed line is one in the line.
proof fn lemma_occurrences_inside_trim(line: Seq<char>, sym: Seq<char>, i: int)
    requires
        sym.len() > 0,
        !char_is_whitespace(sym[0]),
        !char_is_whitespace(sym.last()),
    ensures
        leading_ws(line) + trim(line).len() <= line.len(),
        forall|k: int| 0 <= k < trim(line).len() ==> trim(line)[k] == line[leading_ws(line) + k],
        occurs_at(line, sym, i) ==> leading_ws(line) <= i && occurs_at(
            trim(line),
            sym,
            i - leading_ws(line),
        ),
        occurs_at(trim(line), sym, i - leading_ws(line)) ==> occurs_at(line, sym, i),
{
    let n = sym.len() as int;
    let a = leading_ws(line) as int;
    let t = trim_start(line);
    lemma_leading_ws_facts(line);
    lemma_trailing_ws_facts(t);
    let z = trailing_ws(t) as int;
    let u = trim(line);
    assert(u =~= line.subrange(a, a + t.len() - z));
    if occurs_at(line, sym, i) {
        assert(line.subrange(i, i + n)[0] == line[i]);
        assert(line.subrange(i, i + n)[n - 1] == line[i + n - 1]);
        assert(i >= a) by {
            if i < a {
                assert(char_is_whitespace(line[i]));
            }
        }
        assert(t[i - a + n - 1] == line[i + n - 1]);
        assert(i - a + n <= t.len() - z) by {
            if i - a + n - 1 >= t.len() - z {
                assert(char_is_whitespace(t[i - a + n - 1]));
            }
        }
        assert(u.subrange(i - a, i - a + n) =~= line.subrange(i, i + n));
    }
    if occurs_at(u, sym, i - a) {
        assert(u.subrange(i - a, i - a + n) =~= line.subrange(i, i + n));
    }
}

proof fn lemma_next_occurrence_trim(line: Seq<char>, sym: Seq<char>, from: int)
    requires
        0 <= from,
        sym.len() > 0,
        !char_is_whitespace(sym[0]),
        !char_is_whitespace(sym.last()),
    ensures
        next_occurrence(line, sym, from) == match next_occurrence(
            trim(line),
            sym,
            trimmed_from(line, from),
        ) {
            Some(x) => Some(x + leading_ws(line)),
            None => None::<int>,
        },
    decreases line.len() + 1 - from,
{
    let a = leading_ws(line) as int;
    let u = trim(line);
    let n = sym.len() as int;
    let g = trimmed_from(line, from);
    lemma_occurrences_inside_trim(line, sym, from);
    lemma_occurrences_inside_trim(line, sym, g + a);
    if from + n > line.len() {
        assert(g + n > u.len());
    } else if occurs_at(line, sym, from) {
        assert(g == from - a);
    } else {
        lemma_next_occurrence_trim(line, sym, from + 1);
        if from >= a {
            assert(!occurs_at(u, sym, g));
            assert(trimmed_from(line, from + 1) == g + 1);
            if g + n > u.len() {
                assert(next_occurrence(u, sym, g + 1) is None);
            }
        } else {
            assert(g == 0);
            assert(trimmed_from(line, from + 1) == 0);
        }
    }
}

proof fn lemma_alone_occurrence_trim(line: Seq<char>, sym: Seq<char>, from: int)
    requires
        0 <= from,
        alone_occurrence_from(line, sym, from),
        !char_is_whitespace(sym[0]),
        !char_is_whitespace(sym.last()),
    ensures
        alone_occurrence_from(trim(line), sym, trimmed_from(line, from)),
    decreases line.len() + 1 - from,
{
    let a = leading_ws(line) as int;
    let u = trim(line);
    let n = sym.len() as int;
    lemma_next_occurrence(line, sym, from);
    lemma_next_occurrence_trim(line, sym, from);
    let i = next_occurrence(line, sym, from)->0;
    lemma_occurrences_inside_trim(line, sym, i);
    let g = trimmed_from(line, from);
    lemma_next_occurrence(u, sym, g);
    assert(next_occurrence(u, sym, g) == Some(i - a));
    if stands_alone(line, sym, i) {
        if i - a > 0 {
            assert(u[i - a - 1] == line[i - 1]);
        }
        if i - a + n < u.len() {
            assert(u[i - a + n] == line[i + n]);
        }
        assert(stands_alone(u, sym, i - a));
    } else {
        lemma_alone_occurrence_trim(line, sym, i + n);
        assert(trimmed_from(line, i + n) == i - a + n);
    }
}

/// A line that mentions a symbol whose first and last characters are not
/// whitespace still mentions it, as a whole identifier, once trimmed, and the
/// trimmed line is its own trimming.
pub proof fn lemma_trimmed_line_keeps_symbol(line: Seq<char>, symbol: Seq<char>)
    requires
        mentions_symbol(line, symbol),
        !char_is_whitespace(symbol[0]),
        !char_is_whitespace(symbol.last()),
    ensures
        trim(trim(line)) == trim(line),
        has_substring(trim(line), symbol),
        mentions_symbol(trim(line), symbol),
{
    lemma_trim_idempotent(line);
    lemma_alone_occurrence_trim(line, symbol, 0);
    assert(trimmed_from(line, 0) == 0);
    lemma_alone_occurrence_exists(line, symbol, 0);
    let i = choose|i: int| occurs_at(line, symbol, i);
    let n = symbol.len() as int;
    let a = leading_ws(line) as int;
    let t = trim_start(line);
    lemma_leading_ws_facts(line);
    lemma_trailing_ws_facts(t);
    let z = trailing_ws(t) as int;
    let u = trim(line);
    assert(line[i] == symbol[0]);
    assert(line[i + n - 1] == symbol.last());
    assert(i >= a) by {
        if i < a {
            assert(char_is_whitespace(line[i]));
        }
    }
    assert(t[i - a + n - 1] == line[i + n - 1]);
    assert(i - a + n <= t.len() - z) by {
        if i - a + n - 1 >= t.len() - z {
            assert(char_is_whitespace(t[i - a + n - 1]));
        }
    }
    assert(u.subrange(i - a, i - a + n) =~= symbol) by {
        assert forall|k: int| 0 <= k < n implies u.subrange(i - a, i - a + n)[k] == symbol[k] by {
            assert(u[i - a + k] == line[i + k]);
            assert(line.subrange(i, i + n)[k] == line[i + k]);
        }
    }
    lemma_occurrence_found(u, symbol, 0, i - a);
}

/// The snippets of symbol tools are trimmed lines, and, for a symbol that
/// neither starts nor ends with whitespace, each still mentions the symbol as a
/// whole identifier.
pub proof fn lemma_symbol_snippets(
    references: FindReferencesRequest,
    definitions: GetSymbolDefinitionRequest,
    chunks: Seq<ChunkRecordView>,
    langs: Seq<IndexedFileView>,
)
    ensures
        forall|i: int|
            0 <= i < kept_references(references, chunks, langs).len() ==> {
                let text = (#[trigger] kept_references(references, chunks, langs)[i]).text;
                let sym = references.symbol@;
                &&& trim(text) == text
                &&& (!char_is_whitespace(sym[0]) && !char_is_whitespace(sym.last()))
                    ==> (has_substring(text, sym) && mentions_symbol(text, sym))
            },
        forall|i: int|
            0 <= i < found_definitions(definitions, chunks, langs).len() ==> {
                let text = (#[trigger] found_definitions(definitions, chunks, langs)[i]).text;
                let sym = definitions.symbol@;
                &&& trim(text) == text
                &&& (!char_is_whitespace(sym[0]) && !char_is_whitespace(sym.last()))
                    ==> (has_substring(text, sym) && mentions_symbol(text, sym))
            },
{
    lemma_symbol_tool_lines(references, definitions, chunks, langs);
    let kept = kept_references(references, chunks, langs);
    assert forall|i: int| 0 <= i < kept.len() implies {
        let text = (#[trigger] kept[i]).text;
        let sym = references.symbol@;
        &&& trim(text) == text
        &&& (!char_is_whitespace(sym[0]) && !char_is_whitespace(sym.last())) ==> (has_substring(
            text,
            sym,
        ) && mentions_symbol(text, sym))
    } by {
        assert(hit_of_some_line(kept[i], chunks, references.symbol@, langs, false));
        let (k, l) = choose|k: int, l: int|
            0 <= k < chunks.len() && 0 <= l < text_lines(chunks[k].content).len() && line_counts(
                #[trigger] text_lines(chunks[k].content)[l],
                references.symbol@,
                false,
            ) && kept[i] == hit_of(chunks[k], langs, l, text_lines(chunks[k].content)[l]);
        let line = text_lines(chunks[k].content)[l];
        lemma_trim_idempotent(line);
        if !char_is_whitespace(references.symbol@[0]) && !char_is_whitespace(references.symbol@.last()) {
            lemma_trimmed_line_keeps_symbol(line, references.symbol@);
        }
    }
    let found = found_definitions(definitions, chunks, langs);
    assert forall|i: int| 0 <= i < found.len() implies {
        let text = (#[trigger] found[i]).text;
        let sym = definitions.symbol@;
        &&& trim(text) == text
        &&& (!char_is_whitespace(sym[0]) && !char_is_whitespace(sym.last())) ==> (has_substring(
            text,
            sym,
        ) && mentions_symbol(text, sym))
    } by {
        assert(hit_of_some_line(found[i], chunks, definitions.symbol@, langs, true));
        let (k, l) = choose|k: int, l: int|
            0 <= k < chunks.len() && 0 <= l < text_lines(chunks[k].content).len() && line_counts(
                #[trigger] text_lines(chunks[k].content)[l],
                definitions.symbol@,
                true,
            ) && found[i] == hit_of(chunks[k], langs, l, text_lines(chunks[k].content)[l]);
        let line = text_lines(chunks[k].content)[l];
        lemma_trim_idempotent(line);
        if !char_is_whitespace(definitions.symbol@[0]) && !char_is_whitespace(definitions.symbol@.last()) {
            lemma_trimmed_line_keeps_symbol(line, definitions.symbol@);
        }
    }
}


// ---------------------------------------------------------------------------
// Scanning chunks for a symbol
// ---------------------------------------------------------------------------

/// The language recorded for `path` in a file listing (the last entry for it).
pub open spec fn listed_language(files: Seq<IndexedFileView>, path: Seq<char>, n: int) -> Option<
    Seq<char>,
>
    decreases n,
{
    if n <= 0 {
        None
    } else if files[n - 1].path == path {
        Some(files[n - 1].language)
    } else {
        listed_language(files, path, n - 1)
    }
}

/// The language reported for a path: the listed one, else the one its
/// extension suggests.
pub open spec fn reported_language(files: Seq<IndexedFileView>, path: Seq<char>) -> Seq<char> {
    match listed_language(files, path, files.len() as int) {
        Some(l) => l,
        None => inferred_language(path),
    }
}

/// A line of a chunk that mentions a symbol.
pub struct SymbolHitView {
    pub path: Seq<char>,
    pub language: Seq<char>,
    pub line: u32,
    pub text: Seq<char>,
    pub breadcrumb: Option<Seq<char>>,
}

/// The hit for line `off` (counted from 0) of chunk `c`.
pub open spec fn hit_of(c: ChunkRecordView, langs: Seq<IndexedFileView>, off: int, line: Seq<char>) -> SymbolHitView {
    SymbolHitView {
        path: c.file_path,
        language: reported_language(langs, c.file_path),
        line: (c.start_line + off) as u32,
        text: trim(line),
        breadcrumb: c.breadcrumb,
    }
}

/// Whether a line counts: it mentions the symbol and, when only definitions
/// are wanted, defines it.
pub open spec fn line_counts(line: Seq<char>, symbol: Seq<char>, definitions_only: bool) -> bool {
    mentions_symbol(line, symbol) && (!definitions_only || defines_symbol(line, symbol))
}

/// The hits among the first `n` lines of chunk `c`.
pub open spec fn line_hits(
    c: ChunkRecordView,
    symbol: Seq<char>,
    langs: Seq<IndexedFileView>,
    definitions_only: bool,
    n: nat,
) -> Seq<SymbolHitView>
    decreases n,
{
    if n == 0 {
        Seq::empty()
    } else {
        let prev = line_hits(c, symbol, langs, definitions_only, (n - 1) as nat);
        let line = text_lines(c.content)[n - 1];
        if line_counts(line, symbol, definitions_only) {
            prev.push(hit_of(c, langs, n - 1, line))
        } else {
            prev
        }
    }
}

/// The hits of chunk `c`: none when a hint path is given and `c` is in another
/// file.
pub open spec fn chunk_hits(
    c: ChunkRecordView,
    symbol: Seq<char>,
    langs: Seq<IndexedFileView>,
    hint: Option<Seq<char>>,
    definitions_only: bool,
) -> Seq<SymbolHitView> {
    if hint is Some && c.file_path != hint->0 {
        Seq::empty()
    } else {
        line_hits(c, symbol, langs, definitions_only, text_lines(c.content).len())
    }
}

/// The hits of the first `k` chunks, chunk after chunk, line after line.
pub open spec fn all_hits(
    chunks: Seq<ChunkRecordView>,
    symbol: Seq<char>,
    langs: Seq<IndexedFileView>,
    hint: Option<Seq<char>>,
    definitions_only: bool,
    k: nat,
) -> Seq<SymbolHitView>
    decreases k,
{
    if k == 0 {
        Seq::empty()
    } else {
        all_hits(chunks, symbol, langs, hint, definitions_only, (k - 1) as nat) + chunk_hits(
            chunks[k - 1],
            symbol,
            langs,
            hint,
            definitions_only,
        )
    }
}

/// How many of `available` hits a scan with this limit returns: the scan stops
/// once it holds `limit` hits, and never before its first hit.
pub open spec fn limited_count(available: nat, limit: u32) -> nat {
    let cap: nat = if limit == 0 {
        1
    } else {
        limit as nat
    };
    if available < cap {
        available
    } else {
        cap
    }
}

/// The views of chunk records.
pub open spec fn chunk_views(chunks: Seq<ChunkRecord>) -> Seq<ChunkRecordView> {
    chunks.map_values(|c: ChunkRecord| c@)
}

/// The hits that a scan returns: the first `limited_count` of all hits.
pub open spec fn symbol_hits(
    chunks: Seq<ChunkRecordView>,
    symbol: Seq<char>,
    langs: Seq<IndexedFileView>,
    hint: Option<Seq<char>>,
    definitions_only: bool,
    limit: u32,
) -> Seq<SymbolHitView> {
    let all = all_hits(chunks, symbol, langs, hint, definitions_only, chunks.len());
    all.take(limited_count(all.len(), limit) as int)
}

/// Whether every chunk's lines can be numbered in `u32`.
pub open spec fn line_numbers_fit(chunks: Seq<ChunkRecordView>) -> bool {
    forall|i: int|
        0 <= i < chunks.len() ==> #[trigger] chunks[i].start_line + text_lines(chunks[i].content).len()
            <= u32::MAX + 1
}

proof fn lemma_line_hits_prefix(
    c: ChunkRecordView,
    symbol: Seq<char>,
    langs: Seq<IndexedFileView>,
    definitions_only: bool,
    n: nat,
    m: nat,
)
    requires
        n <= m,
    ensures
        line_hits(c, symbol, langs, definitions_only, n).is_prefix_of(
            line_hits(c, symbol, langs, definitions_only, m),
        ),
    decreases m - n,
{
    if n < m {
        lemma_line_hits_prefix(c, symbol, langs, definitions_only, n, (m - 1) as nat);
    }
}

proof fn lemma_all_hits_prefix(
    chunks: Seq<ChunkRecordView>,
    symbol: Seq<char>,
    langs: Seq<IndexedFileView>,
    hint: Option<Seq<char>>,
    definitions_only: bool,
    k: nat,
    m: nat,
)
    requires
        k <= m,
    ensures
        all_hits(chunks, symbol, langs, hint, definitions_only, k).is_prefix_of(
            all_hits(chunks, symbol, langs, hint, definitions_only, m),
        ),
    decreases m - k,
{
    if k < m {
        lemma_all_hits_prefix(chunks, symbol, langs, hint, definitions_only, k, (m - 1) as nat);
    }
}

pub(crate) fn lookup_language(languages: &[IndexedFile], path: &str) -> (r: Option<String>)
    ensures
        opt_view(r) == listed_language(indexed_views(languages@), path@, languages.len() as int),
{
    let ghost lv = indexed_views(languages@);
    let mut n = languages.len();
    while n > 0
        invariant
            0 <= n <= languages.len(),
            lv == indexed_views(languages@),
            listed_language(lv, path@, languages.len() as int) == listed_language(lv, path@, n as int),
        decreases n,
    {
        assert(lv[n - 1] == languages@[n - 1]@);
        if str_eq(languages[n - 1].path.as_str(), path) {
            return Some(languages[n - 1].language.clone());
        }
        n = n - 1;
    }
    None
}

fn language_of_path(languages: &[IndexedFile], path: &str) -> (lang: String)
    ensures
        lang@ == reported_language(indexed_views(languages@), path@),
{
    match lookup_language(languages, path) {
        Some(l) => l,
        None => owned(infer_language(path)),
    }
}

/// A line of a chunk that mentions a symbol.
struct SymbolHit {
    path: String,
    language: String,
    line: u32,
    text: String,
    breadcrumb: Option<String>,
}

impl View for SymbolHit {
    type V = SymbolHitView;

    closed spec fn view(&self) -> SymbolHitView {
        SymbolHitView {
            path: self.path@,
            language: self.language@,
            line: self.line,
            text: self.text@,
            breadcrumb: opt_view(self.breadcrumb),
        }
    }
}

spec fn hit_views(hits: Seq<SymbolHit>) -> Seq<SymbolHitView> {
    hits.map_values(|h: SymbolHit| h@)
}

/// Scans the lines of `chunks` for `symbol` (see [`symbol_hits`]).
fn scan_symbol_hits(
    chunks: &[ChunkRecord],
    symbol: &str,
    hint_path: Option<&str>,
    definitions_only: bool,
    limit: u32,
    languages: &[IndexedFile],
) -> (hits: Vec<SymbolHit>)
    requires
        line_numbers_fit(chunk_views(chunks@)),
    ensures
        hit_views(hits@) == symbol_hits(
            chunk_views(chunks@),
            symbol@,
            indexed_views(languages@),
            match hint_path {
                Some(h) => Some(h@),
                None => None,
            },
            definitions_only,
            limit,
        ),
{
    let ghost cv = chunk_views(chunks@);
    let ghost lv = indexed_views(languages@);
    let ghost hint = match hint_path {
        Some(h) => Some(h@),
        None => None,
    };
    let ghost total = all_hits(cv, symbol@, lv, hint, definitions_only, cv.len());
    let sym = chars_of(symbol);
    let cap: usize = if limit == 0 {
        1
    } else {
        limit as usize
    };
    let mut hits: Vec<SymbolHit> = Vec::new();
    let mut k: usize = 0;
    assert(hit_views(hits@) =~= Seq::<SymbolHitView>::empty());
    while k < chunks.len()
        invariant
            0 <= k <= chunks.len(),
            cv == chunk_views(chunks@),
            lv == indexed_views(languages@),
            line_numbers_fit(cv),
            sym@ == symbol@,
            hint == match hint_path {
                Some(h) => Some(h@),
                None => None::<Seq<char>>,
            },
            total == all_hits(cv, symbol@, lv, hint, definitions_only, cv.len()),
            cap as nat == if limit == 0 {
                1nat
            } else {
                limit as nat
            },
            hit_views(hits@) == all_hits(cv, symbol@, lv, hint, definitions_only, k as nat),
            hits.len() < cap,
        decreases chunks.len() - k,
    {
        let chunk = &chunks[k];
        assert(cv[k as int] == chunk@);
        let ghost before = hit_views(hits@);
        let skip = match hint_path {
            Some(h) => !str_eq(chunk.file_path.as_str(), h),
            None => false,
        };
        if !skip {
            assert(!(hint is Some && cv[k as int].file_path != hint->0));
            let content = chars_of(chunk.content.as_str());
            let lines = lines_of(content.as_slice());
            let ghost tl = text_lines(chunk@.content);
            let mut m: usize = 0;
            assert(hit_views(hits@) =~= before + line_hits(chunk@, symbol@, lv, definitions_only, 0));
            while m < lines.len()
                invariant
                    0 <= m <= lines.len(),
                    k < chunks.len(),
                    cv == chunk_views(chunks@),
                    chunk@ == cv[k as int],
                    before == all_hits(cv, symbol@, lv, hint, definitions_only, k as nat),
                    total == all_hits(cv, symbol@, lv, hint, definitions_only, cv.len()),
                    !(hint is Some && cv[k as int].file_path != hint->0),
                    hint == match hint_path {
                        Some(h) => Some(h@),
                        None => None::<Seq<char>>,
                    },
                    lines.len() == tl.len(),
                    tl == text_lines(chunk@.content),
                    forall|i: int| 0 <= i < lines.len() ==> #[trigger] lines[i]@ == tl[i],
                    chunk.start_line + tl.len() <= u32::MAX + 1,
                    sym@ == symbol@,
                    lv == indexed_views(languages@),
                    hit_views(hits@) == before + line_hits(chunk@, symbol@, lv, definitions_only, m as nat),
                    hits.len() < cap,
                    cap as nat == if limit == 0 {
                        1nat
                    } else {
                        limit as nat
                    },
                decreases lines.len() - m,
            {
                let line = &lines[m];
                let counts = contains_symbol(line.as_slice(), sym.as_slice()) && (!definitions_only
                    || is_definition_line(line.as_slice(), sym.as_slice()));
                if counts {
                    let text = trim_chars(line.as_slice());
                    let hit = SymbolHit {
                        path: chunk.file_path.clone(),
                        language: language_of_path(languages, chunk.file_path.as_str()),
                        line: chunk.start_line + m as u32,
                        text: string_from_chars(text.as_slice()),
                        breadcrumb: clone_opt_string(&chunk.breadcrumb),
                    };
                    assert(hit@ == hit_of(chunk@, lv, m as int, tl[m as int]));
                    let ghost prev = hit_views(hits@);
                    hits.push(hit);
                    assert(hit_views(hits@) =~= prev.push(hit@));
                    if hits.len() >= cap {
                        proof {
                            lemma_line_hits_prefix(chunk@, symbol@, lv, definitions_only, (m + 1) as nat, tl.len());
                            lemma_all_hits_prefix(cv, symbol@, lv, hint, definitions_only, (k + 1) as nat, cv.len());
                            let cur = hit_views(hits@);
                            let whole_k = all_hits(cv, symbol@, lv, hint, definitions_only, (k + 1) as nat);
                            assert(whole_k == before + chunk_hits(cv[k as int], symbol@, lv, hint, definitions_only));
                            assert(cur.is_prefix_of(whole_k));
                            assert(cur.is_prefix_of(total));
                            assert(total.take(limited_count(total.len(), limit) as int) =~= cur);
                        }
                        return hits;
                    }
                }
                m = m + 1;
            }
            assert(all_hits(cv, symbol@, lv, hint, definitions_only, (k + 1) as nat) == before + chunk_hits(cv[k as int], symbol@, lv, hint, definitions_only));
        } else {
            assert(all_hits(cv, symbol@, lv, hint, definitions_only, (k + 1) as nat) =~= before + Seq::<SymbolHitView>::empty());
        }
        k = k + 1;
    }
    assert(total.take(limited_count(total.len(), limit) as int) =~= total);
    hits
}


// ---------------------------------------------------------------------------
// Symbol tools
// ---------------------------------------------------------------------------

/// The mathematical content of a [`SymbolReference`] or [`SymbolDefinition`]
/// (whose `snippet`, respectively `text`, is the trimmed line).
pub struct SymbolLineView {
    pub path: Seq<char>,
    pub language: Seq<char>,
    pub start_line: u32,
    pub end_line: u32,
    pub text: Seq<char>,
    pub breadcrumb: Option<Seq<char>>,
}

impl View for SymbolReference {
    type V = SymbolLineView;

    open spec fn view(&self) -> SymbolLineView {
        SymbolLineView {
            path: self.path@,
            language: self.language@,
            start_line: self.start_line,
            end_line: self.end_line,
            text: self.snippet@,
            breadcrumb: opt_view(self.breadcrumb),
        }
    }
}

impl View for SymbolDefinition {
    type V = SymbolLineView;

    open spec fn view(&self) -> SymbolLineView {
        SymbolLineView {
            path: self.path@,
            language: self.language@,
            start_line: self.start_line,
            end_line: self.end_line,
            text: self.text@,
            breadcrumb: opt_view(self.breadcrumb),
        }
    }
}

/// The reported form of a hit: a one-line span.
pub open spec fn line_of_hit(h: SymbolHitView) -> SymbolLineView {
    SymbolLineView {
        path: h.path,
        language: h.language,
        start_line: h.line,
        end_line: h.line,
        text: h.text,
        breadcrumb: h.breadcrumb,
    }
}

/// The first `n` hits that do not define `symbol`.
pub open spec fn non_definitions(hits: Seq<SymbolHitView>, symbol: Seq<char>, n: nat) -> Seq<
    SymbolHitView,
>
    decreases n,
{
    if n == 0 {
        Seq::empty()
    } else {
        let prev = non_definitions(hits, symbol, (n - 1) as nat);
        if defines_symbol(hits[n - 1].text, symbol) {
            prev
        } else {
            prev.push(hits[n - 1])
        }
    }
}

/// How many references a request may return: 50 unless it asks, at most 200.
pub open spec fn reference_cap(max_results: Option<u32>) -> u32 {
    let m = match max_results {
        Some(m) => m,
        None => 50,
    };
    if m < 200 {
        m
    } else {
        200
    }
}

/// How many definitions a request may return: 3 unless it asks, at most 20.
pub open spec fn definition_cap(max_results: Option<u32>) -> u32 {
    let m = match max_results {
        Some(m) => m,
        None => 3,
    };
    if m < 20 {
        m
    } else {
        20
    }
}

/// The references kept for a request: the lines of `chunks` that mention the
/// symbol (at most `cap + 1`, or 200 when definitions are excluded), without
/// the defining lines when it asks so.
pub open spec fn kept_references(
    request: FindReferencesRequest,
    chunks: Seq<ChunkRecordView>,
    langs: Seq<IndexedFileView>,
) -> Seq<SymbolHitView> {
    let cap = reference_cap(request.max_results);
    let exclude = request.exclude_definition == Some(true);
    let limit: u32 = if exclude {
        200
    } else {
        (cap + 1) as u32
    };
    let hits = symbol_hits(chunks, request.symbol@, langs, None, false, limit);
    if exclude {
        non_definitions(hits, request.symbol@, hits.len())
    } else {
        hits
    }
}

fn hit_to_reference(h: SymbolHit) -> (r: SymbolReference)
    ensures
        r@ == line_of_hit(h@),
{
    SymbolReference {
        path: h.path,
        language: h.language,
        start_line: h.line,
        end_line: h.line,
        snippet: h.text,
        breadcrumb: h.breadcrumb,
    }
}

fn hit_to_definition(h: SymbolHit) -> (r: SymbolDefinition)
    ensures
        r@ == line_of_hit(h@),
{
    SymbolDefinition {
        path: h.path,
        language: h.language,
        start_line: h.line,
        end_line: h.line,
        text: h.text,
        breadcrumb: h.breadcrumb,
    }
}

/// Whether a hit is the hit of some line of `chunks` that counts (mentions
/// the symbol and, when only definitions are wanted, defines it).
pub open spec fn hit_of_some_line(
    h: SymbolHitView,
    chunks: Seq<ChunkRecordView>,
    symbol: Seq<char>,
    langs: Seq<IndexedFileView>,
    definitions_only: bool,
) -> bool {
    exists|k: int, l: int|
        0 <= k < chunks.len() && 0 <= l < text_lines(chunks[k].content).len() && line_counts(
            #[trigger] text_lines(chunks[k].content)[l],
            symbol,
            definitions_only,
        ) && h == hit_of(chunks[k], langs, l, text_lines(chunks[k].content)[l])
}

proof fn lemma_line_hits_from_lines(
    chunks: Seq<ChunkRecordView>,
    k: int,
    symbol: Seq<char>,
    langs: Seq<IndexedFileView>,
    definitions_only: bool,
    n: nat,
)
    requires
        0 <= k < chunks.len(),
        n <= text_lines(chunks[k].content).len(),
    ensures
        forall|i: int|
            0 <= i < line_hits(chunks[k], symbol, langs, definitions_only, n).len()
                ==> hit_of_some_line(
                #[trigger] line_hits(chunks[k], symbol, langs, definitions_only, n)[i],
                chunks,
                symbol,
                langs,
                definitions_only,
            ),
    decreases n,
{
    if n > 0 {
        lemma_line_hits_from_lines(chunks, k, symbol, langs, definitions_only, (n - 1) as nat);
        let prev = line_hits(chunks[k], symbol, langs, definitions_only, (n - 1) as nat);
        let next = line_hits(chunks[k], symbol, langs, definitions_only, n);
        assert forall|i: int| 0 <= i < next.len() implies hit_of_some_line(
            #[trigger] next[i],
            chunks,
            symbol,
            langs,
            definitions_only,
        ) by {
            if i < prev.len() {
                assert(next[i] == prev[i]);
            } else {
                let line = text_lines(chunks[k].content)[n - 1];
                assert(line_counts(line, symbol, definitions_only));
                assert(next[i] == hit_of(chunks[k], langs, n - 1, line));
            }
        }
    }
}

proof fn lemma_all_hits_from_lines(
    chunks: Seq<ChunkRecordView>,
    symbol: Seq<char>,
    langs: Seq<IndexedFileView>,
    hint: Option<Seq<char>>,
    definitions_only: bool,
    k: nat,
)
    requires
        k <= chunks.len(),
    ensures
        forall|i: int|
            0 <= i < all_hits(chunks, symbol, langs, hint, definitions_only, k).len()
                ==> hit_of_some_line(
                #[trigger] all_hits(chunks, symbol, langs, hint, definitions_only, k)[i],
                chunks,
                symbol,
                langs,
                definitions_only,
            ),
    decreases k,
{
    if k > 0 {
        lemma_all_hits_from_lines(chunks, symbol, langs, hint, definitions_only, (k - 1) as nat);
        let prev = all_hits(chunks, symbol, langs, hint, definitions_only, (k - 1) as nat);
        let c = chunks[k - 1];
        let these = chunk_hits(c, symbol, langs, hint, definitions_only);
        let next = all_hits(chunks, symbol, langs, hint, definitions_only, k);
        lemma_line_hits_from_lines(
            chunks,
            k - 1,
            symbol,
            langs,
            definitions_only,
            text_lines(c.content).len(),
        );
        assert forall|i: int| 0 <= i < next.len() implies hit_of_some_line(
            #[trigger] next[i],
            chunks,
            symbol,
            langs,
            definitions_only,
        ) by {
            if i < prev.len() {
                assert(next[i] == prev[i]);
            } else {
                assert(next[i] == these[i - prev.len()]);
            }
        }
    }
}

/// Every line a symbol search returns is a line of one of the searched
/// chunks that mentions the symbol as a whole identifier (and defines it,
/// when only definitions are wanted), reported at its line number with its
/// text trimmed.
pub proof fn lemma_hits_are_lines_that_count(
    chunks: Seq<ChunkRecordView>,
    symbol: Seq<char>,
    langs: Seq<IndexedFileView>,
    hint: Option<Seq<char>>,
    definitions_only: bool,
    limit: u32,
)
    ensures
        forall|i: int|
            0 <= i < symbol_hits(chunks, symbol, langs, hint, definitions_only, limit).len()
                ==> hit_of_some_line(
                #[trigger] symbol_hits(chunks, symbol, langs, hint, definitions_only, limit)[i],
                chunks,
                symbol,
                langs,
                definitions_only,
            ),
{
    lemma_all_hits_from_lines(chunks, symbol, langs, hint, definitions_only, chunks.len());
}

proof fn lemma_non_definitions(hits: Seq<SymbolHitView>, symbol: Seq<char>, n: nat)
    requires
        n <= hits.len(),
    ensures
        forall|i: int|
            0 <= i < non_definitions(hits, symbol, n).len() ==> !defines_symbol(
                (#[trigger] non_definitions(hits, symbol, n)[i]).text,
                symbol,
            ) && exists|j: int| 0 <= j < n && hits[j] == non_definitions(hits, symbol, n)[i],
    decreases n,
{
    if n > 0 {
        lemma_non_definitions(hits, symbol, (n - 1) as nat);
        let prev = non_definitions(hits, symbol, (n - 1) as nat);
        let next = non_definitions(hits, symbol, n);
        assert forall|i: int| 0 <= i < next.len() implies !defines_symbol(
            (#[trigger] next[i]).text,
            symbol,
        ) && exists|j: int| 0 <= j < n && hits[j] == next[i] by {
            if i < prev.len() {
                assert(next[i] == prev[i]);
                let j = choose|j: int| 0 <= j < n - 1 && hits[j] == prev[i];
                assert(hits[j] == next[i]);
            } else {
                assert(next[i] == hits[n - 1]);
            }
        }
    }
}

/// Every reference kept for a request is a line of the chunks that mentions
/// the symbol; when the request excludes definitions, no kept line (trimmed,
/// as reported) defines the symbol. Every definition found is a line that
/// mentions and defines the symbol.
pub proof fn lemma_symbol_tool_lines(
    references: FindReferencesRequest,
    definitions: GetSymbolDefinitionRequest,
    chunks: Seq<ChunkRecordView>,
    langs: Seq<IndexedFileView>,
)
    ensures
        forall|i: int|
            0 <= i < kept_references(references, chunks, langs).len() ==> hit_of_some_line(
                #[trigger] kept_references(references, chunks, langs)[i],
                chunks,
                references.symbol@,
                langs,
                false,
            ) && (references.exclude_definition == Some(true) ==> !defines_symbol(
                kept_references(references, chunks, langs)[i].text,
                references.symbol@,
            )),
        forall|i: int|
            0 <= i < found_definitions(definitions, chunks, langs).len() ==> hit_of_some_line(
                #[trigger] found_definitions(definitions, chunks, langs)[i],
                chunks,
                definitions.symbol@,
                langs,
                true,
            ),
{
    let cap = reference_cap(references.max_results);
    let exclude = references.exclude_definition == Some(true);
    let limit: u32 = if exclude {
        200
    } else {
        (cap + 1) as u32
    };
    let hits = symbol_hits(chunks, references.symbol@, langs, None, false, limit);
    lemma_hits_are_lines_that_count(chunks, references.symbol@, langs, None, false, limit);
    lemma_non_definitions(hits, references.symbol@, hits.len());
    let kept = kept_references(references, chunks, langs);
    assert forall|i: int| 0 <= i < kept.len() implies hit_of_some_line(
        #[trigger] kept[i],
        chunks,
        references.symbol@,
        langs,
        false,
    ) && (exclude ==> !defines_symbol(kept[i].text, references.symbol@)) by {
        if exclude {
            let j = choose|j: int| 0 <= j < hits.len() && hits[j] == kept[i];
            assert(hit_of_some_line(hits[j], chunks, references.symbol@, langs, false));
        } else {
            assert(hit_of_some_line(hits[i], chunks, references.symbol@, langs, false));
        }
    }
    let dcap = definition_cap(definitions.max_results);
    let hint = match definitions.hint_path {
        Some(h) => Some(h@),
        None => None,
    };
    lemma_hits_are_lines_that_count(
        chunks,
        definitions.symbol@,
        langs,
        hint,
        true,
        (dcap + 1) as u32,
    );
}

/// Answers a find-references request from the chunks that may mention the
/// symbol (in the order they are searched) and the file listing that gives
/// languages: at most `reference_cap` references, in order, and whether more
/// were found.
pub fn find_references_response(
    request: &FindReferencesRequest,
    chunks: &[ChunkRecord],
    languages: &[IndexedFile],
) -> (response: FindReferencesResponse)
    requires
        line_numbers_fit(chunk_views(chunks@)),
    ensures
        ({
            let kept = kept_references(*request, chunk_views(chunks@), indexed_views(languages@));
            let cap = reference_cap(request.max_results);
            &&& response.symbol@ == request.symbol@
            &&& response.truncated == (kept.len() > cap)
            &&& response.references.len() == if kept.len() > cap {
                cap as nat
            } else {
                kept.len()
            }
            &&& forall|i: int|
                0 <= i < response.references.len() ==> #[trigger] response.references[i]@
                    == line_of_hit(kept[i])
        }),
{
    let ghost cv = chunk_views(chunks@);
    let ghost lv = indexed_views(languages@);
    let max_results: u32 = match request.max_results {
        Some(m) => if m < 200 {
            m
        } else {
            200
        },
        None => 50,
    };
    let exclude = match request.exclude_definition {
        Some(b) => b,
        None => false,
    };
    let search_limit: u32 = if exclude {
        200
    } else {
        max_results + 1
    };
    let hits = scan_symbol_hits(chunks, request.symbol.as_str(), None, false, search_limit, languages);
    let ghost hv = hit_views(hits@);
    let sym = chars_of(request.symbol.as_str());
    let mut kept: Vec<SymbolHit> = Vec::new();
    let mut i: usize = 0;
    assert(hit_views(kept@) =~= Seq::<SymbolHitView>::empty());
    while i < hits.len()
        invariant
            0 <= i <= hits.len(),
            hv == hit_views(hits@),
            sym@ == request.symbol@,
            exclude ==> hit_views(kept@) == non_definitions(hv, request.symbol@, i as nat),
            !exclude ==> hit_views(kept@) == hv.take(i as int),
        decreases hits.len() - i,
    {
        let h = &hits[i];
        assert(hv[i as int] == h@);
        let text = chars_of(h.text.as_str());
        let ghost prev = hit_views(kept@);
        if !exclude || !is_definition_line(text.as_slice(), sym.as_slice()) {
            let copy = SymbolHit {
                path: h.path.clone(),
                language: h.language.clone(),
                line: h.line,
                text: h.text.clone(),
                breadcrumb: clone_opt_string(&h.breadcrumb),
            };
            assert(copy@ == h@);
            kept.push(copy);
            assert(hit_views(kept@) =~= prev.push(h@));
        }
        assert(hv.take(i + 1) =~= hv.take(i as int).push(hv[i as int]));
        i = i + 1;
    }
    assert(hv.take(i as int) =~= hv);
    let truncated = kept.len() > max_results as usize;
    let mut references: Vec<SymbolReference> = Vec::new();
    let ghost kv = hit_views(kept@);
    let mut j: usize = 0;
    while j < kept.len() && j < max_results as usize
        invariant
            0 <= j <= kept.len(),
            j <= max_results,
            kv == hit_views(kept@),
            references.len() == j,
            forall|t: int| 0 <= t < j ==> #[trigger] references[t]@ == line_of_hit(kv[t]),
        decreases kept.len() - j,
    {
        let h = &kept[j];
        assert(kv[j as int] == h@);
        let copy = SymbolHit {
            path: h.path.clone(),
            language: h.language.clone(),
            line: h.line,
            text: h.text.clone(),
            breadcrumb: clone_opt_string(&h.breadcrumb),
        };
        references.push(hit_to_reference(copy));
        j = j + 1;
    }
    assert(max_results == reference_cap(request.max_results));
    assert(kv == kept_references(*request, cv, lv));
    assert(references.len() == if kv.len() > max_results {
        max_results as nat
    } else {
        kv.len()
    });
    FindReferencesResponse { symbol: request.symbol.clone(), references, truncated }
}

/// The definitions found for a request: the lines of `chunks` (only those of
/// the hint path, when it names one) that define the symbol, at most `cap + 1`.
pub open spec fn found_definitions(
    request: GetSymbolDefinitionRequest,
    chunks: Seq<ChunkRecordView>,
    langs: Seq<IndexedFileView>,
) -> Seq<SymbolHitView> {
    let cap = definition_cap(request.max_results);
    let hint = match request.hint_path {
        Some(h) => Some(h@),
        None => None,
    };
    symbol_hits(chunks, request.symbol@, langs, hint, true, (cap + 1) as u32)
}

/// Answers a get-symbol-definition request from the chunks that may mention
/// the symbol and the file listing that gives languages: at most
/// `definition_cap` definitions, in order, and whether more were found.
pub fn get_symbol_definition_response(
    request: &GetSymbolDefinitionRequest,
    chunks: &[ChunkRecord],
    languages: &[IndexedFile],
) -> (response: GetSymbolDefinitionResponse)
    requires
        line_numbers_fit(chunk_views(chunks@)),
    ensures
        ({
            let found = found_definitions(*request, chunk_views(chunks@), indexed_views(languages@));
            let cap = definition_cap(request.max_results);
            &&& response.symbol@ == request.symbol@
            &&& response.truncated == (found.len() > cap)
            &&& response.definitions.len() == if found.len() > cap {
                cap as nat
            } else {
                found.len()
            }
            &&& forall|i: int|
                0 <= i < response.definitions.len() ==> #[trigger] response.definitions[i]@
                    == line_of_hit(found[i])
        }),
{
    let max_results: u32 = match request.max_results {
        Some(m) => if m < 20 {
            m
        } else {
            20
        },
        None => 3,
    };
    let hint: Option<&str> = match &request.hint_path {
        Some(h) => Some(h.as_str()),
        None => None,
    };
    let hits = scan_symbol_hits(
        chunks,
        request.symbol.as_str(),
        hint,
        true,
        max_results + 1,
        languages,
    );
    let ghost hv = hit_views(hits@);
    let truncated = hits.len() > max_results as usize;
    let mut definitions: Vec<SymbolDefinition> = Vec::new();
    let mut j: usize = 0;
    while j < hits.len() && j < max_results as usize
        invariant
            0 <= j <= hits.len(),
            j <= max_results,
            hv == hit_views(hits@),
            definitions.len() == j,
            forall|t: int| 0 <= t < j ==> #[trigger] definitions[t]@ == line_of_hit(hv[t]),
        decreases hits.len() - j,
    {
        let h = &hits[j];
        assert(hv[j as int] == h@);
        let copy = SymbolHit {
            path: h.path.clone(),
            language: h.language.clone(),
            line: h.line,
            text: h.text.clone(),
            breadcrumb: clone_opt_string(&h.breadcrumb),
        };
        definitions.push(hit_to_definition(copy));
        j = j + 1;
    }
    assert(max_results == definition_cap(request.max_results));
    assert(hv == found_definitions(*request, chunk_views(chunks@), indexed_views(languages@)));
    assert(definitions.len() == if hv.len() > max_results {
        max_results as nat
    } else {
        hv.len()
    });
    GetSymbolDefinitionResponse { symbol: request.symbol.clone(), definitions, truncated }
}

} // verus!
