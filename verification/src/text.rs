use vstd::prelude::*;

verus! {

broadcast use vstd::string::group_string_axioms;

// ---------------------------------------------------------------------------
// UTF-16 lengths
// ---------------------------------------------------------------------------

/// Number of UTF-16 code units that encode `c`: characters outside the basic
/// multilingual plane take a surrogate pair.
pub open spec fn char_utf16_len(c: char) -> nat {
    if (c as u32) < 0x10000 {
        1
    } else {
        2
    }
}

/// Number of UTF-16 code units that encode the character sequence `s`.
pub open spec fn utf16_units(s: Seq<char>) -> nat
    decreases s.len(),
{
    if s.len() == 0 {
        0
    } else {
        utf16_units(s.drop_last()) + char_utf16_len(s.last())
    }
}

pub proof fn lemma_utf16_units_push(s: Seq<char>, c: char)
    ensures
        utf16_units(s.push(c)) == utf16_units(s) + char_utf16_len(c),
{
    assert(s.push(c).drop_last() =~= s);
}

pub proof fn lemma_utf16_units_add(a: Seq<char>, b: Seq<char>)
    ensures
        utf16_units(a + b) == utf16_units(a) + utf16_units(b),
    decreases b.len(),
{
    if b.len() == 0 {
        assert(a + b =~= a);
    } else {
        lemma_utf16_units_add(a, b.drop_last());
        assert((a + b).drop_last() =~= a + b.drop_last());
    }
}

pub proof fn lemma_utf16_units_bounds(s: Seq<char>)
    ensures
        s.len() <= utf16_units(s) <= 2 * s.len(),
    decreases s.len(),
{
    if s.len() > 0 {
        lemma_utf16_units_bounds(s.drop_last());
    }
}

/// A prefix never has more UTF-16 units than the whole sequence.
pub proof fn lemma_utf16_units_take(s: Seq<char>, k: int)
    requires
        0 <= k <= s.len(),
    ensures
        utf16_units(s.take(k)) <= utf16_units(s),
        utf16_units(s.take(k)) + utf16_units(s.skip(k)) == utf16_units(s),
{
    lemma_utf16_units_add(s.take(k), s.skip(k));
    assert(s.take(k) + s.skip(k) =~= s);
}

/// The number of UTF-16 code units of `c` (`char::len_utf16`).
pub fn char_len_utf16(c: char) -> (n: usize)
    ensures
        n == char_utf16_len(c),
{
    if (c as u32) < 0x10000 {
        1
    } else {
        2
    }
}

/// The number of UTF-16 code units of a character slice.
pub fn utf16_len_chars(text: &[char]) -> (n: usize)
    requires
        utf16_units(text@) <= usize::MAX,
    ensures
        n == utf16_units(text@),
{
    let mut n: usize = 0;
    let mut i: usize = 0;
    while i < text.len()
        invariant
            0 <= i <= text.len(),
            n == utf16_units(text@.take(i as int)),
            utf16_units(text@) <= usize::MAX,
        decreases text.len() - i,
    {
        proof {
            lemma_utf16_units_push(text@.take(i as int), text@[i as int]);
            assert(text@.take(i as int).push(text@[i as int]) =~= text@.take(i + 1));
            lemma_utf16_units_take(text@, i + 1);
        }
        n = n + char_len_utf16(text[i]);
        i = i + 1;
    }
    assert(text@.take(i as int) =~= text@);
    n
}

/// The number of UTF-16 code units of `text` (`text.encode_utf16().count()`).
pub fn utf16_len(text: &str) -> (n: usize)
    requires
        utf16_units(text@) <= usize::MAX,
    ensures
        n == utf16_units(text@),
{
    let chars = chars_of(text);
    utf16_len_chars(chars.as_slice())
}

// ---------------------------------------------------------------------------
// Characters and strings
// ---------------------------------------------------------------------------

/// The characters of `s`, in order.
pub fn chars_of(s: &str) -> (v: Vec<char>)
    ensures
        v@ == s@,
{
    let mut v: Vec<char> = Vec::new();
    for c in it: s.chars()
        invariant
            v@ == it.seq().take(it.index() as int),
            it.seq() == s@,
    {
        v.push(c);
    }
    v
}

/// Appends one character to a string (`String::push`).
#[verifier::external_body]
pub(crate) fn push_char(s: &mut String, c: char)
    ensures
        final(s)@ == old(s)@.push(c),
{
    s.push(c);
}

/// Appends the characters of `chars` to `out`.
pub fn push_chars(out: &mut String, chars: &[char])
    ensures
        final(out)@ == old(out)@ + chars@,
{
    let mut i: usize = 0;
    while i < chars.len()
        invariant
            0 <= i <= chars.len(),
            out@ == old(out)@ + chars@.take(i as int),
        decreases chars.len() - i,
    {
        assert(chars@.take(i as int).push(chars@[i as int]) =~= chars@.take(i + 1));
        push_char(out, chars[i]);
        i = i + 1;
    }
    assert(chars@.take(i as int) =~= chars@);
}

/// Appends `s` to `out`.
pub fn push_str(out: &mut String, s: &str)
    ensures
        final(out)@ == old(out)@ + s@,
{
    let chars = chars_of(s);
    push_chars(out, chars.as_slice());
}

/// A string holding exactly the characters of `chars`.
pub fn string_from_chars(chars: &[char]) -> (s: String)
    ensures
        s@ == chars@,
{
    let mut s = String::new();
    push_chars(&mut s, chars);
    assert(Seq::<char>::empty() + chars@ =~= chars@);
    s
}

/// A copy of `s` as an owned string.
pub fn owned(s: &str) -> (r: String)
    ensures
        r@ == s@,
{
    let chars = chars_of(s);
    string_from_chars(chars.as_slice())
}

/// Whether two character slices are equal.
pub fn chars_eq(a: &[char], b: &[char]) -> (r: bool)
    ensures
        r == (a@ == b@),
{
    if a.len() != b.len() {
        return false;
    }
    let mut i: usize = 0;
    while i < a.len()
        invariant
            0 <= i <= a.len(),
            a.len() == b.len(),
            forall|j: int| 0 <= j < i ==> a@[j] == b@[j],
        decreases a.len() - i,
    {
        if a[i] != b[i] {
            return false;
        }
        i = i + 1;
    }
    assert(a@ =~= b@);
    true
}

/// Whether two strings are equal.
pub fn str_eq(a: &str, b: &str) -> (r: bool)
    ensures
        r == (a@ == b@),
{
    let ac = chars_of(a);
    let bc = chars_of(b);
    chars_eq(ac.as_slice(), bc.as_slice())
}

/// Whether `s` starts with `prefix` at position `at`.
pub fn chars_match_at(s: &[char], at: usize, prefix: &[char]) -> (r: bool)
    requires
        at <= s.len(),
    ensures
        r == (at + prefix.len() <= s.len() && s@.subrange(at as int, at + prefix.len())
            == prefix@),
{
    if prefix.len() > s.len() - at {
        return false;
    }
    let mut i: usize = 0;
    while i < prefix.len()
        invariant
            0 <= i <= prefix.len(),
            at + prefix.len() <= s.len(),
            forall|j: int| 0 <= j < i ==> s@[at + j] == prefix@[j],
        decreases prefix.len() - i,
    {
        if s[at + i] != prefix[i] {
            assert(s@.subrange(at as int, at + prefix.len())[i as int] != prefix@[i as int]);
            return false;
        }
        i = i + 1;
    }
    assert(s@.subrange(at as int, at + prefix.len()) =~= prefix@);
    true
}

/// The characters `s[from..to]` as a new vector.
pub fn chars_slice(s: &[char], from: usize, to: usize) -> (r: Vec<char>)
    requires
        from <= to <= s.len(),
    ensures
        r@ == s@.subrange(from as int, to as int),
{
    let mut r: Vec<char> = Vec::new();
    let mut i = from;
    while i < to
        invariant
            from <= i <= to <= s.len(),
            r@ == s@.subrange(from as int, i as int),
        decreases to - i,
    {
        r.push(s[i]);
        i = i + 1;
        assert(r@ =~= s@.subrange(from as int, i as int));
    }
    r
}

// ---------------------------------------------------------------------------
// Lines
// ---------------------------------------------------------------------------

/// The end (exclusive) of the line that contains position `i`: just past the
/// next `'\n'` at or after `i`, or the end of `s`.
pub open spec fn line_end(s: Seq<char>, i: int) -> int
    decreases s.len() - i,
{
    if i >= s.len() {
        s.len() as int
    } else if s[i] == '\n' {
        i + 1
    } else {
        line_end(s, i + 1)
    }
}

pub proof fn lemma_line_end_bounds(s: Seq<char>, i: int)
    requires
        0 <= i < s.len(),
    ensures
        i < line_end(s, i) <= s.len(),
    decreases s.len() - i,
{
    if s[i] != '\n' {
        if i + 1 < s.len() {
            lemma_line_end_bounds(s, i + 1);
        } else {
            assert(line_end(s, i + 1) == s.len());
        }
    }
}

/// `s` cut after every `'\n'`, each piece keeping its line ending
/// (`str::split_inclusive('\n')`).
pub open spec fn inclusive_lines(s: Seq<char>) -> Seq<Seq<char>>
    decreases s.len(),
{
    if s.len() == 0 {
        Seq::empty()
    } else {
        let e = line_end(s, 0);
        proof {
            lemma_line_end_bounds(s, 0);
        }
        seq![s.take(e)] + inclusive_lines(s.skip(e))
    }
}

/// When `t` has no `'\n'` before `m`, the first line ends at `m` (if `t`
/// ends there) or just after the `'\n'` at `m`.
proof fn lemma_line_end_at(t: Seq<char>, j: int, m: int)
    requires
        0 <= j <= m <= t.len(),
        forall|k: int| 0 <= k < m ==> t[k] != '\n',
        m == t.len() || t[m] == '\n',
    ensures
        line_end(t, j) == if m == t.len() {
            m
        } else {
            m + 1
        },
    decreases m - j,
{
    if j < m {
        lemma_line_end_at(t, j + 1, m);
    }
}

/// Whether pieces are the lines of a text: each is nonempty, holds a `'\n'`
/// at most as its last character, and every piece but the last ends with one.
pub open spec fn well_lined(ls: Seq<Seq<char>>) -> bool {
    &&& forall|i: int| 0 <= i < ls.len() ==> #[trigger] ls[i].len() > 0
    &&& forall|i: int, k: int|
        0 <= i < ls.len() && 0 <= k < ls[i].len() - 1 ==> #[trigger] ls[i][k] != '\n'
    &&& forall|i: int| 0 <= i < ls.len() - 1 ==> #[trigger] ls[i].last() == '\n'
}

proof fn lemma_line_end_scan(s: Seq<char>, j: int)
    requires
        0 <= j < s.len(),
    ensures
        forall|k: int| j <= k < line_end(s, j) - 1 ==> s[k] != '\n',
        line_end(s, j) < s.len() ==> s[line_end(s, j) - 1] == '\n',
        j < line_end(s, j) <= s.len(),
    decreases s.len() - j,
{
    lemma_line_end_bounds(s, j);
    if s[j] != '\n' && j + 1 < s.len() {
        lemma_line_end_scan(s, j + 1);
    }
}

/// The lines of a text are well lined.
pub proof fn lemma_inclusive_lines_well_lined(s: Seq<char>)
    ensures
        well_lined(inclusive_lines(s)),
    decreases s.len(),
{
    lemma_inclusive_lines_flatten(s);
    if s.len() > 0 {
        let e = line_end(s, 0);
        lemma_line_end_scan(s, 0);
        let rest = inclusive_lines(s.skip(e));
        lemma_inclusive_lines_well_lined(s.skip(e));
        lemma_inclusive_lines_flatten(s.skip(e));
        let ls = inclusive_lines(s);
        assert(ls == seq![s.take(e)] + rest);
        assert forall|i: int, k: int|
            0 <= i < ls.len() && 0 <= k < ls[i].len() - 1 implies #[trigger] ls[i][k] != '\n' by {
            if i > 0 {
                assert(ls[i] == rest[i - 1]);
            }
        }
        assert forall|i: int| 0 <= i < ls.len() - 1 implies #[trigger] ls[i].last() == '\n' by {
            if i > 0 {
                assert(ls[i] == rest[i - 1]);
            } else {
                if e == s.len() {
                    assert(s.skip(e).len() == 0);
                    assert(rest.len() == 0);
                }
            }
        }
    }
}

/// Cutting the concatenation of well-lined pieces into lines gives the
/// pieces back.
pub proof fn lemma_well_lined_split(ls: Seq<Seq<char>>)
    requires
        well_lined(ls),
    ensures
        inclusive_lines(ls.flatten()) == ls,
    decreases ls.len(),
{
    if ls.len() == 0 {
        assert(ls.flatten() =~= Seq::<char>::empty());
        assert(inclusive_lines(ls.flatten()) =~= ls);
    } else {
        let x = ls[0];
        let rest = ls.drop_first();
        assert(ls =~= seq![x] + rest);
        lemma_flatten_prepend(x, rest);
        let t = ls.flatten();
        assert(t == x + rest.flatten());
        assert(well_lined(rest)) by {
            assert forall|i: int, k: int|
                0 <= i < rest.len() && 0 <= k < rest[i].len() - 1 implies #[trigger] rest[i][k]
                != '\n' by {
                assert(rest[i] == ls[i + 1]);
            }
            assert forall|i: int| 0 <= i < rest.len() - 1 implies #[trigger] rest[i].last()
                == '\n' by {
                assert(rest[i] == ls[i + 1]);
            }
            assert forall|i: int| 0 <= i < rest.len() implies #[trigger] rest[i].len() > 0 by {
                assert(rest[i] == ls[i + 1]);
            }
        }
        lemma_well_lined_split(rest);
        assert(x.len() > 0);
        let m = x.len() - 1;
        assert forall|k: int| 0 <= k < m implies t[k] != '\n' by {
            assert(t[k] == x[k]);
            assert(ls[0][k] != '\n');
        }
        if x.last() == '\n' {
            assert(t[m] == x[m]);
            lemma_line_end_at(t, 0, m);
        } else {
            assert(rest.len() == 0) by {
                if rest.len() > 0 {
                    assert(ls[0].last() == '\n');
                }
            }
            assert(rest.flatten() =~= Seq::<char>::empty());
            assert(t =~= x);
            assert forall|k: int| 0 <= k < x.len() implies t[k] != '\n' by {
                if k < m {
                    assert(ls[0][k] != '\n');
                }
            }
            lemma_line_end_at(t, 0, x.len() as int);
        }
        assert(line_end(t, 0) == x.len());
        assert(t.take(x.len() as int) =~= x);
        assert(t.skip(x.len() as int) =~= rest.flatten());
        assert(inclusive_lines(t) =~= seq![x] + rest);
    }
}

/// A run of consecutive lines is itself well lined.
pub proof fn lemma_well_lined_subrange(ls: Seq<Seq<char>>, a: int, b: int)
    requires
        well_lined(ls),
        0 <= a <= b <= ls.len(),
    ensures
        well_lined(ls.subrange(a, b)),
{
    let r = ls.subrange(a, b);
    assert forall|i: int| 0 <= i < r.len() implies #[trigger] r[i].len() > 0 by {
        assert(r[i] == ls[a + i]);
    }
    assert forall|i: int, k: int| 0 <= i < r.len() && 0 <= k < r[i].len() - 1 implies #[trigger] r[i][k]
        != '\n' by {
        assert(r[i] == ls[a + i]);
    }
    assert forall|i: int| 0 <= i < r.len() - 1 implies #[trigger] r[i].last() == '\n' by {
        assert(r[i] == ls[a + i]);
    }
}

/// Every piece of `inclusive_lines` is nonempty, and they concatenate back to `s`.
pub proof fn lemma_inclusive_lines_flatten(s: Seq<char>)
    ensures
        inclusive_lines(s).flatten() == s,
        forall|i: int| 0 <= i < inclusive_lines(s).len() ==> #[trigger] inclusive_lines(s)[i].len() > 0,
    decreases s.len(),
{
    if s.len() > 0 {
        let e = line_end(s, 0);
        lemma_line_end_bounds(s, 0);
        lemma_inclusive_lines_flatten(s.skip(e));
        let rest = inclusive_lines(s.skip(e));
        assert(inclusive_lines(s) == seq![s.take(e)] + rest);
        lemma_flatten_prepend(s.take(e), rest);
        assert(s.take(e) + s.skip(e) =~= s);
        assert forall|i: int| 0 <= i < inclusive_lines(s).len() implies #[trigger] inclusive_lines(
            s,
        )[i].len() > 0 by {
            if i > 0 {
                assert(inclusive_lines(s)[i] == rest[i - 1]);
            }
        }
    }
}

/// Flattening a sequence with one more piece in front.
pub proof fn lemma_flatten_prepend<A>(x: Seq<A>, rest: Seq<Seq<A>>)
    ensures
        (seq![x] + rest).flatten() == x + rest.flatten(),
{
    let s = seq![x] + rest;
    assert(s.len() > 0);
    assert(s.first() == x);
    assert(s.drop_first() =~= rest);
}

/// Flattening a sequence with one more piece at the end.
pub proof fn lemma_flatten_push<A>(s: Seq<Seq<A>>, x: Seq<A>)
    ensures
        s.push(x).flatten() == s.flatten() + x,
    decreases s.len(),
{
    if s.len() == 0 {
        assert(s.push(x) =~= seq![x]);
        lemma_flatten_prepend(x, Seq::<Seq<A>>::empty());
        assert(x + Seq::<Seq<A>>::empty().flatten() =~= x);
        assert(s.flatten() + x =~= x);
    } else {
        let t = s.drop_first();
        lemma_flatten_push(t, x);
        assert(s =~= seq![s[0]] + t);
        assert(s.push(x) =~= seq![s[0]] + t.push(x));
        lemma_flatten_prepend(s[0], t.push(x));
        lemma_flatten_prepend(s[0], t);
        assert(s[0] + (t.flatten() + x) =~= (s[0] + t.flatten()) + x);
    }
}

/// `s` split after every `'\n'`; each line keeps its ending.
pub fn split_lines_preserving_endings(s: &[char]) -> (lines: Vec<Vec<char>>)
    ensures
        lines.len() == inclusive_lines(s@).len(),
        forall|i: int| 0 <= i < lines.len() ==> #[trigger] lines[i]@ == inclusive_lines(s@)[i],
{
    let mut lines: Vec<Vec<char>> = Vec::new();
    let mut cur: Vec<char> = Vec::new();
    let mut k: usize = 0;
    let mut i: usize = 0;
    let ghost mut done: Seq<Seq<char>> = Seq::empty();
    assert(s@.skip(0) =~= s@);
    assert(done + inclusive_lines(s@) =~= inclusive_lines(s@));
    while i < s.len()
        invariant
            0 <= k <= i <= s.len(),
            cur@ == s@.subrange(k as int, i as int),
            forall|j: int| k <= j < i ==> s@[j] != '\n',
            lines.len() == done.len(),
            forall|j: int| 0 <= j < lines.len() ==> #[trigger] lines[j]@ == done[j],
            done + inclusive_lines(s@.skip(k as int)) == inclusive_lines(s@),
        decreases s.len() - i,
    {
        let c = s[i];
        cur.push(c);
        assert(cur@ =~= s@.subrange(k as int, i + 1));
        if c == '\n' {
            let ghost t = s@.skip(k as int);
            proof {
                lemma_line_end_at(t, 0, i - k);
                assert(t.take(i + 1 - k) =~= s@.subrange(k as int, i + 1));
                assert(t.skip(i + 1 - k) =~= s@.skip(i + 1));
                assert(inclusive_lines(t) == seq![t.take(i + 1 - k)] + inclusive_lines(
                    t.skip(i + 1 - k),
                ));
                assert(done + inclusive_lines(t) =~= done.push(cur@) + inclusive_lines(
                    s@.skip(i + 1),
                ));
                done = done.push(cur@);
            }
            lines.push(cur);
            cur = Vec::new();
            k = i + 1;
        }
        i = i + 1;
    }
    if k < s.len() {
        let ghost t = s@.skip(k as int);
        proof {
            lemma_line_end_at(t, 0, t.len() as int);
            assert(t.take(t.len() as int) =~= t);
            assert(t.skip(t.len() as int) =~= Seq::<char>::empty());
            assert(inclusive_lines(t) == seq![t] + inclusive_lines(Seq::<char>::empty()));
            assert(cur@ =~= t);
            assert(done + inclusive_lines(t) =~= done.push(cur@));
            done = done.push(cur@);
        }
        lines.push(cur);
    } else {
        assert(s@.skip(k as int) =~= Seq::<char>::empty());
        assert(done + inclusive_lines(s@.skip(k as int)) =~= done);
    }
    lines
}

// ---------------------------------------------------------------------------
// Decimal numerals
// ---------------------------------------------------------------------------

/// The character for a decimal digit.
pub open spec fn digit_char(d: nat) -> char {
    if d == 0 {
        '0'
    } else if d == 1 {
        '1'
    } else if d == 2 {
        '2'
    } else if d == 3 {
        '3'
    } else if d == 4 {
        '4'
    } else if d == 5 {
        '5'
    } else if d == 6 {
        '6'
    } else if d == 7 {
        '7'
    } else if d == 8 {
        '8'
    } else {
        '9'
    }
}

/// The decimal numeral of `n`, as `Display` writes it: no sign, no leading zeros.
pub open spec fn decimal(n: nat) -> Seq<char>
    decreases n,
{
    if n < 10 {
        seq![digit_char(n)]
    } else {
        decimal(n / 10).push(digit_char(n % 10))
    }
}

fn digit(d: u64) -> (c: char)
    requires
        d < 10,
    ensures
        c == digit_char(d as nat),
{
    if d == 0 {
        '0'
    } else if d == 1 {
        '1'
    } else if d == 2 {
        '2'
    } else if d == 3 {
        '3'
    } else if d == 4 {
        '4'
    } else if d == 5 {
        '5'
    } else if d == 6 {
        '6'
    } else if d == 7 {
        '7'
    } else if d == 8 {
        '8'
    } else {
        '9'
    }
}

/// Appends the decimal numeral of `n` to `out`.
pub fn push_decimal(out: &mut String, n: u64)
    ensures
        final(out)@ == old(out)@ + decimal(n as nat),
    decreases n,
{
    if n >= 10 {
        push_decimal(out, n / 10);
    }
    push_char(out, digit(n % 10));
    proof {
        if n >= 10 {
            assert(old(out)@ + decimal(n as nat) =~= old(out)@ + decimal((n / 10) as nat) + seq![
                digit_char((n % 10) as nat),
            ]);
        }
    }
    assert(out@ =~= old(out)@ + decimal(n as nat)) by {
        if n < 10 {
            assert(n % 10 == n);
        }
    }
}

} // verus!
