use vstd::prelude::*;

verus! {

broadcast use vstd::string::group_string_axioms;

/// The byte `*`.
pub open spec fn star() -> u8 {
    42
}

/// The byte `/`.
pub open spec fn slash() -> u8 {
    47
}

/// Position of the first `/` in `path`, or its length when it has none.
pub open spec fn first_slash(path: Seq<u8>) -> int
    decreases path.len(),
{
    if path.len() == 0 {
        0
    } else if path[0] == slash() {
        0
    } else {
        1 + first_slash(path.drop_first())
    }
}

/// Whether `path` matches the glob `pattern`, byte by byte: `**` matches any
/// run of bytes, `*` any run of bytes without `/`, and every other byte itself.
pub open spec fn glob_match(path: Seq<u8>, pattern: Seq<u8>) -> bool
    decreases pattern.len(), path.len() + 2,
{
    if pattern.len() == 0 {
        path.len() == 0
    } else if pattern.len() >= 2 && pattern[0] == star() && pattern[1] == star() {
        glob_any(path, pattern.skip(2), 0, path.len() as int)
    } else if pattern[0] == star() {
        proof {
            lemma_first_slash_bounds(path);
        }
        glob_any(path, pattern.skip(1), 0, first_slash(path))
    } else if path.len() > 0 && path[0] == pattern[0] {
        glob_match(path.skip(1), pattern.skip(1))
    } else {
        false
    }
}

/// Whether `path` with its first `i` bytes dropped matches `rest`, for some `i`
/// in `lo..=hi`.
pub open spec fn glob_any(path: Seq<u8>, rest: Seq<u8>, lo: int, hi: int) -> bool
    decreases rest.len() + 1, hi - lo + 1,
{
    if lo > hi || lo < 0 || hi > path.len() {
        false
    } else {
        glob_match(path.skip(lo), rest) || glob_any(path, rest, lo + 1, hi)
    }
}

pub proof fn lemma_first_slash_bounds(path: Seq<u8>)
    ensures
        0 <= first_slash(path) <= path.len(),
        forall|i: int| 0 <= i < first_slash(path) ==> path[i] != slash(),
        first_slash(path) < path.len() ==> path[first_slash(path)] == slash(),
    decreases path.len(),
{
    if path.len() > 0 && path[0] != slash() {
        lemma_first_slash_bounds(path.drop_first());
        assert forall|i: int| 0 <= i < first_slash(path) implies path[i] != slash() by {
            if i > 0 {
                assert(path[i] == path.drop_first()[i - 1]);
            }
        }
    }
}

/// `glob_any` is the bounded existential that its name says.
pub proof fn lemma_glob_any_exists(path: Seq<u8>, rest: Seq<u8>, lo: int, hi: int)
    requires
        0 <= lo,
        hi <= path.len(),
    ensures
        glob_any(path, rest, lo, hi) <==> exists|i: int|
            lo <= i <= hi && #[trigger] glob_match(path.skip(i), rest),
    decreases hi - lo + 1,
{
    if lo <= hi {
        lemma_glob_any_exists(path, rest, lo + 1, hi);
        if glob_match(path.skip(lo), rest) {
            assert(exists|i: int| lo <= i <= hi && #[trigger] glob_match(path.skip(i), rest));
        }
    }
}

/// A pattern without `*` matches exactly the path equal to it.
pub proof fn lemma_literal_pattern(path: Seq<u8>, pattern: Seq<u8>)
    requires
        !pattern.contains(star()),
    ensures
        glob_match(path, pattern) <==> path == pattern,
    decreases pattern.len(),
{
    if pattern.len() == 0 {
        if path.len() == 0 {
            assert(path =~= pattern);
        }
    } else {
        assert(pattern[0] != star());
        let rp = pattern.skip(1);
        assert(!rp.contains(star())) by {
            if rp.contains(star()) {
                let j = choose|j: int| 0 <= j < rp.len() && rp[j] == star();
                assert(pattern[j + 1] == star());
            }
        }
        if path.len() > 0 && path[0] == pattern[0] {
            lemma_literal_pattern(path.skip(1), rp);
            if path.skip(1) == rp {
                assert forall|i: int| 0 <= i < path.len() implies path[i] == pattern[i] by {
                    if i > 0 {
                        assert(path[i] == path.skip(1)[i - 1]);
                        assert(pattern[i] == rp[i - 1]);
                    }
                }
                assert(path =~= pattern);
            }
            if path == pattern {
                assert(path.skip(1) =~= rp);
            }
        }
    }
}

/// `**` matches every path.
pub proof fn lemma_double_star_matches_all(path: Seq<u8>)
    ensures
        glob_match(path, seq![star(), star()]),
{
    let pattern = seq![star(), star()];
    assert(pattern.skip(2) =~= Seq::<u8>::empty());
    lemma_glob_any_exists(path, pattern.skip(2), 0, path.len() as int);
    assert(path.skip(path.len() as int) =~= Seq::<u8>::empty());
    assert(glob_match(path.skip(path.len() as int), pattern.skip(2)));
}

/// `*` matches exactly the paths without `/`.
pub proof fn lemma_single_star_stays_in_segment(path: Seq<u8>)
    ensures
        glob_match(path, seq![star()]) <==> !path.contains(slash()),
{
    let pattern = seq![star()];
    assert(pattern.skip(1) =~= Seq::<u8>::empty());
    lemma_first_slash_bounds(path);
    lemma_glob_any_exists(path, pattern.skip(1), 0, first_slash(path));
    if glob_match(path, pattern) {
        let i = choose|i: int|
            0 <= i <= first_slash(path) && #[trigger] glob_match(path.skip(i), pattern.skip(1));
        assert(path.skip(i).len() == 0);
        assert(i == path.len());
        assert(first_slash(path) == path.len());
    }
    if !path.contains(slash()) {
        if first_slash(path) < path.len() {
            assert(path[first_slash(path)] == slash());
        }
        assert(path.skip(path.len() as int) =~= Seq::<u8>::empty());
        assert(glob_match(path.skip(path.len() as int), pattern.skip(1)));
    }
}

/// Position of the first `/` at or after `from`, or the length of `path`.
fn find_slash(path: &[u8], from: usize) -> (p: usize)
    requires
        from <= path.len(),
    ensures
        p == from + first_slash(path@.skip(from as int)),
{
    let mut p = from;
    proof {
        lemma_first_slash_bounds(path@.skip(from as int));
    }
    while p < path.len() && path[p] != 47u8
        invariant
            from <= p <= path.len(),
            first_slash(path@.skip(from as int)) == (p - from) + first_slash(path@.skip(p as int)),
        decreases path.len() - p,
    {
        assert(path@.skip(p as int).drop_first() =~= path@.skip(p + 1));
        p = p + 1;
    }
    p
}

/// Whether `path[pi..]` matches `pattern[qi..]`.
fn matches_glob_at(path: &[u8], pi: usize, pattern: &[u8], qi: usize) -> (r: bool)
    requires
        pi <= path.len(),
        qi <= pattern.len(),
    ensures
        r == glob_match(path@.skip(pi as int), pattern@.skip(qi as int)),
    decreases pattern.len() - qi, path.len() - pi + 2,
{
    let ghost p = path@.skip(pi as int);
    let ghost q = pattern@.skip(qi as int);
    if qi == pattern.len() {
        return pi == path.len();
    }
    if qi + 1 < pattern.len() && pattern[qi] == 42u8 && pattern[qi + 1] == 42u8 {
        assert(q.skip(2) =~= pattern@.skip(qi + 2));
        let mut index = pi;
        loop
            invariant
                pi <= index <= path.len(),
                qi + 2 <= pattern.len(),
                p == path@.skip(pi as int),
                q == pattern@.skip(qi as int),
                q.skip(2) == pattern@.skip(qi + 2),
                glob_match(p, q) == glob_any(p, q.skip(2), index - pi, p.len() as int),
            decreases path.len() - index,
        {
            assert(p.skip(index - pi) =~= path@.skip(index as int));
            let found = matches_glob_at(path, index, pattern, qi + 2);
            assert(glob_any(p, q.skip(2), index - pi, p.len() as int) == (found || glob_any(
                p,
                q.skip(2),
                index - pi + 1,
                p.len() as int,
            )));
            if found {
                return true;
            }
            if index == path.len() {
                return false;
            }
            index = index + 1;
        }
    }
    if pattern[qi] == 42u8 {
        assert(q.skip(1) =~= pattern@.skip(qi + 1));
        let end = find_slash(path, pi);
        proof {
            lemma_first_slash_bounds(p);
        }
        let mut index = pi;
        loop
            invariant
                pi <= index <= end,
                end == pi + first_slash(p),
                end <= path.len(),
                qi + 1 <= pattern.len(),
                p == path@.skip(pi as int),
                q == pattern@.skip(qi as int),
                q.skip(1) == pattern@.skip(qi + 1),
                glob_match(p, q) == glob_any(p, q.skip(1), index - pi, first_slash(p)),
            decreases end - index,
        {
            assert(p.skip(index - pi) =~= path@.skip(index as int));
            let found = matches_glob_at(path, index, pattern, qi + 1);
            assert(glob_any(p, q.skip(1), index - pi, first_slash(p)) == (found || glob_any(
                p,
                q.skip(1),
                index - pi + 1,
                first_slash(p),
            )));
            if found {
                return true;
            }
            if index == end {
                return false;
            }
            index = index + 1;
        }
    }
    if pi < path.len() && path[pi] == pattern[qi] {
        assert(p.skip(1) =~= path@.skip(pi + 1));
        assert(q.skip(1) =~= pattern@.skip(qi + 1));
        return matches_glob_at(path, pi + 1, pattern, qi + 1);
    }
    false
}

/// Whether `path` matches the glob `pattern` (see [`glob_match`]), compared on
/// their UTF-8 bytes.
pub fn matches_glob(path: &str, pattern: &str) -> (r: bool)
    ensures
        r == glob_match(vstd::utf8::encode_utf8(path@), vstd::utf8::encode_utf8(pattern@)),
{
    let p = path.as_bytes();
    let q = pattern.as_bytes();
    assert(p@.skip(0) =~= p@);
    assert(q@.skip(0) =~= q@);
    matches_glob_at(p, 0, q, 0)
}

} // verus!
