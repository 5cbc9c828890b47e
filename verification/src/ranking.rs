use vstd::prelude::*;

use crate::packing::{chars_less, chars_lt, lemma_chars_lt_asymmetric, lemma_chars_lt_total, lemma_chars_lt_transitive};
use crate::packing::scored_views;
use crate::search::{seed_selection, select_seeds, ScoredChunk, SearchConfig};
use crate::text::chars_of;

verus! {

// ---------------------------------------------------------------------------
// The total order of `f32`
// ---------------------------------------------------------------------------

/// The place of an `f32` bit pattern in `f32::total_cmp`'s order: values with
/// the sign bit clear keep their pattern, the others count down from -1 as
/// their magnitude grows (so -0.0 comes just before +0.0).
pub open spec fn score_key(bits: u32) -> int {
    if bits < 0x8000_0000 {
        bits as int
    } else {
        0x7fff_ffff - bits as int
    }
}

/// The place of an `f32` bit pattern in `f32::total_cmp`'s order.
pub fn total_order_key(bits: u32) -> (key: i64)
    ensures
        key == score_key(bits),
{
    if bits < 0x8000_0000 {
        bits as i64
    } else {
        0x7fff_ffff_i64 - bits as i64
    }
}

// ---------------------------------------------------------------------------
// Sorting by a strict weak order
// ---------------------------------------------------------------------------

/// Whether no element comes before one that precedes it.
pub open spec fn sorted_by<T>(s: Seq<T>, before: spec_fn(T, T) -> bool) -> bool {
    forall|i: int, j: int| 0 <= i < j < s.len() ==> !before(#[trigger] s[j], #[trigger] s[i])
}

/// Whether `before` is a strict weak order: asymmetric, and "not before" is
/// transitive.
pub open spec fn strict_weak_order<T>(before: spec_fn(T, T) -> bool) -> bool {
    &&& forall|a: T, b: T| #[trigger] before(a, b) ==> !before(b, a)
    &&& forall|a: T, b: T, c: T|
        #![trigger before(a, b), before(b, c)]
        !before(a, b) && !before(b, c) ==> !before(a, c)
}

pub(crate) proof fn lemma_insert_sorted<T>(out: Seq<T>, p: int, x: T, before: spec_fn(T, T) -> bool)
    requires
        strict_weak_order(before),
        sorted_by(out, before),
        0 <= p <= out.len(),
        forall|k: int| 0 <= k < p ==> before(#[trigger] out[k], x),
        p < out.len() ==> !before(out[p], x),
    ensures
        sorted_by(out.insert(p, x), before),
{
    let s = out.insert(p, x);
    assert forall|i: int, j: int| 0 <= i < j < s.len() implies !before(
        #[trigger] s[j],
        #[trigger] s[i],
    ) by {
        if j < p {
            assert(s[i] == out[i] && s[j] == out[j]);
        } else if j == p {
            assert(s[i] == out[i] && s[j] == x);
            assert(before(out[i], x));
        } else if i < p {
            assert(s[i] == out[i] && s[j] == out[j - 1]);
        } else if i == p {
            assert(s[i] == x && s[j] == out[j - 1]);
            if j - 1 > p {
                assert(!before(out[j - 1], out[p]));
                assert(!before(out[p], x));
            }
        } else {
            assert(s[i] == out[i - 1] && s[j] == out[j - 1]);
        }
    }
}

// ---------------------------------------------------------------------------
// Ranked candidates
// ---------------------------------------------------------------------------

/// Whether candidate `a` ranks before `b`: a higher score in `total_cmp`'s
/// order, or the same score and a smaller chunk id.
pub open spec fn ranks_before(a: ScoredChunk, b: ScoredChunk) -> bool {
    score_key(a.score_bits) > score_key(b.score_bits) || (score_key(a.score_bits) == score_key(
        b.score_bits,
    ) && chars_lt(a.chunk.id@, b.chunk.id@))
}

/// Whether expanded chunk `a` comes before `b`: a higher score in
/// `total_cmp`'s order, or the same score and a smaller file path, or the
/// same path too and a smaller chunk index.
pub open spec fn expanded_before(a: ScoredChunk, b: ScoredChunk) -> bool {
    score_key(a.score_bits) > score_key(b.score_bits) || (score_key(a.score_bits) == score_key(
        b.score_bits,
    ) && (chars_lt(a.chunk.file_path@, b.chunk.file_path@) || (a.chunk.file_path@
        == b.chunk.file_path@ && a.chunk.chunk_index < b.chunk.chunk_index)))
}

pub(crate) proof fn lemma_chars_not_lt_transitive(a: Seq<char>, b: Seq<char>, c: Seq<char>)
    requires
        !chars_lt(a, b),
        !chars_lt(b, c),
    ensures
        !chars_lt(a, c),
{
    lemma_chars_lt_total(a, b);
    lemma_chars_lt_total(b, c);
    if chars_lt(a, c) {
        if chars_lt(b, a) {
            lemma_chars_lt_transitive(b, a, c);
            lemma_chars_lt_asymmetric(b, c);
        } else if chars_lt(c, b) {
            lemma_chars_lt_transitive(a, c, b);
            lemma_chars_lt_asymmetric(a, b);
        }
    }
}

/// The ranking of candidates is a strict weak order.
pub proof fn lemma_ranking_is_strict_weak_order()
    ensures
        strict_weak_order(|a: ScoredChunk, b: ScoredChunk| ranks_before(a, b)),
{
    let before = |a: ScoredChunk, b: ScoredChunk| ranks_before(a, b);
    assert forall|a: ScoredChunk, b: ScoredChunk| #[trigger] before(a, b) implies !before(b, a) by {
        if score_key(a.score_bits) == score_key(b.score_bits) {
            lemma_chars_lt_asymmetric(a.chunk.id@, b.chunk.id@);
        }
    }
    assert forall|a: ScoredChunk, b: ScoredChunk, c: ScoredChunk|
        #![trigger before(a, b), before(b, c)]
        !before(a, b) && !before(b, c) implies !before(a, c) by {
        if score_key(a.score_bits) == score_key(b.score_bits) && score_key(b.score_bits)
            == score_key(c.score_bits) {
            lemma_chars_not_lt_transitive(a.chunk.id@, b.chunk.id@, c.chunk.id@);
        }
    }
}

/// The order of expanded chunks is a strict weak order.
pub proof fn lemma_expanded_order_is_strict_weak_order()
    ensures
        strict_weak_order(|a: ScoredChunk, b: ScoredChunk| expanded_before(a, b)),
{
    let before = |a: ScoredChunk, b: ScoredChunk| expanded_before(a, b);
    assert forall|a: ScoredChunk, b: ScoredChunk| #[trigger] before(a, b) implies !before(b, a) by {
        if score_key(a.score_bits) == score_key(b.score_bits) {
            if chars_lt(a.chunk.file_path@, b.chunk.file_path@) {
                lemma_chars_lt_asymmetric(a.chunk.file_path@, b.chunk.file_path@);
            }
            if a.chunk.file_path@ == b.chunk.file_path@ {
                crate::packing::lemma_chars_lt_irreflexive(a.chunk.file_path@);
            }
        }
    }
    assert forall|a: ScoredChunk, b: ScoredChunk, c: ScoredChunk|
        #![trigger before(a, b), before(b, c)]
        !before(a, b) && !before(b, c) implies !before(a, c) by {
        if score_key(a.score_bits) == score_key(b.score_bits) && score_key(b.score_bits)
            == score_key(c.score_bits) {
            let (pa, pb, pc) = (a.chunk.file_path@, b.chunk.file_path@, c.chunk.file_path@);
            lemma_chars_not_lt_transitive(pa, pb, pc);
            lemma_chars_lt_total(pa, pb);
            lemma_chars_lt_total(pb, pc);
            if chars_lt(pb, pa) && pb == pc {
                crate::packing::lemma_chars_lt_irreflexive(pa);
            }
            if pa == pb && chars_lt(pc, pb) {
                crate::packing::lemma_chars_lt_irreflexive(pa);
            }
        }
    }
}

fn ranks_before_exec(a: &ScoredChunk, b: &ScoredChunk) -> (r: bool)
    ensures
        r == ranks_before(*a, *b),
{
    let ka = total_order_key(a.score_bits);
    let kb = total_order_key(b.score_bits);
    if ka != kb {
        ka > kb
    } else {
        let ia = chars_of(a.chunk.id.as_str());
        let ib = chars_of(b.chunk.id.as_str());
        chars_less(ia.as_slice(), ib.as_slice())
    }
}

fn expanded_before_exec(a: &ScoredChunk, b: &ScoredChunk) -> (r: bool)
    ensures
        r == expanded_before(*a, *b),
{
    let ka = total_order_key(a.score_bits);
    let kb = total_order_key(b.score_bits);
    if ka != kb {
        ka > kb
    } else {
        let pa = chars_of(a.chunk.file_path.as_str());
        let pb = chars_of(b.chunk.file_path.as_str());
        if chars_less(pa.as_slice(), pb.as_slice()) {
            true
        } else if crate::text::chars_eq(pa.as_slice(), pb.as_slice()) {
            a.chunk.chunk_index < b.chunk.chunk_index
        } else {
            false
        }
    }
}

/// Sorts scored chunks by `ranks_before` (when `by_rank`) or by
/// `expanded_before`, keeping the chunks themselves.
fn sort_scored(items: Vec<ScoredChunk>, by_rank: bool) -> (sorted: Vec<ScoredChunk>)
    ensures
        by_rank ==> sorted_by(sorted@, |a: ScoredChunk, b: ScoredChunk| ranks_before(a, b)),
        !by_rank ==> sorted_by(sorted@, |a: ScoredChunk, b: ScoredChunk| expanded_before(a, b)),
        sorted@.to_multiset() == items@.to_multiset(),
{
    broadcast use vstd::multiset::group_multiset_axioms;
    broadcast use vstd::seq_lib::group_to_multiset_ensures;

    let ghost before = if by_rank {
        |a: ScoredChunk, b: ScoredChunk| ranks_before(a, b)
    } else {
        |a: ScoredChunk, b: ScoredChunk| expanded_before(a, b)
    };
    proof {
        lemma_ranking_is_strict_weak_order();
        lemma_expanded_order_is_strict_weak_order();
    }
    let ghost all = items@.to_multiset();
    let mut input = items;
    let mut out: Vec<ScoredChunk> = Vec::new();
    assert(out@.to_multiset() =~= vstd::multiset::Multiset::empty());
    assert(out@.to_multiset().add(input@.to_multiset()) =~= all);
    while input.len() > 0
        invariant
            strict_weak_order(before),
            forall|a: ScoredChunk, b: ScoredChunk|
                #[trigger] before(a, b) == if by_rank {
                    ranks_before(a, b)
                } else {
                    expanded_before(a, b)
                },
            sorted_by(out@, before),
            out@.to_multiset().add(input@.to_multiset()) == all,
        decreases input.len(),
    {
        let ghost rest_before = input@;
        let x = match input.pop() {
            Some(r) => r,
            None => {
                return out;
            },
        };
        assert(rest_before =~= input@.push(x));
        let mut p: usize = 0;
        loop
            invariant
                0 <= p <= out.len(),
                forall|a: ScoredChunk, b: ScoredChunk|
                    #[trigger] before(a, b) == if by_rank {
                        ranks_before(a, b)
                    } else {
                        expanded_before(a, b)
                    },
                forall|k: int| 0 <= k < p ==> before(#[trigger] out@[k], x),
            ensures
                0 <= p <= out.len(),
                forall|k: int| 0 <= k < p ==> before(#[trigger] out@[k], x),
                p < out.len() ==> !before(out@[p as int], x),
            decreases out.len() - p,
        {
            if p == out.len() {
                break;
            }
            let earlier = if by_rank {
                ranks_before_exec(&out[p], &x)
            } else {
                expanded_before_exec(&out[p], &x)
            };
            if !earlier {
                break;
            }
            p = p + 1;
        }
        proof {
            lemma_insert_sorted(out@, p as int, x, before);
        }
        let ghost out_before = out@;
        out.insert(p, x);
        proof {
            vstd::seq_lib::to_multiset_insert(out_before, p as int, x);
            vstd::seq_lib::to_multiset_build(input@, x);
        }
        assert(out@ == out_before.insert(p as int, x));
        assert(out@.to_multiset().add(input@.to_multiset()) =~= all);
    }
    assert(input@.to_multiset() =~= vstd::multiset::Multiset::empty());
    assert(out@.to_multiset() =~= all);
    proof {
        if by_rank {
            assert(sorted_by(out@, |a: ScoredChunk, b: ScoredChunk| ranks_before(a, b)));
        } else {
            assert(sorted_by(out@, |a: ScoredChunk, b: ScoredChunk| expanded_before(a, b)));
        }
    }
    out
}

/// The fused candidates of a hybrid search, best first (higher score in
/// `f32::total_cmp`'s order, then smaller chunk id), cut to the best
/// `fused_top_m`.
pub fn rank_candidates(candidates: Vec<ScoredChunk>, fused_top_m: usize) -> (ranked: Vec<
    ScoredChunk,
>)
    ensures
        sorted_by(ranked@, |a: ScoredChunk, b: ScoredChunk| ranks_before(a, b)),
        ranked@.len() == if candidates@.len() < fused_top_m {
            candidates@.len()
        } else {
            fused_top_m as nat
        },
        exists|all: Seq<ScoredChunk>|
            #![trigger all.to_multiset()]
            all.to_multiset() == candidates@.to_multiset() && sorted_by(
                all,
                |a: ScoredChunk, b: ScoredChunk| ranks_before(a, b),
            ) && ranked@ == all.take(ranked@.len() as int),
{
    let mut sorted = sort_scored(candidates, true);
    let ghost all = sorted@;
    proof {
        vstd::seq_lib::to_multiset_len(all);
        vstd::seq_lib::to_multiset_len(candidates@);
    }
    sorted.truncate(fused_top_m);
    assert(sorted@ =~= all.take(sorted@.len() as int));
    assert forall|i: int, j: int| 0 <= i < j < sorted@.len() implies !ranks_before(
        #[trigger] sorted@[j],
        #[trigger] sorted@[i],
    ) by {
        assert(sorted@[j] == all[j] && sorted@[i] == all[i]);
    }
    sorted
}

/// Expanded chunks in the order a pack takes them: higher score first (in
/// `f32::total_cmp`'s order), then by file path, then by chunk index.
pub fn order_expanded(expanded: Vec<ScoredChunk>) -> (ordered: Vec<ScoredChunk>)
    ensures
        sorted_by(ordered@, |a: ScoredChunk, b: ScoredChunk| expanded_before(a, b)),
        ordered@.to_multiset() == expanded@.to_multiset(),
{
    sort_scored(expanded, false)
}

// ---------------------------------------------------------------------------
// The result of a hybrid search
// ---------------------------------------------------------------------------

/// Whether an `f32` bit pattern is a NaN.
pub open spec fn f32_is_nan(bits: u32) -> bool {
    (bits & 0x7fff_ffff) > 0x7f80_0000
}

/// `a < b` on the `f32` values with these bit patterns: false when either is
/// a NaN or both are zeros (of either sign), else their order.
pub open spec fn f32_less(a: u32, b: u32) -> bool {
    !f32_is_nan(a) && !f32_is_nan(b) && !((a & 0x7fff_ffff) == 0 && (b & 0x7fff_ffff) == 0)
        && score_key(a) < score_key(b)
}

/// `a < b` on the `f32` values with these bit patterns.
pub fn f32_less_bits(a: u32, b: u32) -> (less: bool)
    ensures
        less == f32_less(a, b),
{
    let a_nan = (a & 0x7fff_ffff) > 0x7f80_0000;
    let b_nan = (b & 0x7fff_ffff) > 0x7f80_0000;
    let both_zero = (a & 0x7fff_ffff) == 0 && (b & 0x7fff_ffff) == 0;
    !a_nan && !b_nan && !both_zero && total_order_key(a) < total_order_key(b)
}

/// What a hybrid search returns, besides its counts.
#[derive(Debug, Clone, PartialEq, Eq)]
pub struct SearchOutcome {
    pub seeds: Vec<ScoredChunk>,
    pub candidates: Vec<ScoredChunk>,
    pub low_confidence: bool,
    pub warnings: Vec<String>,
}

/// Whether no two candidates share a chunk id.
pub open spec fn distinct_chunk_ids(items: Seq<ScoredChunk>) -> bool {
    forall|i: int, j: int|
        0 <= i < j < items.len() ==> (#[trigger] items[i]).chunk.id@ != (#[trigger] items[j]).chunk.id@
}

proof fn lemma_distinct_ids_permutation(fused: Seq<ScoredChunk>, all: Seq<ScoredChunk>)
    requires
        all.to_multiset() == fused.to_multiset(),
        distinct_chunk_ids(fused),
    ensures
        distinct_chunk_ids(all),
{
    broadcast use vstd::seq_lib::group_to_multiset_ensures;

    assert(fused.no_duplicates()) by {
        assert forall|i: int, j: int| 0 <= i < fused.len() && 0 <= j < fused.len() && i != j
            implies fused[i] != fused[j] by {
            if i < j {
                assert(fused[i].chunk.id@ != fused[j].chunk.id@);
            } else {
                assert(fused[j].chunk.id@ != fused[i].chunk.id@);
            }
        }
    }
    fused.lemma_multiset_has_no_duplicates();
    all.lemma_multiset_has_no_duplicates_conv();
    assert forall|i: int, j: int| 0 <= i < j < all.len() implies (#[trigger] all[i]).chunk.id@ != (
    #[trigger] all[j]).chunk.id@ by {
        assert(all.contains(all[i]));
        assert(all.contains(all[j]));
        assert(all.to_multiset().count(all[i]) > 0);
        assert(all.to_multiset().count(all[j]) > 0);
        assert(fused.contains(all[i]));
        assert(fused.contains(all[j]));
        let p = choose|p: int| 0 <= p < fused.len() && fused[p] == all[i];
        let q = choose|q: int| 0 <= q < fused.len() && fused[q] == all[j];
        assert(all[i] != all[j]);
        assert(p != q);
        if p < q {
            assert(fused[p].chunk.id@ != fused[q].chunk.id@);
        } else {
            assert(fused[q].chunk.id@ != fused[p].chunk.id@);
        }
    }
}

/// Finishes a hybrid search from its fused candidates: ranks them and keeps
/// the best `fused_top_m`; its confidence is low when the best of them scores
/// below `min_score` (as `f32`); the seeds are then the best candidate alone,
/// or none for `ReturnEmpty`, else the top `seed_top_k`; `warning` (the
/// low-confidence message) is given for `ReturnEmpty` and `ReturnWithWarning`.
pub fn search_outcome(fused: Vec<ScoredChunk>, config: &SearchConfig, warning: String) -> (outcome:
    SearchOutcome)
    ensures
        sorted_by(outcome.candidates@, |a: ScoredChunk, b: ScoredChunk| ranks_before(a, b)),
        outcome.candidates@.len() == if fused@.len() < config.fused_top_m {
            fused@.len()
        } else {
            config.fused_top_m as nat
        },
        exists|all: Seq<ScoredChunk>|
            #![trigger all.to_multiset()]
            all.to_multiset() == fused@.to_multiset() && sorted_by(
                all,
                |a: ScoredChunk, b: ScoredChunk| ranks_before(a, b),
            ) && outcome.candidates@ == all.take(outcome.candidates@.len() as int),
        distinct_chunk_ids(fused@) ==> distinct_chunk_ids(outcome.candidates@),
        ({
            let c = outcome.candidates@;
            let below = c.len() > 0 && f32_less(c[0].score_bits, config.min_score_bits);
            let sel = seed_selection(c.len(), config.seed_top_k as nat, below, config.low_confidence_behavior);
            &&& outcome.low_confidence == sel.low_confidence
            &&& outcome.low_confidence == below
            &&& scored_views(outcome.seeds@) == scored_views(c.take(sel.seed_count as int))
            &&& outcome.warnings@.len() == if sel.warn { 1nat } else { 0nat }
            &&& sel.warn ==> outcome.warnings@[0]@ == warning@
        }),
{
    broadcast use vstd::seq_lib::group_to_multiset_ensures;

    let candidates = rank_candidates(fused, config.fused_top_m);
    proof {
        if distinct_chunk_ids(fused@) {
            let all = choose|all: Seq<ScoredChunk>|
                #![trigger all.to_multiset()]
                all.to_multiset() == fused@.to_multiset() && sorted_by(
                    all,
                    |a: ScoredChunk, b: ScoredChunk| ranks_before(a, b),
                ) && candidates@ == all.take(candidates@.len() as int);
            vstd::seq_lib::to_multiset_len(all);
            vstd::seq_lib::to_multiset_len(fused@);
            lemma_distinct_ids_permutation(fused@, all);
            assert(all.len() >= candidates@.len());
            assert forall|i: int, j: int| 0 <= i < j < candidates@.len() implies (
            #[trigger] candidates@[i]).chunk.id@ != (#[trigger] candidates@[j]).chunk.id@ by {
                assert(candidates@[i] == all[i] && candidates@[j] == all[j]);
            }
        }
    }
    let below = candidates.len() > 0 && f32_less_bits(candidates[0].score_bits, config.min_score_bits);
    let sel = select_seeds(candidates.len(), config.seed_top_k, below, config.low_confidence_behavior);
    let mut seeds: Vec<ScoredChunk> = Vec::new();
    let mut i: usize = 0;
    assert(scored_views(seeds@) =~= scored_views(candidates@.take(0)));
    while i < sel.seed_count
        invariant
            0 <= i <= sel.seed_count <= candidates.len(),
            scored_views(seeds@) == scored_views(candidates@.take(i as int)),
        decreases sel.seed_count - i,
    {
        let copy = crate::executor::clone_scored(&candidates[i]);
        let ghost before = scored_views(seeds@);
        seeds.push(copy);
        assert(scored_views(seeds@) =~= before.push(candidates@[i as int]@));
        assert(scored_views(candidates@.take(i + 1)) =~= scored_views(candidates@.take(i as int)).push(
            candidates@[i as int]@,
        ));
        i = i + 1;
    }
    let mut warnings: Vec<String> = Vec::new();
    if sel.warn {
        warnings.push(warning);
    }
    SearchOutcome { seeds, candidates, low_confidence: sel.low_confidence, warnings }
}

} // verus!
