use vstd::prelude::*;

use crate::chunking::{ChunkRecord, ChunkRecordView};
use crate::contract::LowConfidenceBehavior;
use crate::executor::{distinct_ids, first_occurrences};
use crate::indexer::string_views;
use crate::symbols::{trim, trim_chars};
use crate::text::str_eq;
use crate::text::chars_of;

verus! {

/// Settings of a hybrid search. The `f32` settings are carried as their
/// IEEE-754 bit patterns (`*_bits`).
#[derive(Debug, Clone, Copy, PartialEq, Eq, Structural)]
pub struct SearchConfig {
    pub vector_top_k: u32,
    pub lexical_top_k: u32,
    pub fused_top_m: usize,
    pub seed_top_k: usize,
    pub rrf_k_bits: u32,
    pub w_vec_bits: u32,
    pub w_lex_bits: u32,
    pub min_score_bits: u32,
    pub low_confidence_behavior: LowConfidenceBehavior,
}

/// The bit pattern of `20.0_f32`.
pub const RRF_K_20_BITS: u32 = 0x41a0_0000;

/// The bit pattern of `0.6_f32`.
pub const WEIGHT_0_6_BITS: u32 = 0x3f19_999a;

/// The bit pattern of `0.4_f32`.
pub const WEIGHT_0_4_BITS: u32 = 0x3ecc_cccd;

/// The bit pattern of `0.02_f32`.
pub const MIN_SCORE_0_02_BITS: u32 = 0x3ca3_d70a;

impl Default for SearchConfig {
    /// 40 vector and 40 lexical candidates, the best 20 fused, 8 seeds,
    /// `rrf_k` 20, weights 0.6 (vector) and 0.4 (lexical), threshold 0.02,
    /// and the best candidate alone when confidence is low.
    fn default() -> (config: Self)
        ensures
            config.vector_top_k == 40,
            config.lexical_top_k == 40,
            config.fused_top_m == 20,
            config.seed_top_k == 8,
            config.rrf_k_bits == RRF_K_20_BITS,
            config.w_vec_bits == WEIGHT_0_6_BITS,
            config.w_lex_bits == WEIGHT_0_4_BITS,
            config.min_score_bits == MIN_SCORE_0_02_BITS,
            config.low_confidence_behavior == LowConfidenceBehavior::ReturnTop1,
    {
        SearchConfig {
            vector_top_k: 40,
            lexical_top_k: 40,
            fused_top_m: 20,
            seed_top_k: 8,
            rrf_k_bits: RRF_K_20_BITS,
            w_vec_bits: WEIGHT_0_6_BITS,
            w_lex_bits: WEIGHT_0_4_BITS,
            min_score_bits: MIN_SCORE_0_02_BITS,
            low_confidence_behavior: LowConfidenceBehavior::ReturnTop1,
        }
    }
}

/// A chunk with the scores that retrieval gave it. Scores are `f32` values
/// carried as their IEEE-754 bit patterns.
#[derive(Debug, Clone, PartialEq, Eq)]
pub struct ScoredChunk {
    pub chunk: ChunkRecord,
    pub score_bits: u32,
    pub vector_score_bits: Option<u32>,
    pub lexical_score_bits: Option<u32>,
}

/// The mathematical content of a [`ScoredChunk`].
pub struct ScoredChunkView {
    pub chunk: ChunkRecordView,
    pub score_bits: u32,
    pub vector_score_bits: Option<u32>,
    pub lexical_score_bits: Option<u32>,
}

impl View for ScoredChunk {
    type V = ScoredChunkView;

    open spec fn view(&self) -> ScoredChunkView {
        ScoredChunkView {
            chunk: self.chunk@,
            score_bits: self.score_bits,
            vector_score_bits: self.vector_score_bits,
            lexical_score_bits: self.lexical_score_bits,
        }
    }
}

/// Which candidates become seeds, and whether a warning is given: the seeds are
/// always the first `seed_count` of the ranked candidates.
#[derive(Debug, Clone, Copy, PartialEq, Eq, Structural)]
pub struct SeedSelection {
    pub seed_count: usize,
    pub low_confidence: bool,
    pub warn: bool,
}

/// The seeds chosen from `candidate_count` ranked candidates. Normally the top
/// `seed_top_k`; when the best candidate scores below the threshold, only the
/// best one (`ReturnTop1`, `ReturnWithWarning`) or none (`ReturnEmpty`), with a
/// warning except for `ReturnTop1`.
pub open spec fn seed_selection(
    candidate_count: nat,
    seed_top_k: nat,
    top_below_threshold: bool,
    behavior: LowConfidenceBehavior,
) -> SeedSelection {
    if candidate_count > 0 && top_below_threshold {
        match behavior {
            LowConfidenceBehavior::ReturnEmpty => SeedSelection {
                seed_count: 0,
                low_confidence: true,
                warn: true,
            },
            LowConfidenceBehavior::ReturnWithWarning => SeedSelection {
                seed_count: 1,
                low_confidence: true,
                warn: true,
            },
            LowConfidenceBehavior::ReturnTop1 => SeedSelection {
                seed_count: 1,
                low_confidence: true,
                warn: false,
            },
        }
    } else {
        SeedSelection {
            seed_count: (if seed_top_k < candidate_count {
                seed_top_k
            } else {
                candidate_count
            }) as usize,
            low_confidence: false,
            warn: false,
        }
    }
}

/// How a search seeds: when there are candidates and the best one scores below
/// the threshold, the search is of low confidence and `ReturnEmpty` gives no
/// seed with a warning, `ReturnWithWarning` the best candidate alone with a
/// warning, and `ReturnTop1` the best candidate alone without one; otherwise
/// the seeds are the first `seed_top_k` candidates (all of them when fewer),
/// with no warning. There are never more seeds than candidates.
pub proof fn lemma_seed_selection_laws(
    candidate_count: usize,
    seed_top_k: usize,
    top_below_threshold: bool,
    behavior: LowConfidenceBehavior,
)
    ensures
        ({
            let s = seed_selection(
                candidate_count as nat,
                seed_top_k as nat,
                top_below_threshold,
                behavior,
            );
            &&& s.seed_count <= candidate_count
            &&& s.low_confidence == (candidate_count > 0 && top_below_threshold)
            &&& (candidate_count > 0 && top_below_threshold && behavior is ReturnEmpty) ==> (
            s.seed_count == 0 && s.warn)
            &&& (candidate_count > 0 && top_below_threshold && behavior is ReturnWithWarning) ==> (
            s.seed_count == 1 && s.warn)
            &&& (candidate_count > 0 && top_below_threshold && behavior is ReturnTop1) ==> (
            s.seed_count == 1 && !s.warn)
            &&& !(candidate_count > 0 && top_below_threshold) ==> (!s.warn && s.seed_count == if seed_top_k
                < candidate_count {
                seed_top_k
            } else {
                candidate_count
            })
        }),
{
}

/// Decides which of the ranked candidates become seeds (see [`seed_selection`]).
/// `top_below_threshold` tells whether the best candidate's score is below the
/// configured minimum; it is ignored when there are no candidates.
pub fn select_seeds(
    candidate_count: usize,
    seed_top_k: usize,
    top_below_threshold: bool,
    behavior: LowConfidenceBehavior,
) -> (selection: SeedSelection)
    ensures
        selection == seed_selection(
            candidate_count as nat,
            seed_top_k as nat,
            top_below_threshold,
            behavior,
        ),
        selection.seed_count <= candidate_count,
{
    if candidate_count > 0 && top_below_threshold {
        match behavior {
            LowConfidenceBehavior::ReturnEmpty => SeedSelection {
                seed_count: 0,
                low_confidence: true,
                warn: true,
            },
            LowConfidenceBehavior::ReturnWithWarning => SeedSelection {
                seed_count: 1,
                low_confidence: true,
                warn: true,
            },
            LowConfidenceBehavior::ReturnTop1 => SeedSelection {
                seed_count: 1,
                low_confidence: true,
                warn: false,
            },
        }
    } else {
        SeedSelection {
            seed_count: if seed_top_k < candidate_count {
                seed_top_k
            } else {
                candidate_count
            },
            low_confidence: false,
            warn: false,
        }
    }
}

/// Whether a hybrid search runs the full-text search: only for a query with
/// something besides whitespace.
pub fn should_search_lexically(query: &str) -> (search: bool)
    ensures
        search == (trim(query@).len() > 0),
{
    let chars = chars_of(query);
    let trimmed = trim_chars(chars.as_slice());
    trimmed.len() > 0
}

// ---------------------------------------------------------------------------
// Fusion of ranked lists
// ---------------------------------------------------------------------------

/// Where one chunk id stands in the two ranked result lists of a hybrid
/// search: its positions among the vector results and among the full-text
/// results, each in ascending order.
#[derive(Debug, Clone, PartialEq, Eq)]
pub struct CandidateRanks {
    pub id: String,
    pub vector_ranks: Vec<usize>,
    pub lexical_ranks: Vec<usize>,
}

/// The positions at which `id` occurs in `list`, in ascending order.
pub open spec fn ranks_of(list: Seq<Seq<char>>, id: Seq<char>) -> Seq<usize>
    decreases list.len(),
{
    if list.len() == 0 {
        Seq::empty()
    } else if list.last() == id {
        ranks_of(list.drop_last(), id).push((list.len() - 1) as usize)
    } else {
        ranks_of(list.drop_last(), id)
    }
}

fn positions_of(list: &[String], id: &str) -> (ranks: Vec<usize>)
    ensures
        ranks@ == ranks_of(string_views(list@), id@),
{
    let ghost lv = string_views(list@);
    let mut ranks: Vec<usize> = Vec::new();
    let mut i: usize = 0;
    assert(lv.take(0) =~= Seq::<Seq<char>>::empty());
    while i < list.len()
        invariant
            0 <= i <= list.len(),
            lv == string_views(list@),
            ranks@ == ranks_of(lv.take(i as int), id@),
        decreases list.len() - i,
    {
        let ghost prefix = lv.take(i + 1);
        assert(prefix.drop_last() =~= lv.take(i as int));
        assert(prefix.last() == list@[i as int]@);
        if str_eq(list[i].as_str(), id) {
            ranks.push(i);
        }
        i = i + 1;
    }
    assert(lv.take(i as int) =~= lv);
    ranks
}

/// Groups the results of a hybrid search by chunk id: each id found by
/// either search once, in order of first appearance (vector results first),
/// with its positions in each list. A candidate's fused score adds, for each
/// of these positions, the reciprocal rank weighted by its list's weight.
pub fn group_candidates(vector_ids: &[String], lexical_ids: &[String]) -> (groups: Vec<
    CandidateRanks,
>)
    ensures
        ({
            let ids = first_occurrences(string_views(vector_ids@) + string_views(lexical_ids@));
            &&& groups@.len() == ids.len()
            &&& forall|i: int|
                0 <= i < ids.len() ==> {
                    &&& (#[trigger] groups@[i]).id@ == ids[i]
                    &&& groups@[i].vector_ranks@ == ranks_of(string_views(vector_ids@), ids[i])
                    &&& groups@[i].lexical_ranks@ == ranks_of(string_views(lexical_ids@), ids[i])
                }
        }),
{
    let mut all: Vec<String> = Vec::new();
    let mut i: usize = 0;
    while i < vector_ids.len()
        invariant
            0 <= i <= vector_ids.len(),
            string_views(all@) == string_views(vector_ids@).take(i as int),
        decreases vector_ids.len() - i,
    {
        let ghost before = string_views(all@);
        all.push(vector_ids[i].clone());
        assert(string_views(all@) =~= before.push(vector_ids@[i as int]@));
        assert(string_views(vector_ids@).take(i + 1) =~= string_views(vector_ids@).take(
            i as int,
        ).push(vector_ids@[i as int]@));
        i = i + 1;
    }
    assert(string_views(vector_ids@).take(i as int) =~= string_views(vector_ids@));
    let mut j: usize = 0;
    while j < lexical_ids.len()
        invariant
            0 <= j <= lexical_ids.len(),
            string_views(all@) == string_views(vector_ids@) + string_views(lexical_ids@).take(
                j as int,
            ),
        decreases lexical_ids.len() - j,
    {
        let ghost before = string_views(all@);
        all.push(lexical_ids[j].clone());
        assert(string_views(all@) =~= before.push(lexical_ids@[j as int]@));
        assert(string_views(lexical_ids@).take(j + 1) =~= string_views(lexical_ids@).take(
            j as int,
        ).push(lexical_ids@[j as int]@));
        assert(string_views(vector_ids@) + string_views(lexical_ids@).take(j + 1) =~= (
        string_views(vector_ids@) + string_views(lexical_ids@).take(j as int)).push(
            lexical_ids@[j as int]@,
        ));
        j = j + 1;
    }
    assert(string_views(lexical_ids@).take(j as int) =~= string_views(lexical_ids@));
    let ids = distinct_ids(all.as_slice());
    let ghost iv = string_views(ids@);
    let mut groups: Vec<CandidateRanks> = Vec::new();
    let mut k: usize = 0;
    while k < ids.len()
        invariant
            0 <= k <= ids.len(),
            iv == string_views(ids@),
            groups@.len() == k,
            forall|t: int|
                0 <= t < k ==> {
                    &&& (#[trigger] groups@[t]).id@ == iv[t]
                    &&& groups@[t].vector_ranks@ == ranks_of(string_views(vector_ids@), iv[t])
                    &&& groups@[t].lexical_ranks@ == ranks_of(string_views(lexical_ids@), iv[t])
                },
        decreases ids.len() - k,
    {
        let id = ids[k].as_str();
        assert(iv[k as int] == id@);
        let group = CandidateRanks {
            id: ids[k].clone(),
            vector_ranks: positions_of(vector_ids, id),
            lexical_ranks: positions_of(lexical_ids, id),
        };
        groups.push(group);
        k = k + 1;
    }
    groups
}

} // verus!
