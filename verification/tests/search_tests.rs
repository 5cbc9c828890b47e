use randdb::chunking::ChunkRecord;
use randdb::contract::LowConfidenceBehavior;
use randdb::ranking::{f32_less_bits, rank_candidates, search_outcome, total_order_key};
use randdb::search::{
    group_candidates, select_seeds, should_search_lexically, ScoredChunk, SearchConfig, MIN_SCORE_0_02_BITS, RRF_K_20_BITS, WEIGHT_0_4_BITS,
    WEIGHT_0_6_BITS,
};

fn scored(id: &str, score: f32) -> ScoredChunk {
    ScoredChunk {
        chunk: ChunkRecord {
            id: id.to_string(),
            file_path: "src/lib.rs".to_string(),
            chunk_index: 0,
            start_line: 1,
            end_line: 1,
            start_utf16: 0,
            end_utf16: 1,
            breadcrumb: None,
            content: "x".to_string(),
        },
        score_bits: score.to_bits(),
        vector_score_bits: None,
        lexical_score_bits: None,
    }
}

#[test]
fn low_confidence_behavior_can_return_empty() {
    // One lexical candidate: rank 0 of the full-text search, weighted 0.4.
    let fused = vec![scored("src/lib.rs:hash:0", 0.4 / 21.0)];
    let config = SearchConfig {
        min_score_bits: 1.0f32.to_bits(),
        low_confidence_behavior: LowConfidenceBehavior::ReturnEmpty,
        ..SearchConfig::default()
    };

    let output = search_outcome(fused, &config, "low".to_string());

    assert!(output.seeds.is_empty());
    assert!(output.low_confidence);
    assert_eq!(output.warnings.len(), 1);
}

#[test]
fn seed_selection_for_a_low_top_score() {
    let selection = select_seeds(1, SearchConfig::default().seed_top_k, true, LowConfidenceBehavior::ReturnEmpty);

    assert_eq!(selection.seed_count, 0);
    assert!(selection.low_confidence);
    assert!(selection.warn);
}

#[test]
fn confident_search_outcomes_take_the_ranked_top() {
    let fused = vec![scored("b", 0.5), scored("a", 0.5), scored("c", 0.9), scored("d", 0.1)];
    let config = SearchConfig { fused_top_m: 3, seed_top_k: 2, ..SearchConfig::default() };

    let output = search_outcome(fused, &config, "unused".to_string());

    let candidates: Vec<&str> = output.candidates.iter().map(|c| c.chunk.id.as_str()).collect();
    let seeds: Vec<&str> = output.seeds.iter().map(|c| c.chunk.id.as_str()).collect();
    assert_eq!(candidates, ["c", "a", "b"]);
    assert_eq!(seeds, ["c", "a"]);
    assert!(!output.low_confidence);
    assert!(output.warnings.is_empty());
}

#[test]
fn low_confidence_with_warning_keeps_the_best_candidate() {
    let fused = vec![scored("x", 0.01), scored("y", 0.015)];
    let config = SearchConfig {
        low_confidence_behavior: LowConfidenceBehavior::ReturnWithWarning,
        ..SearchConfig::default()
    };

    let output = search_outcome(fused, &config, "careful".to_string());

    assert_eq!(output.seeds.len(), 1);
    assert_eq!(output.seeds[0].chunk.id, "y");
    assert_eq!(output.warnings, vec!["careful".to_string()]);
}

#[test]
fn f32_comparison_on_bit_patterns_matches_the_operator() {
    let values = [
        f32::NAN,
        -f32::NAN,
        f32::NEG_INFINITY,
        -2.0,
        -0.0,
        0.0,
        f32::MIN_POSITIVE,
        0.02,
        1.0,
        f32::INFINITY,
    ];
    for a in values {
        for b in values {
            assert_eq!(f32_less_bits(a.to_bits(), b.to_bits()), a < b, "{a} < {b}");
        }
    }
}

#[test]
fn low_confidence_keeps_the_best_candidate_otherwise() {
    let with_warning = select_seeds(5, 8, true, LowConfidenceBehavior::ReturnWithWarning);
    assert_eq!(with_warning.seed_count, 1);
    assert!(with_warning.low_confidence && with_warning.warn);

    let quiet = select_seeds(5, 8, true, LowConfidenceBehavior::ReturnTop1);
    assert_eq!(quiet.seed_count, 1);
    assert!(quiet.low_confidence && !quiet.warn);
}

#[test]
fn confident_searches_take_the_top_candidates() {
    let few = select_seeds(3, 8, false, LowConfidenceBehavior::ReturnEmpty);
    assert_eq!(few.seed_count, 3);
    assert!(!few.low_confidence && !few.warn);

    let many = select_seeds(30, 8, false, LowConfidenceBehavior::ReturnEmpty);
    assert_eq!(many.seed_count, 8);

    let none = select_seeds(0, 8, true, LowConfidenceBehavior::ReturnEmpty);
    assert_eq!(none.seed_count, 0);
    assert!(!none.low_confidence);
}

#[test]
fn default_search_settings_hold_the_documented_values() {
    let config = SearchConfig::default();

    assert_eq!(config.vector_top_k, 40);
    assert_eq!(config.lexical_top_k, 40);
    assert_eq!(config.fused_top_m, 20);
    assert_eq!(config.seed_top_k, 8);
    assert_eq!(f32::from_bits(config.rrf_k_bits), 20.0);
    assert_eq!(f32::from_bits(config.w_vec_bits), 0.6);
    assert_eq!(f32::from_bits(config.w_lex_bits), 0.4);
    assert_eq!(f32::from_bits(config.min_score_bits), 0.02);
    assert_eq!(config.low_confidence_behavior, LowConfidenceBehavior::ReturnTop1);
    assert_eq!(RRF_K_20_BITS, 20.0f32.to_bits());
    assert_eq!(WEIGHT_0_6_BITS, 0.6f32.to_bits());
    assert_eq!(WEIGHT_0_4_BITS, 0.4f32.to_bits());
    assert_eq!(MIN_SCORE_0_02_BITS, 0.02f32.to_bits());
}

#[test]
fn total_order_key_orders_like_total_cmp() {
    let values = [
        f32::NEG_INFINITY,
        -3.5,
        -1.0,
        -f32::MIN_POSITIVE,
        -0.0,
        0.0,
        f32::MIN_POSITIVE,
        0.02,
        1.0,
        7.25,
        f32::INFINITY,
    ];
    for a in values {
        for b in values {
            let by_key = total_order_key(a.to_bits()).cmp(&total_order_key(b.to_bits()));
            assert_eq!(by_key, a.total_cmp(&b), "{a} vs {b}");
        }
    }
}

#[test]
fn candidates_rank_by_score_then_id_and_are_cut() {
    let candidates = vec![
        scored("c", 0.5),
        scored("a", 0.25),
        scored("b", 0.5),
        scored("d", 1.0),
        scored("e", -0.0),
    ];

    let ranked = rank_candidates(candidates, 4);

    let ids: Vec<&str> = ranked.iter().map(|c| c.chunk.id.as_str()).collect();
    assert_eq!(ids, ["d", "b", "c", "a"]);
}

#[test]
fn ranking_keeps_every_candidate_when_the_cut_is_large() {
    let ranked = rank_candidates(vec![scored("x", 0.1), scored("y", 0.3)], 20);

    let ids: Vec<&str> = ranked.iter().map(|c| c.chunk.id.as_str()).collect();
    assert_eq!(ids, ["y", "x"]);
}

#[test]
fn blank_queries_skip_the_full_text_search() {
    assert!(should_search_lexically("SearchTarget"));
    assert!(should_search_lexically("  x  "));
    assert!(!should_search_lexically(""));
    assert!(!should_search_lexically(" \t\n "));
}

#[test]
fn candidates_group_by_id_with_their_positions() {
    let vector: Vec<String> = ["b", "a"].iter().map(|s| s.to_string()).collect();
    let lexical: Vec<String> = ["a", "c", "a"].iter().map(|s| s.to_string()).collect();

    let groups = group_candidates(&vector, &lexical);

    let summary: Vec<(&str, Vec<usize>, Vec<usize>)> = groups
        .iter()
        .map(|g| (g.id.as_str(), g.vector_ranks.clone(), g.lexical_ranks.clone()))
        .collect();
    assert_eq!(
        summary,
        vec![("b", vec![0], vec![]), ("a", vec![1], vec![0, 2]), ("c", vec![], vec![1])]
    );
}
