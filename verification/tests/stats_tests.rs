use randdb::contract::HealthState;
use randdb::stats::{health_snapshot, non_negative_count, parse_u32};
use randdb::storage::{IndexRecoveryState, SCHEMA_VERSION};

#[test]
fn health_degrades_when_chunks_have_no_vectors() {
    let health = health_snapshot(IndexRecoveryState::Clean, None, 1, 1, 0, None, Some("1"));

    assert_eq!(health.state, HealthState::Degraded);
    assert!(health
        .diagnostics
        .iter()
        .any(|diagnostic| diagnostic.contains("no vector rows")));
}

#[test]
fn health_exposes_failed_recovery_state() {
    let health = health_snapshot(
        IndexRecoveryState::Failed,
        Some("scan failed"),
        0,
        0,
        0,
        None,
        Some("1"),
    );

    assert_eq!(health.state, HealthState::Unavailable);
    assert!(health.migration.recovery_required);
    assert!(health
        .diagnostics
        .iter()
        .any(|diagnostic| diagnostic.contains("scan failed")));
}

#[test]
fn health_reports_embedding_dimensions_when_vectors_exist() {
    let health = health_snapshot(IndexRecoveryState::Clean, None, 1, 1, 1, Some(3), Some("1"));

    assert_eq!(health.embedding_dimensions, Some(3));
    assert!(health.diagnostics.is_empty());
}

#[test]
fn clean_index_is_healthy() {
    let health = health_snapshot(IndexRecoveryState::Clean, None, 1, 0, 0, None, Some("1"));

    assert_eq!(health.state, HealthState::Healthy);
    assert_eq!(health.file_count, 1);
    assert_eq!(health.chunk_count, 0);
    assert_eq!(health.migration.schema_version, SCHEMA_VERSION);
    assert_eq!(health.migration.pending_migrations, 0);
    assert!(!health.migration.recovery_required);
}

#[test]
fn running_recovery_degrades_with_its_diagnostic() {
    let health = health_snapshot(IndexRecoveryState::Running, None, 2, 4, 0, None, None);

    assert_eq!(health.state, HealthState::Degraded);
    assert!(health.migration.recovery_required);
    assert_eq!(
        health.diagnostics,
        vec![
            "Index recovery state is running; a previous indexing pass may not have completed."
                .to_string(),
            "Chunks are indexed but no vector rows exist; semantic retrieval is unavailable."
                .to_string(),
        ]
    );
}

#[test]
fn failed_recovery_without_error_text() {
    let health = health_snapshot(IndexRecoveryState::Failed, Some(""), 0, 0, 0, None, None);
    assert_eq!(health.diagnostics, vec!["Index recovery state is failed.".to_string()]);

    let absent = health_snapshot(IndexRecoveryState::Failed, None, 0, 0, 0, None, None);
    assert_eq!(absent.diagnostics, vec!["Index recovery state is failed.".to_string()]);

    let with_text = health_snapshot(IndexRecoveryState::Failed, Some("disk full"), 0, 0, 0, None, None);
    assert_eq!(
        with_text.diagnostics,
        vec!["Index recovery state is failed: disk full".to_string()]
    );
}

#[test]
fn schema_version_falls_back_to_the_library_version() {
    let stored = health_snapshot(IndexRecoveryState::Clean, None, 0, 0, 0, None, Some("7"));
    assert_eq!(stored.migration.schema_version, 7);

    let unreadable = health_snapshot(IndexRecoveryState::Clean, None, 0, 0, 0, None, Some("seven"));
    assert_eq!(unreadable.migration.schema_version, SCHEMA_VERSION);

    let absent = health_snapshot(IndexRecoveryState::Clean, None, 0, 0, 0, None, None);
    assert_eq!(absent.migration.schema_version, SCHEMA_VERSION);
}

#[test]
fn parses_numbers_as_str_parse_does() {
    for text in ["0", "1", "+42", "007", "4294967295", "", "+", "-1", "1 ", " 1", "4294967296", "12a", "99999999999999999999"] {
        assert_eq!(parse_u32(text), text.parse::<u32>().ok(), "{text:?}");
    }
}

#[test]
fn negative_counters_read_as_zero() {
    assert_eq!(non_negative_count(-5), 0);
    assert_eq!(non_negative_count(0), 0);
    assert_eq!(non_negative_count(12), 12);
    assert_eq!(non_negative_count(i64::MAX), i64::MAX as u64);
}
