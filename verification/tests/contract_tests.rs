use randdb::contract::{
    is_false, CoreRequest, FindReferencesRequest, HealthRequest, IndexRepositoryRequest,
    ListFilesRequest, StatsRequest,
};
use randdb::fixture::SearchTarget;
use randdb::storage::health_state_name;
use randdb::contract::HealthState;

#[test]
fn requests_name_their_operation() {
    let stats = CoreRequest::Stats(StatsRequest { repo_path: "/repo".to_string() });
    assert_eq!(stats.operation_name(), "stats");

    let health = CoreRequest::Health(HealthRequest { repo_path: "/repo".to_string() });
    assert_eq!(health.operation_name(), "health");

    let index = CoreRequest::IndexRepository(IndexRepositoryRequest {
        repo_path: "/repo".to_string(),
        force_rebuild: false,
    });
    assert_eq!(index.operation_name(), "index-repository");

    let list = CoreRequest::ListFiles(ListFilesRequest {
        repo_path: "/repo".to_string(),
        glob: None,
        language: None,
        max_results: None,
    });
    assert_eq!(list.operation_name(), "list-files");

    let references = CoreRequest::FindReferences(FindReferencesRequest {
        repo_path: "/repo".to_string(),
        symbol: "SearchTarget".to_string(),
        exclude_definition: None,
        max_results: Some(50),
    });
    assert_eq!(references.operation_name(), "find-references");
}

#[test]
fn flags_that_are_off() {
    assert!(is_false(&false));
    assert!(!is_false(&true));
}

#[test]
fn health_states_have_stored_names() {
    assert_eq!(health_state_name(&HealthState::Healthy), "healthy");
    assert_eq!(health_state_name(&HealthState::Degraded), "degraded");
    assert_eq!(health_state_name(&HealthState::Unavailable), "unavailable");
}

#[test]
fn search_targets_describe_themselves() {
    let target = SearchTarget { name: "SearchService".to_string() };

    assert_eq!(target.describe(), "target:SearchService");
}
