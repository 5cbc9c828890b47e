use vstd::prelude::*;

verus! {

/// How much work a retrieval request asks for.
#[derive(Debug, Clone, Copy, PartialEq, Eq, Structural)]
pub enum RetrievalMode {
    Quick,
    Balanced,
    Deep,
}

/// What a retrieval returns when its best candidate scores below the threshold.
#[derive(Debug, Clone, Copy, PartialEq, Eq, Structural)]
pub enum LowConfidenceBehavior {
    ReturnTop1,
    ReturnEmpty,
    ReturnWithWarning,
}

/// The shape of a retrieval response.
#[derive(Debug, Clone, Copy, PartialEq, Eq, Structural)]
pub enum OutputFormat {
    Markdown,
    Json,
    Both,
}

/// Health of an index.
#[derive(Debug, Clone, Copy, PartialEq, Eq, Structural)]
pub enum HealthState {
    Healthy,
    Degraded,
    Unavailable,
}

/// A request to the core, one variant per operation.
#[derive(Debug, Clone, PartialEq)]
pub enum CoreRequest {
    CodebaseRetrieval(CodebaseRetrievalRequest),
    ListFiles(ListFilesRequest),
    FindReferences(FindReferencesRequest),
    GetSymbolDefinition(GetSymbolDefinitionRequest),
    Stats(StatsRequest),
    IndexRepository(IndexRepositoryRequest),
    Health(HealthRequest),
}

/// The wire name of the operation that a request asks for.
pub open spec fn operation_label(request: CoreRequest) -> Seq<char> {
    match request {
        CoreRequest::CodebaseRetrieval(_) => "codebase-retrieval"@,
        CoreRequest::ListFiles(_) => "list-files"@,
        CoreRequest::FindReferences(_) => "find-references"@,
        CoreRequest::GetSymbolDefinition(_) => "get-symbol-definition"@,
        CoreRequest::Stats(_) => "stats"@,
        CoreRequest::IndexRepository(_) => "index-repository"@,
        CoreRequest::Health(_) => "health"@,
    }
}

impl CoreRequest {
    /// The wire name of the operation that this request asks for.
    pub fn operation_name(&self) -> (name: &'static str)
        ensures
            name@ == operation_label(*self),
    {
        match self {
            CoreRequest::CodebaseRetrieval(_) => "codebase-retrieval",
            CoreRequest::ListFiles(_) => "list-files",
            CoreRequest::FindReferences(_) => "find-references",
            CoreRequest::GetSymbolDefinition(_) => "get-symbol-definition",
            CoreRequest::Stats(_) => "stats",
            CoreRequest::IndexRepository(_) => "index-repository",
            CoreRequest::Health(_) => "health",
        }
    }
}

/// An error reported by the core.
#[derive(Debug, Clone, PartialEq, Eq)]
pub struct CoreError {
    pub code: String,
    pub message: String,
    pub operation: Option<String>,
    pub retryable: bool,
}

/// A request for code relevant to a question.
#[derive(Debug, Clone, PartialEq, Eq)]
pub struct CodebaseRetrievalRequest {
    pub repo_path: String,
    pub information_request: String,
    pub technical_terms: Vec<String>,
    pub mode: Option<RetrievalMode>,
    pub include_globs: Vec<String>,
    pub exclude_globs: Vec<String>,
    pub language: Vec<String>,
    pub max_total_chars: Option<u32>,
    pub max_files: Option<u32>,
    pub max_segments_per_file: Option<u32>,
    pub return_debug: bool,
    pub low_confidence_behavior: Option<LowConfidenceBehavior>,
    pub output_format: Option<OutputFormat>,
}

/// The answer to a [`CodebaseRetrievalRequest`].
#[derive(Debug, Clone, PartialEq, Eq)]
pub struct CodebaseRetrievalResponse {
    pub format: OutputFormat,
    pub markdown: Option<String>,
    pub pack: Option<RetrievalPack>,
    pub debug: Option<RetrievalDebug>,
    pub warnings: Vec<String>,
}

/// Code segments selected for a retrieval, grouped by file.
#[derive(Debug, Clone, PartialEq, Eq)]
pub struct RetrievalPack {
    pub files: Vec<PackedFile>,
    pub char_count: u32,
    pub truncated: bool,
}

/// The segments packed from one file.
#[derive(Debug, Clone, PartialEq, Eq)]
pub struct PackedFile {
    pub path: String,
    pub language: String,
    pub segments: Vec<PackedSegment>,
}

/// One packed piece of a file, located by lines and UTF-16 offsets.
/// `score_bits` holds the IEEE-754 bit pattern of the segment's `f32` score.
#[derive(Debug, Clone, PartialEq, Eq)]
pub struct PackedSegment {
    pub start_line: u32,
    pub end_line: u32,
    pub start_utf16: u32,
    pub end_utf16: u32,
    pub breadcrumb: Option<String>,
    pub text: String,
    pub score_bits: Option<u32>,
}

/// Diagnostic details of a retrieval.
#[derive(Debug, Clone, PartialEq, Eq)]
pub struct RetrievalDebug {
    pub lexical_query: String,
    pub semantic_query: String,
    pub candidate_count: u32,
    pub packed_segment_count: u32,
}

/// A request for the indexed files.
#[derive(Debug, Clone, PartialEq, Eq)]
pub struct ListFilesRequest {
    pub repo_path: String,
    pub glob: Option<String>,
    pub language: Option<String>,
    pub max_results: Option<u32>,
}

/// The answer to a [`ListFilesRequest`].
#[derive(Debug, Clone, PartialEq, Eq)]
pub struct ListFilesResponse {
    pub files: Vec<IndexedFileEntry>,
    pub truncated: bool,
}

/// One indexed file.
#[derive(Debug, Clone, PartialEq, Eq)]
pub struct IndexedFileEntry {
    pub path: String,
    pub language: String,
    pub size: u64,
    pub hash: Option<String>,
}

/// The mathematical content of an [`IndexedFileEntry`].
pub struct IndexedFileEntryView {
    pub path: Seq<char>,
    pub language: Seq<char>,
    pub size: u64,
    pub hash: Option<Seq<char>>,
}

impl View for IndexedFileEntry {
    type V = IndexedFileEntryView;

    open spec fn view(&self) -> IndexedFileEntryView {
        IndexedFileEntryView {
            path: self.path@,
            language: self.language@,
            size: self.size,
            hash: match self.hash {
                Some(h) => Some(h@),
                None => None,
            },
        }
    }
}

/// A request for the lines that mention a symbol.
#[derive(Debug, Clone, PartialEq, Eq)]
pub struct FindReferencesRequest {
    pub repo_path: String,
    pub symbol: String,
    pub exclude_definition: Option<bool>,
    pub max_results: Option<u32>,
}

/// The answer to a [`FindReferencesRequest`].
#[derive(Debug, Clone, PartialEq, Eq)]
pub struct FindReferencesResponse {
    pub symbol: String,
    pub references: Vec<SymbolReference>,
    pub truncated: bool,
}

/// A line that mentions a symbol.
#[derive(Debug, Clone, PartialEq, Eq)]
pub struct SymbolReference {
    pub path: String,
    pub language: String,
    pub start_line: u32,
    pub end_line: u32,
    pub snippet: String,
    pub breadcrumb: Option<String>,
}

/// A request for the lines that define a symbol.
#[derive(Debug, Clone, PartialEq, Eq)]
pub struct GetSymbolDefinitionRequest {
    pub repo_path: String,
    pub symbol: String,
    pub hint_path: Option<String>,
    pub max_results: Option<u32>,
}

/// The answer to a [`GetSymbolDefinitionRequest`].
#[derive(Debug, Clone, PartialEq, Eq)]
pub struct GetSymbolDefinitionResponse {
    pub symbol: String,
    pub definitions: Vec<SymbolDefinition>,
    pub truncated: bool,
}

/// A line that defines a symbol.
#[derive(Debug, Clone, PartialEq, Eq)]
pub struct SymbolDefinition {
    pub path: String,
    pub language: String,
    pub start_line: u32,
    pub end_line: u32,
    pub text: String,
    pub breadcrumb: Option<String>,
}

/// A request for index and search statistics.
#[derive(Debug, Clone, PartialEq, Eq)]
pub struct StatsRequest {
    pub repo_path: String,
}

/// A request for the health of an index.
#[derive(Debug, Clone, PartialEq, Eq)]
pub struct HealthRequest {
    pub repo_path: String,
}

/// The answer to a [`HealthRequest`].
#[derive(Debug, Clone, PartialEq, Eq)]
pub struct HealthResponse {
    pub project_id: String,
    pub health: HealthSnapshot,
}

/// The health of an index at one moment.
#[derive(Debug, Clone, PartialEq, Eq)]
pub struct HealthSnapshot {
    pub state: HealthState,
    pub file_count: u64,
    pub chunk_count: u64,
    pub embedding_dimensions: Option<u32>,
    pub migration: MigrationSnapshot,
    pub diagnostics: Vec<String>,
}

/// Schema and recovery status of an index.
#[derive(Debug, Clone, PartialEq, Eq)]
pub struct MigrationSnapshot {
    pub schema_version: u32,
    pub pending_migrations: u32,
    pub recovery_required: bool,
}

/// Counters about indexing runs.
#[derive(Debug, Clone, PartialEq, Eq)]
pub struct IndexStats {
    pub total_runs: u64,
    pub last_run: Option<IndexRunSummary>,
}

/// A request to (re)index a repository.
#[derive(Debug, Clone, PartialEq, Eq)]
pub struct IndexRepositoryRequest {
    pub repo_path: String,
    pub force_rebuild: bool,
}

/// The answer to an [`IndexRepositoryRequest`].
#[derive(Debug, Clone, PartialEq, Eq)]
pub struct IndexRepositoryResponse {
    pub project_id: String,
    pub run: IndexRunSummary,
}

/// What one indexing run found and did.
#[derive(Debug, Clone, PartialEq, Eq)]
pub struct IndexRunSummary {
    pub started_at_unix_ms: u64,
    pub finished_at_unix_ms: u64,
    pub scanned_files: u64,
    pub unchanged_files: u64,
    pub added_files: u64,
    pub modified_files: u64,
    pub deleted_files: u64,
    pub embedded_chunks: u64,
    pub skipped_embeddings: u64,
    pub health_state: HealthState,
}

/// Whether a flag is off: such flags are left out of the wire form.
pub fn is_false(value: &bool) -> (r: bool)
    ensures
        r == !*value,
{
    !*value
}

} // verus!
