use vstd::prelude::*;

use crate::contract::HealthState;

verus! {

/// Version of the database schema that this library writes.
pub const SCHEMA_VERSION: u32 = 1;

/// Whether the last indexing pass finished: `Clean` when it did, `Running`
/// while one is under way (or was cut short), `Failed` when it reported an error.
#[derive(Debug, Clone, Copy, PartialEq, Eq, Structural)]
pub enum IndexRecoveryState {
    Clean,
    Running,
    Failed,
}

/// A file as read from the repository: its path relative to the root, the hex
/// SHA-256 of its bytes, its modification time and size, its text and language.
#[derive(Debug, Clone, PartialEq, Eq)]
pub struct FileRecord {
    pub path: String,
    pub hash: String,
    pub mtime_ms: i64,
    pub size_bytes: i64,
    pub content: String,
    pub language: String,
}

/// The mathematical content of a [`FileRecord`].
pub struct FileRecordView {
    pub path: Seq<char>,
    pub hash: Seq<char>,
    pub mtime_ms: i64,
    pub size_bytes: i64,
    pub content: Seq<char>,
    pub language: Seq<char>,
}

impl View for FileRecord {
    type V = FileRecordView;

    open spec fn view(&self) -> FileRecordView {
        FileRecordView {
            path: self.path@,
            hash: self.hash@,
            mtime_ms: self.mtime_ms,
            size_bytes: self.size_bytes,
            content: self.content@,
            language: self.language@,
        }
    }
}

/// A row of the file listing: path, content hash, size and language.
#[derive(Debug, Clone, PartialEq, Eq)]
pub struct IndexedFile {
    pub path: String,
    pub hash: String,
    pub size_bytes: i64,
    pub language: String,
}

/// The mathematical content of an [`IndexedFile`].
pub struct IndexedFileView {
    pub path: Seq<char>,
    pub hash: Seq<char>,
    pub size_bytes: i64,
    pub language: Seq<char>,
}

impl View for IndexedFile {
    type V = IndexedFileView;

    open spec fn view(&self) -> IndexedFileView {
        IndexedFileView {
            path: self.path@,
            hash: self.hash@,
            size_bytes: self.size_bytes,
            language: self.language@,
        }
    }
}

/// The views of a list of indexed files.
pub open spec fn indexed_views(files: Seq<IndexedFile>) -> Seq<IndexedFileView> {
    files.map_values(|f: IndexedFile| f@)
}

/// The name under which a health state is stored in the index-run table.
pub open spec fn health_state_label(state: HealthState) -> Seq<char> {
    match state {
        HealthState::Healthy => "healthy"@,
        HealthState::Degraded => "degraded"@,
        HealthState::Unavailable => "unavailable"@,
    }
}

/// The name under which a health state is stored in the index-run table.
pub fn health_state_name(state: &HealthState) -> (name: &'static str)
    ensures
        name@ == health_state_label(*state),
{
    match state {
        HealthState::Healthy => "healthy",
        HealthState::Degraded => "degraded",
        HealthState::Unavailable => "unavailable",
    }
}

} // verus!
