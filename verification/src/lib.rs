pub mod chunking;
pub mod contract;
pub mod executor;
pub mod fixture;
pub mod glob;
pub mod indexer;
pub mod language;
pub mod markdown;
pub mod packing;
pub mod ranking;
pub mod search;
pub mod stats;
pub mod storage;
pub mod symbols;
pub mod text;
pub mod vector;
