//! TigerCache: an embedded, typo-tolerant full-text search library.
//!
//! Documents with free-form textual fields are indexed through a trigram
//! model; queries are answered with a ranked result list tolerant to
//! misspellings up to a configurable edit distance.

pub mod codec;
pub mod config;
pub mod document;
pub mod document_cache;
pub mod error;
pub mod index;
pub mod index_cache;
pub mod intern;
pub mod lru_cache;
pub mod memory_manager;
pub mod page;
pub mod query_cache;
pub mod search;
pub mod storage_config;
pub mod storage_engine;
pub mod tiger_cache;
pub mod trigram;

pub use config::TigerCacheConfig;
pub use document::Document;
pub use document::FieldValue;
pub use document_cache::DocumentCache;
pub use error::TigerCacheError;
pub use index::Index;
pub use index_cache::IndexCache;
pub use intern::StringId;
pub use intern::StringInterner;
pub use lru_cache::LruCache;
pub use memory_manager::MemoryEvent;
pub use memory_manager::MemoryManager;
pub use memory_manager::MemoryPressureLevel;
pub use memory_manager::MemoryStats;
pub use page::Page;
pub use page::PageCacheEntry;
pub use page::PageStatus;
pub use query_cache::QueryCache;
pub use search::CachedSearchEngine;
pub use search::SearchOptions;
pub use search::SearchResult;
pub use storage_config::StorageConfig;
pub use storage_config::StorageType;
pub use storage_engine::create_storage_engine;
pub use storage_engine::MemoryStorageEngine;
pub use storage_engine::StorageEngine;
pub use storage_engine::StorageError;
pub use storage_engine::StorageStats;
pub use storage_engine::StorageTransaction;
pub use tiger_cache::TigerCache;
