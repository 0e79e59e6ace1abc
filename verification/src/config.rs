//! Engine configuration: storage settings, indexed fields and search
//! defaults.  The score threshold is carried as an integer in units of
//! 1/1000, like the search options themselves.

use vstd::prelude::*;

verus! {

use crate::storage_config::{StorageConfig, StorageType};

/// Engine configuration.
pub struct TigerCacheConfig {
    /// Storage configuration.
    pub storage: StorageConfig,
    /// Fields to be indexed for search; empty means all textual fields.
    pub indexed_fields: Vec<String>,
    /// Maximum Levenshtein distance for fuzzy matching.
    pub max_distance: u32,
    /// Minimum score threshold for search results, scaled by 1000.
    pub score_threshold: u32,
    /// Maximum number of search results.
    pub max_results: usize,
    /// Whether to run background operations.
    pub enable_background_ops: bool,
    /// Whether to collect metrics.
    pub collect_metrics: bool,
}

impl TigerCacheConfig {
    /// The defaults: in-memory storage, all fields indexed, distance 2,
    /// no threshold, 100 results, background operations on.
    pub open spec fn is_default(&self) -> bool {
        &&& self.storage.is_default()
        &&& self.indexed_fields@.len() == 0
        &&& self.max_distance == 2
        &&& self.score_threshold == 0
        &&& self.max_results == 100
        &&& self.enable_background_ops == true
        &&& self.collect_metrics == false
    }

    pub fn new() -> (r: Self)
        ensures
            r.is_default(),
    {
        TigerCacheConfig {
            storage: StorageConfig::new(),
            indexed_fields: Vec::new(),
            max_distance: 2,
            score_threshold: 0,
            max_results: 100,
            enable_background_ops: true,
            collect_metrics: false,
        }
    }

    pub fn with_storage(self, storage: StorageConfig) -> (r: Self)
        ensures
            r == (TigerCacheConfig { storage, ..self }),
    {
        TigerCacheConfig { storage, ..self }
    }

    pub fn with_storage_type(self, storage_type: StorageType) -> (r: Self)
        ensures
            r.storage.storage_type == storage_type,
            r == (TigerCacheConfig { storage: r.storage, ..self }),
    {
        let storage = self.storage.with_storage_type(storage_type);
        TigerCacheConfig { storage, ..self }
    }

    pub fn with_storage_path(self, path: &str) -> (r: Self)
        ensures
            r.storage.path matches Some(p) && p@ == path@,
            r == (TigerCacheConfig { storage: r.storage, ..self }),
    {
        let storage = self.storage.with_path(path);
        TigerCacheConfig { storage, ..self }
    }

    pub fn with_cache_size(self, cache_size: u64) -> (r: Self)
        ensures
            r.storage.cache_size == cache_size,
            r == (TigerCacheConfig { storage: r.storage, ..self }),
    {
        let storage = self.storage.with_cache_size(cache_size);
        TigerCacheConfig { storage, ..self }
    }

    pub fn with_max_memory(self, max_memory: u64) -> (r: Self)
        ensures
            r.storage.max_memory == max_memory,
            r == (TigerCacheConfig { storage: r.storage, ..self }),
    {
        let storage = self.storage.with_max_memory(max_memory);
        TigerCacheConfig { storage, ..self }
    }

    pub fn with_indexed_fields(self, fields: Vec<String>) -> (r: Self)
        ensures
            r == (TigerCacheConfig { indexed_fields: fields, ..self }),
    {
        TigerCacheConfig { indexed_fields: fields, ..self }
    }

    pub fn with_max_distance(self, max_distance: u32) -> (r: Self)
        ensures
            r == (TigerCacheConfig { max_distance, ..self }),
    {
        TigerCacheConfig { max_distance, ..self }
    }

    pub fn with_score_threshold(self, score_threshold: u32) -> (r: Self)
        ensures
            r == (TigerCacheConfig { score_threshold, ..self }),
    {
        TigerCacheConfig { score_threshold, ..self }
    }

    pub fn with_max_results(self, max_results: usize) -> (r: Self)
        ensures
            r == (TigerCacheConfig { max_results, ..self }),
    {
        TigerCacheConfig { max_results, ..self }
    }

    pub fn with_background_ops(self, enable: bool) -> (r: Self)
        ensures
            r == (TigerCacheConfig { enable_background_ops: enable, ..self }),
    {
        TigerCacheConfig { enable_background_ops: enable, ..self }
    }

    pub fn with_collect_metrics(self, collect: bool) -> (r: Self)
        ensures
            r.collect_metrics == collect,
            r.storage.collect_metrics == collect,
    {
        let storage = self.storage.with_collect_metrics(collect);
        TigerCacheConfig { storage, collect_metrics: collect, ..self }
    }

    /// Development preset: small caches, metrics on.
    pub fn development() -> (r: Self)
        ensures
            r.storage.cache_size == 10485760,
            r.storage.max_memory == 52428800,
            r.collect_metrics == true,
            r.max_distance == 2,
    {
        TigerCacheConfig {
            storage: StorageConfig::development(),
            indexed_fields: Vec::new(),
            max_distance: 2,
            score_threshold: 0,
            max_results: 100,
            enable_background_ops: true,
            collect_metrics: true,
        }
    }

    /// Production preset: large caches, synchronous writes.
    pub fn production() -> (r: Self)
        ensures
            r.storage.cache_size == 104857600,
            r.storage.max_memory == 524288000,
            r.storage.sync_writes == true,
            r.max_distance == 2,
    {
        TigerCacheConfig {
            storage: StorageConfig::production(),
            indexed_fields: Vec::new(),
            max_distance: 2,
            score_threshold: 0,
            max_results: 100,
            enable_background_ops: true,
            collect_metrics: false,
        }
    }

    /// Low-memory preset: tight budgets, stricter defaults, no background
    /// operations.
    pub fn low_memory() -> (r: Self)
        ensures
            r.storage.cache_size == 5242880,
            r.storage.max_memory == 20971520,
            r.max_distance == 1,
            r.score_threshold == 500,
            r.max_results == 50,
            r.enable_background_ops == false,
    {
        TigerCacheConfig {
            storage: StorageConfig::low_memory(),
            indexed_fields: Vec::new(),
            max_distance: 1,
            score_threshold: 500,
            max_results: 50,
            enable_background_ops: false,
            collect_metrics: false,
        }
    }
}

impl Default for TigerCacheConfig {
    fn default() -> (r: Self)
        ensures
            r.is_default(),
    {
        TigerCacheConfig::new()
    }
}

} // verus!
