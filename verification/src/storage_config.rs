//! Storage configuration: which backend to instantiate and how.

use vstd::prelude::*;

verus! {

/// The available storage backends.  The in-memory backend is always
/// usable; the others are instantiated by backend drivers outside the
/// verified core.
#[derive(Debug, Clone, Copy, PartialEq, Eq, Structural)]
pub enum StorageType {
    /// In-memory storage, for tests or small datasets.
    Memory,
    /// An embedded log-structured store.
    Sled,
    /// An embedded B-tree store.
    Redb,
    /// An embedded LSM store.
    RocksDB,
    /// An embedded SQL store.
    SQLite,
}

impl Default for StorageType {
    fn default() -> (r: Self)
        ensures
            r == StorageType::Memory,
    {
        StorageType::Memory
    }
}

/// Storage configuration.
pub struct StorageConfig {
    /// Storage type.
    pub storage_type: StorageType,
    /// Path to the storage directory, if the backend is file-backed.
    pub path: Option<String>,
    /// Page size in bytes.
    pub page_size: usize,
    /// Cache byte budget.
    pub cache_size: u64,
    /// Maximum memory usage in bytes.
    pub max_memory: u64,
    /// Whether to create the storage if it does not exist.
    pub create_if_missing: bool,
    /// Whether to use compression.
    pub use_compression: bool,
    /// Whether to sync writes to disk immediately.
    pub sync_writes: bool,
    /// Whether to collect metrics.
    pub collect_metrics: bool,
    /// Backend-specific options.
    pub custom_options: Option<String>,
}

impl StorageConfig {
    /// The defaults: in-memory storage, 4 KiB pages, a 50 MiB cache and a
    /// 200 MiB memory ceiling.
    pub open spec fn is_default(&self) -> bool {
        &&& self.storage_type == StorageType::Memory
        &&& self.path is None
        &&& self.page_size == 4096
        &&& self.cache_size == 52428800
        &&& self.max_memory == 209715200
        &&& self.create_if_missing == true
        &&& self.use_compression == true
        &&& self.sync_writes == false
        &&& self.collect_metrics == false
        &&& self.custom_options is None
    }

    pub fn new() -> (r: Self)
        ensures
            r.is_default(),
    {
        StorageConfig {
            storage_type: StorageType::Memory,
            path: None,
            page_size: 4096,
            cache_size: 52428800,
            max_memory: 209715200,
            create_if_missing: true,
            use_compression: true,
            sync_writes: false,
            collect_metrics: false,
            custom_options: None,
        }
    }

    pub fn with_storage_type(self, storage_type: StorageType) -> (r: Self)
        ensures
            r == (StorageConfig { storage_type, ..self }),
    {
        StorageConfig { storage_type, ..self }
    }

    pub fn with_path(self, path: &str) -> (r: Self)
        ensures
            r.path matches Some(p) && p@ == path@,
            r == (StorageConfig { path: r.path, ..self }),
    {
        StorageConfig { path: Some(path.to_owned()), ..self }
    }

    pub fn with_page_size(self, page_size: usize) -> (r: Self)
        ensures
            r == (StorageConfig { page_size, ..self }),
    {
        StorageConfig { page_size, ..self }
    }

    pub fn with_cache_size(self, cache_size: u64) -> (r: Self)
        ensures
            r == (StorageConfig { cache_size, ..self }),
    {
        StorageConfig { cache_size, ..self }
    }

    pub fn with_max_memory(self, max_memory: u64) -> (r: Self)
        ensures
            r == (StorageConfig { max_memory, ..self }),
    {
        StorageConfig { max_memory, ..self }
    }

    pub fn with_create_if_missing(self, create_if_missing: bool) -> (r: Self)
        ensures
            r == (StorageConfig { create_if_missing, ..self }),
    {
        StorageConfig { create_if_missing, ..self }
    }

    pub fn with_compression(self, use_compression: bool) -> (r: Self)
        ensures
            r == (StorageConfig { use_compression, ..self }),
    {
        StorageConfig { use_compression, ..self }
    }

    pub fn with_sync_writes(self, sync_writes: bool) -> (r: Self)
        ensures
            r == (StorageConfig { sync_writes, ..self }),
    {
        StorageConfig { sync_writes, ..self }
    }

    pub fn with_collect_metrics(self, collect_metrics: bool) -> (r: Self)
        ensures
            r == (StorageConfig { collect_metrics, ..self }),
    {
        StorageConfig { collect_metrics, ..self }
    }

    pub fn with_custom_options(self, custom_options: &str) -> (r: Self)
        ensures
            r.custom_options matches Some(o) && o@ == custom_options@,
            r == (StorageConfig { custom_options: r.custom_options, ..self }),
    {
        StorageConfig { custom_options: Some(custom_options.to_owned()), ..self }
    }

    /// Development preset: small caches, metrics on.
    pub fn development() -> (r: Self)
        ensures
            r.cache_size == 10485760,
            r.max_memory == 52428800,
            r.collect_metrics == true,
            r.storage_type == StorageType::Memory,
    {
        let mut c = StorageConfig::new();
        c.cache_size = 10485760;
        c.max_memory = 52428800;
        c.collect_metrics = true;
        c
    }

    /// Production preset: large caches, synchronous writes.
    pub fn production() -> (r: Self)
        ensures
            r.cache_size == 104857600,
            r.max_memory == 524288000,
            r.sync_writes == true,
            r.storage_type == StorageType::Memory,
    {
        let mut c = StorageConfig::new();
        c.cache_size = 104857600;
        c.max_memory = 524288000;
        c.sync_writes = true;
        c
    }

    /// Low-memory preset: tight budgets, small pages.
    pub fn low_memory() -> (r: Self)
        ensures
            r.cache_size == 5242880,
            r.max_memory == 20971520,
            r.page_size == 1024,
            r.storage_type == StorageType::Memory,
    {
        let mut c = StorageConfig::new();
        c.cache_size = 5242880;
        c.max_memory = 20971520;
        c.page_size = 1024;
        c
    }
}

impl Default for StorageConfig {
    fn default() -> (r: Self)
        ensures
            r.is_default(),
    {
        StorageConfig::new()
    }
}

impl Clone for StorageConfig {
    fn clone(&self) -> (r: Self)
        ensures
            r == *self,
    {
        StorageConfig {
            storage_type: self.storage_type,
            path: match &self.path {
                Some(p) => Some(p.clone()),
                None => None,
            },
            page_size: self.page_size,
            cache_size: self.cache_size,
            max_memory: self.max_memory,
            create_if_missing: self.create_if_missing,
            use_compression: self.use_compression,
            sync_writes: self.sync_writes,
            collect_metrics: self.collect_metrics,
            custom_options: match &self.custom_options {
                Some(o) => Some(o.clone()),
                None => None,
            },
        }
    }
}

} // verus!
