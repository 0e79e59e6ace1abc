//! The engine facade: it owns the index, the storage engine, the memory
//! manager and the caches, and offers the public lifecycle, ingestion and
//! query API.
//!
//! Every mutation invalidates the query cache before it returns, so a
//! cached search result always equals what the ranker returns against the
//! current index.

use vstd::prelude::*;

verus! {

use crate::config::TigerCacheConfig;
use crate::document::Document;
use crate::document_cache::DocumentCache;
use crate::error::TigerCacheError;
use crate::index::Index;
use crate::index_cache::IndexCache;
use crate::memory_manager::{MemoryManager, MemoryStats};
use crate::query_cache::QueryCache;
use crate::search::{default_options, SearchOptions, SearchResult};
use crate::codec::{doc_key_spec, enc_document, metadata_key_spec};
use crate::storage_engine::{
    create_storage_engine, kv_at, kv_has, MemoryStorageEngine, StorageError, StorageStats,
};

/// Main entry point: an embedded, typo-tolerant search engine.
pub struct TigerCache {
    index: Index,
    path: Option<String>,
    config: TigerCacheConfig,
    storage: Option<MemoryStorageEngine>,
    memory_manager: Option<MemoryManager>,
    document_cache: Option<DocumentCache>,
    index_cache: Option<IndexCache>,
    query_cache: Option<QueryCache>,
}

impl TigerCache {
    /// The underlying index.
    pub closed spec fn index_view(&self) -> Index {
        self.index
    }

    /// Whether a file path is bound.
    pub closed spec fn has_path(&self) -> bool {
        self.path is Some
    }

    /// The storage engine, when one is up.
    pub closed spec fn storage_opt(&self) -> Option<MemoryStorageEngine> {
        self.storage
    }

    /// The document cache, when one is up.
    pub closed spec fn doc_cache_opt(&self) -> Option<DocumentCache> {
        self.document_cache
    }

    /// Well-formedness: the index is consistent and every cached query
    /// result equals what the ranker returns against the current index.
    pub closed spec fn wf(&self) -> bool {
        &&& self.index.wf()
        &&& (self.storage matches Some(s) ==> s.wf())
        &&& (self.document_cache matches Some(c) ==> c.wf())
        &&& (self.index_cache matches Some(c) ==> c.wf())
        &&& (self.query_cache matches Some(qc) ==> (qc.wf() && forall|
            q: Seq<char>,
            o: SearchOptions,
        |
            #[trigger] qc.has_entry(q, o) ==> self.index.search_post(q, o, qc.entry(q, o))))
    }

    /// Create a new empty engine with the default configuration.
    pub fn new() -> (r: Self)
        ensures
            r.wf(),
            r.index_view().doc_count_spec() == 0,
            forall|s: Seq<char>| !r.index_view().has_doc(s),
            !r.has_path(),
    {
        TigerCache::with_config(TigerCacheConfig::new())
    }

    /// Create a new empty engine with the given configuration.  When a
    /// storage path is configured, the storage engine, the memory manager
    /// and the caches are brought up.
    pub fn with_config(config: TigerCacheConfig) -> (r: Self)
        ensures
            r.wf(),
            r.index_view().doc_count_spec() == 0,
            forall|s: Seq<char>| !r.index_view().has_doc(s),
            r.has_path() == (config.storage.path is Some),
    {
        let has_path = config.storage.path.is_some();
        let path = match &config.storage.path {
            Some(p) => Some(p.clone()),
            None => None,
        };
        let mut r = TigerCache {
            index: Index::new(),
            path,
            config,
            storage: None,
            memory_manager: None,
            document_cache: None,
            index_cache: None,
            query_cache: None,
        };
        if has_path {
            match create_storage_engine(&r.config.storage) {
                Ok(engine) => {
                    r.storage = Some(engine);
                },
                Err(_) => {},
            }
            let cache_size = r.config.storage.cache_size;
            let doc_budget = (cache_size / 10 * 4) as usize;
            let trigram_budget = (cache_size / 10) as usize;
            let inverted_budget = (cache_size / 10 * 4) as usize;
            let query_budget = (cache_size / 10) as usize;
            let mut mm = MemoryManager::new(r.config.storage.max_memory);
            if r.config.enable_background_ops {
                mm.start();
            }
            r.memory_manager = Some(mm);
            r.document_cache = Some(DocumentCache::new(doc_budget));
            r.index_cache = Some(IndexCache::new(trigram_budget, inverted_budget));
            r.query_cache = Some(QueryCache::new(query_budget));
        }
        r
    }

    /// Set the fields to be indexed for search; effective only for
    /// subsequent ingests.  Conservatively invalidates the query cache.
    pub fn set_indexed_fields(&mut self, fields: Vec<String>)
        requires
            old(self).wf(),
        ensures
            final(self).wf(),
            final(self).index_view().cfg() == fields.deep_view(),
            final(self).index_view().same_content(&old(self).index_view()),
    {
        self.index.set_indexed_fields(fields);
        match &mut self.query_cache {
            Some(qc) => {
                qc.clear();
            },
            None => {},
        }
    }

    /// Whether the document's field names are unique.
    fn fields_unique(document: &Document) -> (r: bool)
        ensures
            r == Index::unique_names(document.fields_model()),
    {
        let mut i: usize = 0;
        while i < document.fields.len()
            invariant
                i <= document.fields_model().len(),
                document.fields_model().len() == document.fields@.len(),
                forall|x: int, y: int|
                    0 <= x < y < i ==> (#[trigger] document.fields_model()[x]).0 != (
                    #[trigger] document.fields_model()[y]).0,
            decreases document.fields@.len() - i,
        {
            let mut j: usize = 0;
            while j < i
                invariant
                    j <= i,
                    i < document.fields_model().len(),
                    document.fields_model().len() == document.fields@.len(),
                    forall|y: int|
                        0 <= y < j ==> (#[trigger] document.fields_model()[y]).0
                            != document.fields_model()[i as int].0,
                decreases i - j,
            {
                if document.fields[j].0.eq(&document.fields[i].0) {
                    proof {
                        assert(document.fields_model()[j as int].0 == document.fields@[
                            j as int
                        ].0@);
                        assert(document.fields_model()[i as int].0 == document.fields@[
                            i as int
                        ].0@);
                    }
                    return false;
                }
                proof {
                    assert(document.fields_model()[j as int].0 == document.fields@[j as int].0@);
                    assert(document.fields_model()[i as int].0 == document.fields@[i as int].0@);
                }
                j = j + 1;
            }
            i = i + 1;
        }
        true
    }

    /// Add a document: update the index with replacement semantics,
    /// persist the encoded document under its `doc:` key, populate the
    /// document cache, and invalidate the query cache.  Fails exactly on
    /// a document with duplicate field names (rejected as invalid) or on
    /// an exhausted id space.
    pub fn add_document(&mut self, document: Document) -> (r: Result<(), TigerCacheError>)
        requires
            old(self).wf(),
        ensures
            final(self).wf(),
            match r {
                Ok(_) => {
                    &&& Index::unique_names(document.fields_model())
                    &&& Index::add_post(
                        &old(self).index_view(),
                        &final(self).index_view(),
                        document.id@,
                        document.fields_model(),
                    )
                    &&& old(self).storage_opt() is Some ==> (final(self).storage_opt() matches
                    Some(s) && s.wf() && kv_has(s.kv(), doc_key_spec(document.id@)) && kv_at(
                        s.kv(),
                        doc_key_spec(document.id@),
                    )@ == enc_document(document.id@, document.fields_model()))
                    &&& old(self).doc_cache_opt() is Some ==> (final(self).doc_cache_opt()
                        matches Some(dc) && dc.has_doc(document.id@) && dc.doc_at(
                        document.id@,
                    ).id@ == document.id@ && dc.doc_at(document.id@).fields_model()
                        == document.fields_model())
                },
                Err(e) => {
                    &&& final(self).index_view().same_content(&old(self).index_view())
                    &&& (e matches TigerCacheError::InvalidDocument(_) || e matches
                    TigerCacheError::InternalError(_))
                    &&& (e matches TigerCacheError::InvalidDocument(_) ==> !Index::unique_names(
                        document.fields_model(),
                    ))
                    &&& (e matches TigerCacheError::InternalError(_) ==> (Index::unique_names(
                        document.fields_model(),
                    ) && final(self).index_view().strs().len() >= u32::MAX))
                },
            },
    {
        if !Self::fields_unique(&document) {
            proof {
                assert(self.index.same_content(&self.index));
            }
            return Err(TigerCacheError::InvalidDocument(document.id));
        }
        let bytes = crate::codec::encode_document(&document);
        let key = crate::codec::doc_key_bytes(document.id.as_str());
        let doc_for_cache = document.duplicate();
        let r = self.index.add_document(document);
        match &mut self.query_cache {
            Some(qc) => {
                qc.clear();
            },
            None => {},
        }
        match r {
            Ok(_) => {
                match &mut self.storage {
                    Some(s) => {
                        s.put_value(&key, &bytes);
                    },
                    None => {},
                }
                match &mut self.document_cache {
                    Some(dc) => {
                        dc.put(doc_for_cache);
                    },
                    None => {},
                }
                Ok(())
            },
            Err(e) => Err(e),
        }
    }

    /// Add several documents; behaves exactly as adding them in order
    /// with `add_document`, stopping at the first failure.
    pub fn add_documents_batch(&mut self, documents: Vec<Document>) -> (r: Result<
        (),
        TigerCacheError,
    >)
        requires
            old(self).wf(),
        ensures
            final(self).wf(),
            match r {
                Ok(_) => Index::batch_chain(
                    old(self).index_view(),
                    final(self).index_view(),
                    documents@,
                ),
                Err(e) => {
                    &&& exists|mid: Index, k: int|
                        0 <= k <= documents@.len() && #[trigger] Index::batch_chain(
                            old(self).index_view(),
                            mid,
                            documents@.take(k),
                        ) && final(self).index_view().same_content(&mid)
                    &&& (e matches TigerCacheError::InvalidDocument(_) || e matches
                    TigerCacheError::InternalError(_))
                    &&& (e matches TigerCacheError::InvalidDocument(_) ==> exists|k2: int|
                        0 <= k2 < documents@.len() && !Index::unique_names(
                            (#[trigger] documents@[k2]).fields_model(),
                        ))
                    &&& (e matches TigerCacheError::InternalError(_)
                        ==> final(self).index_view().strs().len() >= u32::MAX)
                },
            },
    {
        let mut idx: usize = 0;
        proof {
            assert(documents@.take(0) =~= Seq::<Document>::empty());
            assert(Index::batch_chain(
                old(self).index_view(),
                self.index_view(),
                documents@.take(0),
            ));
        }
        while idx < documents.len()
            invariant
                self.wf(),
                idx <= documents@.len(),
                Index::batch_chain(
                    old(self).index_view(),
                    self.index_view(),
                    documents@.take(idx as int),
                ),
            decreases documents@.len() - idx,
        {
            let ghost pre_index = self.index_view();
            let document = documents[idx].duplicate();
            let ghost doc_orig = documents@[idx as int];
            let r = self.add_document(document);
            match r {
                Ok(_) => {
                    proof {
                        assert(Index::add_post(
                            &pre_index,
                            &self.index_view(),
                            doc_orig.id@,
                            doc_orig.fields_model(),
                        ));
                        Index::lemma_batch_chain_snoc(
                            old(self).index_view(),
                            pre_index,
                            self.index_view(),
                            documents@.take(idx as int),
                            doc_orig,
                        );
                        assert(documents@.take(idx + 1) =~= documents@.take(idx as int).push(
                            doc_orig,
                        ));
                    }
                },
                Err(e) => {
                    proof {
                        assert(0 <= idx as int <= documents@.len() && Index::batch_chain(
                            old(self).index_view(),
                            pre_index,
                            documents@.take(idx as int),
                        ) && self.index_view().same_content(&pre_index));
                        if e matches TigerCacheError::InvalidDocument(_) {
                            assert(!Index::unique_names(doc_orig.fields_model()));
                            assert(0 <= (idx as int) < documents@.len() && !Index::unique_names(
                                documents@[idx as int].fields_model(),
                            ));
                        }
                    }
                    return Err(e);
                },
            }
            idx = idx + 1;
        }
        proof {
            assert(documents@.take(documents@.len() as int) =~= documents@);
        }
        Ok(())
    }



    /// Remove a document: update the index, delete its `doc:` entry from
    /// storage, evict it from the document cache, and invalidate the
    /// query cache.  Fails exactly when no document with that id is
    /// present.
    pub fn remove_document(&mut self, doc_id: &str) -> (r: Result<(), TigerCacheError>)
        requires
            old(self).wf(),
        ensures
            final(self).wf(),
            match r {
                Ok(_) => {
                    &&& old(self).index_view().has_doc(doc_id@)
                    &&& Index::remove_post(
                        &old(self).index_view(),
                        &final(self).index_view(),
                        doc_id@,
                    )
                    &&& old(self).storage_opt() is Some ==> (final(self).storage_opt() matches
                    Some(s) && s.wf() && !kv_has(s.kv(), doc_key_spec(doc_id@)))
                    &&& old(self).doc_cache_opt() is Some ==> (final(self).doc_cache_opt()
                        matches Some(dc) && !dc.has_doc(doc_id@))
                },
                Err(e) => {
                    &&& !old(self).index_view().has_doc(doc_id@)
                    &&& e matches TigerCacheError::DocumentNotFound(m) && m@ == doc_id@
                    &&& final(self).index_view().same_content(&old(self).index_view())
                },
            },
    {
        let key = crate::codec::doc_key_bytes(doc_id);
        let r = self.index.remove_document(doc_id);
        match &mut self.query_cache {
            Some(qc) => {
                qc.clear();
            },
            None => {},
        }
        match &mut self.document_cache {
            Some(dc) => {
                dc.remove(doc_id);
            },
            None => {},
        }
        match &r {
            Ok(_) => {
                match &mut self.storage {
                    Some(s) => {
                        s.delete_value(&key);
                    },
                    None => {},
                }
            },
            Err(_) => {},
        }
        r
    }

    /// Get a document by id.
    pub fn get_document(&self, doc_id: &str) -> (r: Option<&Document>)
        requires
            self.wf(),
        ensures
            match r {
                Some(d) => self.index_view().has_doc(doc_id@) && d.id@ == doc_id@
                    && d.fields_model() == self.index_view().doc_fields(doc_id@),
                None => !self.index_view().has_doc(doc_id@),
            },
    {
        self.index.get_document(doc_id)
    }

    /// Whether a file path is bound to this instance.
    pub fn is_path_bound(&self) -> (r: bool)
        ensures
            r == self.has_path(),
    {
        self.path.is_some()
    }

    /// Copies of all stored documents; what a snapshot carries: one
    /// entry per stored document, under pairwise distinct ids.
    pub fn documents(&self) -> (r: Vec<Document>)
        requires
            self.wf(),
        ensures
            r@.len() == self.index_view().doc_count_spec(),
            forall|k: int|
                0 <= k < r@.len() ==> self.index_view().has_doc((#[trigger] r@[k]).id@)
                    && r@[k].fields_model() == self.index_view().doc_fields(r@[k].id@),
            forall|k1: int, k2: int|
                0 <= k1 < k2 < r@.len() ==> (#[trigger] r@[k1]).id@ != (#[trigger] r@[k2]).id@,
    {
        self.index.all_documents()
    }

    /// The number of documents in the index.
    pub fn document_count(&self) -> (r: usize)
        ensures
            r == self.index_view().doc_count_spec(),
    {
        self.index.document_count()
    }

    /// Search: consult the query cache, rank on a miss, cache and return.
    /// The result always equals what the ranker returns against the
    /// current index.
    pub fn search(&mut self, query: &str, options: Option<SearchOptions>) -> (r: Result<
        Vec<SearchResult>,
        TigerCacheError,
    >)
        requires
            old(self).wf(),
        ensures
            final(self).wf(),
            final(self).index_view() == old(self).index_view(),
            r matches Ok(v) && final(self).index_view().search_post(
                query@,
                match options {
                    Some(o) => o,
                    None => default_options(),
                },
                v@,
            ),
    {
        let opts = match options {
            Some(o) => o,
            None => SearchOptions::default(),
        };
        let mut cached: Option<Vec<SearchResult>> = None;
        match &mut self.query_cache {
            Some(qc) => {
                match qc.get(query, &opts) {
                    Some(v) => {
                        cached = Some(Index::copy_results(v));
                    },
                    None => {},
                }
            },
            None => {},
        }
        match cached {
            Some(v) => {
                proof {
                    let qc = old(self).query_cache->Some_0;
                    assert(qc.has_entry(query@, opts));
                    assert(self.index.search_post(query@, opts, qc.entry(query@, opts)));
                    self.index.lemma_search_post_transfer(
                        query@,
                        opts,
                        qc.entry(query@, opts),
                        v@,
                    );
                }
                Ok(v)
            },
            None => {
                let computed = match self.index.search_internal(query, &opts) {
                    Ok(c) => c,
                    Err(e) => {
                        proof {
                            assert(false);
                        }
                        return Err(e);
                    },
                };
                let out = Index::copy_results(&computed);
                proof {
                    self.index.lemma_search_post_transfer(query@, opts, computed@, out@);
                }
                match &mut self.query_cache {
                    Some(qc) => {
                        qc.put(query, &opts, computed);
                    },
                    None => {},
                }
                Ok(out)
            },
        }
    }

    /// Commit: write the serialised index snapshot under the
    /// `index_metadata` key and flush the storage engine.  Without a
    /// bound path there is nowhere to write (an I/O error); with a path
    /// but no engine the configuration is at fault.
    pub fn commit(&mut self) -> (r: Result<(), TigerCacheError>)
        requires
            old(self).wf(),
        ensures
            final(self).wf(),
            final(self).index_view() == old(self).index_view(),
            r is Ok == (old(self).has_path() && old(self).storage_present()),
            match r {
                Ok(_) => final(self).storage_opt() matches Some(s) && s.wf() && kv_has(
                    s.kv(),
                    metadata_key_spec(),
                ) && kv_at(s.kv(), metadata_key_spec())@ == old(
                    self,
                ).index_view().snapshot_spec(),
                Err(e) => {
                    &&& (!old(self).has_path() ==> e matches TigerCacheError::IoError(_))
                    &&& ((old(self).has_path() && !old(self).storage_present()) ==> (e matches
                    TigerCacheError::Storage(StorageError::ConfigurationError(_))))
                },
            },
    {
        if self.path.is_none() {
            return Err(TigerCacheError::IoError(String::new()));
        }
        let bytes = self.index.snapshot_bytes();
        let key = crate::codec::metadata_key_bytes();
        match &mut self.storage {
            Some(s) => {
                s.put_value(&key, &bytes);
                let _ = s.flush();
                Ok(())
            },
            None => Err(TigerCacheError::Storage(StorageError::ConfigurationError(String::new()))),
        }
    }

    /// Whether a storage engine is up.
    pub closed spec fn storage_present(&self) -> bool {
        self.storage is Some
    }

    /// Clear the index and every cache.
    pub fn clear(&mut self)
        requires
            old(self).wf(),
        ensures
            final(self).wf(),
            final(self).index_view().doc_count_spec() == 0,
            forall|s: Seq<char>| !final(self).index_view().has_doc(s),
    {
        self.index.clear();
        match &mut self.document_cache {
            Some(dc) => {
                dc.clear();
            },
            None => {},
        }
        match &mut self.index_cache {
            Some(ic) => {
                ic.clear();
            },
            None => {},
        }
        match &mut self.query_cache {
            Some(qc) => {
                qc.clear();
            },
            None => {},
        }
    }

    /// The memory statistics snapshot, when the manager is up.
    pub fn memory_stats(&self) -> (r: Option<MemoryStats>)
    {
        match &self.memory_manager {
            Some(mm) => Some(mm.stats()),
            None => None,
        }
    }

    /// Storage statistics, when the engine is up.
    pub fn storage_stats(&self) -> (r: Option<StorageStats>)
    {
        match &self.storage {
            Some(s) => Some(s.stats()),
            None => None,
        }
    }

    /// Flush pending storage writes.
    pub fn flush(&mut self) -> (r: Result<(), TigerCacheError>)
        requires
            old(self).wf(),
        ensures
            final(self).wf(),
            final(self).index_view() == old(self).index_view(),
            r is Ok,
    {
        match &mut self.storage {
            Some(s) => {
                let _ = s.flush();
            },
            None => {},
        }
        Ok(())
    }

    /// Flush and release resources; closes the storage engine and stops
    /// the memory manager.
    pub fn close(&mut self) -> (r: Result<(), TigerCacheError>)
        requires
            old(self).wf(),
        ensures
            final(self).wf(),
            final(self).index_view() == old(self).index_view(),
            r is Ok,
    {
        match &mut self.storage {
            Some(s) => {
                let _ = s.flush();
                let _ = s.close();
            },
            None => {},
        }
        match &mut self.memory_manager {
            Some(mm) => {
                mm.stop();
            },
            None => {},
        }
        Ok(())
    }

    /// The active configuration.
    pub closed spec fn config_spec(&self) -> TigerCacheConfig {
        self.config
    }

    /// The configuration.
    pub fn config(&self) -> (r: &TigerCacheConfig)
        ensures
            *r == self.config_spec(),
    {
        &self.config
    }

    /// Replace the configuration, keeping the index.
    pub fn update_config(&mut self, config: TigerCacheConfig) -> (r: Result<(), TigerCacheError>)
        requires
            old(self).wf(),
        ensures
            final(self).wf(),
            r is Ok,
            final(self).config_spec() == config,
            final(self).index_view() == old(self).index_view(),
    {
        self.config = config;
        Ok(())
    }
}

impl Default for TigerCache {
    /// An empty engine with the default configuration.
    fn default() -> (r: Self)
        ensures
            r.wf(),
            r.index_view().doc_count_spec() == 0,
            forall|s: Seq<char>| !r.index_view().has_doc(s),
            !r.has_path(),
    {
        TigerCache::new()
    }
}

} // verus!
