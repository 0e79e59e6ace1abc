//! Search options and results, and the cached search engine.
//!
//! The ranking pipeline itself lives with the index; this module holds
//! the option and result types and a query-keyed result cache.

use vstd::prelude::*;

verus! {

use crate::document::Document;

/// Search configuration options.  The score threshold is carried as an
/// integer in units of 1/1000 so that options are structurally equatable
/// and can serve as part of a cache key.
#[derive(Debug, Clone, Copy, PartialEq, Eq, Hash, Structural)]
pub struct SearchOptions {
    /// Maximum Levenshtein distance for fuzzy matching.
    pub max_distance: usize,
    /// Minimum score threshold for results, scaled by 1000.
    pub score_threshold: u32,
    /// Maximum number of results to return.
    pub limit: usize,
}

/// The default search options: distance 2, no threshold, 100 results.
pub open spec fn default_options() -> SearchOptions {
    SearchOptions { max_distance: 2, score_threshold: 0, limit: 100 }
}

impl Default for SearchOptions {
    /// The defaults: distance 2, no threshold, at most 100 results.
    fn default() -> (r: Self)
        ensures
            r == default_options(),
    {
        SearchOptions { max_distance: 2, score_threshold: 0, limit: 100 }
    }
}

/// A search result: the matched document, its relevance score scaled by
/// 1000, and the matched field names (left empty by this implementation).
pub struct SearchResult {
    /// The matched document, copied out of the index.
    pub document: Document,
    /// Relevance score, scaled by 1000; higher is better.
    pub score: u64,
    /// Fields that matched the query; not populated.
    pub matched_fields: Vec<String>,
}

/// A search engine wrapper with a query-keyed result cache.  The cache
/// is sound only against the index its entries were computed from; the
/// consistency precondition records that, and any mutation of the index
/// calls for a fresh engine or a `clear`.
pub struct CachedSearchEngine {
    cache: crate::query_cache::QueryCache,
    snapshot: Ghost<crate::index::Index>,
}

impl CachedSearchEngine {
    /// Every cached entry equals what the ranker returns against the
    /// index the engine was last used with.
    pub closed spec fn consistent_with(&self, index: &crate::index::Index) -> bool {
        &&& self.cache.wf()
        &&& self.snapshot@ == *index
        &&& forall|q: Seq<char>, o: SearchOptions|
            #[trigger] self.cache.has_entry(q, o) ==> index.search_post(
                q,
                o,
                self.cache.entry(q, o),
            )
    }

    /// A fresh engine is consistent with any index.
    pub fn new(cache_size: usize, index: &crate::index::Index) -> (r: Self)
        ensures
            r.consistent_with(index),
            r.cache_ok(),
    {
        CachedSearchEngine {
            cache: crate::query_cache::QueryCache::new(cache_size),
            snapshot: Ghost(*index),
        }
    }

    /// The cache itself is well formed, whatever index it matches.
    pub closed spec fn cache_ok(&self) -> bool {
        self.cache.wf()
    }

    /// Drop every cached result and adopt the given index.
    pub fn clear(&mut self, index: &crate::index::Index)
        requires
            old(self).cache_ok(),
        ensures
            final(self).consistent_with(index),
    {
        self.cache.clear();
        self.snapshot = Ghost(*index);
    }

    /// Search through the cache: return the cached result on a hit, rank
    /// and cache on a miss.
    pub fn search_with_cache(
        &mut self,
        index: &crate::index::Index,
        query: &str,
        options: SearchOptions,
    ) -> (r: Result<Vec<SearchResult>, crate::error::TigerCacheError>)
        requires
            index.wf(),
            old(self).consistent_with(index),
        ensures
            final(self).consistent_with(index),
            final(self).cache_ok(),
            r matches Ok(v) && index.search_post(query@, options, v@),
    {
        let mut cached: Option<Vec<SearchResult>> = None;
        match self.cache.get(query, &options) {
            Some(v) => {
                cached = Some(crate::index::Index::copy_results(v));
            },
            None => {},
        }
        match cached {
            Some(v) => {
                proof {
                    assert(old(self).cache.has_entry(query@, options));
                    index.lemma_search_post_transfer(
                        query@,
                        options,
                        old(self).cache.entry(query@, options),
                        v@,
                    );
                }
                Ok(v)
            },
            None => {
                let computed = match index.search_internal(query, &options) {
                    Ok(c) => c,
                    Err(e) => {
                        proof {
                            assert(false);
                        }
                        return Err(e);
                    },
                };
                let out = crate::index::Index::copy_results(&computed);
                proof {
                    index.lemma_search_post_transfer(query@, options, computed@, out@);
                }
                self.cache.put(query, &options, computed);
                Ok(out)
            },
        }
    }
}

} // verus!
