//! The index cache: trigram and inverted posting rows by id, each in its
//! own size-bounded cache.

use vstd::prelude::*;

verus! {

use crate::lru_cache::LruCache;

/// Caches posting rows to avoid repeated storage access.
pub struct IndexCache {
    trigram_cache: LruCache<Vec<u32>>,
    inverted_cache: LruCache<Vec<u32>>,
}

/// The cache key of a posting row: the singleton id.
pub open spec fn row_key(id: u32) -> Seq<u32> {
    seq![id]
}

fn encode_row_key(id: u32) -> (r: Vec<u32>)
    ensures
        r@ == row_key(id),
{
    let mut r: Vec<u32> = Vec::new();
    r.push(id);
    proof {
        assert(r@ =~= row_key(id));
    }
    r
}

impl IndexCache {
    pub closed spec fn trigram_view(&self) -> LruCache<Vec<u32>> {
        self.trigram_cache
    }

    pub closed spec fn inverted_view(&self) -> LruCache<Vec<u32>> {
        self.inverted_cache
    }

    pub open spec fn wf(&self) -> bool {
        self.trigram_view().wf() && self.inverted_view().wf()
    }

    /// Create a new index cache with the given byte budgets.
    pub fn new(trigram_cache_size: usize, inverted_cache_size: usize) -> (r: Self)
        ensures
            r.wf(),
            r.trigram_view().max_size_spec() == trigram_cache_size,
            r.inverted_view().max_size_spec() == inverted_cache_size,
    {
        IndexCache {
            trigram_cache: LruCache::new(trigram_cache_size),
            inverted_cache: LruCache::new(inverted_cache_size),
        }
    }

    /// Get a trigram posting row from the cache.
    pub fn get_trigram(&mut self, trigram_id: u32) -> (r: Option<&Vec<u32>>)
        requires
            old(self).wf(),
        ensures
            final(self).wf(),
            r is Some == old(self).trigram_view().has_key(row_key(trigram_id)),
            r matches Some(v) ==> v@ == old(self).trigram_view().entry_of(
                row_key(trigram_id),
            ).value@,
    {
        let key = encode_row_key(trigram_id);
        self.trigram_cache.get(&key)
    }

    /// Put a trigram posting row in the cache.
    pub fn put_trigram(&mut self, trigram_id: u32, tokens: Vec<u32>)
        requires
            old(self).wf(),
        ensures
            final(self).wf(),
            final(self).trigram_view().has_key(row_key(trigram_id)),
            final(self).trigram_view().entry_of(row_key(trigram_id)).value == tokens,
    {
        let key = encode_row_key(trigram_id);
        let size = row_size(&tokens);
        if self.trigram_cache.size() > usize::MAX - size {
            self.trigram_cache.clear();
        }
        let _ = self.trigram_cache.put(key, tokens, size);
    }

    /// Get an inverted posting row from the cache.
    pub fn get_inverted(&mut self, token_id: u32) -> (r: Option<&Vec<u32>>)
        requires
            old(self).wf(),
        ensures
            final(self).wf(),
            r is Some == old(self).inverted_view().has_key(row_key(token_id)),
            r matches Some(v) ==> v@ == old(self).inverted_view().entry_of(
                row_key(token_id),
            ).value@,
    {
        let key = encode_row_key(token_id);
        self.inverted_cache.get(&key)
    }

    /// Put an inverted posting row in the cache.
    pub fn put_inverted(&mut self, token_id: u32, doc_ids: Vec<u32>)
        requires
            old(self).wf(),
        ensures
            final(self).wf(),
            final(self).inverted_view().has_key(row_key(token_id)),
            final(self).inverted_view().entry_of(row_key(token_id)).value == doc_ids,
    {
        let key = encode_row_key(token_id);
        let size = row_size(&doc_ids);
        if self.inverted_cache.size() > usize::MAX - size {
            self.inverted_cache.clear();
        }
        let _ = self.inverted_cache.put(key, doc_ids, size);
    }

    /// Clear both caches.
    pub fn clear(&mut self)
        ensures
            final(self).wf(),
            final(self).trigram_view().entries_view().len() == 0,
            final(self).inverted_view().entries_view().len() == 0,
    {
        self.trigram_cache.clear();
        self.inverted_cache.clear();
    }

    /// The byte total of the trigram cache.
    pub fn trigram_size(&self) -> (r: usize) {
        self.trigram_cache.size()
    }

    /// The byte total of the inverted cache.
    pub fn inverted_size(&self) -> (r: usize) {
        self.inverted_cache.size()
    }

    /// The byte total of both caches, saturating.
    pub fn total_size(&self) -> (r: usize) {
        let a = self.trigram_cache.size();
        let b = self.inverted_cache.size();
        if a <= usize::MAX - b {
            a + b
        } else {
            usize::MAX
        }
    }

    /// The trigram cache hit rate in thousandths.
    pub fn trigram_hit_rate(&self) -> (r: u64)
        ensures
            r <= 1000,
    {
        self.trigram_cache.hit_rate()
    }

    /// The inverted cache hit rate in thousandths.
    pub fn inverted_hit_rate(&self) -> (r: u64)
        ensures
            r <= 1000,
    {
        self.inverted_cache.hit_rate()
    }

    /// The average of the two hit rates, in thousandths.
    pub fn average_hit_rate(&self) -> (r: u64)
        ensures
            r <= 1000,
    {
        (self.trigram_cache.hit_rate() + self.inverted_cache.hit_rate()) / 2
    }
}

/// The byte estimate of a posting row.
fn row_size(row: &Vec<u32>) -> (r: usize) {
    let l = row.len();
    if l <= (usize::MAX - 16) / 4 {
        16 + l * 4
    } else {
        usize::MAX
    }
}

} // verus!
