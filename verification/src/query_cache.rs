//! The query cache: search results keyed by the query string and the
//! search options, size-bounded.

use vstd::prelude::*;

verus! {

use crate::lru_cache::LruCache;
use crate::search::{SearchOptions, SearchResult};
use crate::trigram::chars_of;

/// Caches search results to avoid repeated ranking.
pub struct QueryCache {
    cache: LruCache<Vec<SearchResult>>,
}

/// The cache key of a query: the options in a fixed-width prefix, then
/// the query's code points.  The shape makes the encoding injective.
pub open spec fn query_key(q: Seq<char>, o: SearchOptions) -> Seq<u32> {
    seq![
        (o.max_distance as u64 % 0x100000000) as u32,
        (o.max_distance as u64 / 0x100000000) as u32,
        o.score_threshold,
        (o.limit as u64 % 0x100000000) as u32,
        (o.limit as u64 / 0x100000000) as u32,
    ] + q.map_values(|c: char| c as u32)
}

/// Equal keys come from equal queries and options.
pub proof fn lemma_query_key_injective(
    q1: Seq<char>,
    o1: SearchOptions,
    q2: Seq<char>,
    o2: SearchOptions,
)
    requires
        query_key(q1, o1) == query_key(q2, o2),
    ensures
        q1 == q2,
        o1 == o2,
{
    let k1 = query_key(q1, o1);
    let k2 = query_key(q2, o2);
    assert(k1.len() == 5 + q1.len());
    assert(k2.len() == 5 + q2.len());
    assert(q1.len() == q2.len());
    assert forall|m: int| 0 <= m < q1.len() implies q1[m] == q2[m] by {
        assert(k1[m + 5] == k2[m + 5]);
        assert((q1[m] as u32) == (q2[m] as u32));
        crate::index::Index::lemma_char_code_inj(q1[m], q2[m]);
    }
    assert(q1 =~= q2);
    assert(k1[0] == k2[0] && k1[1] == k2[1] && k1[2] == k2[2] && k1[3] == k2[3] && k1[4]
        == k2[4]);
    assert(o1.max_distance == o2.max_distance) by {
        assert((o1.max_distance as u64) == (o1.max_distance as u64 / 0x100000000) * 0x100000000
            + (o1.max_distance as u64 % 0x100000000)) by (nonlinear_arith);
        assert((o2.max_distance as u64) == (o2.max_distance as u64 / 0x100000000) * 0x100000000
            + (o2.max_distance as u64 % 0x100000000)) by (nonlinear_arith);
    }
    assert(o1.limit == o2.limit) by {
        assert((o1.limit as u64) == (o1.limit as u64 / 0x100000000) * 0x100000000 + (
        o1.limit as u64 % 0x100000000)) by (nonlinear_arith);
        assert((o2.limit as u64) == (o2.limit as u64 / 0x100000000) * 0x100000000 + (
        o2.limit as u64 % 0x100000000)) by (nonlinear_arith);
    }
}

/// The executable key encoding.
fn encode_query_key(query: &str, options: &SearchOptions) -> (r: Vec<u32>)
    ensures
        r@ == query_key(query@, *options),
{
    let mut r: Vec<u32> = Vec::new();
    r.push((options.max_distance as u64 % 0x100000000) as u32);
    r.push((options.max_distance as u64 / 0x100000000) as u32);
    r.push(options.score_threshold);
    r.push((options.limit as u64 % 0x100000000) as u32);
    r.push((options.limit as u64 / 0x100000000) as u32);
    let cs = chars_of(query);
    let mut i: usize = 0;
    while i < cs.len()
        invariant
            cs@ == query@,
            i <= cs@.len(),
            r@.len() == 5 + i,
            forall|j: int| 0 <= j < i ==> r@[5 + j] == (cs@[j] as u32),
            r@[0] == (options.max_distance as u64 % 0x100000000) as u32,
            r@[1] == (options.max_distance as u64 / 0x100000000) as u32,
            r@[2] == options.score_threshold,
            r@[3] == (options.limit as u64 % 0x100000000) as u32,
            r@[4] == (options.limit as u64 / 0x100000000) as u32,
        decreases cs@.len() - i,
    {
        r.push(cs[i] as u32);
        i = i + 1;
    }
    proof {
        assert(r@ =~= query_key(query@, *options));
    }
    r
}

impl QueryCache {
    pub closed spec fn cache_view(&self) -> LruCache<Vec<SearchResult>> {
        self.cache
    }

    pub open spec fn wf(&self) -> bool {
        self.cache_view().wf()
    }

    /// Whether results are cached for the query and options.
    pub open spec fn has_entry(&self, q: Seq<char>, o: SearchOptions) -> bool {
        self.cache_view().has_key(query_key(q, o))
    }

    /// The cached results for the query and options.
    pub open spec fn entry(&self, q: Seq<char>, o: SearchOptions) -> Seq<SearchResult> {
        self.cache_view().entry_of(query_key(q, o)).value@
    }

    /// Create a new query cache with the given byte budget.
    pub fn new(max_size: usize) -> (r: Self)
        ensures
            r.wf(),
            forall|q: Seq<char>, o: SearchOptions| !r.has_entry(q, o),
    {
        QueryCache { cache: LruCache::new(max_size) }
    }

    /// Get cached results, refreshing their recency.
    pub fn get(&mut self, query: &str, options: &SearchOptions) -> (r: Option<&Vec<SearchResult>>)
        requires
            old(self).wf(),
        ensures
            final(self).wf(),
            r is Some == old(self).has_entry(query@, *options),
            r matches Some(v) ==> v@ == old(self).entry(query@, *options),
            forall|q: Seq<char>, o: SearchOptions|
                final(self).has_entry(q, o) == old(self).has_entry(q, o),
            forall|q: Seq<char>, o: SearchOptions|
                old(self).has_entry(q, o) ==> final(self).entry(q, o) == old(self).entry(q, o),
    {
        let key = encode_query_key(query, options);
        self.cache.get(&key)
    }

    /// Cache results for a query and options.
    pub fn put(&mut self, query: &str, options: &SearchOptions, results: Vec<SearchResult>)
        requires
            old(self).wf(),
        ensures
            final(self).wf(),
            final(self).has_entry(query@, *options),
            final(self).entry(query@, *options) == results@,
            // the recorded byte size is the walk over the results
            final(self).cache_view().entry_of(query_key(query@, *options)).size
                <= results_size_spec(results@),
            results_size_spec(results@) <= usize::MAX ==> final(self).cache_view().entry_of(
                query_key(query@, *options),
            ).size as int == results_size_spec(results@),
            forall|q: Seq<char>, o: SearchOptions|
                (q != query@ || o != *options) && #[trigger] final(self).has_entry(q, o) ==> (
                old(self).has_entry(q, o) && final(self).entry(q, o) == old(self).entry(q, o)),
    {
        let key = encode_query_key(query, options);
        let size = results_size(&results);
        if self.cache.size() > usize::MAX - size {
            self.cache.clear();
        }
        let _ = self.cache.put(key, results, size);
        proof {
            assert forall|q: Seq<char>, o: SearchOptions|
                (q != query@ || o != *options) && #[trigger] self.has_entry(q, o) implies (old(
                self,
            ).has_entry(q, o) && self.entry(q, o) == old(self).entry(q, o)) by {
                if query_key(q, o) == query_key(query@, *options) {
                    lemma_query_key_injective(q, o, query@, *options);
                }
            }
        }
    }

    /// Clear the cache.
    pub fn clear(&mut self)
        ensures
            final(self).wf(),
            forall|q: Seq<char>, o: SearchOptions| !final(self).has_entry(q, o),
            final(self).cache_view().entries_view().len() == 0,
    {
        self.cache.clear();
    }

    /// The tracked byte total.
    pub fn size(&self) -> (r: usize) {
        self.cache.size()
    }

    /// The configured byte budget.
    pub fn max_size(&self) -> (r: usize) {
        self.cache.max_size()
    }

    /// The number of cached queries.
    pub fn len(&self) -> (r: usize) {
        self.cache.len()
    }

    pub fn is_empty(&self) -> (r: bool) {
        self.cache.is_empty()
    }

    /// The hit rate in thousandths.
    pub fn hit_rate(&self) -> (r: u64)
        ensures
            r <= 1000,
    {
        self.cache.hit_rate()
    }
}

/// The estimated byte size of a result list: a flat charge per entry
/// plus each document's walk.
pub open spec fn results_size_spec(rs: Seq<SearchResult>) -> int
    decreases rs.len(),
{
    if rs.len() == 0 {
        32
    } else {
        results_size_spec(rs.drop_last()) + 32 + crate::document_cache::document_size_spec(
            rs.last().document.id@,
            rs.last().document.fields_model(),
        )
    }
}

/// The byte estimate of a result list by walking it; saturates at the
/// machine limit and never over-reports.
fn results_size(results: &Vec<SearchResult>) -> (r: usize)
    ensures
        results_size_spec(results@) <= usize::MAX ==> r == results_size_spec(results@),
        r <= results_size_spec(results@),
{
    let mut size: usize = 32;
    let mut i: usize = 0;
    proof {
        assert(results@.take(0) =~= Seq::<SearchResult>::empty());
    }
    while i < results.len()
        invariant
            i <= results@.len(),
            size as int <= results_size_spec(results@.take(i as int)),
            results_size_spec(results@.take(i as int)) <= usize::MAX ==> size as int
                == results_size_spec(results@.take(i as int)),
        decreases results@.len() - i,
    {
        let ghost spec_d = crate::document_cache::document_size_spec(
            results@[i as int].document.id@,
            results@[i as int].document.fields_model(),
        );
        proof {
            assert(results@.take(i + 1).drop_last() =~= results@.take(i as int));
            assert(results@.take(i + 1).last() == results@[i as int]);
            crate::document_cache::lemma_document_size_nonneg(
                results@[i as int].document.id@,
                results@[i as int].document.fields_model(),
            );
            lemma_results_size_mono(results@, i as int, i + 1);
        }
        let d = crate::document_cache::estimate_document_size(&results[i].document);
        if size <= usize::MAX - 32 && size + 32 <= usize::MAX - d {
            size = size + 32 + d;
        } else {
            proof {
                assert(results_size_spec(results@.take(i + 1)) > usize::MAX);
                lemma_results_size_mono(results@, i + 1, results@.len() as int);
                assert(results@.take(results@.len() as int) =~= results@);
                assert(results_size_spec(results@) > usize::MAX);
            }
            return usize::MAX;
        }
        i = i + 1;
    }
    proof {
        assert(results@.take(results@.len() as int) =~= results@);
    }
    size
}

/// A longer prefix never shrinks the estimate.
proof fn lemma_results_size_mono(rs: Seq<SearchResult>, a: int, b: int)
    requires
        0 <= a <= b <= rs.len(),
    ensures
        results_size_spec(rs.take(a)) <= results_size_spec(rs.take(b)),
    decreases b - a,
{
    if a < b {
        lemma_results_size_mono(rs, a, b - 1);
        assert(rs.take(b).drop_last() =~= rs.take(b - 1));
        crate::document_cache::lemma_document_size_nonneg(
            rs.take(b).last().document.id@,
            rs.take(b).last().document.fields_model(),
        );
    }
}

} // verus!
