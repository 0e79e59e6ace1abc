//! The document cache: documents by external id, size-bounded.

use vstd::prelude::*;

verus! {

use crate::document::Document;
use crate::lru_cache::LruCache;
use crate::trigram::chars_of;

/// Caches documents to avoid repeated storage access.
pub struct DocumentCache {
    cache: LruCache<Document>,
}

/// The cache key of a document id: its characters as code points.
pub open spec fn doc_key(id: Seq<char>) -> Seq<u32> {
    id.map_values(|c: char| c as u32)
}

/// The characters of an id as a code-point key.
fn encode_doc_key(id: &str) -> (r: Vec<u32>)
    ensures
        r@ == doc_key(id@),
{
    let cs = chars_of(id);
    let mut r: Vec<u32> = Vec::new();
    let mut i: usize = 0;
    while i < cs.len()
        invariant
            cs@ == id@,
            i <= cs@.len(),
            r@.len() == i,
            forall|j: int| 0 <= j < i ==> r@[j] == (cs@[j] as u32),
        decreases cs@.len() - i,
    {
        r.push(cs[i] as u32);
        i = i + 1;
    }
    proof {
        assert(r@ =~= doc_key(id@));
    }
    r
}

impl DocumentCache {
    pub closed spec fn cache_view(&self) -> LruCache<Document> {
        self.cache
    }

    pub open spec fn wf(&self) -> bool {
        self.cache_view().wf()
    }

    /// Whether a document with the id is cached.
    pub open spec fn has_doc(&self, id: Seq<char>) -> bool {
        self.cache_view().has_key(doc_key(id))
    }

    /// The cached document under the id.
    pub open spec fn doc_at(&self, id: Seq<char>) -> Document {
        self.cache_view().entry_of(doc_key(id)).value
    }

    /// Create a new document cache with the given byte budget.
    pub fn new(max_size: usize) -> (r: Self)
        ensures
            r.wf(),
            forall|id: Seq<char>| !r.has_doc(id),
    {
        DocumentCache { cache: LruCache::new(max_size) }
    }

    /// Get a document from the cache, refreshing its recency.
    pub fn get(&mut self, doc_id: &str) -> (r: Option<&Document>)
        requires
            old(self).wf(),
        ensures
            final(self).wf(),
            r is Some == old(self).has_doc(doc_id@),
            r matches Some(d) ==> *d == old(self).doc_at(doc_id@),
            forall|id: Seq<char>| final(self).has_doc(id) == old(self).has_doc(id),
    {
        let key = encode_doc_key(doc_id);
        self.cache.get(&key)
    }

    /// Put a document in the cache under its own id.
    pub fn put(&mut self, document: Document)
        requires
            old(self).wf(),
        ensures
            final(self).wf(),
            final(self).has_doc(document.id@),
            final(self).doc_at(document.id@) == document,
            // the recorded byte size is the walk over the document
            final(self).cache_view().entry_of(doc_key(document.id@)).size
                <= document_size_spec(document.id@, document.fields_model()),
            document_size_spec(document.id@, document.fields_model()) <= usize::MAX
                ==> final(self).cache_view().entry_of(doc_key(document.id@)).size as int
                == document_size_spec(document.id@, document.fields_model()),
    {
        let key = encode_doc_key(document.id.as_str());
        let size = estimate_document_size(&document);
        if self.cache.size() > usize::MAX - size {
            // absurd in practice; a cache may always drop its contents
            self.cache.clear();
        }
        let _ = self.cache.put(key, document, size);
    }

    /// Remove a document from the cache.
    pub fn remove(&mut self, doc_id: &str)
        requires
            old(self).wf(),
        ensures
            final(self).wf(),
            !final(self).has_doc(doc_id@),
            forall|id: Seq<char>|
                id != doc_id@ ==> final(self).has_doc(id) == old(self).has_doc(id),
    {
        let key = encode_doc_key(doc_id);
        let _ = self.cache.remove(&key);
        proof {
            assert forall|id: Seq<char>| id != doc_id@ implies self.has_doc(id) == old(
                self,
            ).has_doc(id) by {
                if doc_key(id) == doc_key(doc_id@) {
                    assert(doc_key(id).len() == id.len());
                    assert(doc_key(doc_id@).len() == doc_id@.len());
                    assert(id.len() == doc_id@.len());
                    assert forall|m: int| 0 <= m < id.len() implies id[m] == doc_id@[m] by {
                        assert(doc_key(id)[m] == doc_key(doc_id@)[m]);
                        assert((id[m] as u32) == (doc_id@[m] as u32));
                        crate::index::Index::lemma_char_code_inj(id[m], doc_id@[m]);
                    }
                    assert(id =~= doc_id@);
                }
            }
        }
    }

    /// Clear the cache.
    pub fn clear(&mut self)
        ensures
            final(self).wf(),
            forall|id: Seq<char>| !final(self).has_doc(id),
    {
        self.cache.clear();
    }

    /// The tracked byte total.
    pub fn size(&self) -> (r: usize) {
        self.cache.size()
    }

    /// The configured byte budget.
    pub fn max_size(&self) -> (r: usize) {
        self.cache.max_size()
    }

    /// The number of cached documents.
    pub fn len(&self) -> (r: usize) {
        self.cache.len()
    }

    pub fn is_empty(&self) -> (r: bool) {
        self.cache.is_empty()
    }

    /// The hit rate in thousandths.
    pub fn hit_rate(&self) -> (r: u64)
        ensures
            r <= 1000,
    {
        self.cache.hit_rate()
    }
}

/// The estimated byte size of one field value: the character count of
/// text, a flat word for anything else.
pub open spec fn value_size_spec(v: crate::document::FieldModel) -> int {
    match v {
        crate::document::FieldModel::Text(s) => s.len() as int,
        _ => 16,
    }
}

/// The estimated byte size of a field prefix: name lengths plus value
/// estimates.
pub open spec fn fields_size_spec(fields: Seq<(Seq<char>, crate::document::FieldModel)>) -> int
    decreases fields.len(),
{
    if fields.len() == 0 {
        0
    } else {
        fields_size_spec(fields.drop_last()) + fields.last().0.len() + value_size_spec(
            fields.last().1,
        )
    }
}

/// The estimated byte size of a document: a fixed overhead, its id's
/// length, and the walk over its fields.
pub open spec fn document_size_spec(id: Seq<char>, fields: Seq<(Seq<char>, crate::document::FieldModel)>) -> int {
    64 + id.len() + fields_size_spec(fields)
}

/// A size estimate for a document by walking its contents: its id, its
/// field names, and the length of each textual value; nested content is
/// charged a flat word.  Saturates at the machine limit.
pub(crate) fn estimate_document_size(document: &Document) -> (r: usize)
    ensures
        document_size_spec(document.id@, document.fields_model()) <= usize::MAX ==> r
            == document_size_spec(document.id@, document.fields_model()),
        r <= document_size_spec(document.id@, document.fields_model()),
{
    proof {
        lemma_fields_size_nonneg(document.fields_model());
    }
    let mut size: usize = 64;
    let sl = document.id.as_str().unicode_len();
    if size <= usize::MAX - sl {
        size = size + sl;
    } else {
        proof {
            assert(document_size_spec(document.id@, document.fields_model()) > usize::MAX);
            lemma_fields_size_prefix(document.fields_model(), document.fields_model().len() as int);
        }
        return usize::MAX;
    }
    let ghost fm = document.fields_model();
    let mut i: usize = 0;
    proof {
        assert(fm.take(0) =~= Seq::<(Seq<char>, crate::document::FieldModel)>::empty());
    }
    while i < document.fields.len()
        invariant
            fm == document.fields_model(),
            fm.len() == document.fields@.len(),
            i <= fm.len(),
            size as int == 64 + document.id@.len() + fields_size_spec(fm.take(i as int)),
        decreases document.fields@.len() - i,
    {
        proof {
            assert(fm.take(i + 1).drop_last() =~= fm.take(i as int));
            assert(fm.take(i + 1).last() == fm[i as int]);
            assert(fm[i as int] == (document.fields@[i as int].0@, document.fields@[
                i as int
            ].1.model()));
        }
        let nl = document.fields[i].0.as_str().unicode_len();
        let vl = value_size(&document.fields[i].1);
        if size <= usize::MAX - nl && size + nl <= usize::MAX - vl {
            size = size + nl + vl;
        } else {
            proof {
                assert(fields_size_spec(fm.take(i + 1)) == fields_size_spec(fm.take(i as int))
                    + nl + vl);
                lemma_fields_size_mono(fm, i + 1, fm.len() as int);
                assert(fm.take(fm.len() as int) =~= fm);
                assert(document_size_spec(document.id@, fm) > usize::MAX);
            }
            return usize::MAX;
        }
        i = i + 1;
    }
    proof {
        assert(fm.take(fm.len() as int) =~= fm);
    }
    size
}

/// The estimated byte size of one field value.
fn value_size(v: &crate::document::FieldValue) -> (r: usize)
    ensures
        r as int == value_size_spec(v.model()),
{
    match v {
        crate::document::FieldValue::Text(s) => s.as_str().unicode_len(),
        _ => 16,
    }
}

/// Document size estimates are non-negative.
pub proof fn lemma_document_size_nonneg(
    id: Seq<char>,
    fields: Seq<(Seq<char>, crate::document::FieldModel)>,
)
    ensures
        document_size_spec(id, fields) >= 64,
{
    lemma_fields_size_nonneg(fields);
}

/// Field size estimates are non-negative and grow with the prefix.
proof fn lemma_fields_size_nonneg(fields: Seq<(Seq<char>, crate::document::FieldModel)>)
    ensures
        fields_size_spec(fields) >= 0,
    decreases fields.len(),
{
    if fields.len() > 0 {
        lemma_fields_size_nonneg(fields.drop_last());
    }
}

proof fn lemma_fields_size_prefix(fields: Seq<(Seq<char>, crate::document::FieldModel)>, k: int)
    requires
        0 <= k <= fields.len(),
    ensures
        fields_size_spec(fields.take(k)) >= 0,
    decreases k,
{
    lemma_fields_size_nonneg(fields.take(k));
}

/// A longer prefix never shrinks the estimate.
proof fn lemma_fields_size_mono(
    fields: Seq<(Seq<char>, crate::document::FieldModel)>,
    a: int,
    b: int,
)
    requires
        0 <= a <= b <= fields.len(),
    ensures
        fields_size_spec(fields.take(a)) <= fields_size_spec(fields.take(b)),
    decreases b - a,
{
    if a < b {
        lemma_fields_size_mono(fields, a, b - 1);
        assert(fields.take(b).drop_last() =~= fields.take(b - 1));
        let last = fields.take(b).last();
        assert(value_size_spec(last.1) >= 0) by {
            match last.1 {
                crate::document::FieldModel::Text(s) => {},
                _ => {},
            }
        }
    }
}

} // verus!
