//! The index core: the document map, the inverted posting lists, the
//! trigram-to-token postings and the interner.
//!
//! Strings are interned to dense 32-bit ids; the document map and both
//! posting tables are vectors indexed by id.  The public specification
//! speaks at the string level: which documents are present, which
//! document ids each token posting holds, and which tokens each trigram
//! posting refers to.

use vstd::prelude::*;

verus! {

use crate::document::{all_texts, text_of, Document, FieldModel};
use crate::error::TigerCacheError;
use crate::intern::{intern_post, StringId, StringInterner};
use crate::search::{SearchOptions, SearchResult};
use crate::trigram::{
    contains_string, extract_tokens, extract_tokens_spec, generate_trigrams, normalise_spec,
    normalize_text, trigrams_of,
};

/// The Levenshtein edit distance: the least number of single-character
/// insertions, deletions and substitutions turning `a` into `b`.
pub open spec fn lev(a: Seq<char>, b: Seq<char>) -> nat
    decreases a.len(), b.len(),
{
    if a.len() == 0 {
        b.len()
    } else if b.len() == 0 {
        a.len()
    } else {
        let d1 = lev(a.drop_last(), b) + 1;
        let d2 = lev(a, b.drop_last()) + 1;
        let d3 = lev(a.drop_last(), b.drop_last()) + (if a.last() == b.last() {
            0nat
        } else {
            1nat
        });
        if d1 <= d2 && d1 <= d3 {
            d1
        } else if d2 <= d3 {
            d2
        } else {
            d3
        }
    }
}

/// Relies on `levenshtein::levenshtein`: the edit distance between the
/// two strings' character sequences.
#[verifier::external_body]
fn levenshtein_distance(a: &str, b: &str) -> (r: usize)
    ensures
        r == lev(a@, b@),
{
    levenshtein::levenshtein(a, b)
}

/// The strings at the given ids, in order.
pub open spec fn ids_to_strs(s: Seq<u32>, strs: Seq<Seq<char>>) -> Seq<Seq<char>> {
    Seq::new(s.len(), |i: int| strs[s[i] as int])
}

/// `s` with every occurrence of `did` removed, order kept.
pub open spec fn ids_filter(s: Seq<u32>, did: u32) -> Seq<u32>
    decreases s.len(),
{
    if s.len() == 0 {
        Seq::empty()
    } else {
        let r = ids_filter(s.drop_last(), did);
        if s.last() != did {
            r.push(s.last())
        } else {
            r
        }
    }
}

/// `s` with every occurrence of `id` removed, order kept.
pub open spec fn strs_filter(s: Seq<Seq<char>>, id: Seq<char>) -> Seq<Seq<char>>
    decreases s.len(),
{
    if s.len() == 0 {
        Seq::empty()
    } else {
        let r = strs_filter(s.drop_last(), id);
        if s.last() != id {
            r.push(s.last())
        } else {
            r
        }
    }
}

/// The main index structure that holds documents and search indices.
pub struct Index {
    /// Documents by interned id of their external id string.
    documents: Vec<Option<Document>>,
    /// Number of documents present.
    doc_count: usize,
    /// Inverted index: token id to ids of documents holding the token.
    inverted_index: Vec<Vec<u32>>,
    /// Trigram index: trigram id to ids of tokens holding the trigram.
    trigram_index: Vec<Vec<u32>>,
    /// String interner shared by documents, tokens and trigrams.
    interner: StringInterner,
    /// Names of the fields to index; empty means all textual fields.
    indexed_fields: Vec<String>,
}

impl Index {
    // -----------------------------------------------------------------
    // Id-level specification (internal).
    // -----------------------------------------------------------------

    /// The interned strings, by id.
    pub closed spec fn strs(&self) -> Seq<Seq<char>> {
        self.interner@
    }

    /// The number of interned strings.
    pub closed spec fn n(&self) -> int {
        self.interner@.len() as int
    }

    /// The document stored under interned id `did`, if any.
    pub closed spec fn doc_at(&self, did: int) -> Option<Document> {
        if 0 <= did < self.documents@.len() {
            self.documents@[did]
        } else {
            None
        }
    }

    /// Whether a document is stored under interned id `did`.
    pub closed spec fn doc_live(&self, did: int) -> bool {
        self.doc_at(did) is Some
    }

    /// The inverted posting of token id `tid`: document ids, in insertion
    /// order.
    pub closed spec fn inv_at(&self, tid: int) -> Seq<u32> {
        if 0 <= tid < self.inverted_index@.len() {
            self.inverted_index@[tid]@
        } else {
            Seq::empty()
        }
    }

    /// The trigram posting of trigram id `gid`: token ids.
    pub closed spec fn trig_at(&self, gid: int) -> Seq<u32> {
        if 0 <= gid < self.trigram_index@.len() {
            self.trigram_index@[gid]@
        } else {
            Seq::empty()
        }
    }

    /// The interned id of string `s`, when interned.
    pub closed spec fn tid_of(&self, s: Seq<char>) -> int {
        choose|i: int| 0 <= i < self.n() && self.strs()[i] == s
    }

    /// Whether `s` is interned.
    pub closed spec fn interned(&self, s: Seq<char>) -> bool {
        self.strs().contains(s)
    }

    // -----------------------------------------------------------------
    // String-level specification (the public model).
    // -----------------------------------------------------------------

    /// Whether a document with external id `s` is present.
    pub closed spec fn has_doc(&self, s: Seq<char>) -> bool {
        exists|i: int| 0 <= i < self.n() && self.strs()[i] == s && self.doc_live(i)
    }

    /// The fields of the document with external id `s`.
    pub closed spec fn doc_fields(&self, s: Seq<char>) -> Seq<(Seq<char>, FieldModel)> {
        self.doc_at(self.tid_of(s))->Some_0.fields_model()
    }

    /// The number of documents present.
    pub closed spec fn doc_count_spec(&self) -> int {
        self.doc_count as int
    }

    /// The document ids in the inverted posting of token `t`, as strings,
    /// in insertion order.
    pub closed spec fn posting(&self, t: Seq<char>) -> Seq<Seq<char>> {
        if self.interned(t) {
            ids_to_strs(self.inv_at(self.tid_of(t)), self.strs())
        } else {
            Seq::empty()
        }
    }

    /// The tokens in the trigram posting of trigram `g`, as a set.
    pub closed spec fn trig_tokens(&self, g: Seq<char>) -> Set<Seq<char>> {
        if self.interned(g) {
            ids_to_strs(self.trig_at(self.tid_of(g)), self.strs()).to_set()
        } else {
            Set::empty()
        }
    }

    /// The configured indexed field names.
    pub closed spec fn cfg(&self) -> Seq<Seq<char>> {
        self.indexed_fields.deep_view()
    }

    /// The number of `Some` entries in a document vector prefix.
    pub closed spec fn count_live_upto(docs: Seq<Option<Document>>, k: int) -> int
        decreases k,
    {
        if k <= 0 {
            0
        } else {
            Self::count_live_upto(docs, k - 1) + (if docs[k - 1] is Some {
                1int
            } else {
                0int
            })
        }
    }

    /// Well-formedness: the interner is duplicate-free, the tables are
    /// indexed by valid ids, postings point at live documents without
    /// duplicates, and every stored document is keyed by its own id.
    pub closed spec fn wf(&self) -> bool {
        &&& self.interner.wf()
        &&& self.documents@.len() <= self.n()
        &&& self.inverted_index@.len() <= self.n()
        &&& self.trigram_index@.len() <= self.n()
        &&& self.doc_count == Self::count_live_upto(self.documents@, self.documents@.len() as int)
        &&& forall|tid: int, k: int|
            0 <= tid < self.n() && 0 <= k < self.inv_at(tid).len() ==> self.doc_live(
                #[trigger] self.inv_at(tid)[k] as int,
            )
        &&& forall|tid: int| 0 <= tid < self.n() ==> (#[trigger] self.inv_at(tid)).no_duplicates()
        &&& forall|gid: int, k: int|
            0 <= gid < self.n() && 0 <= k < self.trig_at(gid).len() ==> 0 <= (
            #[trigger] self.trig_at(gid)[k] as int) < self.n()
        &&& forall|did: int|
            0 <= did < self.documents@.len() && self.doc_live(did) ==> ((#[trigger] self.doc_at(
                did,
            ))->Some_0.id@ == self.strs()[did] && self.doc_at(did)->Some_0.wf())
    }

    // -----------------------------------------------------------------
    // Construction and simple operations.
    // -----------------------------------------------------------------

    /// Create a new empty index.
    pub fn new() -> (r: Self)
        ensures
            r.wf(),
            r.doc_count_spec() == 0,
            forall|s: Seq<char>| !r.has_doc(s),
            forall|t: Seq<char>| r.posting(t) == Seq::<Seq<char>>::empty(),
            forall|g: Seq<char>| r.trig_tokens(g) == Set::<Seq<char>>::empty(),
            r.cfg() == Seq::<Seq<char>>::empty(),
    {
        let r = Index {
            documents: Vec::new(),
            doc_count: 0,
            inverted_index: Vec::new(),
            trigram_index: Vec::new(),
            interner: StringInterner::new(),
            indexed_fields: Vec::new(),
        };
        proof {
            assert(r.cfg() =~= Seq::<Seq<char>>::empty());
            assert(forall|t: Seq<char>| r.posting(t) =~= Seq::<Seq<char>>::empty());
            assert(forall|g: Seq<char>| r.trig_tokens(g) =~= Set::<Seq<char>>::empty());
        }
        r
    }

    /// Replace the set of indexed field names; effective only for
    /// subsequent ingests.
    pub fn set_indexed_fields(&mut self, fields: Vec<String>)
        requires
            old(self).wf(),
        ensures
            final(self).wf(),
            final(self).cfg() == fields.deep_view(),
            final(self).same_content(old(self)),
    {
        self.indexed_fields = fields;
        proof {
            assert(self.cfg() =~= fields.deep_view());
            Self::lemma_same_tables(old(self), self);
        }
    }

    /// Two indexes with the same tables have the same content; the
    /// configured field names play no part in it.
    proof fn lemma_same_tables(a: &Index, b: &Index)
        requires
            a.wf(),
            a.documents == b.documents,
            a.doc_count == b.doc_count,
            a.inverted_index == b.inverted_index,
            a.trigram_index == b.trigram_index,
            a.interner == b.interner,
        ensures
            b.wf(),
            b.same_content(a),
    {
        assert forall|tid: int| true implies #[trigger] b.inv_at(tid) == a.inv_at(tid) by {}
        assert forall|gid: int| true implies #[trigger] b.trig_at(gid) == a.trig_at(gid) by {}
        assert forall|did: int| true implies #[trigger] b.doc_at(did) == a.doc_at(did) by {}
        assert forall|tid: int, k: int|
            0 <= tid < b.n() && 0 <= k < b.inv_at(tid).len() implies b.doc_live(
            #[trigger] b.inv_at(tid)[k] as int,
        ) by {
            assert(a.doc_live(a.inv_at(tid)[k] as int));
            assert(b.doc_at(b.inv_at(tid)[k] as int) == a.doc_at(a.inv_at(tid)[k] as int));
        }
        assert forall|did: int|
            0 <= did < b.documents@.len() && b.doc_live(did) implies ((#[trigger] b.doc_at(
            did,
        ))->Some_0.id@ == b.strs()[did] && b.doc_at(did)->Some_0.wf()) by {
            assert(a.doc_live(did));
        }
        assert(b.wf());
        assert forall|s: Seq<char>| true implies #[trigger] b.has_doc(s) == a.has_doc(s) by {
            if a.has_doc(s) {
                let i = choose|i: int|
                    0 <= i < a.n() && a.strs()[i] == s && a.doc_live(i);
                assert(b.doc_live(i));
                assert(b.has_doc(s));
            }
            if b.has_doc(s) {
                let i = choose|i: int|
                    0 <= i < b.n() && b.strs()[i] == s && b.doc_live(i);
                assert(a.doc_live(i));
                assert(a.has_doc(s));
            }
        }
        assert forall|s: Seq<char>| a.has_doc(s) implies #[trigger] b.doc_fields(s)
            == a.doc_fields(s) by {
            assert(b.tid_of(s) == a.tid_of(s));
        }
        assert forall|t: Seq<char>| true implies #[trigger] b.posting(t) == a.posting(t) by {
            if a.interned(t) {
                assert(b.interned(t));
                assert(b.tid_of(t) == a.tid_of(t));
            } else {
                assert(!b.interned(t));
            }
        }
        assert forall|g: Seq<char>| true implies #[trigger] b.trig_tokens(g) == a.trig_tokens(
            g,
        ) by {
            if a.interned(g) {
                assert(b.interned(g));
                assert(b.tid_of(g) == a.tid_of(g));
            } else {
                assert(!b.interned(g));
            }
        }
    }

    /// Both indexes hold the same documents, postings and trigram sets.
    pub open spec fn same_content(&self, other: &Index) -> bool {
        &&& forall|s: Seq<char>| #[trigger] self.has_doc(s) == other.has_doc(s)
        &&& forall|s: Seq<char>|
            other.has_doc(s) ==> #[trigger] self.doc_fields(s) == other.doc_fields(s)
        &&& self.doc_count_spec() == other.doc_count_spec()
        &&& forall|t: Seq<char>| #[trigger] self.posting(t) == other.posting(t)
        &&& forall|g: Seq<char>| #[trigger] self.trig_tokens(g) == other.trig_tokens(g)
    }

    /// Get a document by external id.
    pub fn get_document(&self, doc_id: &str) -> (r: Option<&Document>)
        requires
            self.wf(),
        ensures
            match r {
                Some(d) => self.has_doc(doc_id@) && d.id@ == doc_id@ && d.fields_model()
                    == self.doc_fields(doc_id@) && d.wf(),
                None => !self.has_doc(doc_id@),
            },
    {
        match self.interner.get_id(doc_id) {
            Some(id) => {
                let i = id.0 as usize;
                if i < self.documents.len() {
                    match &self.documents[i] {
                        Some(d) => {
                            proof {
                                assert(self.doc_live(i as int));
                                assert(self.has_doc(doc_id@));
                                let j = self.tid_of(doc_id@);
                                assert(self.strs()[j] == doc_id@ && self.strs()[i as int]
                                    == doc_id@);
                                if j != i as int {
                                    assert(false);
                                }
                            }
                            Some(d)
                        },
                        None => {
                            proof {
                                if self.has_doc(doc_id@) {
                                    let j = choose|j: int|
                                        0 <= j < self.n() && self.strs()[j] == doc_id@
                                            && self.doc_live(j);
                                    assert(self.strs()[j] == self.strs()[i as int]);
                                    assert(j == i as int);
                                }
                            }
                            None
                        },
                    }
                } else {
                    proof {
                        if self.has_doc(doc_id@) {
                            let j = choose|j: int|
                                0 <= j < self.n() && self.strs()[j] == doc_id@ && self.doc_live(
                                    j,
                                );
                            assert(self.strs()[j] == self.strs()[i as int]);
                            assert(j == i as int);
                        }
                    }
                    None
                }
            },
            None => {
                proof {
                    if self.has_doc(doc_id@) {
                        let j = choose|j: int|
                            0 <= j < self.n() && self.strs()[j] == doc_id@ && self.doc_live(j);
                        assert(self.strs().contains(doc_id@));
                    }
                }
                None
            },
        }
    }

    /// The number of documents in the index.
    pub fn document_count(&self) -> (r: usize)
        ensures
            r == self.doc_count_spec(),
    {
        self.doc_count
    }

    /// The external ids of the documents containing `token`, in posting
    /// order.
    pub fn get_documents_for_token(&self, token: &str) -> (r: Vec<String>)
        requires
            self.wf(),
        ensures
            r.deep_view() == self.posting(token@),
    {
        match self.interner.get_id(token) {
            Some(id) => {
                let tid = id.0 as usize;
                proof {
                    let j = self.tid_of(token@);
                    assert(self.strs()[j] == token@ && self.strs()[tid as int] == token@);
                    if j != tid as int {
                        assert(false);
                    }
                }
                if tid < self.inverted_index.len() {
                    let ids = &self.inverted_index[tid];
                    let mut r: Vec<String> = Vec::new();
                    let mut k: usize = 0;
                    while k < ids.len()
                        invariant
                            self.wf(),
                            tid < self.inverted_index@.len(),
                            ids == self.inverted_index@[tid as int],
                            tid as int == self.tid_of(token@),
                            self.interned(token@),
                            k <= ids@.len(),
                            r.deep_view() == ids_to_strs(self.inv_at(tid as int), self.strs()).take(
                                k as int,
                            ),
                        decreases ids@.len() - k,
                    {
                        let d = ids[k];
                        proof {
                            assert(self.inv_at(tid as int)[k as int] == d);
                            assert(self.doc_live(d as int));
                            assert(self.doc_at(d as int)->Some_0.id@ == self.strs()[d as int]);
                        }
                        let doc = match &self.documents[d as usize] {
                            Some(doc) => doc,
                            None => {
                                proof {
                                    assert(false);
                                }
                                return Vec::new();
                            },
                        };
                        let ghost r0 = r.deep_view();
                        r.push(doc.id.clone());
                        proof {
                            assert(r.deep_view() =~= r0.push(doc.id@));
                            assert(r.deep_view() =~= ids_to_strs(
                                self.inv_at(tid as int),
                                self.strs(),
                            ).take(k + 1));
                        }
                        k = k + 1;
                    }
                    proof {
                        let m = ids_to_strs(self.inv_at(tid as int), self.strs());
                        assert(m.take(m.len() as int) =~= m);
                        assert(r.deep_view() == self.posting(token@));
                    }
                    r
                } else {
                    proof {
                        assert(self.inv_at(tid as int) =~= Seq::<u32>::empty());
                        assert(self.posting(token@) =~= Seq::<Seq<char>>::empty());
                    }
                    let r: Vec<String> = Vec::new();
                    proof {
                        assert(r.deep_view() =~= Seq::<Seq<char>>::empty());
                    }
                    r
                }
            },
            None => {
                proof {
                    assert(!self.interned(token@));
                    assert(self.posting(token@) =~= Seq::<Seq<char>>::empty());
                }
                let r: Vec<String> = Vec::new();
                proof {
                    assert(r.deep_view() =~= Seq::<Seq<char>>::empty());
                }
                r
            },
        }
    }

    /// The interner, for inspection.
    pub fn interner(&self) -> (r: &StringInterner)
        ensures
            r@ == self.strs(),
            self.wf() ==> r.wf(),
    {
        &self.interner
    }

    /// The interned id of `s` is the unique position holding `s`.
    proof fn lemma_tid_of(a: &Index, s: Seq<char>)
        requires
            a.wf(),
            a.interned(s),
        ensures
            0 <= a.tid_of(s) < a.n(),
            a.strs()[a.tid_of(s)] == s,
            forall|j: int| 0 <= j < a.n() && a.strs()[j] == s ==> j == a.tid_of(s),
    {
        let w = choose|j: int| 0 <= j < a.strs().len() && a.strs()[j] == s;
        assert(a.strs()[w] == s);
        assert(0 <= a.tid_of(s) < a.n() && a.strs()[a.tid_of(s)] == s);
        assert forall|j: int| 0 <= j < a.n() && a.strs()[j] == s implies j == a.tid_of(s) by {
            if j != a.tid_of(s) {
                assert(a.strs()[j] == a.strs()[a.tid_of(s)]);
                assert(false);
            }
        }
    }

    /// A live entry makes the live count positive.
    proof fn lemma_count_pos(docs: Seq<Option<Document>>, i: int, k: int)
        requires
            0 <= i < k <= docs.len(),
            docs[i] is Some,
        ensures
            Self::count_live_upto(docs, k) >= 1,
            Self::count_live_upto(docs, k) >= 0,
        decreases k,
    {
        if i < k - 1 {
            Self::lemma_count_pos(docs, i, k - 1);
            Self::lemma_count_nonneg(docs, k);
        } else {
            Self::lemma_count_nonneg(docs, k - 1);
        }
    }

    /// The live count is never negative.
    proof fn lemma_count_nonneg(docs: Seq<Option<Document>>, k: int)
        ensures
            Self::count_live_upto(docs, k) >= 0,
        decreases k,
    {
        if k > 0 {
            Self::lemma_count_nonneg(docs, k - 1);
        }
    }

    // -----------------------------------------------------------------
    // Removal.
    // -----------------------------------------------------------------

    /// What a successful removal guarantees: the document is gone, every
    /// inverted posting is filtered free of its id, and the trigram index
    /// is left untouched.
    pub open spec fn remove_post(a: &Index, b: &Index, id: Seq<char>) -> bool {
        &&& forall|s: Seq<char>| #[trigger] b.has_doc(s) == (a.has_doc(s) && s != id)
        &&& forall|s: Seq<char>|
            a.has_doc(s) && s != id ==> #[trigger] b.doc_fields(s) == a.doc_fields(s)
        &&& b.doc_count_spec() == a.doc_count_spec() - 1
        &&& forall|t: Seq<char>| #[trigger] b.posting(t) == strs_filter(a.posting(t), id)
        &&& forall|g: Seq<char>| #[trigger] b.trig_tokens(g) == a.trig_tokens(g)
        &&& b.cfg() == a.cfg()
    }

    /// Remove a document from the index.  Fails exactly when no document
    /// with that id is present; each inverted posting is filtered free of
    /// the document, and trigram postings are left to be skipped at query
    /// time.
    pub fn remove_document(&mut self, doc_id: &str) -> (r: Result<(), TigerCacheError>)
        requires
            old(self).wf(),
        ensures
            final(self).wf(),
            final(self).strs() == old(self).strs(),
            match r {
                Ok(_) => old(self).has_doc(doc_id@) && Self::remove_post(
                    old(self),
                    final(self),
                    doc_id@,
                ),
                Err(e) => {
                    &&& !old(self).has_doc(doc_id@)
                    &&& e matches TigerCacheError::DocumentNotFound(m) && m@ == doc_id@
                    &&& final(self).same_content(old(self))
                    &&& final(self).cfg() == old(self).cfg()
                },
            },
    {
        let did = match self.interner.get_id(doc_id) {
            Some(id) => id.0 as usize,
            None => {
                proof {
                    if self.has_doc(doc_id@) {
                        let j = choose|j: int|
                            0 <= j < self.n() && self.strs()[j] == doc_id@ && self.doc_live(j);
                        assert(self.strs().contains(doc_id@));
                    }
                    Self::lemma_same_tables(self, self);
                }
                return Err(TigerCacheError::DocumentNotFound(doc_id.to_owned()));
            },
        };
        proof {
            let j = self.tid_of(doc_id@);
            assert(self.strs()[did as int] == doc_id@);
            if self.interned(doc_id@) && j != did as int {
                assert(false);
            }
        }
        let live = did < self.documents.len() && self.documents[did].is_some();
        if !live {
            proof {
                if self.has_doc(doc_id@) {
                    let j = choose|j: int|
                        0 <= j < self.n() && self.strs()[j] == doc_id@ && self.doc_live(j);
                    assert(j == did as int);
                }
                Self::lemma_same_tables(self, self);
            }
            return Err(TigerCacheError::DocumentNotFound(doc_id.to_owned()));
        }
        proof {
            assert(self.doc_live(did as int));
            assert(self.has_doc(doc_id@));
        }
        let ghost a = *self;
        let did32 = did as u32;

        // Filter every inverted posting free of the document id.
        let mut tid: usize = 0;
        while tid < self.inverted_index.len()
            invariant
                a.wf(),
                did32 as int == did,
                a.doc_live(did as int),
                self.documents == a.documents,
                self.doc_count == a.doc_count,
                self.trigram_index == a.trigram_index,
                self.interner == a.interner,
                self.indexed_fields == a.indexed_fields,
                self.inverted_index@.len() == a.inverted_index@.len(),
                tid <= self.inverted_index@.len(),
                forall|j: int|
                    0 <= j < tid ==> (#[trigger] self.inverted_index@[j])@ == ids_filter(
                        a.inverted_index@[j]@,
                        did32,
                    ),
                forall|j: int|
                    tid <= j < self.inverted_index@.len() ==> #[trigger] self.inverted_index@[j]
                        == a.inverted_index@[j],
            decreases self.inverted_index@.len() - tid,
        {
            let filtered = filter_posting(&self.inverted_index[tid], did32);
            self.inverted_index.set(tid, filtered);
            tid = tid + 1;
        }

        // Remove the document itself.
        proof {
            Self::lemma_count_update(self.documents@, did as int);
            Self::lemma_count_pos(self.documents@, did as int, self.documents@.len() as int);
        }
        self.documents.set(did, None);
        self.doc_count = self.doc_count - 1;

        proof {
            let b = self;
            // Identity of ids is unchanged.
            assert(b.strs() == a.strs());
            assert forall|x: int| true implies #[trigger] b.trig_at(x) == a.trig_at(x) by {}
            assert forall|x: int|
                0 <= x < b.n() implies #[trigger] b.inv_at(x) == ids_filter(
                a.inv_at(x),
                did32,
            ) by {
                if x < b.inverted_index@.len() {
                } else {
                    assert(a.inv_at(x) =~= Seq::<u32>::empty());
                }
            }
            assert forall|x: int| 0 <= x < b.n() && x != did as int implies #[trigger] b.doc_at(
                x,
            ) == a.doc_at(x) by {}
            // Well-formedness.
            assert forall|t: int, k: int|
                0 <= t < b.n() && 0 <= k < b.inv_at(t).len() implies b.doc_live(
                #[trigger] b.inv_at(t)[k] as int,
            ) by {
                let fp = ids_filter(a.inv_at(t), did32);
                Self::lemma_filter_mem(a.inv_at(t), did32, fp);
                let orig = a.inv_at(t);
                assert(orig.contains(fp[k]));
                let j = choose|j: int| 0 <= j < orig.len() && orig[j] == fp[k];
                assert(a.doc_live(orig[j] as int));
                assert(fp[k] != did32);
            }
            assert forall|t: int| 0 <= t < b.n() implies (#[trigger] b.inv_at(
                t,
            )).no_duplicates() by {
                Self::lemma_filter_no_dup(a.inv_at(t), did32);
            }
            assert(b.documents@ =~= a.documents@.update(did as int, None));
            assert(b.wf());
            // String-level effect.
            assert forall|s: Seq<char>| true implies #[trigger] b.has_doc(s) == (a.has_doc(s)
                && s != doc_id@) by {
                if b.has_doc(s) {
                    let i = choose|i: int|
                        0 <= i < b.n() && b.strs()[i] == s && b.doc_live(i);
                    assert(i != did as int);
                    assert(a.doc_live(i));
                    if s == doc_id@ {
                        assert(a.strs()[i] == a.strs()[did as int]);
                        assert(false);
                    }
                }
                if a.has_doc(s) && s != doc_id@ {
                    let i = choose|i: int|
                        0 <= i < a.n() && a.strs()[i] == s && a.doc_live(i);
                    assert(i != did as int);
                    assert(b.doc_live(i));
                }
            }
            assert forall|s: Seq<char>| a.has_doc(s) && s != doc_id@ implies
                #[trigger] b.doc_fields(s) == a.doc_fields(s) by {
                let i = choose|i: int|
                    0 <= i < a.n() && a.strs()[i] == s && a.doc_live(i);
                assert(a.strs().contains(s));
                assert(b.strs().contains(s));
                Self::lemma_tid_of(&a, s);
                Self::lemma_tid_of(&*b, s);
                assert(a.tid_of(s) == i && b.tid_of(s) == i);
                assert(i != did as int);
                assert(b.doc_at(i) == a.doc_at(i));
            }
            assert forall|t: Seq<char>| true implies #[trigger] b.posting(t) == strs_filter(
                a.posting(t),
                doc_id@,
            ) by {
                if a.interned(t) {
                    Self::lemma_tid_of(&a, t);
                    Self::lemma_tid_of(&*b, t);
                    let x = a.tid_of(t);
                    assert(b.tid_of(t) == x);
                    assert(0 <= x < a.n());
                    assert(b.strs() == a.strs());
                    assert(b.interned(t));
                    Self::lemma_filter_map(
                        a.inv_at(x),
                        a.strs(),
                        did32,
                        doc_id@,
                        a.documents@.len() as int,
                    );
                    assert(b.inv_at(x) == ids_filter(a.inv_at(x), did32));
                } else {
                    assert(!b.interned(t));
                    assert(b.posting(t) =~= Seq::<Seq<char>>::empty());
                    assert(strs_filter(a.posting(t), doc_id@) =~= Seq::<Seq<char>>::empty());
                }
            }
            assert forall|g: Seq<char>| true implies #[trigger] b.trig_tokens(g)
                == a.trig_tokens(g) by {
                if a.interned(g) {
                    Self::lemma_tid_of(&a, g);
                    Self::lemma_tid_of(&*b, g);
                    assert(b.tid_of(g) == a.tid_of(g));
                } else {
                    assert(!b.interned(g));
                }
            }
        }
        Ok(())
    }

    /// Filtering a posting by id filters the mapped string posting by the
    /// id's string.
    proof fn lemma_filter_map(
        s: Seq<u32>,
        strs: Seq<Seq<char>>,
        did: u32,
        id: Seq<char>,
        bound: int,
    )
        requires
            strs.no_duplicates(),
            did < strs.len(),
            strs[did as int] == id,
            bound <= strs.len(),
            forall|k: int| 0 <= k < s.len() ==> (#[trigger] s[k] as int) < bound,
        ensures
            ids_to_strs(ids_filter(s, did), strs) == strs_filter(ids_to_strs(s, strs), id),
        decreases s.len(),
    {
        if s.len() == 0 {
            assert(ids_to_strs(ids_filter(s, did), strs) =~= strs_filter(
                ids_to_strs(s, strs),
                id,
            ));
        } else {
            let pre = s.drop_last();
            Self::lemma_filter_map(pre, strs, did, id, bound);
            let last = s.last();
            assert((s[s.len() - 1] as int) < bound);
            assert((last != did) == (strs[last as int] != id)) by {
                if last != did && strs[last as int] == id {
                    assert(strs[last as int] == strs[did as int]);
                }
            }
            let ms = ids_to_strs(s, strs);
            assert(ms.len() == s.len());
            assert(ms.drop_last() =~= ids_to_strs(pre, strs));
            assert(ms.last() == strs[last as int]);
            assert(strs_filter(ms, id) == if ms.last() != id {
                strs_filter(ms.drop_last(), id).push(ms.last())
            } else {
                strs_filter(ms.drop_last(), id)
            });
            if last != did {
                assert(ids_filter(s, did) == ids_filter(pre, did).push(last));
                assert(ids_to_strs(ids_filter(s, did), strs) =~= ids_to_strs(
                    ids_filter(pre, did),
                    strs,
                ).push(strs[last as int]));
            } else {
                assert(ids_filter(s, did) == ids_filter(pre, did));
            }
        }
    }

    /// Every element of a filtered posting comes from the original and
    /// differs from the filtered id.
    proof fn lemma_filter_mem(s: Seq<u32>, did: u32, fp: Seq<u32>)
        requires
            fp == ids_filter(s, did),
        ensures
            forall|k: int| 0 <= k < fp.len() ==> (s.contains(#[trigger] fp[k]) && fp[k] != did),
        decreases s.len(),
    {
        if s.len() > 0 {
            let fpre = ids_filter(s.drop_last(), did);
            Self::lemma_filter_mem(s.drop_last(), did, fpre);
            assert forall|k: int| 0 <= k < fp.len() implies (s.contains(#[trigger] fp[k])
                && fp[k] != did) by {
                if k < fpre.len() {
                    assert(fp[k] == fpre[k]);
                    let j = choose|j: int|
                        0 <= j < s.drop_last().len() && s.drop_last()[j] == fpre[k];
                    assert(s[j] == fp[k]);
                } else {
                    assert(fp[k] == s.last());
                    assert(s[s.len() - 1] == s.last());
                }
            }
        }
    }

    /// Filtering preserves freedom from duplicates.
    proof fn lemma_filter_no_dup(s: Seq<u32>, did: u32)
        requires
            s.no_duplicates(),
        ensures
            ids_filter(s, did).no_duplicates(),
        decreases s.len(),
    {
        if s.len() > 0 {
            Self::lemma_filter_no_dup(s.drop_last(), did);
            let fp = ids_filter(s, did);
            let fpre = ids_filter(s.drop_last(), did);
            Self::lemma_filter_mem(s.drop_last(), did, fpre);
            if s.last() != did {
                assert(fp =~= fpre.push(s.last()));
                assert forall|i: int, j: int| 0 <= i < j < fp.len() implies fp[i] != fp[j] by {
                    if j == fp.len() - 1 {
                        let m = choose|m: int|
                            0 <= m < s.drop_last().len() && s.drop_last()[m] == fpre[i];
                        assert(s[m] == fpre[i]);
                        assert(s[s.len() - 1] == s.last());
                    }
                }
            }
        }
    }

    /// Setting one entry to `None` lowers the live count by one when it
    /// was `Some`.
    proof fn lemma_count_update(docs: Seq<Option<Document>>, i: int)
        requires
            0 <= i < docs.len(),
        ensures
            Self::count_live_upto(docs.update(i, None), docs.len() as int)
                == Self::count_live_upto(docs, docs.len() as int) - (if docs[i] is Some {
                1int
            } else {
                0int
            }),
    {
        Self::lemma_count_update_upto(docs, i, docs.len() as int);
    }

    proof fn lemma_count_update_upto(docs: Seq<Option<Document>>, i: int, k: int)
        requires
            0 <= i < docs.len(),
            k <= docs.len(),
        ensures
            Self::count_live_upto(docs.update(i, None), k) == Self::count_live_upto(docs, k) - (
            if i < k && docs[i] is Some {
                1int
            } else {
                0int
            }),
        decreases k,
    {
        if k > 0 {
            Self::lemma_count_update_upto(docs, i, k - 1);
        }
    }

    // -----------------------------------------------------------------
    // Ingestion.
    // -----------------------------------------------------------------

    /// The text of the first field named `name`, if it has one.
    pub open spec fn field_text(fields: Seq<(Seq<char>, FieldModel)>, name: Seq<char>) -> Option<
        Seq<char>,
    >
        decreases fields.len(),
    {
        if fields.len() == 0 {
            None
        } else if fields[0].0 == name {
            text_of(fields[0].1)
        } else {
            Self::field_text(fields.drop_first(), name)
        }
    }

    /// The texts drawn from the configured field names, in order.
    pub open spec fn cfg_texts(
        cfg: Seq<Seq<char>>,
        fields: Seq<(Seq<char>, FieldModel)>,
    ) -> Seq<Seq<char>>
        decreases cfg.len(),
    {
        if cfg.len() == 0 {
            Seq::empty()
        } else {
            Self::cfg_texts(cfg.drop_last(), fields) + (match Self::field_text(
                fields,
                cfg.last(),
            ) {
                Some(t) => seq![t],
                None => Seq::empty(),
            })
        }
    }

    /// The texts a document contributes: the configured fields when any
    /// are set, else all textual fields.
    pub open spec fn texts_of(
        cfg: Seq<Seq<char>>,
        fields: Seq<(Seq<char>, FieldModel)>,
    ) -> Seq<Seq<char>> {
        if cfg.len() == 0 {
            all_texts(fields)
        } else {
            Self::cfg_texts(cfg, fields)
        }
    }

    /// The set of tokens of a sequence of texts.
    pub open spec fn tokens_of_texts(texts: Seq<Seq<char>>) -> Set<Seq<char>>
        decreases texts.len(),
    {
        if texts.len() == 0 {
            Set::empty()
        } else {
            Self::tokens_of_texts(texts.drop_last()).union(
                extract_tokens_spec(texts.last()).to_set(),
            )
        }
    }

    /// The set of tokens a document contributes under a configuration.
    pub open spec fn doc_token_set(
        cfg: Seq<Seq<char>>,
        fields: Seq<(Seq<char>, FieldModel)>,
    ) -> Set<Seq<char>> {
        Self::tokens_of_texts(Self::texts_of(cfg, fields))
    }

    /// What a successful ingest guarantees.  Re-inserting an id behaves as
    /// remove-then-add: the document stands under its id, its id is
    /// appended to the posting of each of its tokens, and each trigram
    /// posting of each token gains that token.
    pub open spec fn add_post(
        a: &Index,
        b: &Index,
        id: Seq<char>,
        fields: Seq<(Seq<char>, FieldModel)>,
    ) -> bool {
        let toks = Self::doc_token_set(a.cfg(), fields);
        &&& forall|s: Seq<char>| #[trigger] b.has_doc(s) == (a.has_doc(s) || s == id)
        &&& b.doc_fields(id) == fields
        &&& forall|s: Seq<char>|
            s != id && a.has_doc(s) ==> #[trigger] b.doc_fields(s) == a.doc_fields(s)
        &&& b.doc_count_spec() == a.doc_count_spec() + (if a.has_doc(id) {
            0int
        } else {
            1int
        })
        &&& forall|t: Seq<char>| #[trigger] b.posting(t) == (if toks.contains(t) {
            strs_filter(a.posting(t), id).push(id)
        } else {
            strs_filter(a.posting(t), id)
        })
        &&& forall|g: Seq<char>, t: Seq<char>| #[trigger] b.trig_tokens(g).contains(t) == (
        a.trig_tokens(g).contains(t) || (toks.contains(t) && trigrams_of(t).contains(g)))
        &&& b.cfg() == a.cfg()
    }

    /// An index whose tables did not change but whose interner was
    /// extended keeps its content.
    proof fn lemma_extend_interner(a: &Index, b: &Index)
        requires
            a.wf(),
            b.interner.wf(),
            a.strs().is_prefix_of(b.strs()),
            a.documents == b.documents,
            a.doc_count == b.doc_count,
            a.inverted_index == b.inverted_index,
            a.trigram_index == b.trigram_index,
            a.indexed_fields == b.indexed_fields,
        ensures
            b.wf(),
            b.same_content(a),
            b.cfg() == a.cfg(),
    {
        assert(a.n() <= b.n());
        assert forall|i: int| 0 <= i < a.n() implies a.strs()[i] == b.strs()[i] by {}
        assert forall|x: int| true implies #[trigger] b.inv_at(x) == a.inv_at(x) by {}
        assert forall|x: int| true implies #[trigger] b.trig_at(x) == a.trig_at(x) by {}
        assert forall|x: int| true implies #[trigger] b.doc_at(x) == a.doc_at(x) by {}
        assert forall|tid: int, k: int|
            0 <= tid < b.n() && 0 <= k < b.inv_at(tid).len() implies b.doc_live(
            #[trigger] b.inv_at(tid)[k] as int,
        ) by {
            if tid < a.n() {
                assert(a.doc_live(a.inv_at(tid)[k] as int));
            } else {
                assert(b.inv_at(tid) =~= Seq::<u32>::empty());
            }
        }
        assert forall|gid: int, k: int|
            0 <= gid < b.n() && 0 <= k < b.trig_at(gid).len() implies 0 <= (
        #[trigger] b.trig_at(gid)[k] as int) < b.n() by {
            if gid < a.n() {
            } else {
                assert(b.trig_at(gid) =~= Seq::<u32>::empty());
            }
        }
        assert(b.wf());
        assert forall|s: Seq<char>| true implies #[trigger] b.has_doc(s) == a.has_doc(s) by {
            if b.has_doc(s) {
                let i = choose|i: int| 0 <= i < b.n() && b.strs()[i] == s && b.doc_live(i);
                assert(i < b.documents@.len());
                assert(i < a.documents@.len());
                assert(i < a.n());
                assert(a.strs()[i] == b.strs()[i]);
                assert(a.strs()[i] == s);
                assert(a.doc_live(i));
                assert(a.has_doc(s));
            }
            if a.has_doc(s) {
                let i = choose|i: int| 0 <= i < a.n() && a.strs()[i] == s && a.doc_live(i);
                assert(b.strs()[i] == s);
                assert(b.doc_live(i));
            }
        }
        assert forall|s: Seq<char>| a.has_doc(s) implies #[trigger] b.doc_fields(s)
            == a.doc_fields(s) by {
            let i = choose|i: int| 0 <= i < a.n() && a.strs()[i] == s && a.doc_live(i);
            assert(a.strs().contains(s));
            assert(b.strs()[i] == s);
            assert(b.strs().contains(s));
            Self::lemma_tid_of(a, s);
            Self::lemma_tid_of(b, s);
            assert(a.tid_of(s) == i && b.tid_of(s) == i);
        }
        assert forall|t: Seq<char>| true implies #[trigger] b.posting(t) == a.posting(t) by {
            if a.interned(t) {
                let i = a.tid_of(t);
                Self::lemma_tid_of(a, t);
                assert(0 <= i < a.n());
                assert(a.strs()[i] == b.strs()[i]);
                assert(b.strs()[i] == t);
                assert(b.strs().contains(t));
                Self::lemma_tid_of(b, t);
                assert(b.tid_of(t) == i);
                assert(ids_to_strs(b.inv_at(i), b.strs()) =~= ids_to_strs(
                    a.inv_at(i),
                    a.strs(),
                ));
                assert(b.posting(t) =~= a.posting(t));
            } else if b.interned(t) {
                let i = b.tid_of(t);
                Self::lemma_tid_of(b, t);
                assert(i >= a.n()) by {
                    if i < a.n() {
                        assert(a.strs()[i] == t);
                    }
                }
                assert(b.inv_at(i) =~= Seq::<u32>::empty());
                assert(b.posting(t) =~= a.posting(t));
            }
        }
        assert forall|g: Seq<char>| true implies #[trigger] b.trig_tokens(g) == a.trig_tokens(
            g,
        ) by {
            if a.interned(g) {
                let i = a.tid_of(g);
                Self::lemma_tid_of(a, g);
                assert(0 <= i < a.n());
                assert(a.strs()[i] == b.strs()[i]);
                assert(b.strs()[i] == g);
                assert(b.strs().contains(g));
                Self::lemma_tid_of(b, g);
                assert(b.tid_of(g) == i);
                assert(ids_to_strs(b.trig_at(i), b.strs()) =~= ids_to_strs(
                    a.trig_at(i),
                    a.strs(),
                ));
                assert(b.trig_tokens(g) =~= a.trig_tokens(g));
            } else if b.interned(g) {
                let i = b.tid_of(g);
                Self::lemma_tid_of(b, g);
                assert(i >= a.n()) by {
                    if i < a.n() {
                        assert(a.strs()[i] == g);
                    }
                }
                assert(b.trig_at(i) =~= Seq::<u32>::empty());
                assert(ids_to_strs(b.trig_at(i), b.strs()) =~= Seq::<Seq<char>>::empty());
                assert(b.trig_tokens(g) =~= a.trig_tokens(g));
            } else {
                assert(b.trig_tokens(g) =~= a.trig_tokens(g));
            }
        }
    }

    /// Filtering a sequence free of an absent element changes nothing.
    proof fn lemma_strs_filter_absent(s: Seq<Seq<char>>, id: Seq<char>)
        requires
            forall|k: int| 0 <= k < s.len() ==> #[trigger] s[k] != id,
        ensures
            strs_filter(s, id) == s,
        decreases s.len(),
    {
        if s.len() > 0 {
            Self::lemma_strs_filter_absent(s.drop_last(), id);
            assert(s[s.len() - 1] == s.last());
            assert(strs_filter(s.drop_last(), id).push(s.last()) =~= s);
        }
    }

    /// When no document with the id is present, no posting holds it.
    proof fn lemma_posting_free(a: &Index, id: Seq<char>)
        requires
            a.wf(),
            !a.has_doc(id),
        ensures
            forall|t: Seq<char>| #[trigger] strs_filter(a.posting(t), id) == a.posting(t),
    {
        assert forall|t: Seq<char>| true implies #[trigger] strs_filter(a.posting(t), id)
            == a.posting(t) by {
            if a.interned(t) {
                Self::lemma_tid_of(a, t);
                let x = a.tid_of(t);
                let p = a.posting(t);
                assert forall|k: int| 0 <= k < p.len() implies #[trigger] p[k] != id by {
                    let d = a.inv_at(x)[k];
                    assert(a.doc_live(d as int));
                    assert(p[k] == a.strs()[d as int]);
                    if a.strs()[d as int] == id {
                        assert(a.has_doc(id));
                    }
                }
                Self::lemma_strs_filter_absent(p, id);
            } else {
                assert(a.posting(t) =~= Seq::<Seq<char>>::empty());
                assert(strs_filter(a.posting(t), id) == a.posting(t));
            }
        }
    }

    /// Extending the tables with empty rows up to the interner size keeps
    /// the content.
    proof fn lemma_pad_tables(a: &Index, b: &Index)
        requires
            a.wf(),
            b.interner == a.interner,
            b.doc_count == a.doc_count,
            b.indexed_fields == a.indexed_fields,
            a.documents@.len() <= b.documents@.len() <= a.n(),
            a.inverted_index@.len() <= b.inverted_index@.len() <= a.n(),
            a.trigram_index@.len() <= b.trigram_index@.len() <= a.n(),
            forall|i: int|
                0 <= i < b.documents@.len() ==> #[trigger] b.documents@[i] == (if i
                    < a.documents@.len() {
                    a.documents@[i]
                } else {
                    None
                }),
            forall|i: int|
                0 <= i < b.inverted_index@.len() ==> (#[trigger] b.inverted_index@[i])@ == (if i
                    < a.inverted_index@.len() {
                    a.inverted_index@[i]@
                } else {
                    Seq::<u32>::empty()
                }),
            forall|i: int|
                0 <= i < b.trigram_index@.len() ==> (#[trigger] b.trigram_index@[i])@ == (if i
                    < a.trigram_index@.len() {
                    a.trigram_index@[i]@
                } else {
                    Seq::<u32>::empty()
                }),
        ensures
            b.wf(),
            b.same_content(a),
            b.cfg() == a.cfg(),
            forall|x: int| #[trigger] b.inv_at(x) == a.inv_at(x),
            forall|x: int| #[trigger] b.trig_at(x) == a.trig_at(x),
            forall|x: int| #[trigger] b.doc_at(x) == a.doc_at(x),
    {
        assert forall|x: int| true implies #[trigger] b.inv_at(x) == a.inv_at(x) by {
            if 0 <= x < b.inverted_index@.len() {
            } else {
                assert(b.inv_at(x) =~= Seq::<u32>::empty());
                assert(a.inv_at(x) =~= Seq::<u32>::empty());
            }
        }
        assert forall|x: int| true implies #[trigger] b.trig_at(x) == a.trig_at(x) by {
            if 0 <= x < b.trigram_index@.len() {
            } else {
                assert(b.trig_at(x) =~= Seq::<u32>::empty());
                assert(a.trig_at(x) =~= Seq::<u32>::empty());
            }
        }
        assert forall|x: int| true implies #[trigger] b.doc_at(x) == a.doc_at(x) by {}
        Self::lemma_count_frame(a.documents@, b.documents@);
        assert(b.doc_count == Self::count_live_upto(b.documents@, b.documents@.len() as int));
        assert forall|tid: int, k: int|
            0 <= tid < b.n() && 0 <= k < b.inv_at(tid).len() implies b.doc_live(
            #[trigger] b.inv_at(tid)[k] as int,
        ) by {
            assert(a.doc_live(a.inv_at(tid)[k] as int));
        }
        assert(b.wf());
        assert forall|s: Seq<char>| true implies #[trigger] b.has_doc(s) == a.has_doc(s) by {
            if b.has_doc(s) {
                let i = choose|i: int| 0 <= i < b.n() && b.strs()[i] == s && b.doc_live(i);
                assert(a.doc_live(i));
            }
            if a.has_doc(s) {
                let i = choose|i: int| 0 <= i < a.n() && a.strs()[i] == s && a.doc_live(i);
                assert(b.doc_live(i));
            }
        }
        assert forall|s: Seq<char>| a.has_doc(s) implies #[trigger] b.doc_fields(s)
            == a.doc_fields(s) by {
            assert(b.tid_of(s) == a.tid_of(s));
        }
        assert forall|t: Seq<char>| true implies #[trigger] b.posting(t) == a.posting(t) by {
            if a.interned(t) {
                assert(b.tid_of(t) == a.tid_of(t));
                assert(ids_to_strs(b.inv_at(b.tid_of(t)), b.strs()) =~= ids_to_strs(
                    a.inv_at(a.tid_of(t)),
                    a.strs(),
                ));
            }
        }
        assert forall|g: Seq<char>| true implies #[trigger] b.trig_tokens(g) == a.trig_tokens(
            g,
        ) by {
            if a.interned(g) {
                assert(b.tid_of(g) == a.tid_of(g));
                assert(ids_to_strs(b.trig_at(b.tid_of(g)), b.strs()) =~= ids_to_strs(
                    a.trig_at(a.tid_of(g)),
                    a.strs(),
                ));
            }
        }
    }

    /// Two document tables agreeing where both are defined, the longer
    /// padded with `None`, have the same live count.
    proof fn lemma_count_frame(d1: Seq<Option<Document>>, d2: Seq<Option<Document>>)
        requires
            d1.len() <= d2.len(),
            forall|i: int|
                0 <= i < d2.len() ==> #[trigger] d2[i] == (if i < d1.len() {
                    d1[i]
                } else {
                    None
                }),
        ensures
            Self::count_live_upto(d2, d2.len() as int) == Self::count_live_upto(
                d1,
                d1.len() as int,
            ),
        decreases d2.len(),
    {
        if d2.len() > d1.len() {
            Self::lemma_count_frame(d1, d2.drop_last());
            Self::lemma_count_prefix(d2, d2.drop_last(), d2.len() - 1);
        } else {
            Self::lemma_count_same(d1, d2, d1.len() as int);
        }
    }

    /// The live count up to `k` depends only on the first `k` entries.
    proof fn lemma_count_same(d1: Seq<Option<Document>>, d2: Seq<Option<Document>>, k: int)
        requires
            k <= d1.len(),
            k <= d2.len(),
            forall|i: int| 0 <= i < k ==> #[trigger] d1[i] == d2[i],
        ensures
            Self::count_live_upto(d1, k) == Self::count_live_upto(d2, k),
        decreases k,
    {
        if k > 0 {
            Self::lemma_count_same(d1, d2, k - 1);
        }
    }

    proof fn lemma_count_prefix(d1: Seq<Option<Document>>, d2: Seq<Option<Document>>, k: int)
        requires
            0 <= k <= d1.len(),
            k <= d2.len(),
            forall|i: int| 0 <= i < k ==> #[trigger] d1[i] == d2[i],
        ensures
            Self::count_live_upto(d1, k) == Self::count_live_upto(d2, k),
        decreases k,
    {
        Self::lemma_count_same(d1, d2, k);
    }

    /// Storing a document under a fresh live slot adds exactly that
    /// document and touches no posting.
    proof fn lemma_set_doc(a: &Index, b: &Index, did: int, doc: Document)
        requires
            a.wf(),
            0 <= did < a.documents@.len(),
            !a.doc_live(did),
            a.strs()[did] == doc.id@,
            doc.wf(),
            b.interner == a.interner,
            b.inverted_index == a.inverted_index,
            b.trigram_index == a.trigram_index,
            b.indexed_fields == a.indexed_fields,
            b.documents@ == a.documents@.update(did, Some(doc)),
            b.doc_count == a.doc_count + 1,
        ensures
            b.wf(),
            b.cfg() == a.cfg(),
            forall|s: Seq<char>| #[trigger] b.has_doc(s) == (a.has_doc(s) || s == doc.id@),
            b.doc_fields(doc.id@) == doc.fields_model(),
            forall|s: Seq<char>|
                s != doc.id@ && a.has_doc(s) ==> #[trigger] b.doc_fields(s) == a.doc_fields(s),
            b.doc_count_spec() == a.doc_count_spec() + 1,
            forall|t: Seq<char>| #[trigger] b.posting(t) == a.posting(t),
            forall|g: Seq<char>| #[trigger] b.trig_tokens(g) == a.trig_tokens(g),
    {
        assert forall|x: int| true implies #[trigger] b.inv_at(x) == a.inv_at(x) by {}
        assert forall|x: int| true implies #[trigger] b.trig_at(x) == a.trig_at(x) by {}
        assert forall|x: int| x != did implies #[trigger] b.doc_at(x) == a.doc_at(x) by {}
        assert(b.doc_at(did) == Some(doc));
        Self::lemma_count_set_some(a.documents@, did, doc);
        assert forall|tid: int, k: int|
            0 <= tid < b.n() && 0 <= k < b.inv_at(tid).len() implies b.doc_live(
            #[trigger] b.inv_at(tid)[k] as int,
        ) by {
            assert(a.doc_live(a.inv_at(tid)[k] as int));
        }
        assert(b.wf());
        assert(a.interned(doc.id@)) by {
            assert(a.strs()[did] == doc.id@);
        }
        Self::lemma_tid_of(a, doc.id@);
        Self::lemma_tid_of(b, doc.id@);
        assert(a.tid_of(doc.id@) == did && b.tid_of(doc.id@) == did);
        assert(b.has_doc(doc.id@)) by {
            assert(b.strs()[did] == doc.id@ && b.doc_live(did));
        }
        assert forall|s: Seq<char>| true implies #[trigger] b.has_doc(s) == (a.has_doc(s) || s
            == doc.id@) by {
            if b.has_doc(s) && s != doc.id@ {
                let i = choose|i: int| 0 <= i < b.n() && b.strs()[i] == s && b.doc_live(i);
                assert(i != did);
                assert(a.doc_live(i));
            }
            if a.has_doc(s) {
                let i = choose|i: int| 0 <= i < a.n() && a.strs()[i] == s && a.doc_live(i);
                assert(i != did);
                assert(b.doc_live(i));
            }
        }
        assert forall|s: Seq<char>| s != doc.id@ && a.has_doc(s) implies #[trigger] b.doc_fields(
            s,
        ) == a.doc_fields(s) by {
            let i = choose|i: int| 0 <= i < a.n() && a.strs()[i] == s && a.doc_live(i);
            assert(a.strs().contains(s));
            Self::lemma_tid_of(a, s);
            Self::lemma_tid_of(b, s);
            assert(a.tid_of(s) == i && b.tid_of(s) == i);
            assert(i != did);
        }
        assert forall|t: Seq<char>| true implies #[trigger] b.posting(t) == a.posting(t) by {
            if a.interned(t) {
                assert(b.tid_of(t) == a.tid_of(t));
                assert(ids_to_strs(b.inv_at(b.tid_of(t)), b.strs()) =~= ids_to_strs(
                    a.inv_at(a.tid_of(t)),
                    a.strs(),
                ));
            }
        }
        assert forall|g: Seq<char>| true implies #[trigger] b.trig_tokens(g) == a.trig_tokens(
            g,
        ) by {
            if a.interned(g) {
                assert(b.tid_of(g) == a.tid_of(g));
                assert(ids_to_strs(b.trig_at(b.tid_of(g)), b.strs()) =~= ids_to_strs(
                    a.trig_at(a.tid_of(g)),
                    a.strs(),
                ));
            }
        }
    }

    /// Filling an empty slot raises the live count by one.
    proof fn lemma_count_set_some(docs: Seq<Option<Document>>, i: int, doc: Document)
        requires
            0 <= i < docs.len(),
            docs[i] is None,
        ensures
            Self::count_live_upto(docs.update(i, Some(doc)), docs.len() as int)
                == Self::count_live_upto(docs, docs.len() as int) + 1,
    {
        Self::lemma_count_set_some_upto(docs, i, doc, docs.len() as int);
    }

    proof fn lemma_count_set_some_upto(
        docs: Seq<Option<Document>>,
        i: int,
        doc: Document,
        k: int,
    )
        requires
            0 <= i < docs.len(),
            docs[i] is None,
            k <= docs.len(),
        ensures
            Self::count_live_upto(docs.update(i, Some(doc)), k) == Self::count_live_upto(docs, k)
                + (if i < k {
                1int
            } else {
                0int
            }),
        decreases k,
    {
        if k > 0 {
            Self::lemma_count_set_some_upto(docs, i, doc, k - 1);
        }
    }

    /// Appending a live document id to one inverted posting appends the
    /// document's id string to that token's posting and touches nothing
    /// else.
    proof fn lemma_push_inverted(a: &Index, b: &Index, tid: int, d: u32)
        requires
            a.wf(),
            0 <= tid < a.inverted_index@.len(),
            a.doc_live(d as int),
            !a.inv_at(tid).contains(d),
            b.interner == a.interner,
            b.documents == a.documents,
            b.doc_count == a.doc_count,
            b.trigram_index == a.trigram_index,
            b.indexed_fields == a.indexed_fields,
            b.inverted_index@ == a.inverted_index@.update(
                tid,
                b.inverted_index@[tid],
            ),
            b.inverted_index@[tid]@ == a.inverted_index@[tid]@.push(d),
        ensures
            b.wf(),
            b.cfg() == a.cfg(),
            forall|s: Seq<char>| #[trigger] b.has_doc(s) == a.has_doc(s),
            forall|s: Seq<char>|
                a.has_doc(s) ==> #[trigger] b.doc_fields(s) == a.doc_fields(s),
            b.doc_count_spec() == a.doc_count_spec(),
            forall|t: Seq<char>|
                t != a.strs()[tid] ==> #[trigger] b.posting(t) == a.posting(t),
            b.posting(a.strs()[tid]) == a.posting(a.strs()[tid]).push(a.strs()[d as int]),
            forall|g: Seq<char>| #[trigger] b.trig_tokens(g) == a.trig_tokens(g),
            forall|x: int| x != tid ==> #[trigger] b.inv_at(x) == a.inv_at(x),
            b.inv_at(tid) == a.inv_at(tid).push(d),
            forall|x: int| #[trigger] b.trig_at(x) == a.trig_at(x),
            forall|x: int| #[trigger] b.doc_at(x) == a.doc_at(x),
    {
        assert forall|x: int| x != tid implies #[trigger] b.inv_at(x) == a.inv_at(x) by {}
        assert(b.inv_at(tid) == a.inv_at(tid).push(d));
        assert forall|x: int| true implies #[trigger] b.trig_at(x) == a.trig_at(x) by {}
        assert forall|x: int| true implies #[trigger] b.doc_at(x) == a.doc_at(x) by {}
        assert forall|t2: int, k: int|
            0 <= t2 < b.n() && 0 <= k < b.inv_at(t2).len() implies b.doc_live(
            #[trigger] b.inv_at(t2)[k] as int,
        ) by {
            if t2 == tid && k == b.inv_at(t2).len() - 1 {
                assert(b.inv_at(t2)[k] == d);
            } else {
                assert(b.inv_at(t2)[k] == a.inv_at(t2)[k]);
                assert(a.doc_live(a.inv_at(t2)[k] as int));
            }
        }
        assert forall|t2: int| 0 <= t2 < b.n() implies (#[trigger] b.inv_at(
            t2,
        )).no_duplicates() by {
            if t2 == tid {
                assert(a.inv_at(tid).no_duplicates());
                let p = b.inv_at(tid);
                assert forall|i: int, j: int| 0 <= i < j < p.len() implies p[i] != p[j] by {
                    if j == p.len() - 1 {
                        assert(p[i] == a.inv_at(tid)[i]);
                        assert(a.inv_at(tid).contains(a.inv_at(tid)[i]));
                    }
                }
            }
        }
        assert(b.wf());
        assert(tid < a.n());
        let ts = a.strs()[tid];
        assert(a.interned(ts)) by {
            assert(a.strs()[tid] == ts);
        }
        Self::lemma_tid_of(a, ts);
        Self::lemma_tid_of(b, ts);
        assert(a.tid_of(ts) == tid && b.tid_of(ts) == tid);
        assert forall|s: Seq<char>| true implies #[trigger] b.has_doc(s) == a.has_doc(s) by {
            if b.has_doc(s) {
                let i = choose|i: int| 0 <= i < b.n() && b.strs()[i] == s && b.doc_live(i);
                assert(a.doc_live(i));
            }
            if a.has_doc(s) {
                let i = choose|i: int| 0 <= i < a.n() && a.strs()[i] == s && a.doc_live(i);
                assert(b.doc_live(i));
            }
        }
        assert forall|s: Seq<char>| a.has_doc(s) implies #[trigger] b.doc_fields(s)
            == a.doc_fields(s) by {
            assert(b.tid_of(s) == a.tid_of(s));
        }
        assert forall|t: Seq<char>| t != ts implies #[trigger] b.posting(t) == a.posting(t) by {
            if a.interned(t) {
                Self::lemma_tid_of(a, t);
                Self::lemma_tid_of(b, t);
                assert(b.tid_of(t) == a.tid_of(t));
                assert(a.tid_of(t) != tid) by {
                    if a.tid_of(t) == tid {
                        assert(a.strs()[tid] == t);
                    }
                }
                assert(ids_to_strs(b.inv_at(b.tid_of(t)), b.strs()) =~= ids_to_strs(
                    a.inv_at(a.tid_of(t)),
                    a.strs(),
                ));
            }
        }
        assert(b.posting(ts) =~= a.posting(ts).push(a.strs()[d as int]));
        assert forall|g: Seq<char>| true implies #[trigger] b.trig_tokens(g) == a.trig_tokens(
            g,
        ) by {
            if a.interned(g) {
                assert(b.tid_of(g) == a.tid_of(g));
                assert(ids_to_strs(b.trig_at(b.tid_of(g)), b.strs()) =~= ids_to_strs(
                    a.trig_at(a.tid_of(g)),
                    a.strs(),
                ));
            }
        }
    }

    /// Appending a token id to one trigram posting adds the token string
    /// to that trigram's token set and touches nothing else.
    proof fn lemma_push_trigram(a: &Index, b: &Index, gid: int, tid: u32)
        requires
            a.wf(),
            0 <= gid < a.trigram_index@.len(),
            0 <= tid < a.n(),
            b.interner == a.interner,
            b.documents == a.documents,
            b.doc_count == a.doc_count,
            b.inverted_index == a.inverted_index,
            b.indexed_fields == a.indexed_fields,
            b.trigram_index@ == a.trigram_index@.update(gid, b.trigram_index@[gid]),
            b.trigram_index@[gid]@ == a.trigram_index@[gid]@.push(tid),
        ensures
            b.wf(),
            b.cfg() == a.cfg(),
            forall|s: Seq<char>| #[trigger] b.has_doc(s) == a.has_doc(s),
            forall|s: Seq<char>|
                a.has_doc(s) ==> #[trigger] b.doc_fields(s) == a.doc_fields(s),
            b.doc_count_spec() == a.doc_count_spec(),
            forall|t: Seq<char>| #[trigger] b.posting(t) == a.posting(t),
            forall|g: Seq<char>|
                g != a.strs()[gid] ==> #[trigger] b.trig_tokens(g) == a.trig_tokens(g),
            b.trig_tokens(a.strs()[gid]) == a.trig_tokens(a.strs()[gid]).insert(
                a.strs()[tid as int],
            ),
            forall|x: int| #[trigger] b.inv_at(x) == a.inv_at(x),
            forall|x: int| #[trigger] b.doc_at(x) == a.doc_at(x),
    {
        assert forall|x: int| x != gid implies #[trigger] b.trig_at(x) == a.trig_at(x) by {}
        assert(b.trig_at(gid) == a.trig_at(gid).push(tid));
        assert forall|x: int| true implies #[trigger] b.inv_at(x) == a.inv_at(x) by {}
        assert forall|x: int| true implies #[trigger] b.doc_at(x) == a.doc_at(x) by {}
        assert forall|t2: int, k: int|
            0 <= t2 < b.n() && 0 <= k < b.inv_at(t2).len() implies b.doc_live(
            #[trigger] b.inv_at(t2)[k] as int,
        ) by {
            assert(a.doc_live(a.inv_at(t2)[k] as int));
        }
        assert forall|g2: int, k: int|
            0 <= g2 < b.n() && 0 <= k < b.trig_at(g2).len() implies 0 <= (
        #[trigger] b.trig_at(g2)[k] as int) < b.n() by {
            if g2 == gid && k == b.trig_at(g2).len() - 1 {
                assert(b.trig_at(g2)[k] == tid);
            } else {
                assert(b.trig_at(g2)[k] == a.trig_at(g2)[k]);
            }
        }
        assert(b.wf());
        assert(gid < a.n());
        let gs = a.strs()[gid];
        assert(a.interned(gs)) by {
            assert(a.strs()[gid] == gs);
        }
        Self::lemma_tid_of(a, gs);
        Self::lemma_tid_of(b, gs);
        assert(a.tid_of(gs) == gid && b.tid_of(gs) == gid);
        assert forall|s: Seq<char>| true implies #[trigger] b.has_doc(s) == a.has_doc(s) by {
            if b.has_doc(s) {
                let i = choose|i: int| 0 <= i < b.n() && b.strs()[i] == s && b.doc_live(i);
                assert(a.doc_live(i));
            }
            if a.has_doc(s) {
                let i = choose|i: int| 0 <= i < a.n() && a.strs()[i] == s && a.doc_live(i);
                assert(b.doc_live(i));
            }
        }
        assert forall|s: Seq<char>| a.has_doc(s) implies #[trigger] b.doc_fields(s)
            == a.doc_fields(s) by {
            assert(b.tid_of(s) == a.tid_of(s));
        }
        assert forall|t: Seq<char>| true implies #[trigger] b.posting(t) == a.posting(t) by {
            if a.interned(t) {
                assert(b.tid_of(t) == a.tid_of(t));
                assert(ids_to_strs(b.inv_at(b.tid_of(t)), b.strs()) =~= ids_to_strs(
                    a.inv_at(a.tid_of(t)),
                    a.strs(),
                ));
            }
        }
        assert forall|g: Seq<char>| g != gs implies #[trigger] b.trig_tokens(g) == a.trig_tokens(
            g,
        ) by {
            if a.interned(g) {
                Self::lemma_tid_of(a, g);
                Self::lemma_tid_of(b, g);
                assert(b.tid_of(g) == a.tid_of(g));
                assert(a.tid_of(g) != gid) by {
                    if a.tid_of(g) == gid {
                        assert(a.strs()[gid] == g);
                    }
                }
                assert(ids_to_strs(b.trig_at(b.tid_of(g)), b.strs()) =~= ids_to_strs(
                    a.trig_at(a.tid_of(g)),
                    a.strs(),
                ));
            }
        }
        assert(ids_to_strs(b.trig_at(gid), b.strs()) =~= ids_to_strs(a.trig_at(gid), a.strs()).push(
            a.strs()[tid as int],
        ));
        Seq::lemma_to_set_insert_commutes(ids_to_strs(a.trig_at(gid), a.strs()), a.strs()[tid as int]);
        assert(ids_to_strs(a.trig_at(gid), a.strs()).push(a.strs()[tid as int]) =~= ids_to_strs(
            a.trig_at(gid),
            a.strs(),
        ) + seq![a.strs()[tid as int]]);
        assert(b.trig_tokens(gs) == a.trig_tokens(gs).insert(a.strs()[tid as int]));
    }

    /// Unique field names, as `Document::wf` guarantees.
    pub open spec fn unique_names(fields: Seq<(Seq<char>, FieldModel)>) -> bool {
        forall|i: int, j: int|
            0 <= i < j < fields.len() ==> (#[trigger] fields[i]).0 != (#[trigger] fields[j]).0
    }

    /// With unique names, any field named `name` determines `field_text`.
    proof fn lemma_field_text_at(fields: Seq<(Seq<char>, FieldModel)>, name: Seq<char>, i: int)
        requires
            Self::unique_names(fields),
            0 <= i < fields.len(),
            fields[i].0 == name,
        ensures
            Self::field_text(fields, name) == text_of(fields[i].1),
        decreases fields.len(),
    {
        if i == 0 {
        } else {
            assert(fields[0].0 != name);
            assert(fields.drop_first()[i - 1] == fields[i]);
            assert(Self::unique_names(fields.drop_first())) by {
                assert(forall|x: int, y: int|
                    0 <= x < y < fields.drop_first().len() ==> (#[trigger] fields.drop_first()[
                        x
                    ]).0 == fields[x + 1].0 && (#[trigger] fields.drop_first()[y]).0 == fields[
                        y + 1
                    ].0);
            }
            Self::lemma_field_text_at(fields.drop_first(), name, i - 1);
        }
    }

    /// Without a field named `name`, `field_text` is `None`.
    proof fn lemma_field_text_missing(fields: Seq<(Seq<char>, FieldModel)>, name: Seq<char>)
        requires
            forall|i: int| 0 <= i < fields.len() ==> (#[trigger] fields[i]).0 != name,
        ensures
            Self::field_text(fields, name) is None,
        decreases fields.len(),
    {
        if fields.len() > 0 {
            assert(forall|i: int|
                0 <= i < fields.drop_first().len() ==> (#[trigger] fields.drop_first()[i])
                    == fields[i + 1]);
            Self::lemma_field_text_missing(fields.drop_first(), name);
        }
    }

    /// The distinct tokens a document contributes under the current
    /// configuration, in first-occurrence order.
    fn collect_tokens(&self, document: &Document) -> (tokens: Vec<String>)
        requires
            self.wf(),
            document.wf(),
        ensures
            tokens.deep_view().no_duplicates(),
            tokens.deep_view().to_set() == Self::doc_token_set(
                self.cfg(),
                document.fields_model(),
            ),
    {
        let ghost fields = document.fields_model();
        let mut texts: Vec<String> = Vec::new();
        if self.indexed_fields.len() == 0 {
            texts = document.get_all_text_fields();
            proof {
                assert(texts.deep_view() == Self::texts_of(self.cfg(), fields));
            }
        } else {
            let mut ni: usize = 0;
            proof {
                assert(self.cfg().take(0) =~= Seq::<Seq<char>>::empty());
                assert(texts.deep_view() =~= Self::cfg_texts(self.cfg().take(0), fields));
            }
            while ni < self.indexed_fields.len()
                invariant
                    self.wf(),
                    document.wf(),
                    fields == document.fields_model(),
                    ni <= self.cfg().len(),
                    texts.deep_view() == Self::cfg_texts(self.cfg().take(ni as int), fields),
                decreases self.cfg().len() - ni,
            {
                proof {
                    assert(self.cfg().take(ni + 1).drop_last() =~= self.cfg().take(ni as int));
                    assert(self.cfg().take(ni + 1).last() == self.cfg()[ni as int]);
                    assert(self.cfg()[ni as int] == self.indexed_fields@[ni as int]@);
                }
                let ghost name = self.cfg()[ni as int];
                match document.get_text_field(self.indexed_fields[ni].as_str()) {
                    Some(t) => {
                        proof {
                            let i = choose|i: int|
                                0 <= i < fields.len() && (#[trigger] fields[i]).0 == name
                                    && text_of(fields[i].1) == Some(t@);
                            Self::lemma_field_text_at(fields, name, i);
                        }
                        let ghost t0 = texts.deep_view();
                        texts.push(t);
                        proof {
                            assert(texts.deep_view() =~= t0 + seq![
                                Self::field_text(fields, name)->Some_0,
                            ]);
                        }
                    },
                    None => {
                        proof {
                            if exists|i: int|
                                0 <= i < fields.len() && (#[trigger] fields[i]).0 == name {
                                let i = choose|i: int|
                                    0 <= i < fields.len() && (#[trigger] fields[i]).0 == name;
                                Self::lemma_field_text_at(fields, name, i);
                                assert(text_of(fields[i].1) is None);
                            } else {
                                Self::lemma_field_text_missing(fields, name);
                            }
                            assert(texts.deep_view() + Seq::<Seq<char>>::empty()
                                =~= texts.deep_view());
                        }
                    },
                }
                ni = ni + 1;
            }
            proof {
                assert(self.cfg().take(self.cfg().len() as int) =~= self.cfg());
            }
        }
        proof {
            assert(texts.deep_view() == Self::texts_of(self.cfg(), fields));
        }

        let mut tokens: Vec<String> = Vec::new();
        let mut ti: usize = 0;
        proof {
            assert(texts.deep_view().take(0) =~= Seq::<Seq<char>>::empty());
            assert(tokens.deep_view().to_set() =~= Self::tokens_of_texts(
                texts.deep_view().take(0),
            ));
        }
        while ti < texts.len()
            invariant
                ti <= texts.deep_view().len(),
                texts.deep_view().len() == texts@.len(),
                tokens.deep_view().no_duplicates(),
                tokens.deep_view().to_set() == Self::tokens_of_texts(
                    texts.deep_view().take(ti as int),
                ),
            decreases texts@.len() - ti,
        {
            let toks_t = extract_tokens(texts[ti].as_str());
            let ghost base = tokens.deep_view().to_set();
            let ghost tv = toks_t.deep_view();
            let mut k: usize = 0;
            proof {
                assert(tv.take(0) =~= Seq::<Seq<char>>::empty());
                assert(base.union(tv.take(0).to_set()) =~= base);
            }
            while k < toks_t.len()
                invariant
                    k <= tv.len(),
                    tv == toks_t.deep_view(),
                    tv.len() == toks_t@.len(),
                    tokens.deep_view().no_duplicates(),
                    tokens.deep_view().to_set() == base.union(tv.take(k as int).to_set()),
                decreases toks_t@.len() - k,
            {
                proof {
                    assert(tv.take(k + 1) =~= tv.take(k as int) + seq![tv[k as int]]);
                    Seq::lemma_to_set_insert_commutes(tv.take(k as int), tv[k as int]);
                }
                if !contains_string(&tokens, &toks_t[k]) {
                    let ghost t0 = tokens.deep_view();
                    tokens.push(toks_t[k].clone());
                    proof {
                        assert(tokens.deep_view() =~= t0.push(tv[k as int]));
                        Seq::lemma_to_set_insert_commutes(t0, tv[k as int]);
                        assert(t0.push(tv[k as int]) =~= t0 + seq![tv[k as int]]);
                        assert(tokens.deep_view().to_set() =~= base.union(
                            tv.take(k + 1).to_set(),
                        ));
                    }
                } else {
                    proof {
                        assert(tokens.deep_view().to_set().contains(tv[k as int]));
                        assert(base.union(tv.take(k as int).to_set()).insert(tv[k as int])
                            =~= base.union(tv.take(k as int).to_set()));
                        assert(tokens.deep_view().to_set() =~= base.union(
                            tv.take(k + 1).to_set(),
                        ));
                    }
                }
                k = k + 1;
            }
            proof {
                assert(tv.take(tv.len() as int) =~= tv);
                assert(texts.deep_view().take(ti + 1).drop_last() =~= texts.deep_view().take(
                    ti as int,
                ));
                assert(texts.deep_view().take(ti + 1).last() == texts.deep_view()[ti as int]);
                assert(tv == extract_tokens_spec(texts.deep_view()[ti as int]));
                assert(tokens.deep_view().to_set() =~= Self::tokens_of_texts(
                    texts.deep_view().take(ti + 1),
                ));
            }
            ti = ti + 1;
        }
        proof {
            assert(texts.deep_view().take(texts.deep_view().len() as int) =~= texts.deep_view());
        }
        tokens
    }

    proof fn lemma_prefix_trans(a: Seq<Seq<char>>, b: Seq<Seq<char>>, c: Seq<Seq<char>>)
        requires
            a.is_prefix_of(b),
            b.is_prefix_of(c),
        ensures
            a.is_prefix_of(c),
    {
        assert(c.subrange(0, a.len() as int) =~= a);
    }

    /// The live count never exceeds the number of slots.
    proof fn lemma_count_bound(docs: Seq<Option<Document>>, k: int)
        requires
            0 <= k <= docs.len(),
        ensures
            0 <= Self::count_live_upto(docs, k) <= k,
        decreases k,
    {
        if k > 0 {
            Self::lemma_count_bound(docs, k - 1);
        }
    }

    /// An empty slot keeps the live count strictly under the slot count.
    proof fn lemma_count_bound_missing(docs: Seq<Option<Document>>, i: int, k: int)
        requires
            0 <= i < k <= docs.len(),
            docs[i] is None,
        ensures
            Self::count_live_upto(docs, k) <= k - 1,
        decreases k,
    {
        if i < k - 1 {
            Self::lemma_count_bound_missing(docs, i, k - 1);
        } else {
            Self::lemma_count_bound(docs, k - 1);
        }
    }

    /// Intern one string, touching nothing but the interner.
    fn intern_in(&mut self, s: &str) -> (r: Option<u32>)
        requires
            old(self).interner.wf(),
        ensures
            final(self).interner.wf(),
            final(self).documents == old(self).documents,
            final(self).doc_count == old(self).doc_count,
            final(self).inverted_index == old(self).inverted_index,
            final(self).trigram_index == old(self).trigram_index,
            final(self).indexed_fields == old(self).indexed_fields,
            old(self).strs().is_prefix_of(final(self).strs()),
            forall|i: int|
                0 <= i < old(self).strs().len() ==> final(self).strs()[i] == old(self).strs()[i],
            match r {
                Some(tid) => (tid as int) < final(self).strs().len() && final(self).strs()[
                    tid as int
                ] == s@,
                None => final(self).strs() == old(self).strs() && final(self).strs().len()
                    >= u32::MAX,
            },
    {
        let ghost pre = *self;
        let r = self.interner.intern(s);
        proof {
            match r {
                Some(_) => {
                    if !pre.strs().contains(s@) {
                        assert(self.strs() == pre.strs() + seq![s@]);
                        assert(forall|i: int|
                            0 <= i < pre.strs().len() ==> #[trigger] self.strs()[i]
                                == pre.strs()[i]);
                    }
                    assert(self.strs().subrange(0, pre.strs().len() as int) =~= pre.strs());
                },
                None => {
                    assert(self.strs().subrange(0, pre.strs().len() as int) =~= pre.strs());
                },
            }
        }
        match r {
            Some(sid) => Some(sid.0),
            None => None,
        }
    }

    /// The state after the replacement step of an ingest: the id is gone
    /// and every posting is free of it.
    spec fn g2_shape(g1: &Index, b: &Index, id: Seq<char>, had: bool) -> bool {
        &&& b.wf()
        &&& !b.has_doc(id)
        &&& b.strs() == g1.strs()
        &&& forall|t: Seq<char>| #[trigger] b.posting(t) == strs_filter(g1.posting(t), id)
        &&& forall|s: Seq<char>| #[trigger] b.has_doc(s) == (g1.has_doc(s) && s != id)
        &&& forall|s: Seq<char>|
            g1.has_doc(s) && s != id ==> #[trigger] b.doc_fields(s) == g1.doc_fields(s)
        &&& b.doc_count_spec() == g1.doc_count_spec() - (if had {
            1int
        } else {
            0int
        })
        &&& forall|g: Seq<char>| #[trigger] b.trig_tokens(g) == g1.trig_tokens(g)
        &&& b.cfg() == g1.cfg()
    }

    /// Add a document to the index.  Replacement semantics: re-inserting
    /// an id behaves as remove-then-add.  Fails only when the id space of
    /// the interner is exhausted, and then leaves the content unchanged.
    pub fn add_document(&mut self, document: Document) -> (r: Result<(), TigerCacheError>)
        requires
            old(self).wf(),
            document.wf(),
        ensures
            final(self).wf(),
            match r {
                Ok(_) => Self::add_post(
                    old(self),
                    final(self),
                    document.id@,
                    document.fields_model(),
                ),
                Err(e) => {
                    &&& e matches TigerCacheError::InternalError(_)
                    &&& final(self).same_content(old(self))
                    &&& final(self).cfg() == old(self).cfg()
                    &&& final(self).strs().len() >= u32::MAX
                },
            },
    {
        let ghost g0 = *self;
        let ghost doc_g = document;
        let ghost fields = document.fields_model();
        let ghost id = document.id@;

        let tokens = self.collect_tokens(&document);
        let ghost toks_dv = tokens.deep_view();
        let ghost toks = Self::doc_token_set(g0.cfg(), fields);
        let id_string = document.id.clone();

        // ---- intern the document id, the tokens, and their trigrams ----
        let doc_tid: u32 = match self.intern_in(id_string.as_str()) {
            Some(t) => t,
            None => {
                proof {
                    Self::lemma_extend_interner(&g0, self);
                }
                return Err(TigerCacheError::InternalError(id_string));
            },
        };

        let mut token_ids: Vec<u32> = Vec::new();
        let mut k: usize = 0;
        while k < tokens.len()
            invariant
                g0 == *old(self),
                g0.wf(),
                self.documents == g0.documents,
                self.doc_count == g0.doc_count,
                self.inverted_index == g0.inverted_index,
                self.trigram_index == g0.trigram_index,
                self.indexed_fields == g0.indexed_fields,
                self.interner.wf(),
                g0.strs().is_prefix_of(self.strs()),
                (doc_tid as int) < self.strs().len(),
                self.strs()[doc_tid as int] == id,
                toks_dv == tokens.deep_view(),
                toks_dv.len() == tokens@.len(),
                k <= tokens@.len(),
                token_ids@.len() == k,
                forall|m: int|
                    0 <= m < k ==> ((#[trigger] token_ids@[m] as int) < self.strs().len()
                        && self.strs()[token_ids@[m] as int] == toks_dv[m]),
            decreases tokens@.len() - k,
        {
            let ghost pre = *self;
            match self.intern_in(tokens[k].as_str()) {
                Some(t) => {
                    token_ids.push(t);
                },
                None => {
                    proof {
                        Self::lemma_prefix_trans(g0.strs(), pre.strs(), self.strs());
                        Self::lemma_extend_interner(&g0, self);
                    }
                    return Err(TigerCacheError::InternalError(id_string));
                },
            }
            proof {
                Self::lemma_prefix_trans(g0.strs(), pre.strs(), self.strs());
            }
            k = k + 1;
        }

        let mut tri_lists: Vec<Vec<u32>> = Vec::new();
        let ghost mut tri_strs: Seq<Seq<Seq<char>>> = Seq::empty();
        let mut k2: usize = 0;
        while k2 < tokens.len()
            invariant
                g0 == *old(self),
                g0.wf(),
                self.documents == g0.documents,
                self.doc_count == g0.doc_count,
                self.inverted_index == g0.inverted_index,
                self.trigram_index == g0.trigram_index,
                self.indexed_fields == g0.indexed_fields,
                self.interner.wf(),
                g0.strs().is_prefix_of(self.strs()),
                (doc_tid as int) < self.strs().len(),
                self.strs()[doc_tid as int] == id,
                toks_dv == tokens.deep_view(),
                toks_dv.len() == tokens@.len(),
                k2 <= tokens@.len(),
                token_ids@.len() == tokens@.len(),
                forall|m: int|
                    0 <= m < token_ids@.len() ==> ((#[trigger] token_ids@[m] as int)
                        < self.strs().len() && self.strs()[token_ids@[m] as int] == toks_dv[m]),
                tri_lists@.len() == k2,
                tri_strs.len() == k2,
                forall|m: int|
                    0 <= m < k2 ==> (#[trigger] tri_strs[m]).to_set() == trigrams_of(toks_dv[m]),
                forall|m: int|
                    0 <= m < k2 ==> (#[trigger] tri_lists@[m])@.len() == tri_strs[m].len(),
                forall|m: int, j: int|
                    0 <= m < k2 && 0 <= j < tri_strs[m].len() ==> (((#[trigger] tri_lists@[m]@[
                        j
                    ]) as int) < self.strs().len() && self.strs()[tri_lists@[m]@[j] as int]
                        == tri_strs[m][j]),
            decreases tokens@.len() - k2,
        {
            let gvec = generate_trigrams(tokens[k2].as_str());
            let ghost gdv = gvec.deep_view();
            let mut gids: Vec<u32> = Vec::new();
            let mut j: usize = 0;
            while j < gvec.len()
                invariant
                    g0 == *old(self),
                    g0.wf(),
                    self.documents == g0.documents,
                    self.doc_count == g0.doc_count,
                    self.inverted_index == g0.inverted_index,
                    self.trigram_index == g0.trigram_index,
                    self.indexed_fields == g0.indexed_fields,
                    self.interner.wf(),
                    g0.strs().is_prefix_of(self.strs()),
                    (doc_tid as int) < self.strs().len(),
                    self.strs()[doc_tid as int] == id,
                    toks_dv == tokens.deep_view(),
                    toks_dv.len() == tokens@.len(),
                    k2 < tokens@.len(),
                    token_ids@.len() == tokens@.len(),
                    forall|m: int|
                        0 <= m < token_ids@.len() ==> ((#[trigger] token_ids@[m] as int)
                            < self.strs().len() && self.strs()[token_ids@[m] as int]
                            == toks_dv[m]),
                    tri_lists@.len() == k2,
                    tri_strs.len() == k2,
                    forall|m: int|
                        0 <= m < k2 ==> (#[trigger] tri_strs[m]).to_set() == trigrams_of(
                            toks_dv[m],
                        ),
                    forall|m: int|
                        0 <= m < k2 ==> (#[trigger] tri_lists@[m])@.len() == tri_strs[m].len(),
                    forall|m: int, j2: int|
                        0 <= m < k2 && 0 <= j2 < tri_strs[m].len() ==> (((#[trigger] tri_lists@[
                            m
                        ]@[j2]) as int) < self.strs().len() && self.strs()[tri_lists@[m]@[
                            j2
                        ] as int] == tri_strs[m][j2]),
                    gdv == gvec.deep_view(),
                    gdv.len() == gvec@.len(),
                    j <= gvec@.len(),
                    gids@.len() == j,
                    forall|j2: int|
                        0 <= j2 < j ==> ((#[trigger] gids@[j2] as int) < self.strs().len()
                            && self.strs()[gids@[j2] as int] == gdv[j2]),
                decreases gvec@.len() - j,
            {
                let ghost pre = *self;
                match self.intern_in(gvec[j].as_str()) {
                    Some(t) => {
                        gids.push(t);
                    },
                    None => {
                        proof {
                            Self::lemma_prefix_trans(g0.strs(), pre.strs(), self.strs());
                            Self::lemma_extend_interner(&g0, self);
                        }
                        return Err(TigerCacheError::InternalError(id_string));
                    },
                }
                proof {
                    Self::lemma_prefix_trans(g0.strs(), pre.strs(), self.strs());
                }
                j = j + 1;
            }
            tri_lists.push(gids);
            proof {
                tri_strs = tri_strs.push(gdv);
                assert(gdv.take(gdv.len() as int) =~= gdv);
                assert(tri_strs[k2 as int].to_set() == trigrams_of(toks_dv[k2 as int])) by {
                    assert(gdv.to_set() == trigrams_of(tokens.deep_view()[k2 as int]));
                }
            }
            k2 = k2 + 1;
        }

        proof {
            Self::lemma_extend_interner(&g0, self);
        }
        let ghost g1 = *self;

        // ---- replacement semantics: remove any previous version ----
        let had = self.get_document(id_string.as_str()).is_some();
        if had {
            match self.remove_document(id_string.as_str()) {
                Ok(_) => {
                    proof {
                        assert(Self::g2_shape(&g1, &*self, id, had));
                    }
                },
                Err(e) => {
                    proof {
                        assert(false);
                    }
                    return Err(TigerCacheError::InternalError(id_string));
                },
            }
        } else {
            proof {
                assert(*self == g1);
                Self::lemma_posting_free(&g1, id);
                assert forall|t: Seq<char>| true implies #[trigger] self.posting(t)
                    == strs_filter(g1.posting(t), id) by {
                    assert(self.posting(t) == g1.posting(t));
                }
                assert(Self::g2_shape(&g1, &*self, id, had));
            }
        }
        let ghost g2 = *self;
        proof {
            assert(Self::g2_shape(&g1, &g2, id, had));
            assert(g2.wf());
            assert(!g2.has_doc(id));
        }

        // ---- make room in the tables ----
        let n = self.interner.len();
        while self.documents.len() < n
            invariant
                n == g2.strs().len(),
                self.interner == g2.interner,
                self.doc_count == g2.doc_count,
                self.inverted_index == g2.inverted_index,
                self.trigram_index == g2.trigram_index,
                self.indexed_fields == g2.indexed_fields,
                g2.documents@.len() <= self.documents@.len() <= n,
                forall|i: int|
                    0 <= i < self.documents@.len() ==> #[trigger] self.documents@[i] == (if i
                        < g2.documents@.len() {
                        g2.documents@[i]
                    } else {
                        None
                    }),
            decreases n - self.documents@.len(),
        {
            self.documents.push(None);
        }
        while self.inverted_index.len() < n
            invariant
                n == g2.strs().len(),
                self.interner == g2.interner,
                self.doc_count == g2.doc_count,
                self.documents@.len() == n,
                forall|i: int|
                    0 <= i < self.documents@.len() ==> #[trigger] self.documents@[i] == (if i
                        < g2.documents@.len() {
                        g2.documents@[i]
                    } else {
                        None
                    }),
                self.trigram_index == g2.trigram_index,
                self.indexed_fields == g2.indexed_fields,
                g2.inverted_index@.len() <= self.inverted_index@.len() <= n,
                forall|i: int|
                    0 <= i < self.inverted_index@.len() ==> (#[trigger] self.inverted_index@[
                        i
                    ])@ == (if i < g2.inverted_index@.len() {
                        g2.inverted_index@[i]@
                    } else {
                        Seq::<u32>::empty()
                    }),
            decreases n - self.inverted_index@.len(),
        {
            let empty_row: Vec<u32> = Vec::new();
            self.inverted_index.push(empty_row);
        }
        while self.trigram_index.len() < n
            invariant
                n == g2.strs().len(),
                self.interner == g2.interner,
                self.doc_count == g2.doc_count,
                self.documents@.len() == n,
                forall|i: int|
                    0 <= i < self.documents@.len() ==> #[trigger] self.documents@[i] == (if i
                        < g2.documents@.len() {
                        g2.documents@[i]
                    } else {
                        None
                    }),
                self.inverted_index@.len() == n,
                forall|i: int|
                    0 <= i < self.inverted_index@.len() ==> (#[trigger] self.inverted_index@[
                        i
                    ])@ == (if i < g2.inverted_index@.len() {
                        g2.inverted_index@[i]@
                    } else {
                        Seq::<u32>::empty()
                    }),
                self.indexed_fields == g2.indexed_fields,
                g2.trigram_index@.len() <= self.trigram_index@.len() <= n,
                forall|i: int|
                    0 <= i < self.trigram_index@.len() ==> (#[trigger] self.trigram_index@[
                        i
                    ])@ == (if i < g2.trigram_index@.len() {
                        g2.trigram_index@[i]@
                    } else {
                        Seq::<u32>::empty()
                    }),
            decreases n - self.trigram_index@.len(),
        {
            let empty_row: Vec<u32> = Vec::new();
            self.trigram_index.push(empty_row);
        }
        proof {
            Self::lemma_pad_tables(&g2, self);
        }
        let ghost g3 = *self;

        // ---- store the document ----
        proof {
            assert(!g3.doc_live(doc_tid as int)) by {
                if g3.doc_live(doc_tid as int) {
                    assert(g3.strs()[doc_tid as int] == id);
                    assert(g3.has_doc(id));
                    assert(g2.has_doc(id));
                }
            }
            Self::lemma_count_bound_missing(
                g3.documents@,
                doc_tid as int,
                g3.documents@.len() as int,
            );
        }
        self.documents.set(doc_tid as usize, Some(document));
        self.doc_count = self.doc_count + 1;
        proof {
            Self::lemma_set_doc(&g3, self, doc_tid as int, doc_g);
        }
        let ghost g4 = *self;

        // ---- append the postings ----
        let mut p: usize = 0;
        proof {
            assert(forall|x: int| #[trigger] g4.inv_at(x) == g3.inv_at(x));
            assert forall|x: int| true implies !(#[trigger] g4.inv_at(x)).contains(doc_tid) by {
                if g4.inv_at(x).contains(doc_tid) {
                    let kk = choose|kk: int|
                        0 <= kk < g3.inv_at(x).len() && g3.inv_at(x)[kk] == doc_tid;
                    if 0 <= x < g3.n() {
                        assert(g3.doc_live(g3.inv_at(x)[kk] as int));
                    } else {
                        assert(g3.inv_at(x) =~= Seq::<u32>::empty());
                    }
                }
            }
            assert(toks_dv.take(0).to_set() =~= Set::<Seq<char>>::empty());
        }
        while p < token_ids.len()
            invariant
                g4.wf(),
                self.wf(),
                self.interner == g4.interner,
                self.documents == g4.documents,
                self.doc_count == g4.doc_count,
                self.indexed_fields == g4.indexed_fields,
                self.inverted_index@.len() == g4.inverted_index@.len(),
                self.trigram_index@.len() == g4.trigram_index@.len(),
                g4.inverted_index@.len() == g4.strs().len(),
                g4.trigram_index@.len() == g4.strs().len(),
                g4.documents@.len() == g4.strs().len(),
                (doc_tid as int) < g4.strs().len(),
                g4.strs()[doc_tid as int] == id,
                g4.doc_live(doc_tid as int),
                toks_dv.no_duplicates(),
                toks_dv.len() == token_ids@.len(),
                p <= token_ids@.len(),
                forall|m: int|
                    0 <= m < token_ids@.len() ==> ((#[trigger] token_ids@[m] as int)
                        < g4.strs().len() && g4.strs()[token_ids@[m] as int] == toks_dv[m]),
                tri_lists@.len() == token_ids@.len(),
                tri_strs.len() == token_ids@.len(),
                forall|m: int|
                    0 <= m < tri_strs.len() ==> (#[trigger] tri_strs[m]).to_set() == trigrams_of(
                        toks_dv[m],
                    ),
                forall|m: int|
                    0 <= m < tri_strs.len() ==> (#[trigger] tri_lists@[m])@.len()
                        == tri_strs[m].len(),
                forall|m: int, j2: int|
                    0 <= m < tri_strs.len() && 0 <= j2 < tri_strs[m].len() ==> (((
                    #[trigger] tri_lists@[m]@[j2]) as int) < g4.strs().len() && g4.strs()[
                        tri_lists@[m]@[j2] as int
                    ] == tri_strs[m][j2]),
                forall|m: int|
                    p <= m < token_ids@.len() ==> !(#[trigger] self.inv_at(
                        token_ids@[m] as int,
                    )).contains(doc_tid),
                forall|s: Seq<char>| #[trigger] self.has_doc(s) == g4.has_doc(s),
                forall|s: Seq<char>|
                    g4.has_doc(s) ==> #[trigger] self.doc_fields(s) == g4.doc_fields(s),
                self.doc_count_spec() == g4.doc_count_spec(),
                self.cfg() == g4.cfg(),
                forall|t: Seq<char>| #[trigger] self.posting(t) == (if toks_dv.take(
                    p as int,
                ).to_set().contains(t) {
                    g4.posting(t).push(id)
                } else {
                    g4.posting(t)
                }),
                forall|g: Seq<char>, t: Seq<char>| #[trigger] self.trig_tokens(g).contains(t)
                    == (g4.trig_tokens(g).contains(t) || (exists|m: int|
                    0 <= m < p && toks_dv[m] == t && (#[trigger] tri_strs[m]).to_set().contains(
                        g,
                    ))),
            decreases token_ids@.len() - p,
        {
            let tid_u = token_ids[p] as usize;
            let ghost ts = toks_dv[p as int];
            let ghost pre = *self;
            let mut row = self.inverted_index[tid_u].clone();
            proof {
                assert(row@ =~= pre.inverted_index@[tid_u as int]@);
            }
            row.push(doc_tid);
            let ghost row_v = row@;
            self.inverted_index.set(tid_u, row);
            proof {
                assert(self.inverted_index@ =~= pre.inverted_index@.update(
                    tid_u as int,
                    self.inverted_index@[tid_u as int],
                ));
                Self::lemma_push_inverted(&pre, self, tid_u as int, doc_tid);
                assert(pre.strs()[tid_u as int] == ts);
                assert(pre.strs()[doc_tid as int] == id);
                // update the posting invariant
                assert(toks_dv.take(p + 1) =~= toks_dv.take(p as int) + seq![ts]);
                Seq::lemma_to_set_insert_commutes(toks_dv.take(p as int), ts);
                assert forall|t: Seq<char>| true implies #[trigger] self.posting(t) == (if
                    toks_dv.take(p + 1).to_set().contains(t) {
                    g4.posting(t).push(id)
                } else {
                    g4.posting(t)
                }) by {
                    if t == ts {
                        assert(!toks_dv.take(p as int).to_set().contains(t)) by {
                            if toks_dv.take(p as int).to_set().contains(t) {
                                let m = choose|m: int|
                                    0 <= m < p && toks_dv.take(p as int)[m] == t;
                                assert(toks_dv[m] == toks_dv[p as int]);
                            }
                        }
                        assert(pre.posting(t) == g4.posting(t));
                        assert(self.posting(t) == g4.posting(t).push(id));
                    } else {
                        assert(self.posting(t) == pre.posting(t));
                    }
                }
                // freshness of unprocessed tokens
                assert forall|m: int| p + 1 <= m < token_ids@.len() implies !(
                #[trigger] self.inv_at(token_ids@[m] as int)).contains(doc_tid) by {
                    assert(toks_dv[m] != toks_dv[p as int]);
                    assert(token_ids@[m] != token_ids@[p as int]) by {
                        if token_ids@[m] == token_ids@[p as int] {
                            assert(g4.strs()[token_ids@[m] as int] == toks_dv[m]);
                        }
                    }
                    assert(self.inv_at(token_ids@[m] as int) == pre.inv_at(
                        token_ids@[m] as int,
                    ));
                }
            }

            // trigram postings of this token
            let glen = tri_lists[p].len();
            let mut j: usize = 0;
            proof {
                assert(tri_strs[p as int].take(0).to_set() =~= Set::<Seq<char>>::empty());
            }
            while j < glen
                invariant
                    g4.wf(),
                    self.wf(),
                    self.interner == g4.interner,
                    self.documents == g4.documents,
                    self.doc_count == g4.doc_count,
                    self.indexed_fields == g4.indexed_fields,
                    self.inverted_index@.len() == g4.inverted_index@.len(),
                    self.trigram_index@.len() == g4.trigram_index@.len(),
                    g4.inverted_index@.len() == g4.strs().len(),
                    g4.trigram_index@.len() == g4.strs().len(),
                    g4.documents@.len() == g4.strs().len(),
                    (doc_tid as int) < g4.strs().len(),
                    g4.strs()[doc_tid as int] == id,
                    g4.doc_live(doc_tid as int),
                    toks_dv.no_duplicates(),
                    toks_dv.len() == token_ids@.len(),
                    p < token_ids@.len(),
                    ts == toks_dv[p as int],
                    forall|m: int|
                        0 <= m < token_ids@.len() ==> ((#[trigger] token_ids@[m] as int)
                            < g4.strs().len() && g4.strs()[token_ids@[m] as int] == toks_dv[m]),
                    tri_lists@.len() == token_ids@.len(),
                    tri_strs.len() == token_ids@.len(),
                    forall|m: int|
                        0 <= m < tri_strs.len() ==> (#[trigger] tri_strs[m]).to_set()
                            == trigrams_of(toks_dv[m]),
                    forall|m: int|
                        0 <= m < tri_strs.len() ==> (#[trigger] tri_lists@[m])@.len()
                            == tri_strs[m].len(),
                    forall|m: int, j2: int|
                        0 <= m < tri_strs.len() && 0 <= j2 < tri_strs[m].len() ==> (((
                        #[trigger] tri_lists@[m]@[j2]) as int) < g4.strs().len() && g4.strs()[
                            tri_lists@[m]@[j2] as int
                        ] == tri_strs[m][j2]),
                    glen == tri_lists@[p as int]@.len(),
                    j <= glen,
                    forall|m: int|
                        p + 1 <= m < token_ids@.len() ==> !(#[trigger] self.inv_at(
                            token_ids@[m] as int,
                        )).contains(doc_tid),
                    forall|s: Seq<char>| #[trigger] self.has_doc(s) == g4.has_doc(s),
                    forall|s: Seq<char>|
                        g4.has_doc(s) ==> #[trigger] self.doc_fields(s) == g4.doc_fields(s),
                    self.doc_count_spec() == g4.doc_count_spec(),
                    self.cfg() == g4.cfg(),
                    forall|t: Seq<char>| #[trigger] self.posting(t) == (if toks_dv.take(
                        p + 1,
                    ).to_set().contains(t) {
                        g4.posting(t).push(id)
                    } else {
                        g4.posting(t)
                    }),
                    forall|g: Seq<char>, t: Seq<char>| #[trigger] self.trig_tokens(g).contains(
                        t,
                    ) == (g4.trig_tokens(g).contains(t) || (exists|m: int|
                    0 <= m < p && toks_dv[m] == t && (#[trigger] tri_strs[m]).to_set().contains(
                        g,
                    )) || (ts == t && tri_strs[p as int].take(j as int).to_set().contains(g))),
                decreases glen - j,
            {
                let gid_u = tri_lists[p][j] as usize;
                let ghost gs = tri_strs[p as int][j as int];
                let tok_id = token_ids[p];
                let ghost pre2 = *self;
                let mut grow = self.trigram_index[gid_u].clone();
                proof {
                    assert(grow@ =~= pre2.trigram_index@[gid_u as int]@);
                }
                grow.push(tok_id);
                self.trigram_index.set(gid_u, grow);
                proof {
                    assert(self.trigram_index@ =~= pre2.trigram_index@.update(
                        gid_u as int,
                        self.trigram_index@[gid_u as int],
                    ));
                    Self::lemma_push_trigram(&pre2, self, gid_u as int, tok_id);
                    assert(pre2.strs()[gid_u as int] == gs);
                    assert(pre2.strs()[tok_id as int] == ts);
                    assert(tri_strs[p as int].take(j + 1) =~= tri_strs[p as int].take(j as int)
                        + seq![gs]);
                    Seq::lemma_to_set_insert_commutes(tri_strs[p as int].take(j as int), gs);
                    assert forall|g: Seq<char>, t: Seq<char>| true implies
                        #[trigger] self.trig_tokens(g).contains(t) == (g4.trig_tokens(
                        g,
                    ).contains(t) || (exists|m: int|
                    0 <= m < p && toks_dv[m] == t && (#[trigger] tri_strs[m]).to_set().contains(
                        g,
                    )) || (ts == t && tri_strs[p as int].take(j + 1).to_set().contains(g))) by {
                        if g == gs {
                            assert(self.trig_tokens(g) == pre2.trig_tokens(g).insert(ts));
                        } else {
                            assert(self.trig_tokens(g) == pre2.trig_tokens(g));
                        }
                    }
                }
                j = j + 1;
            }
            proof {
                assert(tri_strs[p as int].take(tri_strs[p as int].len() as int)
                    =~= tri_strs[p as int]);
                assert forall|g: Seq<char>, t: Seq<char>| true implies
                    #[trigger] self.trig_tokens(g).contains(t) == (g4.trig_tokens(g).contains(t)
                    || (exists|m: int|
                0 <= m < p + 1 && toks_dv[m] == t && (#[trigger] tri_strs[m]).to_set().contains(
                    g,
                ))) by {
                    if ts == t && tri_strs[p as int].to_set().contains(g) {
                        assert(0 <= p < p + 1 && toks_dv[p as int] == t && tri_strs[
                            p as int
                        ].to_set().contains(g));
                    }
                }
            }
            p = p + 1;
        }

        // ---- assemble the final guarantee ----
        proof {
            let b = self;
            assert(toks_dv.take(toks_dv.len() as int) =~= toks_dv);
            assert(toks_dv.to_set() == toks);
            assert forall|s: Seq<char>| true implies #[trigger] b.has_doc(s) == (g0.has_doc(s)
                || s == id) by {
                assert(b.has_doc(s) == g4.has_doc(s));
                assert(g4.has_doc(s) == (g2.has_doc(s) || s == id));
                assert(g2.has_doc(s) == (g1.has_doc(s) && s != id));
                assert(g1.has_doc(s) == g0.has_doc(s));
            }
            assert(b.doc_fields(id) == fields) by {
                assert(g4.has_doc(id));
                assert(b.doc_fields(id) == g4.doc_fields(id));
            }
            assert forall|s: Seq<char>| s != id && g0.has_doc(s) implies #[trigger] b.doc_fields(
                s,
            ) == g0.doc_fields(s) by {
                assert(g1.has_doc(s));
                assert(g2.has_doc(s));
                assert(g4.has_doc(s) == (g2.has_doc(s) || s == id));
                assert(g2.doc_fields(s) == g1.doc_fields(s));
                assert(g1.doc_fields(s) == g0.doc_fields(s));
                assert(g4.doc_fields(s) == g2.doc_fields(s));
                assert(b.doc_fields(s) == g4.doc_fields(s));
            }
            assert(b.doc_count_spec() == g0.doc_count_spec() + (if g0.has_doc(id) {
                0int
            } else {
                1int
            })) by {
                assert(g1.has_doc(id) == g0.has_doc(id));
                assert(had == g1.has_doc(id));
            }
            assert forall|t: Seq<char>| true implies #[trigger] b.posting(t) == (if
                toks.contains(t) {
                strs_filter(g0.posting(t), id).push(id)
            } else {
                strs_filter(g0.posting(t), id)
            }) by {
                assert(b.posting(t) == (if toks_dv.take(toks_dv.len() as int).to_set().contains(
                    t,
                ) {
                    g4.posting(t).push(id)
                } else {
                    g4.posting(t)
                }));
                assert(g4.posting(t) == g2.posting(t));
                assert(g2.posting(t) == strs_filter(g1.posting(t), id));
                assert(g1.posting(t) == g0.posting(t));
            }
            assert forall|g: Seq<char>, t: Seq<char>| true implies #[trigger] b.trig_tokens(
                g,
            ).contains(t) == (g0.trig_tokens(g).contains(t) || (toks.contains(t) && trigrams_of(
                t,
            ).contains(g))) by {
                assert(b.trig_tokens(g).contains(t) == (g4.trig_tokens(g).contains(t) || (
                exists|m: int|
                    0 <= m < toks_dv.len() && toks_dv[m] == t && (
                    #[trigger] tri_strs[m]).to_set().contains(g))));
                assert(g4.trig_tokens(g) == g2.trig_tokens(g));
                assert(g2.trig_tokens(g) == g1.trig_tokens(g));
                assert(g1.trig_tokens(g) == g0.trig_tokens(g));
                if exists|m: int|
                    0 <= m < toks_dv.len() && toks_dv[m] == t && (
                    #[trigger] tri_strs[m]).to_set().contains(g) {
                    let m = choose|m: int|
                        0 <= m < toks_dv.len() && toks_dv[m] == t && (
                        #[trigger] tri_strs[m]).to_set().contains(g);
                    assert(toks_dv.contains(t));
                    assert(trigrams_of(t).contains(g));
                }
                if toks.contains(t) && trigrams_of(t).contains(g) {
                    let m = choose|m: int| 0 <= m < toks_dv.len() && toks_dv[m] == t;
                    assert(tri_strs[m].to_set() == trigrams_of(toks_dv[m]));
                    assert(0 <= m < toks_dv.len() && toks_dv[m] == t && tri_strs[
                        m
                    ].to_set().contains(g));
                }
            }
            assert(b.cfg() == g0.cfg()) by {
                assert(b.cfg() == g4.cfg());
                assert(g4.cfg() == g2.cfg());
                assert(g2.cfg() == g1.cfg());
                assert(g1.cfg() == g0.cfg());
            }
        }
        Ok(())
    }

    // -----------------------------------------------------------------
    // Candidate generation.
    // -----------------------------------------------------------------

    /// The tokens sharing at least one trigram with the query token,
    /// according to the trigram index.
    pub open spec fn token_candidates(&self, qt: Seq<char>) -> Set<Seq<char>> {
        Set::new(
            |t: Seq<char>|
                exists|g: Seq<char>|
                    trigrams_of(qt).contains(g) && #[trigger] self.trig_tokens(g).contains(t),
        )
    }

    /// The union of the candidate sets of a sequence of query tokens.
    pub open spec fn cand_union(&self, qts: Seq<Seq<char>>) -> Set<Seq<char>>
        decreases qts.len(),
    {
        if qts.len() == 0 {
            Set::empty()
        } else {
            self.cand_union(qts.drop_last()).union(self.token_candidates(qts.last()))
        }
    }

    /// The candidate tokens of a query: every indexed token that shares a
    /// trigram with one of the query's tokens.
    pub open spec fn candidates_spec(&self, query: Seq<char>) -> Set<Seq<char>> {
        self.cand_union(extract_tokens_spec(normalise_spec(query)))
    }

    /// Find candidate tokens for a search query using trigram matching.
    pub fn find_candidate_tokens(&self, query: &str) -> (r: Vec<String>)
        requires
            self.wf(),
        ensures
            r.deep_view().no_duplicates(),
            r.deep_view().to_set() == self.candidates_spec(query@),
    {
        let normalized_query = normalize_text(query);
        let query_tokens = extract_tokens(normalized_query.as_str());
        let ghost qts = query_tokens.deep_view();
        let mut r: Vec<String> = Vec::new();
        let mut i: usize = 0;
        proof {
            assert(qts.take(0) =~= Seq::<Seq<char>>::empty());
            assert(r.deep_view().to_set() =~= self.cand_union(qts.take(0)));
        }
        while i < query_tokens.len()
            invariant
                self.wf(),
                qts == query_tokens.deep_view(),
                qts.len() == query_tokens@.len(),
                i <= qts.len(),
                r.deep_view().no_duplicates(),
                r.deep_view().to_set() == self.cand_union(qts.take(i as int)),
            decreases qts.len() - i,
        {
            let ghost qt = qts[i as int];
            let ghost base = r.deep_view().to_set();
            let gvec = generate_trigrams(query_tokens[i].as_str());
            let ghost gdv = gvec.deep_view();
            let mut a: usize = 0;
            proof {
                assert(gdv.to_set() == trigrams_of(qt));
            }
            while a < gvec.len()
                invariant
                    self.wf(),
                    gdv == gvec.deep_view(),
                    gdv.len() == gvec@.len(),
                    gdv.to_set() == trigrams_of(qt),
                    a <= gdv.len(),
                    r.deep_view().no_duplicates(),
                    forall|t: Seq<char>| #[trigger] r.deep_view().to_set().contains(t) == (
                    base.contains(t) || exists|x: int|
                        0 <= x < a && #[trigger] self.trig_tokens(gdv[x]).contains(t)),
                decreases gdv.len() - a,
            {
                let ghost g = gdv[a as int];
                match self.interner.get_id(gvec[a].as_str()) {
                    Some(gid) => {
                        proof {
                            Self::lemma_tid_of(self, g);
                            assert(self.tid_of(g) == gid.0 as int);
                        }
                        let gid_u = gid.0 as usize;
                        if gid_u < self.trigram_index.len() {
                            let row_len = self.trigram_index[gid_u].len();
                            let mut b: usize = 0;
                            proof {
                                assert(ids_to_strs(self.trig_at(gid_u as int), self.strs()).take(
                                    0,
                                ).to_set() =~= Set::<Seq<char>>::empty());
                            }
                            while b < row_len
                                invariant
                                    self.wf(),
                                    gid_u < self.trigram_index@.len(),
                                    (gid_u as int) < self.n(),
                                    row_len == self.trig_at(gid_u as int).len(),
                                    self.tid_of(g) == gid_u as int,
                                    self.interned(g),
                                    b <= row_len,
                                    r.deep_view().no_duplicates(),
                                    forall|t: Seq<char>|
                                        #[trigger] r.deep_view().to_set().contains(t) == (
                                        base.contains(t) || (exists|x: int|
                                            0 <= x < a && #[trigger] self.trig_tokens(
                                                gdv[x],
                                            ).contains(t)) || ids_to_strs(
                                            self.trig_at(gid_u as int),
                                            self.strs(),
                                        ).take(b as int).to_set().contains(t)),
                                decreases row_len - b,
                            {
                                let t_id = self.trigram_index[gid_u][b];
                                proof {
                                    assert(self.trig_at(gid_u as int)[b as int] == t_id);
                                    assert((t_id as int) < self.n());
                                }
                                let ts = match self.interner.get(StringId(t_id)) {
                                    Some(s) => s,
                                    None => {
                                        proof {
                                            assert(false);
                                        }
                                        return Vec::new();
                                    },
                                };
                                let ghost tstr = self.strs()[t_id as int];
                                let ghost m = ids_to_strs(
                                    self.trig_at(gid_u as int),
                                    self.strs(),
                                );
                                proof {
                                    assert(ts@ == tstr);
                                    assert(m[b as int] == tstr);
                                    assert(m.take(b + 1) =~= m.take(b as int) + seq![tstr]);
                                    Seq::lemma_to_set_insert_commutes(m.take(b as int), tstr);
                                }
                                let owned = ts.to_owned();
                                if !contains_string(&r, &owned) {
                                    let ghost r0 = r.deep_view();
                                    r.push(owned);
                                    proof {
                                        assert(r.deep_view() =~= r0.push(tstr));
                                        Seq::lemma_to_set_insert_commutes(r0, tstr);
                                        assert(r0.push(tstr) =~= r0 + seq![tstr]);
                                    }
                                } else {
                                    proof {
                                        assert(r.deep_view().to_set().contains(tstr));
                                    }
                                }
                                b = b + 1;
                            }
                            proof {
                                let m = ids_to_strs(self.trig_at(gid_u as int), self.strs());
                                assert(m.take(m.len() as int) =~= m);
                                assert(self.trig_tokens(g) == m.to_set());
                                assert forall|t: Seq<char>|
                                    #[trigger] r.deep_view().to_set().contains(t) == (
                                base.contains(t) || exists|x: int|
                                    0 <= x < a + 1 && #[trigger] self.trig_tokens(
                                        gdv[x],
                                    ).contains(t)) by {
                                    if self.trig_tokens(gdv[a as int]).contains(t) {
                                        assert(0 <= a < a + 1 && self.trig_tokens(
                                            gdv[a as int],
                                        ).contains(t));
                                    }
                                }
                            }
                        } else {
                            proof {
                                assert(self.trig_at(gid_u as int) =~= Seq::<u32>::empty());
                                assert(ids_to_strs(
                                    self.trig_at(gid_u as int),
                                    self.strs(),
                                ) =~= Seq::<Seq<char>>::empty());
                                assert(self.trig_tokens(g) =~= Set::<Seq<char>>::empty());
                            }
                        }
                    },
                    None => {
                        proof {
                            assert(!self.interned(g));
                            assert(self.trig_tokens(g) =~= Set::<Seq<char>>::empty());
                        }
                    },
                }
                a = a + 1;
            }
            proof {
                assert(gdv.take(gdv.len() as int) =~= gdv);
                assert(qts.take(i + 1).drop_last() =~= qts.take(i as int));
                assert(qts.take(i + 1).last() == qt);
                assert forall|t: Seq<char>| #[trigger] r.deep_view().to_set().contains(t) == (
                self.cand_union(qts.take(i as int)).contains(t) || self.token_candidates(
                    qt,
                ).contains(t)) by {
                    if exists|x: int|
                        0 <= x < gdv.len() && #[trigger] self.trig_tokens(gdv[x]).contains(t) {
                        let x = choose|x: int|
                            0 <= x < gdv.len() && #[trigger] self.trig_tokens(gdv[x]).contains(
                                t,
                            );
                        assert(gdv.to_set().contains(gdv[x]));
                        assert(trigrams_of(qt).contains(gdv[x]));
                        assert(self.token_candidates(qt).contains(t));
                    }
                    if self.token_candidates(qt).contains(t) {
                        let g = choose|g: Seq<char>|
                            trigrams_of(qt).contains(g) && #[trigger] self.trig_tokens(
                                g,
                            ).contains(t);
                        assert(gdv.to_set().contains(g));
                        let x = choose|x: int| 0 <= x < gdv.len() && gdv[x] == g;
                        assert(self.trig_tokens(gdv[x]).contains(t));
                    }
                }
                assert(r.deep_view().to_set() =~= self.cand_union(qts.take(i + 1)));
            }
            i = i + 1;
        }
        proof {
            assert(qts.take(qts.len() as int) =~= qts);
            assert(qts == extract_tokens_spec(normalise_spec(query@)));
        }
        r
    }

    // -----------------------------------------------------------------
    // Ranking.
    // -----------------------------------------------------------------

    /// The number of document slots.
    pub closed spec fn docs_len(&self) -> int {
        self.documents@.len() as int
    }

    /// The size of the trigram intersection of two token strings.
    pub open spec fn overlap_num(qt: Seq<char>, t: Seq<char>) -> int {
        trigrams_of(qt).intersect(trigrams_of(t)).len() as int
    }

    /// The size of the larger of the two trigram sets.
    pub open spec fn overlap_den(qt: Seq<char>, t: Seq<char>) -> int {
        if trigrams_of(qt).len() >= trigrams_of(t).len() {
            trigrams_of(qt).len() as int
        } else {
            trigrams_of(t).len() as int
        }
    }

    /// Whether candidate `t` qualifies for the query token at position
    /// `i`: the index proposes it, the trigram overlap reaches one fifth
    /// of the larger set, and the edit distance is within the tolerance
    /// plus one.
    pub open spec fn qual(&self, qts: Seq<Seq<char>>, i: int, t: Seq<char>, max_d: int) -> bool {
        let qt = qts[i];
        &&& self.candidates_spec(qt).contains(t)
        &&& Self::overlap_den(qt, t) > 0
        &&& 5 * Self::overlap_num(qt, t) >= Self::overlap_den(qt, t)
        &&& lev(qt, t) <= max_d + 1
    }

    /// The last query-token position below `k` for which `t` qualifies,
    /// or -1; later query tokens overwrite earlier scores.
    pub open spec fn last_qual(
        &self,
        qts: Seq<Seq<char>>,
        t: Seq<char>,
        max_d: int,
        k: int,
    ) -> int
        decreases k,
    {
        if k <= 0 {
            -1
        } else if self.qual(qts, k - 1, t, max_d) {
            k - 1
        } else {
            self.last_qual(qts, t, max_d, k - 1)
        }
    }

    /// Whether candidate `t` is retained: it qualified for some query
    /// token and its final edit distance is within the tolerance.
    pub open spec fn retained_spec(&self, qts: Seq<Seq<char>>, t: Seq<char>, max_d: int) -> bool {
        let i = self.last_qual(qts, t, max_d, qts.len() as int);
        i >= 0 && lev(qts[i], t) <= max_d
    }

    /// The score a token earns from the query token at position `i`,
    /// scaled by 1000: the distance score 1/(d+1) times one plus the
    /// trigram overlap ratio, with a five-fold boost for exact matches.
    pub open spec fn score_at(&self, qts: Seq<Seq<char>>, i: int, t: Seq<char>) -> int {
        let qt = qts[i];
        let d = lev(qt, t) as int;
        let m = Self::overlap_den(qt, t);
        let num = Self::overlap_num(qt, t);
        let base = 1000 * (m + num) / (m * (d + 1));
        if d == 0 {
            5 * base
        } else {
            base
        }
    }

    /// The score a retained token contributes: the score from the last
    /// query token for which it qualified.
    pub open spec fn tok_score_spec(&self, qts: Seq<Seq<char>>, t: Seq<char>, max_d: int) -> int {
        self.score_at(qts, self.last_qual(qts, t, max_d, qts.len() as int), t)
    }

    /// The per-token record the scoring pass keeps: the distance and
    /// score from the last qualifying query token below `i`.
    pub open spec fn entry_spec(
        &self,
        qts: Seq<Seq<char>>,
        t: Seq<char>,
        max_d: int,
        i: int,
    ) -> Option<(int, int)>
        decreases i,
    {
        if i <= 0 {
            None
        } else if self.qual(qts, i - 1, t, max_d) {
            Some((lev(qts[i - 1], t) as int, self.score_at(qts, i - 1, t)))
        } else {
            self.entry_spec(qts, t, max_d, i - 1)
        }
    }

    /// The scoring record is exactly the last qualifying query token's
    /// distance and score.
    proof fn lemma_entry_spec(&self, qts: Seq<Seq<char>>, t: Seq<char>, max_d: int, i: int)
        ensures
            (self.entry_spec(qts, t, max_d, i) is None) == (self.last_qual(qts, t, max_d, i)
                == -1),
            self.entry_spec(qts, t, max_d, i) matches Some(e) ==> {
                let lq = self.last_qual(qts, t, max_d, i);
                &&& 0 <= lq < i
                &&& e.0 == lev(qts[lq], t) as int
                &&& e.1 == self.score_at(qts, lq, t)
            },
        decreases i,
    {
        if i > 0 {
            self.lemma_entry_spec(qts, t, max_d, i - 1);
        }
    }

    /// Candidate tokens are interned strings.
    proof fn lemma_cand_union_interned(&self, qs: Seq<Seq<char>>, t: Seq<char>)
        requires
            self.wf(),
            self.cand_union(qs).contains(t),
        ensures
            self.interned(t),
        decreases qs.len(),
    {
        if qs.len() > 0 {
            if self.token_candidates(qs.last()).contains(t) {
                let g = choose|g: Seq<char>|
                    trigrams_of(qs.last()).contains(g) && #[trigger] self.trig_tokens(
                        g,
                    ).contains(t);
                if self.interned(g) {
                    let m = ids_to_strs(self.trig_at(self.tid_of(g)), self.strs());
                    assert(m.to_set().contains(t));
                    let x = choose|x: int| 0 <= x < m.len() && m[x] == t;
                    Self::lemma_tid_of(self, g);
                    assert(0 <= self.trig_at(self.tid_of(g))[x] < self.n());
                    assert(self.strs()[self.trig_at(self.tid_of(g))[x] as int] == t);
                } else {
                    assert(self.trig_tokens(g) =~= Set::<Seq<char>>::empty());
                }
            } else {
                self.lemma_cand_union_interned(qs.drop_last(), t);
            }
        }
    }

    /// The contribution of token id `tid` to the score of document `did`.
    pub open spec fn tok_part(
        &self,
        qts: Seq<Seq<char>>,
        did: u32,
        max_d: int,
        tid: int,
    ) -> int {
        if self.retained_spec(qts, self.strs()[tid], max_d) && self.inv_at(tid).contains(did) {
            self.tok_score_spec(qts, self.strs()[tid], max_d)
        } else {
            0
        }
    }

    /// The accumulated score of document `did` over token ids below `k`.
    pub open spec fn score_upto(
        &self,
        qts: Seq<Seq<char>>,
        did: u32,
        max_d: int,
        k: int,
    ) -> int
        decreases k,
    {
        if k <= 0 {
            0
        } else {
            self.score_upto(qts, did, max_d, k - 1) + self.tok_part(qts, did, max_d, k - 1)
        }
    }

    /// The score of document `did`: the sum of the scores of the retained
    /// tokens whose posting holds it.
    pub open spec fn doc_score_spec(&self, qts: Seq<Seq<char>>, did: u32, max_d: int) -> int {
        self.score_upto(qts, did, max_d, self.n())
    }

    /// Whether some retained token's posting holds `did`.
    pub open spec fn doc_touched(&self, qts: Seq<Seq<char>>, did: u32, max_d: int) -> bool {
        exists|tid: int|
            0 <= tid < self.n() && self.retained_spec(qts, self.strs()[tid], max_d) && (
            #[trigger] self.inv_at(tid)).contains(did)
    }

    /// Whether document `did` is a hit: present, touched by a retained
    /// token, and scoring at least the threshold.
    pub open spec fn doc_hits(&self, qts: Seq<Seq<char>>, did: u32, opts: SearchOptions) -> bool {
        &&& self.doc_live(did as int)
        &&& self.doc_touched(qts, did, opts.max_distance as int)
        &&& self.doc_score_spec(qts, did, opts.max_distance as int)
            >= opts.score_threshold as int
    }

    /// The number of hits among document slots below `k`.
    pub open spec fn hits_upto(&self, qts: Seq<Seq<char>>, opts: SearchOptions, k: int) -> int
        decreases k,
    {
        if k <= 0 {
            0
        } else {
            self.hits_upto(qts, opts, k - 1) + (if self.doc_hits(qts, (k - 1) as u32, opts) {
                1int
            } else {
                0int
            })
        }
    }

    /// The total number of hits.
    pub open spec fn hit_count(&self, qts: Seq<Seq<char>>, opts: SearchOptions) -> int {
        self.hits_upto(qts, opts, self.docs_len())
    }

    /// Lexicographic order on character sequences, by code point.
    pub open spec fn lex_lt(a: Seq<char>, b: Seq<char>) -> bool
        decreases a.len(),
    {
        if b.len() == 0 {
            false
        } else if a.len() == 0 {
            true
        } else if a[0] != b[0] {
            (a[0] as u32) < (b[0] as u32)
        } else {
            Self::lex_lt(a.drop_first(), b.drop_first())
        }
    }

    /// The result order: score descending, ties broken by id ascending.
    pub open spec fn beats(s1: int, id1: Seq<char>, s2: int, id2: Seq<char>) -> bool {
        s1 > s2 || (s1 == s2 && Self::lex_lt(id1, id2))
    }

    /// A well-formed result entry: a hit with its exact score and a copy
    /// of the stored document.
    pub open spec fn valid_hit(
        &self,
        qts: Seq<Seq<char>>,
        opts: SearchOptions,
        e: SearchResult,
    ) -> bool {
        exists|did: u32|
            {
                &&& (did as int) < self.docs_len()
                &&& #[trigger] self.doc_hits(qts, did, opts)
                &&& e.document.id@ == self.strs()[did as int]
                &&& e.document.fields_model() == self.doc_fields(self.strs()[did as int])
                &&& e.score as int == self.doc_score_spec(qts, did, opts.max_distance as int)
                &&& e.matched_fields@.len() == 0
            }
    }

    /// What a search returns: at most `limit` results, exactly the
    /// best-ranked hits, sorted by score descending with ties broken by
    /// id, each carrying its exact score and document.
    pub open spec fn search_post(
        &self,
        q: Seq<char>,
        opts: SearchOptions,
        rs: Seq<SearchResult>,
    ) -> bool {
        let qts = extract_tokens_spec(q);
        &&& rs.len() <= opts.limit
        &&& (qts.len() == 0 ==> rs.len() == 0)
        &&& forall|k: int| 0 <= k < rs.len() ==> self.valid_hit(qts, opts, #[trigger] rs[k])
        &&& forall|k1: int, k2: int|
            0 <= k1 < k2 < rs.len() ==> Self::beats(
                rs[k1].score as int,
                (#[trigger] rs[k1]).document.id@,
                rs[k2].score as int,
                (#[trigger] rs[k2]).document.id@,
            )
        &&& (qts.len() > 0 ==> rs.len() == (if opts.limit as int <= self.hit_count(qts, opts) {
            opts.limit as int
        } else {
            self.hit_count(qts, opts)
        }))
        &&& forall|did: u32|
            ((did as int) < self.docs_len() && #[trigger] self.doc_hits(qts, did, opts) && !(
            exists|k: int|
                0 <= k < rs.len() && (#[trigger] rs[k]).document.id@ == self.strs()[
                    did as int
                ])) ==> (forall|k: int|
                0 <= k < rs.len() ==> Self::beats(
                    rs[k].score as int,
                    (#[trigger] rs[k]).document.id@,
                    self.doc_score_spec(qts, did, opts.max_distance as int),
                    self.strs()[did as int],
                ))
    }

    /// Characters with equal code points are equal.
    pub proof fn lemma_char_code_inj(a: char, b: char)
        requires
            a as u32 == b as u32,
        ensures
            a == b,
    {
    }

    /// Distinct characters have distinct code points.
    proof fn lemma_char_code_injective(a: char, b: char)
        requires
            a as u32 == b as u32,
        ensures
            a == b,
    {
    }

    /// The lexicographic order is irreflexive.
    proof fn lemma_lex_lt_irrefl(a: Seq<char>)
        ensures
            !Self::lex_lt(a, a),
        decreases a.len(),
    {
        if a.len() > 0 {
            Self::lemma_lex_lt_irrefl(a.drop_first());
        }
    }

    /// The lexicographic order is asymmetric and total on distinct
    /// sequences.
    proof fn lemma_lex_lt_total(a: Seq<char>, b: Seq<char>)
        ensures
            a != b ==> (Self::lex_lt(a, b) || Self::lex_lt(b, a)),
            !(Self::lex_lt(a, b) && Self::lex_lt(b, a)),
        decreases a.len(), b.len(),
    {
        if a.len() > 0 && b.len() > 0 {
            Self::lemma_lex_lt_total(a.drop_first(), b.drop_first());
            if a[0] == b[0] {
                if a.drop_first() == b.drop_first() {
                    assert(a.len() == b.len());
                    assert forall|m: int| 0 <= m < a.len() implies a[m] == b[m] by {
                        if m > 0 {
                            assert(a.drop_first()[m - 1] == b.drop_first()[m - 1]);
                        }
                    }
                    assert(a =~= b);
                }
            } else {
                if a[0] as u32 == b[0] as u32 {
                    Self::lemma_char_code_injective(a[0], b[0]);
                    assert(false);
                }
                assert(Self::lex_lt(a, b) == ((a[0] as u32) < (b[0] as u32)));
                assert(Self::lex_lt(b, a) == ((b[0] as u32) < (a[0] as u32)));
            }
        } else {
            if a.len() == 0 && b.len() == 0 {
                assert(a =~= b);
            }
            if a.len() == 0 && b.len() > 0 {
                assert(Self::lex_lt(a, b));
            }
            if b.len() == 0 && a.len() > 0 {
                assert(Self::lex_lt(b, a));
            }
        }
    }

    /// The lexicographic order is transitive.
    proof fn lemma_lex_lt_trans(a: Seq<char>, b: Seq<char>, c: Seq<char>)
        requires
            Self::lex_lt(a, b),
            Self::lex_lt(b, c),
        ensures
            Self::lex_lt(a, c),
        decreases a.len(), b.len(), c.len(),
    {
        if a.len() > 0 && b.len() > 0 && c.len() > 0 {
            if a[0] == b[0] && b[0] == c[0] {
                Self::lemma_lex_lt_trans(a.drop_first(), b.drop_first(), c.drop_first());
            }
        }
    }

    /// The result order is total on entries with distinct ids and
    /// transitive.
    proof fn lemma_beats_total(s1: int, id1: Seq<char>, s2: int, id2: Seq<char>)
        ensures
            id1 != id2 ==> (Self::beats(s1, id1, s2, id2) || Self::beats(s2, id2, s1, id1)),
            !(Self::beats(s1, id1, s2, id2) && Self::beats(s2, id2, s1, id1)),
    {
        Self::lemma_lex_lt_total(id1, id2);
        Self::lemma_lex_lt_irrefl(id1);
    }

    proof fn lemma_beats_trans(
        s1: int,
        id1: Seq<char>,
        s2: int,
        id2: Seq<char>,
        s3: int,
        id3: Seq<char>,
    )
        requires
            Self::beats(s1, id1, s2, id2),
            Self::beats(s2, id2, s3, id3),
        ensures
            Self::beats(s1, id1, s3, id3),
    {
        if s1 == s2 && s2 == s3 {
            Self::lemma_lex_lt_trans(id1, id2, id3);
        }
    }

    /// Score every candidate token against the query tokens, keeping for
    /// each the distance and score from its last qualifying query token.
    fn score_candidates(&self, query_tokens: &Vec<String>, opts: &SearchOptions) -> (r: Result<
        Vec<Option<(usize, u64)>>,
        TigerCacheError,
    >)
        requires
            self.wf(),
        ensures
            r matches Ok(info) && {
                &&& info@.len() == self.strs().len()
                &&& forall|x: int|
                    0 <= x < info@.len() ==> Self::opt_model(#[trigger] info@[x])
                        == self.entry_spec(
                        query_tokens.deep_view(),
                        self.strs()[x],
                        opts.max_distance as int,
                        query_tokens.deep_view().len() as int,
                    )
                &&& forall|x: int|
                    0 <= x < info@.len() ==> ((#[trigger] info@[x]) matches Some(e) ==> e.1
                        <= 10000)
            },
    {
        let ghost qts = query_tokens.deep_view();
        let ghost maxd = opts.max_distance as int;
        let n = self.interner.len();
        let mut info: Vec<Option<(usize, u64)>> = Vec::new();
        while info.len() < n
            invariant
                info@.len() <= n,
                forall|x: int| 0 <= x < info@.len() ==> (#[trigger] info@[x]) is None,
            decreases n - info@.len(),
        {
            info.push(None);
        }
        let mut i: usize = 0;
        proof {
            assert forall|x: int| 0 <= x < n implies Self::opt_model(#[trigger] info@[x])
                == self.entry_spec(qts, self.strs()[x], maxd, 0) by {}
        }
        while i < query_tokens.len()
            invariant
                self.wf(),
                n == self.strs().len(),
                maxd == opts.max_distance as int,
                qts == query_tokens.deep_view(),
                qts.len() == query_tokens@.len(),
                i <= qts.len(),
                info@.len() == n,
                forall|x: int|
                    0 <= x < n ==> Self::opt_model(#[trigger] info@[x]) == self.entry_spec(
                        qts,
                        self.strs()[x],
                        maxd,
                        i as int,
                    ),
                forall|x: int|
                    0 <= x < n ==> ((#[trigger] info@[x]) matches Some(e) ==> e.1 <= 10000),
            decreases qts.len() - i,
        {
            let ghost qt = qts[i as int];
            let qv = generate_trigrams(query_tokens[i].as_str());
            let cands = self.find_candidate_tokens(query_tokens[i].as_str());
            let ghost cdv = cands.deep_view();
            let mut ci: usize = 0;
            proof {
                assert(cdv.take(0).to_set() =~= Set::<Seq<char>>::empty());
            }
            while ci < cands.len()
                invariant
                    self.wf(),
                    n == self.strs().len(),
                    maxd == opts.max_distance as int,
                    qts == query_tokens.deep_view(),
                    qts.len() == query_tokens@.len(),
                    i < qts.len(),
                    qt == qts[i as int],
                    qv.deep_view().no_duplicates(),
                    qv.deep_view().to_set() == trigrams_of(qt),
                    cdv == cands.deep_view(),
                    cdv.len() == cands@.len(),
                    cdv.no_duplicates(),
                    cdv.to_set() == self.candidates_spec(qt),
                    ci <= cdv.len(),
                    info@.len() == n,
                    forall|x: int|
                        0 <= x < n ==> Self::opt_model(#[trigger] info@[x]) == (if cdv.take(
                            ci as int,
                        ).to_set().contains(self.strs()[x]) {
                            self.entry_step(qts, i as int, self.strs()[x], maxd)
                        } else {
                            self.entry_spec(qts, self.strs()[x], maxd, i as int)
                        }),
                    forall|x: int|
                        0 <= x < n ==> ((#[trigger] info@[x]) matches Some(e) ==> e.1 <= 10000),
                decreases cdv.len() - ci,
        {
                let ghost c = cdv[ci as int];
                proof {
                    assert(cdv.to_set().contains(c));
                    self.lemma_cand_union_interned(extract_tokens_spec(normalise_spec(qt)), c);
                    Self::lemma_tid_of(self, c);
                }
                let tid = match self.interner.get_id(cands[ci].as_str()) {
                    Some(x) => x.0 as usize,
                    None => {
                        proof {
                            assert(false);
                        }
                        return Err(TigerCacheError::InternalError(String::new()));
                    },
                };
                proof {
                    assert(self.strs()[tid as int] == c);
                    assert(self.tid_of(c) == tid as int);
                }
                let cv = generate_trigrams(cands[ci].as_str());
                let inter = count_overlap(&qv, &cv);
                let qlen = qv.len();
                let clen = cv.len();
                let m = if qlen >= clen {
                    qlen
                } else {
                    clen
                };
                proof {
                    qv.deep_view().unique_seq_to_set();
                    cv.deep_view().unique_seq_to_set();
                    assert(qlen == trigrams_of(qt).len());
                    assert(clen == trigrams_of(c).len());
                    assert(m == Self::overlap_den(qt, c));
                    assert(inter == Self::overlap_num(qt, c));
                }
                let passes = m > 0 && 5u128 * (inter as u128) >= m as u128;
                let mut stored = false;
                if passes {
                    let d = levenshtein_distance(query_tokens[i].as_str(), cands[ci].as_str());
                    let within = d <= opts.max_distance || (d >= 1 && d - 1
                        <= opts.max_distance);
                    if within {
                        proof {
                            assert(lev(qt, c) <= maxd + 1);
                            assert(self.qual(qts, i as int, c, maxd));
                            assert(((m as u128) as int) * (((d as u128) + 1) as int) < (
                            0x100000000000000000000000000000000int)) by (nonlinear_arith)
                                requires
                                    ((m as u128) as int) <= 0xffffffffffffffffint,
                                    (((d as u128) + 1) as int) <= 0x10000000000000000int,
                            ;
                            assert(((m as u128) as int) * (((d as u128) + 1) as int) >= 1)
                                by (nonlinear_arith)
                                requires
                                    ((m as u128) as int) >= 1,
                                    (((d as u128) + 1) as int) >= 1,
                            ;
                        }
                        let den: u128 = (m as u128) * ((d as u128) + 1);
                        let base128: u128 = (1000u128 * ((m as u128) + (inter as u128))) / den;
                        proof {
                            assert(inter <= m);
                            assert(1000 * (((m as u128) + (inter as u128)) as int) <= 2000 * (
                            m as int)) by (nonlinear_arith)
                                requires
                                    (inter as int) <= (m as int),
                            ;
                            assert((base128 as int) <= 2000) by (nonlinear_arith)
                                requires
                                    (m as int) >= 1,
                                    (d as int) >= 0,
                                    (den as int) == ((m as u128) as int) * (((d as u128)
                                        + 1) as int),
                                    (base128 as int) == (1000 * (((m as u128) + (
                                    inter as u128)) as int)) / (den as int),
                                    1000 * (((m as u128) + (inter as u128)) as int) <= 2000 * (
                                    m as int),
                            ;
                        }
                        let base: u64 = base128 as u64;
                        let sc: u64 = if d == 0 {
                            base * 5
                        } else {
                            base
                        };
                        proof {
                            assert(sc as int == self.score_at(qts, i as int, c)) by {
                                assert(base as int == 1000 * (Self::overlap_den(qt, c)
                                    + Self::overlap_num(qt, c)) / (Self::overlap_den(qt, c) * (
                                lev(qt, c) as int + 1)));
                            }
                            assert(sc <= 10000);
                        }
                        info.set(tid, Some((d, sc)));
                        stored = true;
                        proof {
                            assert(Self::opt_model(info@[tid as int]) == self.entry_step(
                                qts,
                                i as int,
                                c,
                                maxd,
                            ));
                        }
                    }
                }
                proof {
                    if !stored {
                        assert(!self.qual(qts, i as int, c, maxd));
                        assert(self.entry_step(qts, i as int, c, maxd) == self.entry_spec(
                            qts,
                            c,
                            maxd,
                            i as int,
                        ));
                    }
                    assert(cdv.take(ci + 1) =~= cdv.take(ci as int) + seq![c]);
                    Seq::lemma_to_set_insert_commutes(cdv.take(ci as int), c);
                    assert forall|t2: int| 0 <= t2 < n implies Self::opt_model(
                        #[trigger] info@[t2],
                    ) == (if cdv.take(ci + 1).to_set().contains(self.strs()[t2]) {
                        self.entry_step(qts, i as int, self.strs()[t2], maxd)
                    } else {
                        self.entry_spec(qts, self.strs()[t2], maxd, i as int)
                    }) by {
                        if t2 != tid as int && self.strs()[t2] == c {
                            assert(false);
                        }
                    }
                }
                ci = ci + 1;
            }
            proof {
                assert(cdv.take(cdv.len() as int) =~= cdv);
                assert forall|x: int| 0 <= x < n implies Self::opt_model(#[trigger] info@[x])
                    == self.entry_spec(qts, self.strs()[x], maxd, i + 1) by {
                    let t = self.strs()[x];
                    if cdv.to_set().contains(t) {
                    } else {
                        assert(!self.candidates_spec(qt).contains(t));
                        assert(!self.qual(qts, i as int, t, maxd));
                    }
                }
            }
            i = i + 1;
        }
        Ok(info)
    }

    /// Accumulate each retained token's score into the documents its
    /// posting holds.
    fn accumulate_scores(
        &self,
        info: &Vec<Option<(usize, u64)>>,
        opts: &SearchOptions,
        Ghost(qts): Ghost<Seq<Seq<char>>>,
    ) -> (r: (Vec<u64>, Vec<bool>))
        requires
            self.wf(),
            info@.len() == self.strs().len(),
            forall|x: int|
                0 <= x < info@.len() ==> Self::opt_model(#[trigger] info@[x]) == self.entry_spec(
                    qts,
                    self.strs()[x],
                    opts.max_distance as int,
                    qts.len() as int,
                ),
            forall|x: int|
                0 <= x < info@.len() ==> ((#[trigger] info@[x]) matches Some(e) ==> e.1
                    <= 10000),
        ensures
            r.0@.len() == self.docs_len(),
            r.1@.len() == self.docs_len(),
            forall|dd: int|
                0 <= dd < self.docs_len() ==> (#[trigger] r.0@[dd]) as int
                    == self.doc_score_spec(qts, dd as u32, opts.max_distance as int),
            forall|dd: int|
                0 <= dd < self.docs_len() ==> ((#[trigger] r.1@[dd]) == self.doc_touched(
                    qts,
                    dd as u32,
                    opts.max_distance as int,
                )),
    {
        let ghost maxd = opts.max_distance as int;
        let n = self.interner.len();
        let dlen = self.documents.len();
        let mut scores: Vec<u64> = Vec::new();
        while scores.len() < dlen
            invariant
                scores@.len() <= dlen,
                forall|x: int| 0 <= x < scores@.len() ==> (#[trigger] scores@[x]) == 0,
            decreases dlen - scores@.len(),
        {
            scores.push(0);
        }
        let mut touched: Vec<bool> = Vec::new();
        while touched.len() < dlen
            invariant
                touched@.len() <= dlen,
                forall|x: int| 0 <= x < touched@.len() ==> (#[trigger] touched@[x]) == false,
            decreases dlen - touched@.len(),
        {
            touched.push(false);
        }
        let mut tid: usize = 0;
        proof {
            assert forall|dd: int| 0 <= dd < dlen implies (#[trigger] scores@[dd]) as int
                == self.score_upto(qts, dd as u32, maxd, 0) by {}
        }
        while tid < n
            invariant
                self.wf(),
                n == self.strs().len(),
                dlen == self.documents@.len(),
                maxd == opts.max_distance as int,
                tid <= n,
                info@.len() == n,
                forall|x: int|
                    0 <= x < n ==> Self::opt_model(#[trigger] info@[x]) == self.entry_spec(
                        qts,
                        self.strs()[x],
                        maxd,
                        qts.len() as int,
                    ),
                forall|x: int|
                    0 <= x < n ==> ((#[trigger] info@[x]) matches Some(e) ==> e.1 <= 10000),
                scores@.len() == dlen,
                touched@.len() == dlen,
                forall|dd: int|
                    0 <= dd < dlen ==> (#[trigger] scores@[dd]) as int == self.score_upto(
                        qts,
                        dd as u32,
                        maxd,
                        tid as int,
                    ),
                forall|dd: int|
                    0 <= dd < dlen ==> (#[trigger] scores@[dd]) as int <= 10000 * (tid as int),
                forall|dd: int|
                    0 <= dd < dlen ==> ((#[trigger] touched@[dd]) == exists|x: int|
                        0 <= x < tid && self.retained_spec(qts, self.strs()[x], maxd) && (
                        #[trigger] self.inv_at(x)).contains(dd as u32)),
            decreases n - tid,
        {
            let ghost t = self.strs()[tid as int];
            proof {
                self.lemma_entry_spec(qts, t, maxd, qts.len() as int);
            }
            let entry = info[tid];
            let mut use_row = false;
            match entry {
                Some((d, sc)) => {
                    if d <= opts.max_distance {
                        proof {
                            assert(self.retained_spec(qts, t, maxd));
                            assert(sc as int == self.tok_score_spec(qts, t, maxd));
                        }
                        use_row = true;
                        if tid < self.inverted_index.len() {
                            let row_len = self.inverted_index[tid].len();
                            let mut b: usize = 0;
                            proof {
                                assert(self.inv_at(tid as int).take(0) =~= Seq::<u32>::empty());
                            }
                            while b < row_len
                                invariant
                                    self.wf(),
                                    n == self.strs().len(),
                                    dlen == self.documents@.len(),
                                    maxd == opts.max_distance as int,
                                    tid < n,
                                    t == self.strs()[tid as int],
                                    tid < self.inverted_index@.len(),
                                    row_len == self.inv_at(tid as int).len(),
                                    self.retained_spec(qts, t, maxd),
                                    sc as int == self.tok_score_spec(qts, t, maxd),
                                    sc <= 10000,
                                    b <= row_len,
                                    scores@.len() == dlen,
                                    touched@.len() == dlen,
                                    forall|dd: int|
                                        0 <= dd < dlen ==> (#[trigger] scores@[dd]) as int
                                            == self.score_upto(qts, dd as u32, maxd, tid as int)
                                            + (if self.inv_at(tid as int).take(
                                            b as int,
                                        ).contains(dd as u32) {
                                            sc as int
                                        } else {
                                            0
                                        }),
                                    forall|dd: int|
                                        0 <= dd < dlen ==> (#[trigger] scores@[dd]) as int
                                            <= 10000 * (tid as int) + (if self.inv_at(
                                            tid as int,
                                        ).take(b as int).contains(dd as u32) {
                                            10000int
                                        } else {
                                            0
                                        }),
                                    forall|dd: int|
                                        0 <= dd < dlen ==> ((#[trigger] touched@[dd]) == (
                                        exists|x: int|
                                            0 <= x < tid && self.retained_spec(
                                                qts,
                                                self.strs()[x],
                                                maxd,
                                            ) && (#[trigger] self.inv_at(x)).contains(dd as u32)
                                            || self.inv_at(tid as int).take(b as int).contains(
                                                dd as u32,
                                            ))),
                                decreases row_len - b,
                            {
                                let did = self.inverted_index[tid][b] as usize;
                                proof {
                                    assert(self.inv_at(tid as int)[b as int] == did as u32);
                                    assert(self.doc_live(did as int));
                                    assert(did < dlen);
                                    assert(self.inv_at(tid as int).take(b + 1) =~= self.inv_at(
                                        tid as int,
                                    ).take(b as int) + seq![did as u32]);
                                    assert(!self.inv_at(tid as int).take(b as int).contains(
                                        did as u32,
                                    )) by {
                                        if self.inv_at(tid as int).take(b as int).contains(
                                            did as u32,
                                        ) {
                                            let bb = choose|bb: int|
                                                0 <= bb < b && self.inv_at(tid as int).take(
                                                    b as int,
                                                )[bb] == did as u32;
                                            assert(self.inv_at(tid as int)[bb] == self.inv_at(
                                                tid as int,
                                            )[b as int]);
                                        }
                                    }
                                }
                                let prev = scores[did];
                                proof {
                                    assert(prev as int <= 10000 * (tid as int));
                                    assert(10000 * (tid as int) + 10000 <= 10000 * (n as int))
                                        by (nonlinear_arith)
                                        requires
                                            (tid as int) + 1 <= (n as int),
                                    ;
                                    assert((n as int) <= 0x100000000int);
                                }
                                scores.set(did, prev + sc);
                                touched.set(did, true);
                                proof {
                                    assert forall|dd: int| 0 <= dd < dlen implies (
                                    #[trigger] self.inv_at(tid as int).take(b + 1).contains(
                                        dd as u32,
                                    )) == (self.inv_at(tid as int).take(b as int).contains(
                                        dd as u32,
                                    ) || dd == did as int) by {
                                        let p = self.inv_at(tid as int);
                                        if p.take(b as int).contains(dd as u32) {
                                            let w = choose|w: int|
                                                0 <= w < b && (#[trigger] p.take(b as int)[w])
                                                    == dd as u32;
                                            assert(p.take(b + 1)[w] == dd as u32);
                                        }
                                        if dd == did as int {
                                            assert(p.take(b + 1)[b as int] == dd as u32);
                                        }
                                        if p.take(b + 1).contains(dd as u32) {
                                            let w = choose|w: int|
                                                0 <= w < b + 1 && (#[trigger] p.take(b + 1)[w])
                                                    == dd as u32;
                                            if w < b {
                                                assert(p.take(b as int)[w] == dd as u32);
                                            } else {
                                                assert(dd as u32 == did as u32);
                                            }
                                        }
                                    }
                                    assert forall|dd: int| 0 <= dd < dlen implies (
                                    #[trigger] scores@[dd]) as int == self.score_upto(
                                        qts,
                                        dd as u32,
                                        maxd,
                                        tid as int,
                                    ) + (if self.inv_at(tid as int).take(b + 1).contains(
                                        dd as u32,
                                    ) {
                                        sc as int
                                    } else {
                                        0
                                    }) by {}
                                    assert forall|dd: int| 0 <= dd < dlen implies ((
                                    #[trigger] touched@[dd]) == (exists|x: int|
                                        0 <= x < tid && self.retained_spec(
                                            qts,
                                            self.strs()[x],
                                            maxd,
                                        ) && (#[trigger] self.inv_at(x)).contains(dd as u32)
                                        || self.inv_at(tid as int).take(b + 1).contains(
                                            dd as u32,
                                        ))) by {}
                                }
                                b = b + 1;
                            }
                            proof {
                                assert(self.inv_at(tid as int).take(row_len as int)
                                    =~= self.inv_at(tid as int));
                            }
                        } else {
                            proof {
                                assert(self.inv_at(tid as int) =~= Seq::<u32>::empty());
                            }
                        }
                    }
                },
                None => {},
            }
            proof {
                if !use_row {
                    match Self::opt_model(info@[tid as int]) {
                        Some(e) => {
                            assert(e.0 > maxd);
                            assert(!self.retained_spec(qts, t, maxd));
                        },
                        None => {
                            assert(self.last_qual(qts, t, maxd, qts.len() as int) == -1);
                            assert(!self.retained_spec(qts, t, maxd));
                        },
                    }
                }
                assert forall|dd: int| 0 <= dd < dlen implies (#[trigger] scores@[dd]) as int
                    == self.score_upto(qts, dd as u32, maxd, tid + 1) by {
                    if !self.retained_spec(qts, t, maxd) {
                        assert(self.tok_part(qts, dd as u32, maxd, tid as int) == 0);
                    } else if !self.inv_at(tid as int).contains(dd as u32) {
                        assert(self.tok_part(qts, dd as u32, maxd, tid as int) == 0);
                    }
                }
                assert forall|dd: int| 0 <= dd < dlen implies ((#[trigger] touched@[dd]) == (
                exists|x: int|
                    0 <= x < tid + 1 && self.retained_spec(qts, self.strs()[x], maxd) && (
                    #[trigger] self.inv_at(x)).contains(dd as u32))) by {
                    if touched@[dd] {
                    }
                    if exists|x: int|
                        0 <= x < tid + 1 && self.retained_spec(qts, self.strs()[x], maxd) && (
                        #[trigger] self.inv_at(x)).contains(dd as u32) {
                        let x = choose|x: int|
                            0 <= x < tid + 1 && self.retained_spec(qts, self.strs()[x], maxd)
                                && (#[trigger] self.inv_at(x)).contains(dd as u32);
                        if x == tid as int {
                            assert(self.retained_spec(qts, t, maxd));
                        }
                    }
                }
            }
            tid = tid + 1;
        }
        (scores, touched)
    }

    /// The ranking loop invariants: the collected hits are exactly the
    /// hits among the first `did` document slots, valid, complete and
    /// sorted.
    /// The entry stands for a hit among the first `did` document slots.
    spec fn entry_from(
        &self,
        qts: Seq<Seq<char>>,
        opts_v: SearchOptions,
        did: int,
        e: SearchResult,
    ) -> bool {
        exists|d2: u32|
            (d2 as int) < did && e.document.id@ == #[trigger] self.strs()[d2 as int]
                && self.doc_hits(qts, d2, opts_v)
    }

    /// Some entry of the list carries the id of document slot `d2`.
    spec fn id_present(&self, hs: Seq<SearchResult>, d2: u32) -> bool {
        exists|k: int|
            0 <= k < hs.len() && (#[trigger] hs[k]).document.id@ == self.strs()[d2 as int]
    }

    spec fn rank_inv(
        &self,
        qts: Seq<Seq<char>>,
        opts_v: SearchOptions,
        hs: Seq<SearchResult>,
        did: int,
    ) -> bool {
        &&& hs.len() == self.hits_upto(qts, opts_v, did)
        &&& forall|k: int| 0 <= k < hs.len() ==> self.valid_hit(qts, opts_v, #[trigger] hs[k])
        &&& forall|k: int|
            0 <= k < hs.len() ==> self.entry_from(qts, opts_v, did, #[trigger] hs[k])
        &&& forall|d2: u32|
            (d2 as int) < did && #[trigger] self.doc_hits(qts, d2, opts_v) ==> self.id_present(
                hs,
                d2,
            )
        &&& forall|k1: int, k2: int|
            0 <= k1 < k2 < hs.len() ==> Self::beats(
                hs[k1].score as int,
                (#[trigger] hs[k1]).document.id@,
                hs[k2].score as int,
                (#[trigger] hs[k2]).document.id@,
            )
    }

    /// Insert one hit into the ranked list at its sorted position.
    #[verifier::rlimit(100)]
    fn push_hit(
        &self,
        hits: &mut Vec<SearchResult>,
        did: usize,
        sc: u64,
        opts_v: &SearchOptions,
        Ghost(qts): Ghost<Seq<Seq<char>>>,
    )
        requires
            self.wf(),
            (did as int) < self.docs_len(),
            self.doc_hits(qts, did as u32, *opts_v),
            sc as int == self.doc_score_spec(qts, did as u32, opts_v.max_distance as int),
            old(hits)@.len() <= did,
            self.rank_inv(qts, *opts_v, old(hits)@, did as int),
        ensures
            final(hits)@.len() == old(hits)@.len() + 1,
            self.rank_inv(qts, *opts_v, final(hits)@, did + 1),
    {
        let ghost maxd = opts_v.max_distance as int;
        proof {
            assert(self.doc_live(did as int));
            assert(self.has_doc(self.strs()[did as int])) by {
                assert(self.strs()[did as int] == self.strs()[did as int] && self.doc_live(
                    did as int,
                ));
            }
            Self::lemma_tid_of(self, self.strs()[did as int]);
            assert(self.tid_of(self.strs()[did as int]) == did as int);
        }
        let doc = match &self.documents[did] {
            Some(d) => d.duplicate(),
            None => {
                proof {
                    assert(false);
                }
                return ;
            },
        };
        let e = SearchResult { document: doc, score: sc, matched_fields: Vec::new() };
        proof {
            assert(e.document.id@ == self.strs()[did as int]);
            assert(self.doc_fields(self.strs()[did as int]) == self.doc_at(
                did as int,
            )->Some_0.fields_model());
            assert(self.valid_hit(qts, *opts_v, e)) by {
                assert((did as u32 as int) < self.docs_len() && self.doc_hits(
                    qts,
                    did as u32,
                    *opts_v,
                ) && e.document.id@ == self.strs()[did as u32 as int]
                    && e.document.fields_model() == self.doc_fields(
                    self.strs()[did as u32 as int],
                ) && e.score as int == self.doc_score_spec(qts, did as u32, maxd)
                    && e.matched_fields@.len() == 0);
            }
        }
        let mut pos: usize = 0;
        while pos < hits.len() && beats_exec(&hits[pos], &e)
            invariant
                pos <= hits@.len(),
                forall|k: int|
                    0 <= k < pos ==> Self::beats(
                        hits@[k].score as int,
                        (#[trigger] hits@[k]).document.id@,
                        e.score as int,
                        e.document.id@,
                    ),
            decreases hits@.len() - pos,
        {
            pos = pos + 1;
        }
        let ghost old_hits = hits@;
        proof {
            assert forall|k: int| 0 <= k < old_hits.len() implies (
            #[trigger] old_hits[k]).document.id@ != e.document.id@ by {
                assert(self.entry_from(qts, *opts_v, did as int, old_hits[k]));
                let d2 = choose|d2: u32|
                    (d2 as int) < did && old_hits[k].document.id@ == #[trigger] self.strs()[
                        d2 as int
                    ] && self.doc_hits(qts, d2, *opts_v);
                if old_hits[k].document.id@ == e.document.id@ {
                    assert(self.strs()[d2 as int] == self.strs()[did as int]);
                    assert(d2 as int == did as int);
                }
            }
            if pos < old_hits.len() {
                Self::lemma_beats_total(
                    old_hits[pos as int].score as int,
                    old_hits[pos as int].document.id@,
                    e.score as int,
                    e.document.id@,
                );
                assert(Self::beats(
                    e.score as int,
                    e.document.id@,
                    old_hits[pos as int].score as int,
                    old_hits[pos as int].document.id@,
                ));
            }
        }
        hits.insert(pos, e);
        proof {
            old_hits.insert_ensures(pos as int, e);
            assert(hits@ =~= old_hits.insert(pos as int, e));
            assert(hits@.len() == old_hits.len() + 1);
            assert forall|k: int| 0 <= k < hits@.len() implies #[trigger] hits@[k] == (if k
                < pos {
                old_hits[k]
            } else if k == pos {
                e
            } else {
                old_hits[k - 1]
            }) by {}
            assert forall|k1: int, k2: int| 0 <= k1 < k2 < hits@.len() implies Self::beats(
                hits@[k1].score as int,
                (#[trigger] hits@[k1]).document.id@,
                hits@[k2].score as int,
                (#[trigger] hits@[k2]).document.id@,
            ) by {
                if k1 == pos && k2 > pos {
                    if k2 - 1 > pos {
                        Self::lemma_beats_trans(
                            e.score as int,
                            e.document.id@,
                            old_hits[pos as int].score as int,
                            old_hits[pos as int].document.id@,
                            old_hits[k2 - 1].score as int,
                            old_hits[k2 - 1].document.id@,
                        );
                    }
                }
            }
            assert(self.hits_upto(qts, *opts_v, did + 1) == self.hits_upto(
                qts,
                *opts_v,
                did as int,
            ) + 1);
            assert forall|k: int| 0 <= k < hits@.len() implies self.entry_from(
                qts,
                *opts_v,
                did + 1,
                #[trigger] hits@[k],
            ) by {
                if k < pos {
                    assert(self.entry_from(qts, *opts_v, did as int, old_hits[k]));
                    let d2 = choose|d2: u32|
                        (d2 as int) < did && old_hits[k].document.id@ == #[trigger] self.strs()[
                            d2 as int
                        ] && self.doc_hits(qts, d2, *opts_v);
                    assert((d2 as int) < did + 1 && hits@[k].document.id@ == self.strs()[
                        d2 as int
                    ] && self.doc_hits(qts, d2, *opts_v));
                } else if k == pos {
                    assert((did as u32 as int) < did + 1 && hits@[k].document.id@
                        == self.strs()[did as u32 as int] && self.doc_hits(
                        qts,
                        did as u32,
                        *opts_v,
                    ));
                } else {
                    assert(self.entry_from(qts, *opts_v, did as int, old_hits[k - 1]));
                    let d2 = choose|d2: u32|
                        (d2 as int) < did && old_hits[k - 1].document.id@
                            == #[trigger] self.strs()[d2 as int] && self.doc_hits(
                            qts,
                            d2,
                            *opts_v,
                        );
                    assert((d2 as int) < did + 1 && hits@[k].document.id@ == self.strs()[
                        d2 as int
                    ] && self.doc_hits(qts, d2, *opts_v));
                }
            }
            assert forall|k: int| 0 <= k < hits@.len() implies self.valid_hit(
                qts,
                *opts_v,
                #[trigger] hits@[k],
            ) by {
                if k < pos {
                    assert(hits@[k] == old_hits[k]);
                } else if k > pos {
                    assert(hits@[k] == old_hits[k - 1]);
                }
            }
            assert forall|d2: u32|
                (d2 as int) < did + 1 && #[trigger] self.doc_hits(qts, d2, *opts_v) implies
                self.id_present(hits@, d2) by {
                if (d2 as int) == did as int {
                    assert(0 <= (pos as int) < hits@.len() && hits@[pos as int].document.id@
                        == self.strs()[d2 as int]);
                } else {
                    assert(self.id_present(old_hits, d2));
                    let k = choose|k: int|
                        0 <= k < old_hits.len() && (#[trigger] old_hits[k]).document.id@
                            == self.strs()[d2 as int];
                    if k < pos {
                        assert(0 <= k < hits@.len() && hits@[k].document.id@ == self.strs()[
                            d2 as int
                        ]);
                    } else {
                        assert(0 <= k + 1 < hits@.len() && hits@[k + 1].document.id@
                            == self.strs()[d2 as int]);
                    }
                }
            }
        }
    }

    /// Collect the hits in rank order: every touched document at or above
    /// the threshold, sorted by score descending with ties broken by id.
    fn rank_hits(
        &self,
        scores: &Vec<u64>,
        touched: &Vec<bool>,
        opts: &SearchOptions,
        Ghost(qts): Ghost<Seq<Seq<char>>>,
    ) -> (r: Result<Vec<SearchResult>, TigerCacheError>)
        requires
            self.wf(),
            scores@.len() == self.docs_len(),
            touched@.len() == self.docs_len(),
            forall|dd: int|
                0 <= dd < self.docs_len() ==> (#[trigger] scores@[dd]) as int
                    == self.doc_score_spec(qts, dd as u32, opts.max_distance as int),
            forall|dd: int|
                0 <= dd < self.docs_len() ==> ((#[trigger] touched@[dd]) == self.doc_touched(
                    qts,
                    dd as u32,
                    opts.max_distance as int,
                )),
        ensures
            r matches Ok(hits) && {
                &&& hits@.len() == self.hit_count(qts, *opts)
                &&& self.rank_inv(qts, *opts, hits@, self.docs_len())
            },
    {
        let ghost maxd = opts.max_distance as int;
        let dlen = self.documents.len();
        let mut hits: Vec<SearchResult> = Vec::new();
        let mut did: usize = 0;
        while did < dlen
            invariant
                self.wf(),
                dlen == self.documents@.len(),
                maxd == opts.max_distance as int,
                did <= dlen,
                scores@.len() == dlen,
                touched@.len() == dlen,
                forall|dd: int|
                    0 <= dd < dlen ==> (#[trigger] scores@[dd]) as int == self.doc_score_spec(
                        qts,
                        dd as u32,
                        maxd,
                    ),
                forall|dd: int|
                    0 <= dd < dlen ==> ((#[trigger] touched@[dd]) == self.doc_touched(
                        qts,
                        dd as u32,
                        maxd,
                    )),
                hits@.len() <= did,
                self.rank_inv(qts, *opts, hits@, did as int),
            decreases dlen - did,
        {
            let is_hit = touched[did] && scores[did] >= opts.score_threshold as u64;
            if is_hit {
                proof {
                    assert(self.doc_touched(qts, did as u32, maxd));
                    let x = choose|x: int|
                        0 <= x < self.n() && self.retained_spec(qts, self.strs()[x], maxd) && (
                        #[trigger] self.inv_at(x)).contains(did as u32);
                    assert(self.doc_live(did as int));
                    assert(self.doc_hits(qts, did as u32, *opts));
                }
                self.push_hit(&mut hits, did, scores[did], opts, Ghost(qts));
                proof {
                    assert(self.rank_inv(qts, *opts, hits@, did + 1));
                }
            } else {
                proof {
                    assert(!self.doc_hits(qts, did as u32, *opts));
                    assert(self.hits_upto(qts, *opts, did + 1) == self.hits_upto(
                        qts,
                        *opts,
                        did as int,
                    ));
                    assert forall|k: int| 0 <= k < hits@.len() implies self.entry_from(
                        qts,
                        *opts,
                        did + 1,
                        #[trigger] hits@[k],
                    ) by {
                        assert(self.entry_from(qts, *opts, did as int, hits@[k]));
                        let d2 = choose|d2: u32|
                            (d2 as int) < did && hits@[k].document.id@ == #[trigger] self.strs()[
                                d2 as int
                            ] && self.doc_hits(qts, d2, *opts);
                        assert((d2 as int) < did + 1 && hits@[k].document.id@ == self.strs()[
                            d2 as int
                        ] && self.doc_hits(qts, d2, *opts));
                    }
                    assert forall|d2: u32|
                        (d2 as int) < did + 1 && #[trigger] self.doc_hits(qts, d2, *opts)
                        implies self.id_present(hits@, d2) by {
                        if (d2 as int) == did as int {
                            assert(d2 == did as u32);
                            assert(false);
                        }
                    }
                    assert(hits@.len() == self.hits_upto(qts, *opts, did + 1));
                    assert(self.rank_inv(qts, *opts, hits@, did + 1));
                }
            }
            did = did + 1;
        }
        Ok(hits)
    }

    /// Internal search: candidate generation, scoring, ranking and
    /// truncation.
    #[verifier::rlimit(100)]
    pub fn search_internal(&self, query: &str, options: &SearchOptions) -> (r: Result<
        Vec<SearchResult>,
        TigerCacheError,
    >)
        requires
            self.wf(),
        ensures
            r matches Ok(v) && self.search_post(query@, *options, v@),
    {
        let query_tokens = extract_tokens(query);
        let ghost qts = query_tokens.deep_view();
        let ghost maxd = options.max_distance as int;
        if query_tokens.len() == 0 {
            let v: Vec<SearchResult> = Vec::new();
            return Ok(v);
        }
        let info = match self.score_candidates(&query_tokens, options) {
            Ok(info) => info,
            Err(e) => {
                return Err(e);
            },
        };
        let pair = self.accumulate_scores(&info, options, Ghost(qts));
        let scores = pair.0;
        let touched = pair.1;
        let mut hits = match self.rank_hits(&scores, &touched, options, Ghost(qts)) {
            Ok(hits) => hits,
            Err(e) => {
                return Err(e);
            },
        };
        let ghost full = hits@;
        proof {
            assert(self.rank_inv(qts, *options, full, self.docs_len()));
        }
        if hits.len() > options.limit {
            hits.truncate(options.limit);
            proof {
                assert(hits@ =~= full.take(options.limit as int));
            }
        } else {
            proof {
                assert(hits@ =~= full.take(full.len() as int));
                assert(hits@ == full);
            }
        }
        proof {
            let opts_v = *options;
            let rs = hits@;
            assert forall|d2: u32|
                ((d2 as int) < self.docs_len() && #[trigger] self.doc_hits(qts, d2, opts_v)
                    && !(exists|k: int|
                    0 <= k < rs.len() && (#[trigger] rs[k]).document.id@ == self.strs()[
                        d2 as int
                    ])) implies (forall|k: int|
                0 <= k < rs.len() ==> Self::beats(
                    rs[k].score as int,
                    (#[trigger] rs[k]).document.id@,
                    self.doc_score_spec(qts, d2, maxd),
                    self.strs()[d2 as int],
                )) by {
                let k0 = choose|k0: int|
                    0 <= k0 < full.len() && (#[trigger] full[k0]).document.id@ == self.strs()[
                        d2 as int
                    ];
                assert(k0 >= rs.len()) by {
                    if k0 < rs.len() {
                        assert(rs[k0].document.id@ == self.strs()[d2 as int]);
                    }
                }
                assert forall|k: int| 0 <= k < rs.len() implies Self::beats(
                    rs[k].score as int,
                    (#[trigger] rs[k]).document.id@,
                    self.doc_score_spec(qts, d2, maxd),
                    self.strs()[d2 as int],
                ) by {
                    assert(rs[k] == full[k]);
                    assert(Self::beats(
                        full[k].score as int,
                        full[k].document.id@,
                        full[k0].score as int,
                        full[k0].document.id@,
                    ));
                    let d4 = choose|d4: u32|
                        {
                            &&& (d4 as int) < self.docs_len()
                            &&& #[trigger] self.doc_hits(qts, d4, opts_v)
                            &&& full[k0].document.id@ == self.strs()[d4 as int]
                            &&& full[k0].document.fields_model() == self.doc_fields(
                                self.strs()[d4 as int],
                            )
                            &&& full[k0].score as int == self.doc_score_spec(qts, d4, maxd)
                            &&& full[k0].matched_fields@.len() == 0
                        };
                    assert(self.strs()[d4 as int] == self.strs()[d2 as int]);
                    assert(d4 as int == d2 as int);
                    assert(full[k0].score as int == self.doc_score_spec(qts, d2, maxd));
                }
            }
        }
        Ok(hits)
    }

    /// Search the index for documents matching the query.
    pub fn search(&self, query: &str, options: Option<SearchOptions>) -> (r: Result<
        Vec<SearchResult>,
        TigerCacheError,
    >)
        requires
            self.wf(),
        ensures
            r matches Ok(v) && self.search_post(
                query@,
                match options {
                    Some(o) => o,
                    None => crate::search::default_options(),
                },
                v@,
            ),
    {
        let opts = match options {
            Some(o) => o,
            None => SearchOptions::default(),
        };
        self.search_internal(query, &opts)
    }

    /// The per-candidate record update for one query token: qualify and
    /// overwrite, or keep the previous record.
    pub open spec fn entry_step(
        &self,
        qts: Seq<Seq<char>>,
        i: int,
        t: Seq<char>,
        max_d: int,
    ) -> Option<(int, int)> {
        if self.qual(qts, i, t, max_d) {
            Some((lev(qts[i], t) as int, self.score_at(qts, i, t)))
        } else {
            self.entry_spec(qts, t, max_d, i)
        }
    }

    /// The model of a stored per-token record.
    pub open spec fn opt_model(o: Option<(usize, u64)>) -> Option<(int, int)> {
        match o {
            Some(e) => Some((e.0 as int, e.1 as int)),
            None => None,
        }
    }

    /// A result list with the same ids, fields, scores and empty matched
    /// fields satisfies the same search guarantee.
    pub proof fn lemma_search_post_transfer(
        &self,
        q: Seq<char>,
        o: SearchOptions,
        a: Seq<SearchResult>,
        b: Seq<SearchResult>,
    )
        requires
            self.search_post(q, o, a),
            b.len() == a.len(),
            forall|k: int|
                0 <= k < a.len() ==> ((#[trigger] b[k]).document.id@ == a[k].document.id@
                    && b[k].document.fields_model() == a[k].document.fields_model()
                    && b[k].score == a[k].score && b[k].matched_fields@.len() == 0),
        ensures
            self.search_post(q, o, b),
    {
        let qts = extract_tokens_spec(q);
        assert forall|k: int| 0 <= k < b.len() implies self.valid_hit(qts, o, #[trigger] b[k]) by {
            assert(self.valid_hit(qts, o, a[k]));
            let did = choose|did: u32|
                {
                    &&& (did as int) < self.docs_len()
                    &&& #[trigger] self.doc_hits(qts, did, o)
                    &&& a[k].document.id@ == self.strs()[did as int]
                    &&& a[k].document.fields_model() == self.doc_fields(self.strs()[did as int])
                    &&& a[k].score as int == self.doc_score_spec(qts, did, o.max_distance as int)
                    &&& a[k].matched_fields@.len() == 0
                };
            assert((did as int) < self.docs_len() && self.doc_hits(qts, did, o)
                && b[k].document.id@ == self.strs()[did as int] && b[k].document.fields_model()
                == self.doc_fields(self.strs()[did as int]) && b[k].score as int
                == self.doc_score_spec(qts, did, o.max_distance as int)
                && b[k].matched_fields@.len() == 0);
        }
        assert forall|did: u32|
            ((did as int) < self.docs_len() && #[trigger] self.doc_hits(qts, did, o) && !(
            exists|k: int|
                0 <= k < b.len() && (#[trigger] b[k]).document.id@ == self.strs()[
                    did as int
                ])) implies (forall|k: int|
            0 <= k < b.len() ==> Self::beats(
                b[k].score as int,
                (#[trigger] b[k]).document.id@,
                self.doc_score_spec(qts, did, o.max_distance as int),
                self.strs()[did as int],
            )) by {
            assert(!(exists|k: int|
                0 <= k < a.len() && (#[trigger] a[k]).document.id@ == self.strs()[
                    did as int
                ])) by {
                if exists|k: int|
                    0 <= k < a.len() && (#[trigger] a[k]).document.id@ == self.strs()[
                        did as int
                    ] {
                    let k = choose|k: int|
                        0 <= k < a.len() && (#[trigger] a[k]).document.id@ == self.strs()[
                            did as int
                        ];
                    assert(b[k].document.id@ == self.strs()[did as int]);
                }
            }
        }
    }

    /// A copy of a result list: each document duplicated, scores kept,
    /// matched fields left empty.
    pub fn copy_results(v: &Vec<SearchResult>) -> (r: Vec<SearchResult>)
        ensures
            r@.len() == v@.len(),
            forall|k: int|
                0 <= k < v@.len() ==> ((#[trigger] r@[k]).document.id@ == v@[k].document.id@
                    && r@[k].document.fields_model() == v@[k].document.fields_model()
                    && r@[k].score == v@[k].score && r@[k].matched_fields@.len() == 0),
    {
        let mut r: Vec<SearchResult> = Vec::new();
        let mut i: usize = 0;
        while i < v.len()
            invariant
                i <= v@.len(),
                r@.len() == i,
                forall|k: int|
                    0 <= k < i ==> ((#[trigger] r@[k]).document.id@ == v@[k].document.id@
                        && r@[k].document.fields_model() == v@[k].document.fields_model()
                        && r@[k].score == v@[k].score && r@[k].matched_fields@.len() == 0),
            decreases v@.len() - i,
        {
            let e = SearchResult {
                document: v[i].document.duplicate(),
                score: v[i].score,
                matched_fields: Vec::new(),
            };
            r.push(e);
            i = i + 1;
        }
        r
    }

    /// The document copy comes from a live slot below `bound`.
    spec fn from_slot(&self, bound: int, d: Document) -> bool {
        exists|did: int|
            0 <= did < bound && d.id@ == #[trigger] self.strs()[did] && self.doc_live(did)
    }

    /// Copies of all stored documents, in id order: one entry per stored
    /// document, under pairwise distinct ids.
    pub fn all_documents(&self) -> (r: Vec<Document>)
        requires
            self.wf(),
        ensures
            r@.len() == self.doc_count_spec(),
            forall|k: int|
                0 <= k < r@.len() ==> self.has_doc((#[trigger] r@[k]).id@) && r@[k].fields_model()
                    == self.doc_fields(r@[k].id@),
            forall|k1: int, k2: int|
                0 <= k1 < k2 < r@.len() ==> (#[trigger] r@[k1]).id@ != (#[trigger] r@[k2]).id@,
    {
        let mut r: Vec<Document> = Vec::new();
        let mut i: usize = 0;
        while i < self.documents.len()
            invariant
                self.wf(),
                i <= self.documents@.len(),
                r@.len() == Self::count_live_upto(self.documents@, i as int),
                forall|k: int|
                    0 <= k < r@.len() ==> self.has_doc((#[trigger] r@[k]).id@)
                        && r@[k].fields_model() == self.doc_fields(r@[k].id@),
                forall|k: int| 0 <= k < r@.len() ==> self.from_slot(i as int, #[trigger] r@[k]),
                forall|k1: int, k2: int|
                    0 <= k1 < k2 < r@.len() ==> (#[trigger] r@[k1]).id@ != (
                    #[trigger] r@[k2]).id@,
            decreases self.documents@.len() - i,
        {
            match &self.documents[i] {
                Some(d) => {
                    let copy = d.duplicate();
                    proof {
                        assert(self.doc_live(i as int));
                        assert(copy.id@ == self.strs()[i as int]);
                        assert(self.has_doc(copy.id@)) by {
                            assert(self.strs()[i as int] == copy.id@ && self.doc_live(i as int));
                        }
                        Self::lemma_tid_of(self, copy.id@);
                        assert(self.tid_of(copy.id@) == i as int);
                    }
                    let ghost r0 = r@;
                    r.push(copy);
                    proof {
                        assert forall|k: int| 0 <= k < r@.len() implies self.from_slot(
                            i + 1,
                            #[trigger] r@[k],
                        ) by {
                            if k < r0.len() {
                                assert(self.from_slot(i as int, r0[k]));
                                let did = choose|did: int|
                                    0 <= did < i && r0[k].id@ == #[trigger] self.strs()[did]
                                        && self.doc_live(did);
                                assert(r@[k] == r0[k]);
                                assert(0 <= did < i + 1 && r@[k].id@ == self.strs()[did]
                                    && self.doc_live(did));
                            } else {
                                assert(0 <= (i as int) < i + 1 && r@[k].id@ == self.strs()[
                                    i as int
                                ] && self.doc_live(i as int));
                            }
                        }
                        assert forall|k1: int, k2: int| 0 <= k1 < k2 < r@.len() implies (
                        #[trigger] r@[k1]).id@ != (#[trigger] r@[k2]).id@ by {
                            if k2 == r@.len() - 1 {
                                assert(self.from_slot(i as int, r0[k1]));
                                let did = choose|did: int|
                                    0 <= did < i && r0[k1].id@ == #[trigger] self.strs()[did]
                                        && self.doc_live(did);
                                assert(r@[k1] == r0[k1]);
                                if r@[k1].id@ == r@[k2].id@ {
                                    assert(self.strs()[did] == self.strs()[i as int]);
                                }
                            }
                        }
                    }
                },
                None => {
                    proof {
                        assert forall|k: int| 0 <= k < r@.len() implies self.from_slot(
                            i + 1,
                            #[trigger] r@[k],
                        ) by {
                            assert(self.from_slot(i as int, r@[k]));
                            let did = choose|did: int|
                                0 <= did < i && r@[k].id@ == #[trigger] self.strs()[did]
                                    && self.doc_live(did);
                            assert(0 <= did < i + 1 && r@[k].id@ == self.strs()[did]
                                && self.doc_live(did));
                        }
                    }
                },
            }
            i = i + 1;
        }
        proof {
            assert(self.doc_count_spec() == Self::count_live_upto(
                self.documents@,
                self.documents@.len() as int,
            ));
        }
        r
    }

    /// A posting free of `id` is unchanged by filtering `id` out, and a
    /// filtered push of `id` disappears.
    proof fn lemma_filter_push(p: Seq<Seq<char>>, id: Seq<char>)
        ensures
            strs_filter(p.push(id), id) == strs_filter(p, id),
    {
        assert(p.push(id).drop_last() =~= p);
    }

    /// Remove-then-add replacement: on an index without the id, the
    /// sequence add old version, remove, add new version leaves the
    /// documents, the counts and every inverted posting exactly as a
    /// single add of the new version; the trigram index additionally
    /// holds the old version's tokens, whose postings are empty and which
    /// the ranker therefore skips.
    pub proof fn lemma_remove_then_add(
        i0: &Index,
        i1: &Index,
        i2: &Index,
        i3: &Index,
        j: &Index,
        id: Seq<char>,
        f1: Seq<(Seq<char>, FieldModel)>,
        f2: Seq<(Seq<char>, FieldModel)>,
    )
        requires
            i0.wf(),
            !i0.has_doc(id),
            Self::add_post(i0, i1, id, f1),
            Self::remove_post(i1, i2, id),
            Self::add_post(i2, i3, id, f2),
            Self::add_post(i0, j, id, f2),
        ensures
            forall|s: Seq<char>| #[trigger] i3.has_doc(s) == j.has_doc(s),
            i3.doc_fields(id) == j.doc_fields(id),
            forall|s: Seq<char>|
                s != id && j.has_doc(s) ==> #[trigger] i3.doc_fields(s) == j.doc_fields(s),
            i3.doc_count_spec() == j.doc_count_spec(),
            forall|t: Seq<char>| #[trigger] i3.posting(t) == j.posting(t),
            forall|g: Seq<char>, t: Seq<char>|
                #[trigger] i3.trig_tokens(g).contains(t) == (j.trig_tokens(g).contains(t) || (
                Self::doc_token_set(i0.cfg(), f1).contains(t) && trigrams_of(t).contains(g))),
    {
        let t1 = Self::doc_token_set(i0.cfg(), f1);
        let t2 = Self::doc_token_set(i0.cfg(), f2);
        Self::lemma_posting_free(i0, id);
        assert(i1.cfg() == i0.cfg());
        assert(i2.cfg() == i0.cfg());
        // every posting returns to its initial state after the removal
        assert forall|t: Seq<char>| true implies #[trigger] i2.posting(t) == i0.posting(t) by {
            assert(i1.posting(t) == (if t1.contains(t) {
                strs_filter(i0.posting(t), id).push(id)
            } else {
                strs_filter(i0.posting(t), id)
            }));
            assert(strs_filter(i0.posting(t), id) == i0.posting(t));
            if t1.contains(t) {
                Self::lemma_filter_push(i0.posting(t), id);
                assert(i2.posting(t) == strs_filter(i0.posting(t).push(id), id));
            } else {
                assert(i2.posting(t) == strs_filter(i0.posting(t), id));
            }
        }
        assert(!i2.has_doc(id));
        // the final postings match the single-add postings
        assert forall|t: Seq<char>| true implies #[trigger] i3.posting(t) == j.posting(t) by {
            assert(Self::doc_token_set(i2.cfg(), f2) == t2);
            assert(i3.posting(t) == (if t2.contains(t) {
                strs_filter(i2.posting(t), id).push(id)
            } else {
                strs_filter(i2.posting(t), id)
            }));
            assert(j.posting(t) == (if t2.contains(t) {
                strs_filter(i0.posting(t), id).push(id)
            } else {
                strs_filter(i0.posting(t), id)
            }));
            assert(strs_filter(i2.posting(t), id) == strs_filter(i0.posting(t), id)) by {
                assert(i2.posting(t) == i0.posting(t));
            }
        }
        // the document map and the counts agree
        assert forall|s: Seq<char>| true implies #[trigger] i3.has_doc(s) == j.has_doc(s) by {
            assert(i3.has_doc(s) == (i2.has_doc(s) || s == id));
            assert(i2.has_doc(s) == (i1.has_doc(s) && s != id));
            assert(i1.has_doc(s) == (i0.has_doc(s) || s == id));
            assert(j.has_doc(s) == (i0.has_doc(s) || s == id));
        }
        assert forall|s: Seq<char>| s != id && j.has_doc(s) implies #[trigger] i3.doc_fields(s)
            == j.doc_fields(s) by {
            assert(i0.has_doc(s));
            assert(i1.has_doc(s));
            assert(i2.has_doc(s));
            assert(i1.doc_fields(s) == i0.doc_fields(s));
            assert(i2.doc_fields(s) == i1.doc_fields(s));
            assert(i3.doc_fields(s) == i2.doc_fields(s));
            assert(j.doc_fields(s) == i0.doc_fields(s));
        }
        assert(i1.has_doc(id));
        assert(i3.doc_count_spec() == j.doc_count_spec()) by {
            assert(i1.doc_count_spec() == i0.doc_count_spec() + 1);
            assert(i2.doc_count_spec() == i1.doc_count_spec() - 1);
            assert(i3.doc_count_spec() == i2.doc_count_spec() + 1);
            assert(j.doc_count_spec() == i0.doc_count_spec() + 1);
        }
        // the trigram index differs exactly by the old version's tokens
        assert forall|g: Seq<char>, t: Seq<char>| true implies #[trigger] i3.trig_tokens(
            g,
        ).contains(t) == (j.trig_tokens(g).contains(t) || (t1.contains(t) && trigrams_of(
            t,
        ).contains(g))) by {
            assert(Self::doc_token_set(i2.cfg(), f2) == t2);
            assert(i3.trig_tokens(g).contains(t) == (i2.trig_tokens(g).contains(t) || (
            t2.contains(t) && trigrams_of(t).contains(g))));
            assert(i2.trig_tokens(g) == i1.trig_tokens(g));
            assert(i1.trig_tokens(g).contains(t) == (i0.trig_tokens(g).contains(t) || (
            t1.contains(t) && trigrams_of(t).contains(g))));
            assert(j.trig_tokens(g).contains(t) == (i0.trig_tokens(g).contains(t) || (
            t2.contains(t) && trigrams_of(t).contains(g))));
        }
    }

    /// Hits below `k` are counted by `hits_upto`.
    proof fn lemma_hits_pos(
        &self,
        qts: Seq<Seq<char>>,
        opts: SearchOptions,
        did: u32,
        k: int,
    )
        requires
            0 <= (did as int) < k <= self.docs_len(),
            self.doc_hits(qts, did, opts),
        ensures
            self.hits_upto(qts, opts, k) >= 1,
        decreases k,
    {
        if (did as int) < k - 1 {
            self.lemma_hits_pos(qts, opts, did, k - 1);
            self.lemma_hits_nonneg(qts, opts, k);
        } else {
            self.lemma_hits_nonneg(qts, opts, k - 1);
            assert((k - 1) as u32 == did);
        }
    }

    proof fn lemma_hits_nonneg(&self, qts: Seq<Seq<char>>, opts: SearchOptions, k: int)
        ensures
            self.hits_upto(qts, opts, k) >= 0,
        decreases k,
    {
        if k > 0 {
            self.lemma_hits_nonneg(qts, opts, k - 1);
        }
    }

    /// Recall, in the part that holds of every query: whenever some
    /// document is a hit for the query, a search with a positive limit
    /// returns at least one result.  (Candidates are proposed only when
    /// they share a trigram with a query token and a fifth of the larger
    /// trigram set overlaps, so an edit-close pair with disjoint trigram
    /// sets can still go unfound.)
    pub proof fn lemma_search_nonempty(
        &self,
        q: Seq<char>,
        o: SearchOptions,
        rs: Seq<SearchResult>,
        did: u32,
    )
        requires
            self.search_post(q, o, rs),
            extract_tokens_spec(q).len() > 0,
            o.limit >= 1,
            (did as int) < self.docs_len(),
            self.doc_hits(extract_tokens_spec(q), did, o),
        ensures
            rs.len() >= 1,
    {
        self.lemma_hits_pos(extract_tokens_spec(q), o, did, self.docs_len());
    }

    /// The edit distance is zero exactly between equal strings.
    pub proof fn lemma_lev_zero(a: Seq<char>, b: Seq<char>)
        ensures
            (lev(a, b) == 0) == (a == b),
        decreases a.len(), b.len(),
    {
        if a.len() == 0 {
            if b.len() == 0 {
                assert(a =~= b);
            }
        } else if b.len() == 0 {
        } else {
            reveal_with_fuel(lev, 2);
            let d1 = lev(a.drop_last(), b) + 1;
            let d2 = lev(a, b.drop_last()) + 1;
            let cost: nat = if a.last() == b.last() {
                0nat
            } else {
                1nat
            };
            let d3 = lev(a.drop_last(), b.drop_last()) + cost;
            assert(lev(a, b) == (if d1 <= d2 && d1 <= d3 {
                d1
            } else if d2 <= d3 {
                d2
            } else {
                d3
            }));
            Self::lemma_lev_zero(a.drop_last(), b.drop_last());
            if a == b {
                assert(a.drop_last() == b.drop_last());
                assert(a.last() == b.last());
                assert(d3 == 0);
                assert(lev(a, b) <= d3);
            } else {
                if a.last() == b.last() && a.drop_last() == b.drop_last() {
                    assert(a.len() == b.len());
                    assert forall|i: int| 0 <= i < a.len() implies a[i] == b[i] by {
                        if i < a.len() - 1 {
                            assert(a.drop_last()[i] == b.drop_last()[i]);
                        } else {
                            assert(a[i] == a.last());
                            assert(b[i] == b.last());
                        }
                    }
                    assert(a =~= b);
                    assert(false);
                }
                assert(d3 >= 1);
                assert(lev(a, b) >= 1);
            }
        }
    }

    /// `last_qual` names -1 or a position at which the candidate
    /// qualifies.
    proof fn lemma_last_qual(&self, qts: Seq<Seq<char>>, t: Seq<char>, max_d: int, k: int)
        ensures
            self.last_qual(qts, t, max_d, k) == -1 || (0 <= self.last_qual(qts, t, max_d, k)
                < k && self.qual(qts, self.last_qual(qts, t, max_d, k), t, max_d)),
        decreases k,
    {
        if k > 0 && !self.qual(qts, k - 1, t, max_d) {
            self.lemma_last_qual(qts, t, max_d, k - 1);
        }
    }

    /// Every token contribution is non-negative.
    proof fn lemma_part_nonneg(&self, qts: Seq<Seq<char>>, did: u32, maxd: int, tid: int)
        ensures
            self.tok_part(qts, did, maxd, tid) >= 0,
    {
        let t = self.strs()[tid];
        if self.retained_spec(qts, t, maxd) && self.inv_at(tid).contains(did) {
            let lq = self.last_qual(qts, t, maxd, qts.len() as int);
            self.lemma_last_qual(qts, t, maxd, qts.len() as int);
            assert(lq >= 0);
            assert(self.qual(qts, lq, t, maxd));
            let qt = qts[lq];
            let d = lev(qt, t) as int;
            let m = Self::overlap_den(qt, t);
            let num = Self::overlap_num(qt, t);
            assert(m > 0);
            assert(1000 * (m + num) / (m * (d + 1)) >= 0) by (nonlinear_arith)
                requires
                    m >= 1,
                    num >= 0,
                    d >= 0,
            ;
        }
    }

    /// The accumulated score is at least any single contribution.
    proof fn lemma_score_at_least(
        &self,
        qts: Seq<Seq<char>>,
        did: u32,
        maxd: int,
        tid0: int,
        k: int,
    )
        requires
            0 <= tid0 < k,
        ensures
            self.score_upto(qts, did, maxd, k) >= self.tok_part(qts, did, maxd, tid0),
        decreases k,
    {
        if tid0 == k - 1 {
            self.lemma_score_nonneg(qts, did, maxd, k - 1);
        } else {
            self.lemma_score_at_least(qts, did, maxd, tid0, k - 1);
            self.lemma_part_nonneg(qts, did, maxd, k - 1);
        }
    }

    /// Accumulated scores are non-negative.
    proof fn lemma_score_nonneg(&self, qts: Seq<Seq<char>>, did: u32, maxd: int, k: int)
        ensures
            self.score_upto(qts, did, maxd, k) >= 0,
        decreases k,
    {
        if k > 0 {
            self.lemma_score_nonneg(qts, did, maxd, k - 1);
            self.lemma_part_nonneg(qts, did, maxd, k - 1);
        }
    }

    /// Exact-match ranking, end to end: when the query tokenises to one
    /// token that exactly one document holds, a zero-distance search
    /// with a positive limit returns that document first, with its exact
    /// score.
    pub proof fn lemma_unique_exact_match(
        &self,
        q: Seq<char>,
        o: SearchOptions,
        rs: Seq<SearchResult>,
        did: u32,
        t: Seq<char>,
    )
        requires
            self.wf(),
            self.search_post(q, o, rs),
            o.max_distance == 0,
            o.limit >= 1,
            extract_tokens_spec(q) == seq![t],
            (did as int) < self.docs_len(),
            self.doc_hits(extract_tokens_spec(q), did, o),
            // no posting of the token names another document
            forall|tid: int, k: int|
                0 <= tid < self.n() && self.strs()[tid] == t && 0 <= k < self.inv_at(
                    tid,
                ).len() ==> (#[trigger] self.inv_at(tid)[k]) == did,
        ensures
            rs.len() >= 1,
            rs[0].document.id@ == self.strs()[did as int],
            rs[0].score as int == self.doc_score_spec(
                extract_tokens_spec(q),
                did,
                o.max_distance as int,
            ),
            rs[0].score > 0,
    {
        let qts = extract_tokens_spec(q);
        let maxd = o.max_distance as int;
        // the touching token contributes a positive score: it sits at
        // distance zero, so its boosted ratio is at least one
        assert(self.doc_score_spec(qts, did, maxd) > 0) by {
            let tid0 = choose|tid0: int|
                0 <= tid0 < self.n() && self.retained_spec(qts, self.strs()[tid0], maxd) && (
                #[trigger] self.inv_at(tid0)).contains(did);
            let t0 = self.strs()[tid0];
            let lq = self.last_qual(qts, t0, maxd, qts.len() as int);
            assert(qts.len() == 1);
            if self.qual(qts, 0, t0, maxd) {
                assert(lq == 0);
            } else {
                assert(self.last_qual(qts, t0, maxd, 0) == -1);
                assert(lq == -1);
            }
            assert(lq == 0);
            assert(self.qual(qts, 0, t0, maxd));
            let qt = qts[0];
            let d = lev(qt, t0) as int;
            assert(d == 0);
            let m = Self::overlap_den(qt, t0);
            let num = Self::overlap_num(qt, t0);
            assert(m > 0);
            assert(1000 * (m + num) / (m * (d + 1)) >= 1) by (nonlinear_arith)
                requires
                    m >= 1,
                    num >= 0,
                    d == 0,
            ;
            assert(self.tok_score_spec(qts, t0, maxd) >= 5);
            assert(self.tok_part(qts, did, maxd, tid0) >= 5);
            self.lemma_score_at_least(qts, did, maxd, tid0, self.n());
        }
        // every hit is the one document: a retained token is at distance
        // zero from the single query token, hence equals it, and its
        // posting names only `did`
        assert forall|d2: u32|
            (d2 as int) < self.docs_len() && #[trigger] self.doc_hits(qts, d2, o) implies d2
            == did by {
            let tid = choose|tid: int|
                0 <= tid < self.n() && self.retained_spec(qts, self.strs()[tid], maxd) && (
                #[trigger] self.inv_at(tid)).contains(d2);
            let tok = self.strs()[tid];
            let lq = self.last_qual(qts, tok, maxd, qts.len() as int);
            assert(qts.len() == 1);
            if self.qual(qts, 0, tok, maxd) {
                assert(lq == 0);
            } else {
                assert(self.last_qual(qts, tok, maxd, 0) == -1);
                assert(lq == -1);
            }
            assert(lq == 0);
            assert(lev(qts[0], tok) <= 0);
            Self::lemma_lev_zero(qts[0], tok);
            assert(tok == t);
            let k = choose|k: int| 0 <= k < self.inv_at(tid).len() && self.inv_at(tid)[k] == d2;
            assert(self.inv_at(tid)[k] == did);
        }
        self.lemma_top_hit(q, o, rs, did);
    }

    /// Exact-match ranking: when one hit outranks every other hit, a
    /// search with a positive limit returns it first, with its exact
    /// score.
    pub proof fn lemma_top_hit(
        &self,
        q: Seq<char>,
        o: SearchOptions,
        rs: Seq<SearchResult>,
        did: u32,
    )
        requires
            self.wf(),
            self.search_post(q, o, rs),
            extract_tokens_spec(q).len() > 0,
            o.limit >= 1,
            (did as int) < self.docs_len(),
            self.doc_hits(extract_tokens_spec(q), did, o),
            forall|d2: u32|
                (d2 as int) < self.docs_len() && #[trigger] self.doc_hits(
                    extract_tokens_spec(q),
                    d2,
                    o,
                ) && d2 != did ==> Self::beats(
                    self.doc_score_spec(extract_tokens_spec(q), did, o.max_distance as int),
                    self.strs()[did as int],
                    self.doc_score_spec(extract_tokens_spec(q), d2, o.max_distance as int),
                    self.strs()[d2 as int],
                ),
        ensures
            rs.len() >= 1,
            rs[0].document.id@ == self.strs()[did as int],
            rs[0].score as int == self.doc_score_spec(
                extract_tokens_spec(q),
                did,
                o.max_distance as int,
            ),
    {
        let qts = extract_tokens_spec(q);
        let maxd = o.max_distance as int;
        self.lemma_hits_pos(qts, o, did, self.docs_len());
        assert(self.hit_count(qts, o) >= 1);
        assert(rs.len() >= 1);
        // the first entry is a hit with its witness document
        assert(self.valid_hit(qts, o, rs[0]));
        let d0 = choose|d0: u32|
            {
                &&& (d0 as int) < self.docs_len()
                &&& #[trigger] self.doc_hits(qts, d0, o)
                &&& rs[0].document.id@ == self.strs()[d0 as int]
                &&& rs[0].document.fields_model() == self.doc_fields(self.strs()[d0 as int])
                &&& rs[0].score as int == self.doc_score_spec(qts, d0, maxd)
                &&& rs[0].matched_fields@.len() == 0
            };
        if d0 == did {
        } else {
            assert(Self::beats(
                self.doc_score_spec(qts, did, maxd),
                self.strs()[did as int],
                self.doc_score_spec(qts, d0, maxd),
                self.strs()[d0 as int],
            ));
            if exists|k: int|
                0 <= k < rs.len() && (#[trigger] rs[k]).document.id@ == self.strs()[
                    did as int
                ] {
                let k = choose|k: int|
                    0 <= k < rs.len() && (#[trigger] rs[k]).document.id@ == self.strs()[
                        did as int
                    ];
                if k == 0 {
                    // the first entry carries did's id; its witness is did
                    assert(self.strs()[d0 as int] == self.strs()[did as int]);
                    assert(self.docs_len() <= self.strs().len());
                    assert(self.interned(self.strs()[did as int])) by {
                        assert(self.strs()[did as int] == self.strs()[did as int]);
                    }
                    Self::lemma_tid_of(self, self.strs()[did as int]);
                    assert(d0 as int == did as int);
                    assert(false);
                } else {
                    assert(self.valid_hit(qts, o, rs[k]));
                    let dk = choose|dk: u32|
                        {
                            &&& (dk as int) < self.docs_len()
                            &&& #[trigger] self.doc_hits(qts, dk, o)
                            &&& rs[k].document.id@ == self.strs()[dk as int]
                            &&& rs[k].document.fields_model() == self.doc_fields(
                                self.strs()[dk as int],
                            )
                            &&& rs[k].score as int == self.doc_score_spec(qts, dk, maxd)
                            &&& rs[k].matched_fields@.len() == 0
                        };
                    assert(self.strs()[dk as int] == self.strs()[did as int]);
                    assert(self.docs_len() <= self.strs().len());
                    assert(self.interned(self.strs()[did as int])) by {
                        assert(self.strs()[did as int] == self.strs()[did as int]);
                    }
                    Self::lemma_tid_of(self, self.strs()[did as int]);
                    assert(dk as int == did as int);
                    // rs[0] beats rs[k], yet did beats d0: contradiction
                    assert(Self::beats(
                        rs[0].score as int,
                        rs[0].document.id@,
                        rs[k].score as int,
                        rs[k].document.id@,
                    ));
                    Self::lemma_beats_total(
                        self.doc_score_spec(qts, did, maxd),
                        self.strs()[did as int],
                        self.doc_score_spec(qts, d0, maxd),
                        self.strs()[d0 as int],
                    );
                    assert(false);
                }
            } else {
                // did is excluded, so every entry beats it; yet it beats
                // the first entry's witness: contradiction
                assert(Self::beats(
                    rs[0].score as int,
                    rs[0].document.id@,
                    self.doc_score_spec(qts, did, maxd),
                    self.strs()[did as int],
                ));
                Self::lemma_beats_total(
                    self.doc_score_spec(qts, did, maxd),
                    self.strs()[did as int],
                    self.doc_score_spec(qts, d0, maxd),
                    self.strs()[d0 as int],
                );
                assert(false);
            }
        }
    }

    /// The wire form of the index snapshot: the document count, the
    /// configured field names, and every stored document in id order.
    pub closed spec fn snapshot_spec(&self) -> Seq<u8> {
        crate::codec::le64(self.doc_count as u64) + crate::codec::le64(
            self.cfg().len() as u64,
        ) + Self::cfg_bytes(self.cfg()) + Self::docs_bytes(self.documents@)
    }

    /// The concatenated encodings of the configured field names.
    pub open spec fn cfg_bytes(cfg: Seq<Seq<char>>) -> Seq<u8>
        decreases cfg.len(),
    {
        if cfg.len() == 0 {
            Seq::empty()
        } else {
            Self::cfg_bytes(cfg.drop_last()) + crate::codec::enc_chars(cfg.last())
        }
    }

    /// The concatenated encodings of the stored documents, in id order.
    pub open spec fn docs_bytes(docs: Seq<Option<Document>>) -> Seq<u8>
        decreases docs.len(),
    {
        if docs.len() == 0 {
            Seq::empty()
        } else {
            Self::docs_bytes(docs.drop_last()) + (match docs.last() {
                Some(d) => crate::codec::enc_document(d.id@, d.fields_model()),
                None => Seq::empty(),
            })
        }
    }

    /// Serialise the index snapshot.
    pub fn snapshot_bytes(&self) -> (r: Vec<u8>)
        ensures
            r@ == self.snapshot_spec(),
    {
        let mut out: Vec<u8> = Vec::new();
        crate::codec::push_le64(&mut out, self.doc_count as u64);
        crate::codec::push_le64(&mut out, self.indexed_fields.len() as u64);
        let ghost base1 = out@;
        let mut i: usize = 0;
        proof {
            assert(Self::cfg_bytes(self.cfg().take(0)) =~= Seq::<u8>::empty());
            assert(out@ =~= base1 + Self::cfg_bytes(self.cfg().take(0)));
        }
        while i < self.indexed_fields.len()
            invariant
                self.cfg().len() == self.indexed_fields@.len(),
                i <= self.cfg().len(),
                out@ == base1 + Self::cfg_bytes(self.cfg().take(i as int)),
            decreases self.indexed_fields@.len() - i,
        {
            proof {
                assert(self.cfg().take(i + 1).drop_last() =~= self.cfg().take(i as int));
                assert(self.cfg().take(i + 1).last() == self.cfg()[i as int]);
                assert(self.cfg()[i as int] == self.indexed_fields@[i as int]@);
            }
            crate::codec::push_chars(&mut out, self.indexed_fields[i].as_str());
            proof {
                assert(out@ =~= base1 + Self::cfg_bytes(self.cfg().take(i + 1)));
            }
            i = i + 1;
        }
        proof {
            assert(self.cfg().take(self.cfg().len() as int) =~= self.cfg());
        }
        let ghost base2 = out@;
        let mut d: usize = 0;
        proof {
            assert(Self::docs_bytes(self.documents@.take(0)) =~= Seq::<u8>::empty());
            assert(out@ =~= base2 + Self::docs_bytes(self.documents@.take(0)));
        }
        while d < self.documents.len()
            invariant
                d <= self.documents@.len(),
                out@ == base2 + Self::docs_bytes(self.documents@.take(d as int)),
            decreases self.documents@.len() - d,
        {
            proof {
                assert(self.documents@.take(d + 1).drop_last() =~= self.documents@.take(
                    d as int,
                ));
                assert(self.documents@.take(d + 1).last() == self.documents@[d as int]);
            }
            match &self.documents[d] {
                Some(doc) => {
                    let bytes = crate::codec::encode_document(doc);
                    extend_bytes(&mut out, &bytes);
                },
                None => {},
            }
            proof {
                assert(out@ =~= base2 + Self::docs_bytes(self.documents@.take(d + 1)));
            }
            d = d + 1;
        }
        proof {
            assert(self.documents@.take(self.documents@.len() as int) =~= self.documents@);
            assert(out@ =~= self.snapshot_spec());
        }
        out
    }

    /// The documents were ingested in order: a chain of single adds
    /// links the two states.
    pub open spec fn batch_chain(a: Index, b: Index, docs: Seq<Document>) -> bool
        decreases docs.len(),
    {
        if docs.len() == 0 {
            b == a
        } else {
            exists|mid: Index|
                #[trigger] Self::add_post(&a, &mid, docs[0].id@, docs[0].fields_model())
                    && mid.wf() && Self::batch_chain(mid, b, docs.drop_first())
        }
    }

    /// A chain grows by one more add at its end.
    pub proof fn lemma_batch_chain_snoc(
        a: Index,
        b: Index,
        c: Index,
        docs: Seq<Document>,
        d: Document,
    )
        requires
            Self::batch_chain(a, b, docs),
            Self::add_post(&b, &c, d.id@, d.fields_model()),
            c.wf(),
        ensures
            Self::batch_chain(a, c, docs.push(d)),
        decreases docs.len(),
    {
        if docs.len() == 0 {
            assert(b == a);
            assert(docs.push(d)[0] == d);
            assert(docs.push(d).drop_first() =~= Seq::<Document>::empty());
            assert(Self::add_post(&a, &c, docs.push(d)[0].id@, docs.push(d)[0].fields_model()));
            assert(Self::batch_chain(c, c, docs.push(d).drop_first()));
        } else {
            let mid = choose|mid: Index|
                #[trigger] Self::add_post(&a, &mid, docs[0].id@, docs[0].fields_model())
                    && mid.wf() && Self::batch_chain(mid, b, docs.drop_first());
            Self::lemma_batch_chain_snoc(mid, b, c, docs.drop_first(), d);
            assert(docs.push(d)[0] == docs[0]);
            assert(docs.push(d).drop_first() =~= docs.drop_first().push(d));
            assert(Self::add_post(
                &a,
                &mid,
                docs.push(d)[0].id@,
                docs.push(d)[0].fields_model(),
            ));
            assert(Self::batch_chain(mid, c, docs.push(d).drop_first()));
        }
    }

    /// Clear the index: empties all maps and the interner.
    pub fn clear(&mut self)
        ensures
            final(self).wf(),
            final(self).doc_count_spec() == 0,
            forall|s: Seq<char>| !final(self).has_doc(s),
            forall|t: Seq<char>| final(self).posting(t) == Seq::<Seq<char>>::empty(),
            forall|g: Seq<char>| final(self).trig_tokens(g) == Set::<Seq<char>>::empty(),
            final(self).cfg() == old(self).cfg(),
    {
        let ghost cfg0 = self.cfg();
        self.documents = Vec::new();
        self.doc_count = 0;
        self.inverted_index = Vec::new();
        self.trigram_index = Vec::new();
        self.interner.clear();
        proof {
            assert(self.cfg() =~= cfg0);
            assert(forall|t: Seq<char>| self.posting(t) =~= Seq::<Seq<char>>::empty());
            assert(forall|g: Seq<char>| self.trig_tokens(g) =~= Set::<Seq<char>>::empty());
        }
    }
}

/// The number of distinct trigrams the two de-duplicated trigram vectors
/// share.
fn count_overlap(qv: &Vec<String>, cv: &Vec<String>) -> (r: usize)
    requires
        qv.deep_view().no_duplicates(),
    ensures
        r == qv.deep_view().to_set().intersect(cv.deep_view().to_set()).len(),
        r <= qv@.len(),
{
    broadcast use vstd::seq_lib::seq_to_set_is_finite;

    let ghost qdv = qv.deep_view();
    let ghost cset = cv.deep_view().to_set();
    let mut cnt: usize = 0;
    let mut j: usize = 0;
    proof {
        assert(qdv.take(0).to_set() =~= Set::<Seq<char>>::empty());
        assert(qdv.take(0).to_set().intersect(cset) =~= Set::<Seq<char>>::empty());
    }
    while j < qv.len()
        invariant
            qdv == qv.deep_view(),
            qdv.no_duplicates(),
            qdv.len() == qv@.len(),
            cset == cv.deep_view().to_set(),
            j <= qdv.len(),
            cnt <= j,
            cnt == qdv.take(j as int).to_set().intersect(cset).len(),
            qdv.take(j as int).to_set().intersect(cset).finite(),
        decreases qdv.len() - j,
    {
        broadcast use vstd::seq_lib::seq_to_set_is_finite;

        let ghost acc = qdv.take(j as int).to_set().intersect(cset);
        let ghost x = qdv[j as int];
        proof {
            assert(qdv.take(j + 1) =~= qdv.take(j as int) + seq![x]);
            Seq::lemma_to_set_insert_commutes(qdv.take(j as int), x);
            assert(!qdv.take(j as int).to_set().contains(x)) by {
                if qdv.take(j as int).to_set().contains(x) {
                    let m = choose|m: int| 0 <= m < j && qdv.take(j as int)[m] == x;
                    assert(qdv[m] == qdv[j as int]);
                }
            }
        }
        if contains_string(&cv, &qv[j]) {
            proof {
                assert(cset.contains(x));
                assert(qdv.take(j + 1).to_set().intersect(cset) =~= acc.insert(x));
                assert(!acc.contains(x));
            }
            cnt = cnt + 1;
        } else {
            proof {
                assert(!cset.contains(x));
                assert(qdv.take(j + 1).to_set().intersect(cset) =~= acc);
            }
        }
        j = j + 1;
    }
    proof {
        assert(qdv.take(qdv.len() as int) =~= qdv);
    }
    cnt
}

/// Lexicographic comparison of two strings by code point.
fn str_lt(a: &str, b: &str) -> (r: bool)
    ensures
        r == Index::lex_lt(a@, b@),
{
    let an = a.unicode_len();
    let bn = b.unicode_len();
    let mut i: usize = 0;
    proof {
        assert(a@.skip(0) =~= a@);
        assert(b@.skip(0) =~= b@);
    }
    while i < an && i < bn
        invariant
            an == a@.len(),
            bn == b@.len(),
            i <= an,
            i <= bn,
            Index::lex_lt(a@, b@) == Index::lex_lt(a@.skip(i as int), b@.skip(i as int)),
        decreases an - i,
    {
        let ca = a.get_char(i);
        let cb = b.get_char(i);
        proof {
            assert(a@.skip(i as int)[0] == a@[i as int]);
            assert(b@.skip(i as int)[0] == b@[i as int]);
            assert(a@.skip(i as int).drop_first() =~= a@.skip(i + 1));
            assert(b@.skip(i as int).drop_first() =~= b@.skip(i + 1));
        }
        if ca as u32 != cb as u32 {
            proof {
                assert(ca != cb);
            }
            return (ca as u32) < (cb as u32);
        }
        proof {
            Index::lemma_char_code_injective(ca, cb);
        }
        i = i + 1;
    }
    proof {
        if i >= bn {
            assert(b@.skip(i as int).len() == 0);
            assert(b@.skip(i as int) =~= Seq::<char>::empty());
        } else {
            assert(a@.skip(i as int).len() == 0);
            assert(a@.skip(i as int) =~= Seq::<char>::empty());
        }
    }
    i < bn
}

/// Whether `a` ranks strictly before `b`: higher score first, ties by
/// ascending document id.
fn beats_exec(a: &SearchResult, b: &SearchResult) -> (r: bool)
    ensures
        r == Index::beats(a.score as int, a.document.id@, b.score as int, b.document.id@),
{
    a.score > b.score || (a.score == b.score && str_lt(a.document.id.as_str(), b.document.id.as_str()))
}

/// Append one byte vector to another.
fn extend_bytes(out: &mut Vec<u8>, more: &Vec<u8>)
    ensures
        final(out)@ == old(out)@ + more@,
{
    let mut i: usize = 0;
    proof {
        assert(out@ =~= old(out)@ + more@.take(0));
    }
    while i < more.len()
        invariant
            i <= more@.len(),
            out@ == old(out)@ + more@.take(i as int),
        decreases more@.len() - i,
    {
        out.push(more[i]);
        i = i + 1;
        proof {
            assert(out@ =~= old(out)@ + more@.take(i as int));
        }
    }
    proof {
        assert(more@.take(more@.len() as int) =~= more@);
    }
}

/// A posting with every occurrence of `did` removed, order kept.
fn filter_posting(v: &Vec<u32>, did: u32) -> (r: Vec<u32>)
    ensures
        r@ == ids_filter(v@, did),
{
    let mut r: Vec<u32> = Vec::new();
    let mut i: usize = 0;
    proof {
        assert(ids_filter(v@.take(0), did) =~= Seq::<u32>::empty());
    }
    while i < v.len()
        invariant
            i <= v@.len(),
            r@ == ids_filter(v@.take(i as int), did),
        decreases v@.len() - i,
    {
        let d = v[i];
        proof {
            assert(v@.take(i + 1).drop_last() =~= v@.take(i as int));
            assert(v@.take(i + 1).last() == v@[i as int]);
        }
        if d != did {
            r.push(d);
        }
        i = i + 1;
    }
    proof {
        assert(v@.take(v@.len() as int) =~= v@);
    }
    r
}

} // verus!
