//! The storage engine abstraction: key/value and page operations,
//! transactions, and statistics, together with the always-available
//! in-memory engine.

use vstd::prelude::*;

verus! {

use crate::page::Page;

/// Storage-specific error kinds, normalised from backend errors.
#[derive(Debug)]
pub enum StorageError {
    IoError(String),
    SerializationError(String),
    DeserializationError(String),
    KeyNotFound(String),
    DatabaseError(String),
    StoragePathNotFound(String),
    UnsupportedStorageType(String),
    TransactionError(String),
    PageError(String),
    ConfigurationError(String),
    StorageAlreadyExists(String),
    StorageCorrupted(String),
    StorageVersionMismatch { expected: String, found: String },
    StorageLocked,
    StorageTimeout,
    StorageCanceled,
    StorageOperationNotSupported(String),
    Other(String),
}

/// Storage statistics.  The cache hit rate is in thousandths.
pub struct StorageStats {
    /// Number of keys in the storage.
    pub key_count: usize,
    /// Total size of all values in bytes.
    pub total_value_size: usize,
    /// Number of pages in the storage.
    pub page_count: usize,
    /// Number of dirty pages.
    pub dirty_page_count: usize,
    /// Cache hit rate in thousandths.
    pub cache_hit_rate: u64,
    /// Number of reads.
    pub read_count: u64,
    /// Number of writes.
    pub write_count: u64,
    /// Backend-specific statistics.
    pub custom_stats: Vec<(String, String)>,
}

/// The key/value and page operations a storage backend offers.  The
/// in-memory engine below implements it with exact contracts on its own
/// inherent methods; file-backed drivers implement it outside the
/// verified core, where `valid` carries whatever invariant the backend
/// keeps.
pub trait StorageEngine {
    /// The backend's own invariant.
    spec fn valid(&self) -> bool;

    /// Get a value by key.
    fn get(&mut self, key: &Vec<u8>) -> (r: Result<Option<Vec<u8>>, StorageError>)
        requires
            old(self).valid(),
        ensures
            final(self).valid(),
    ;

    /// Put a key/value pair.
    fn put(&mut self, key: &Vec<u8>, value: &Vec<u8>) -> (r: Result<(), StorageError>)
        requires
            old(self).valid(),
        ensures
            final(self).valid(),
    ;

    /// Delete a key.
    fn delete(&mut self, key: &Vec<u8>) -> (r: Result<(), StorageError>)
        requires
            old(self).valid(),
        ensures
            final(self).valid(),
    ;

    /// Whether a key exists.
    fn contains_key(&mut self, key: &Vec<u8>) -> (r: Result<bool, StorageError>)
        requires
            old(self).valid(),
        ensures
            final(self).valid(),
    ;

    /// Get a page by id.
    fn get_page(&mut self, page_id: u64) -> (r: Result<Option<Page>, StorageError>)
        requires
            old(self).valid(),
        ensures
            final(self).valid(),
    ;

    /// Put a page.
    fn put_page(&mut self, page: Page) -> (r: Result<(), StorageError>)
        requires
            old(self).valid(),
        ensures
            final(self).valid(),
    ;

    /// Flush pending writes.
    fn flush(&mut self) -> (r: Result<(), StorageError>)
        requires
            old(self).valid(),
        ensures
            final(self).valid(),
    ;

    /// Flush and release resources.
    fn close(&mut self) -> (r: Result<(), StorageError>)
        requires
            old(self).valid(),
        ensures
            final(self).valid(),
    ;
}

/// A unit of storage work with read-your-writes visibility before commit
/// and all-or-nothing visibility at commit.
pub trait StorageTransaction {
    /// Get a value by key, seeing this transaction's own writes.
    fn get(&mut self, key: &Vec<u8>) -> Result<Option<Vec<u8>>, StorageError>;

    /// Record a put.
    fn put(&mut self, key: &Vec<u8>, value: &Vec<u8>) -> Result<(), StorageError>;

    /// Record a deletion.
    fn delete(&mut self, key: &Vec<u8>) -> Result<(), StorageError>;

    /// Whether a key exists, seeing this transaction's own writes.
    fn contains_key(&mut self, key: &Vec<u8>) -> Result<bool, StorageError>;
}

/// An association list with unique keys: the positions of `key`.
pub open spec fn kv_has<V>(es: Seq<(Vec<u8>, V)>, key: Seq<u8>) -> bool {
    exists|i: int| 0 <= i < es.len() && (#[trigger] es[i]).0@ == key
}

/// The value stored under `key`.
pub open spec fn kv_at<V>(es: Seq<(Vec<u8>, V)>, key: Seq<u8>) -> V {
    es[choose|i: int| 0 <= i < es.len() && (#[trigger] es[i]).0@ == key].1
}

/// Unique keys.
pub open spec fn kv_unique<V>(es: Seq<(Vec<u8>, V)>) -> bool {
    forall|i: int, j: int|
        0 <= i < j < es.len() ==> (#[trigger] es[i]).0@ != (#[trigger] es[j]).0@
}

/// The always-available in-memory storage engine.
pub struct MemoryStorageEngine {
    data: Vec<(Vec<u8>, Vec<u8>)>,
    pages: Vec<(u64, Page)>,
    read_count: u64,
    write_count: u64,
}

impl MemoryStorageEngine {
    /// The stored key/value pairs.
    pub closed spec fn kv(&self) -> Seq<(Vec<u8>, Vec<u8>)> {
        self.data@
    }

    /// The stored pages.
    pub closed spec fn pages_view(&self) -> Seq<(u64, Page)> {
        self.pages@
    }

    /// The number of counted reads.
    pub closed spec fn read_count_spec(&self) -> u64 {
        self.read_count
    }

    /// The number of counted writes.
    pub closed spec fn write_count_spec(&self) -> u64 {
        self.write_count
    }

    /// Keys and page ids are unique.
    pub closed spec fn wf(&self) -> bool {
        &&& kv_unique(self.data@)
        &&& forall|i: int, j: int|
            0 <= i < j < self.pages@.len() ==> (#[trigger] self.pages@[i]).0 != (
            #[trigger] self.pages@[j]).0
    }

    /// Create a new empty in-memory engine.
    pub fn new() -> (r: Self)
        ensures
            r.wf(),
            r.kv().len() == 0,
            r.pages_view().len() == 0,
    {
        MemoryStorageEngine {
            data: Vec::new(),
            pages: Vec::new(),
            read_count: 0,
            write_count: 0,
        }
    }

    /// The position of a key, if present.
    fn find_key(&self, key: &Vec<u8>) -> (r: Option<usize>)
        ensures
            match r {
                Some(i) => i < self.kv().len() && self.kv()[i as int].0@ == key@,
                None => !kv_has(self.kv(), key@),
            },
    {
        let mut i: usize = 0;
        while i < self.data.len()
            invariant
                i <= self.data@.len(),
                forall|j: int| 0 <= j < i ==> (#[trigger] self.data@[j]).0@ != key@,
            decreases self.data@.len() - i,
        {
            if bytes_eq(&self.data[i].0, key) {
                return Some(i);
            }
            i = i + 1;
        }
        proof {
            if kv_has(self.kv(), key@) {
                let j = choose|j: int|
                    0 <= j < self.data@.len() && (#[trigger] self.data@[j]).0@ == key@;
                assert(false);
            }
        }
        None
    }

    /// Get a value by key.
    pub fn get_value(&mut self, key: &Vec<u8>) -> (r: Option<Vec<u8>>)
        requires
            old(self).wf(),
        ensures
            final(self).wf(),
            final(self).kv() == old(self).kv(),
            final(self).pages_view() == old(self).pages_view(),
            final(self).read_count_spec() == crate::lru_cache::saturating_inc(
                old(self).read_count_spec(),
            ),
            final(self).write_count_spec() == old(self).write_count_spec(),
            match r {
                Some(v) => kv_has(old(self).kv(), key@) && v@ == kv_at(old(self).kv(), key@)@,
                None => !kv_has(old(self).kv(), key@),
            },
    {
        if self.read_count < u64::MAX {
            self.read_count = self.read_count + 1;
        }
        match self.find_key(key) {
            Some(i) => {
                proof {
                    Self::lemma_kv_at(self.kv(), i as int);
                }
                let mut out: Vec<u8> = Vec::new();
                let src = &self.data[i].1;
                let mut j: usize = 0;
                while j < src.len()
                    invariant
                        src == self.data@[i as int].1,
                        i < self.data@.len(),
                        j <= src@.len(),
                        out@ == src@.take(j as int),
                    decreases src@.len() - j,
                {
                    out.push(src[j]);
                    j = j + 1;
                    proof {
                        assert(out@ =~= src@.take(j as int));
                    }
                }
                proof {
                    assert(src@.take(src@.len() as int) =~= src@);
                }
                Some(out)
            },
            None => None,
        }
    }

    /// A valid position witnesses its own key.
    proof fn lemma_kv_at<V>(es: Seq<(Vec<u8>, V)>, i: int)
        requires
            kv_unique(es),
            0 <= i < es.len(),
        ensures
            kv_has(es, es[i].0@),
            kv_at(es, es[i].0@) == es[i].1,
    {
        let k = es[i].0@;
        assert(kv_has(es, k)) by {
            assert(0 <= i < es.len() && es[i].0@ == k);
        }
        let j = choose|j: int| 0 <= j < es.len() && (#[trigger] es[j]).0@ == k;
        if j != i {
            assert(false);
        }
    }

    /// Put a key/value pair; a present key is overwritten.
    pub fn put_value(&mut self, key: &Vec<u8>, value: &Vec<u8>)
        requires
            old(self).wf(),
        ensures
            final(self).wf(),
            final(self).pages_view() == old(self).pages_view(),
            final(self).write_count_spec() == crate::lru_cache::saturating_inc(
                old(self).write_count_spec(),
            ),
            final(self).read_count_spec() == old(self).read_count_spec(),
            kv_has(final(self).kv(), key@),
            kv_at(final(self).kv(), key@)@ == value@,
            forall|k: Seq<u8>|
                k != key@ ==> #[trigger] kv_has(final(self).kv(), k) == kv_has(
                    old(self).kv(),
                    k,
                ),
            forall|k: Seq<u8>|
                k != key@ && kv_has(old(self).kv(), k) ==> #[trigger] kv_at(final(self).kv(), k)
                    == kv_at(old(self).kv(), k),
    {
        if self.write_count < u64::MAX {
            self.write_count = self.write_count + 1;
        }
        let ghost pre = self.data@;
        let k2 = clone_bytes(key);
        let v2 = clone_bytes(value);
        match self.find_key(key) {
            Some(i) => {
                proof {
                    Self::lemma_kv_at(pre, i as int);
                }
                self.data.set(i, (k2, v2));
                proof {
                    Self::lemma_kv_update(pre, self.data@, key@, i as int);
                }
            },
            None => {
                self.data.push((k2, v2));
                proof {
                    assert(self.data@.drop_last() =~= pre);
                    assert forall|i: int, j: int|
                        0 <= i < j < self.data@.len() implies (#[trigger] self.data@[i]).0@ != (
                    #[trigger] self.data@[j]).0@ by {
                        if j == self.data@.len() - 1 {
                            assert(self.data@[i] == pre[i]);
                            if pre[i].0@ == key@ {
                                assert(kv_has(pre, key@));
                            }
                        }
                    }
                    assert(kv_has(self.kv(), key@)) by {
                        assert(self.kv()[self.kv().len() - 1].0@ == key@);
                    }
                    Self::lemma_kv_at(self.data@, self.data@.len() as int - 1);
                    assert forall|k: Seq<u8>| k != key@ implies #[trigger] kv_has(
                        self.kv(),
                        k,
                    ) == kv_has(pre, k) by {
                        if kv_has(pre, k) {
                            let j = choose|j: int|
                                0 <= j < pre.len() && (#[trigger] pre[j]).0@ == k;
                            assert(self.data@[j].0@ == k);
                        }
                        if kv_has(self.kv(), k) {
                            let j = choose|j: int|
                                0 <= j < self.data@.len() && (#[trigger] self.data@[j]).0@ == k;
                            assert(j < pre.len());
                            assert(pre[j].0@ == k);
                        }
                    }
                    assert forall|k: Seq<u8>| k != key@ && kv_has(pre, k) implies
                        #[trigger] kv_at(self.kv(), k) == kv_at(pre, k) by {
                        let j = choose|j: int| 0 <= j < pre.len() && (#[trigger] pre[j]).0@ == k;
                        Self::lemma_kv_at(pre, j);
                        assert(self.data@[j] == pre[j]);
                        Self::lemma_kv_at(self.data@, j);
                    }
                }
            },
        }
    }

    /// Replacing one entry in place, key kept, preserves the rest.
    proof fn lemma_kv_update(
        pre: Seq<(Vec<u8>, Vec<u8>)>,
        post: Seq<(Vec<u8>, Vec<u8>)>,
        key: Seq<u8>,
        i: int,
    )
        requires
            kv_unique(pre),
            0 <= i < pre.len(),
            post.len() == pre.len(),
            pre[i].0@ == key,
            post[i].0@ == key,
            forall|j: int| 0 <= j < pre.len() && j != i ==> #[trigger] post[j] == pre[j],
        ensures
            kv_unique(post),
            kv_has(post, key),
            kv_at(post, key) == post[i].1,
            forall|k: Seq<u8>| k != key ==> #[trigger] kv_has(post, k) == kv_has(pre, k),
            forall|k: Seq<u8>|
                k != key && kv_has(pre, k) ==> #[trigger] kv_at(post, k) == kv_at(pre, k),
    {
        assert forall|x: int, y: int|
            0 <= x < y < post.len() implies (#[trigger] post[x]).0@ != (
        #[trigger] post[y]).0@ by {}
        assert(kv_has(post, key)) by {
            assert(0 <= i < post.len() && post[i].0@ == key);
        }
        Self::lemma_kv_at(post, i);
        assert forall|k: Seq<u8>| k != key implies #[trigger] kv_has(post, k) == kv_has(
            pre,
            k,
        ) by {
            if kv_has(pre, k) {
                let j = choose|j: int| 0 <= j < pre.len() && (#[trigger] pre[j]).0@ == k;
                assert(j != i);
                assert(post[j].0@ == k);
            }
            if kv_has(post, k) {
                let j = choose|j: int| 0 <= j < post.len() && (#[trigger] post[j]).0@ == k;
                assert(j != i);
                assert(pre[j].0@ == k);
            }
        }
        assert forall|k: Seq<u8>| k != key && kv_has(pre, k) implies #[trigger] kv_at(post, k)
            == kv_at(pre, k) by {
            let j = choose|j: int| 0 <= j < pre.len() && (#[trigger] pre[j]).0@ == k;
            assert(j != i);
            Self::lemma_kv_at(pre, j);
            Self::lemma_kv_at(post, j);
        }
    }

    /// Delete a key; absent keys are tolerated.
    pub fn delete_value(&mut self, key: &Vec<u8>)
        requires
            old(self).wf(),
        ensures
            final(self).wf(),
            final(self).pages_view() == old(self).pages_view(),
            final(self).write_count_spec() == crate::lru_cache::saturating_inc(
                old(self).write_count_spec(),
            ),
            final(self).read_count_spec() == old(self).read_count_spec(),
            !kv_has(final(self).kv(), key@),
            forall|k: Seq<u8>|
                k != key@ ==> #[trigger] kv_has(final(self).kv(), k) == kv_has(
                    old(self).kv(),
                    k,
                ),
            forall|k: Seq<u8>|
                k != key@ && kv_has(old(self).kv(), k) ==> #[trigger] kv_at(final(self).kv(), k)
                    == kv_at(old(self).kv(), k),
    {
        if self.write_count < u64::MAX {
            self.write_count = self.write_count + 1;
        }
        let ghost pre = self.data@;
        match self.find_key(key) {
            Some(i) => {
                self.data.remove(i);
                proof {
                    pre.remove_ensures(i as int);
                    assert forall|x: int, y: int|
                        0 <= x < y < self.data@.len() implies (#[trigger] self.data@[x]).0@ != (
                    #[trigger] self.data@[y]).0@ by {
                        let px = if x < i as int {
                            x
                        } else {
                            x + 1
                        };
                        let py = if y < i as int {
                            y
                        } else {
                            y + 1
                        };
                        assert(self.data@[x] == pre[px]);
                        assert(self.data@[y] == pre[py]);
                    }
                    assert forall|k: Seq<u8>| true implies !(#[trigger] kv_has(self.kv(), k) && k
                        == key@) by {
                        if kv_has(self.kv(), k) && k == key@ {
                            let j = choose|j: int|
                                0 <= j < self.data@.len() && (#[trigger] self.data@[j]).0@ == k;
                            let pj = if j < i as int {
                                j
                            } else {
                                j + 1
                            };
                            assert(pre[pj].0@ == key@);
                            assert(pre[i as int].0@ == key@);
                        }
                    }
                    assert forall|k: Seq<u8>| k != key@ implies #[trigger] kv_has(self.kv(), k)
                        == kv_has(pre, k) by {
                        if kv_has(pre, k) {
                            let j = choose|j: int|
                                0 <= j < pre.len() && (#[trigger] pre[j]).0@ == k;
                            assert(j != i as int);
                            let nj = if j < i as int {
                                j
                            } else {
                                j - 1
                            };
                            assert(self.data@[nj] == pre[j]);
                            assert(self.data@[nj].0@ == k);
                            assert(kv_has(self.kv(), k));
                        }
                        if kv_has(self.kv(), k) {
                            let j = choose|j: int|
                                0 <= j < self.data@.len() && (#[trigger] self.data@[j]).0@ == k;
                            let pj = if j < i as int {
                                j
                            } else {
                                j + 1
                            };
                            assert(pre[pj].0@ == k);
                        }
                    }
                    assert forall|k: Seq<u8>| k != key@ && kv_has(pre, k) implies
                        #[trigger] kv_at(self.kv(), k) == kv_at(pre, k) by {
                        let j = choose|j: int| 0 <= j < pre.len() && (#[trigger] pre[j]).0@ == k;
                        assert(j != i as int);
                        let nj = if j < i as int {
                            j
                        } else {
                            j - 1
                        };
                        assert(self.data@[nj] == pre[j]);
                        Self::lemma_kv_at(pre, j);
                        Self::lemma_kv_at(self.data@, nj);
                    }
                }
            },
            None => {
                proof {
                    assert forall|k: Seq<u8>| true implies #[trigger] kv_has(self.kv(), k)
                        == kv_has(pre, k) by {}
                }
            },
        }
    }

    /// Whether a key exists.
    pub fn exists_value(&mut self, key: &Vec<u8>) -> (r: bool)
        requires
            old(self).wf(),
        ensures
            final(self).wf(),
            final(self).kv() == old(self).kv(),
            final(self).pages_view() == old(self).pages_view(),
            final(self).read_count_spec() == crate::lru_cache::saturating_inc(
                old(self).read_count_spec(),
            ),
            final(self).write_count_spec() == old(self).write_count_spec(),
            r == kv_has(old(self).kv(), key@),
    {
        if self.read_count < u64::MAX {
            self.read_count = self.read_count + 1;
        }
        match self.find_key(key) {
            Some(i) => {
                proof {
                    Self::lemma_kv_at(self.kv(), i as int);
                }
                true
            },
            None => false,
        }
    }

    /// The position of a page id, if present.
    fn find_page(&self, page_id: u64) -> (r: Option<usize>)
        ensures
            match r {
                Some(i) => i < self.pages_view().len() && self.pages_view()[i as int].0
                    == page_id,
                None => forall|i: int|
                    0 <= i < self.pages_view().len() ==> (#[trigger] self.pages_view()[i]).0
                        != page_id,
            },
    {
        let mut i: usize = 0;
        while i < self.pages.len()
            invariant
                i <= self.pages@.len(),
                forall|j: int| 0 <= j < i ==> (#[trigger] self.pages@[j]).0 != page_id,
            decreases self.pages@.len() - i,
        {
            if self.pages[i].0 == page_id {
                return Some(i);
            }
            i = i + 1;
        }
        None
    }

    /// Whether a page with the id is stored.
    pub open spec fn has_page(&self, page_id: u64) -> bool {
        exists|i: int|
            0 <= i < self.pages_view().len() && (#[trigger] self.pages_view()[i]).0 == page_id
    }

    /// The stored page with the id.
    pub open spec fn page_at(&self, page_id: u64) -> Page {
        self.pages_view()[choose|i: int|
            0 <= i < self.pages_view().len() && (#[trigger] self.pages_view()[i]).0
                == page_id].1
    }

    /// Get a copy of a page by id, refreshed at the given tick.
    pub fn get_page(&mut self, page_id: u64) -> (r: Option<Page>)
        requires
            old(self).wf(),
        ensures
            final(self).wf(),
            final(self).kv() == old(self).kv(),
            final(self).pages_view() == old(self).pages_view(),
            final(self).read_count_spec() == crate::lru_cache::saturating_inc(
                old(self).read_count_spec(),
            ),
            final(self).write_count_spec() == old(self).write_count_spec(),
            match r {
                Some(p) => {
                    &&& old(self).has_page(page_id)
                    &&& p.id == old(self).page_at(page_id).id
                    &&& p.data@ == old(self).page_at(page_id).data@
                    &&& p.status == old(self).page_at(page_id).status
                    &&& p.ref_count == old(self).page_at(page_id).ref_count
                    &&& p.last_access == old(self).page_at(page_id).last_access
                },
                None => !old(self).has_page(page_id),
            },
    {
        if self.read_count < u64::MAX {
            self.read_count = self.read_count + 1;
        }
        match self.find_page(page_id) {
            Some(i) => {
                proof {
                    Self::lemma_page_at(self.pages@, i as int);
                }
                let p = &self.pages[i].1;
                let data = clone_bytes(&p.data);
                let copy = Page {
                    id: p.id,
                    data,
                    status: p.status,
                    ref_count: p.ref_count,
                    last_access: p.last_access,
                };
                proof {
                    assert(copy.data@ == self.pages@[i as int].1.data@);
                }
                Some(copy)
            },
            None => {
                proof {
                    if self.has_page(page_id) {
                        let j = choose|j: int|
                            0 <= j < self.pages@.len() && (#[trigger] self.pages@[j]).0
                                == page_id;
                        assert(false);
                    }
                }
                None
            },
        }
    }

    /// A valid position witnesses its own page id.
    proof fn lemma_page_at(ps: Seq<(u64, Page)>, i: int)
        requires
            forall|x: int, y: int|
                0 <= x < y < ps.len() ==> (#[trigger] ps[x]).0 != (#[trigger] ps[y]).0,
            0 <= i < ps.len(),
        ensures
            exists|j: int| 0 <= j < ps.len() && (#[trigger] ps[j]).0 == ps[i].0,
            ps[choose|j: int| 0 <= j < ps.len() && (#[trigger] ps[j]).0 == ps[i].0].1
                == ps[i].1,
    {
        assert(0 <= i < ps.len() && ps[i].0 == ps[i].0);
        let j = choose|j: int| 0 <= j < ps.len() && (#[trigger] ps[j]).0 == ps[i].0;
        if j != i {
            assert(false);
        }
    }

    /// Store a page under its own id, replacing any previous version.
    pub fn put_page(&mut self, page: Page)
        requires
            old(self).wf(),
        ensures
            final(self).wf(),
            final(self).kv() == old(self).kv(),
            final(self).write_count_spec() == crate::lru_cache::saturating_inc(
                old(self).write_count_spec(),
            ),
            final(self).read_count_spec() == old(self).read_count_spec(),
            final(self).has_page(page.id),
            final(self).page_at(page.id) == page,
            forall|pid: u64|
                pid != page.id ==> #[trigger] final(self).has_page(pid) == old(self).has_page(
                    pid,
                ),
            forall|pid: u64|
                pid != page.id && old(self).has_page(pid) ==> #[trigger] final(self).page_at(
                    pid,
                ) == old(self).page_at(pid),
    {
        if self.write_count < u64::MAX {
            self.write_count = self.write_count + 1;
        }
        let ghost pre = self.pages@;
        let pid = page.id;
        match self.find_page(pid) {
            Some(i) => {
                self.pages.set(i, (pid, page));
                proof {
                    assert forall|x: int, y: int|
                        0 <= x < y < self.pages@.len() implies (#[trigger] self.pages@[x]).0
                        != (#[trigger] self.pages@[y]).0 by {}
                    Self::lemma_page_at(self.pages@, i as int);
                    assert forall|p2: u64| p2 != pid implies #[trigger] self.has_page(p2)
                        == old(self).has_page(p2) by {
                        if old(self).has_page(p2) {
                            let j = choose|j: int|
                                0 <= j < pre.len() && (#[trigger] pre[j]).0 == p2;
                            assert(self.pages@[j].0 == p2);
                        }
                        if self.has_page(p2) {
                            let j = choose|j: int|
                                0 <= j < self.pages@.len() && (#[trigger] self.pages@[j]).0
                                    == p2;
                            assert(pre[j].0 == p2);
                        }
                    }
                    assert forall|p2: u64| p2 != pid && old(self).has_page(p2) implies
                        #[trigger] self.page_at(p2) == old(self).page_at(p2) by {
                        let j = choose|j: int| 0 <= j < pre.len() && (#[trigger] pre[j]).0 == p2;
                        assert(j != i as int);
                        Self::lemma_page_at(pre, j);
                        Self::lemma_page_at(self.pages@, j);
                    }
                }
            },
            None => {
                proof {
                    assert forall|i: int| 0 <= i < pre.len() implies (#[trigger] pre[i]).0
                        != pid by {
                        assert(self.pages_view()[i].0 != pid);
                    }
                }
                self.pages.push((pid, page));
                proof {
                    assert(self.pages@.drop_last() =~= pre);
                    assert forall|x: int, y: int|
                        0 <= x < y < self.pages@.len() implies (#[trigger] self.pages@[x]).0
                        != (#[trigger] self.pages@[y]).0 by {
                        if y == self.pages@.len() - 1 {
                            assert(self.pages@[x] == pre[x]);
                            assert(pre[x].0 != pid);
                            assert(self.pages@[y].0 == pid);
                        } else {
                            assert(self.pages@[x] == pre[x]);
                            assert(self.pages@[y] == pre[y]);
                        }
                    }
                    assert(self.has_page(pid)) by {
                        assert(self.pages_view()[self.pages_view().len() - 1].0 == pid);
                    }
                    Self::lemma_page_at(self.pages@, self.pages@.len() as int - 1);
                    assert forall|p2: u64| p2 != pid implies #[trigger] self.has_page(p2)
                        == old(self).has_page(p2) by {
                        if old(self).has_page(p2) {
                            let j = choose|j: int|
                                0 <= j < pre.len() && (#[trigger] pre[j]).0 == p2;
                            assert(self.pages@[j].0 == p2);
                        }
                        if self.has_page(p2) {
                            let j = choose|j: int|
                                0 <= j < self.pages@.len() && (#[trigger] self.pages@[j]).0
                                    == p2;
                            assert(j < pre.len());
                            assert(pre[j].0 == p2);
                        }
                    }
                    assert forall|p2: u64| p2 != pid && old(self).has_page(p2) implies
                        #[trigger] self.page_at(p2) == old(self).page_at(p2) by {
                        let j = choose|j: int| 0 <= j < pre.len() && (#[trigger] pre[j]).0 == p2;
                        Self::lemma_page_at(pre, j);
                        assert(self.pages@[j] == pre[j]);
                        Self::lemma_page_at(self.pages@, j);
                    }
                }
            },
        }
    }

    /// A durability barrier; everything is already in memory.
    pub fn flush(&mut self) -> (r: Result<(), StorageError>)
        requires
            old(self).wf(),
        ensures
            *final(self) == *old(self),
            r is Ok,
    {
        Ok(())
    }

    /// Flush and release resources; nothing to release in memory.
    pub fn close(&mut self) -> (r: Result<(), StorageError>)
        requires
            old(self).wf(),
        ensures
            *final(self) == *old(self),
            r is Ok,
    {
        Ok(())
    }

    /// Begin a transaction: an empty change set.
    pub fn begin_transaction(&self) -> (t: MemoryTransaction)
        ensures
            t.wf(),
            t.changes_view().len() == 0,
            !t.committed_spec(),
    {
        MemoryTransaction { changes: Vec::new(), committed: false }
    }

    /// The number of keys.
    pub fn key_count(&self) -> (r: usize)
        ensures
            r == self.kv().len(),
    {
        self.data.len()
    }

    /// Storage statistics: counts, sizes and the exact read and write
    /// tallies.
    pub fn stats(&self) -> (r: StorageStats)
        ensures
            r.key_count == self.kv().len(),
            r.page_count == self.pages_view().len(),
            r.cache_hit_rate == 1000,
            r.read_count == self.read_count_spec(),
            r.write_count == self.write_count_spec(),
    {
        StorageStats {
            key_count: self.data.len(),
            total_value_size: self.total_value_size(),
            page_count: self.pages.len(),
            dirty_page_count: 0,
            cache_hit_rate: 1000,
            read_count: self.read_count,
            write_count: self.write_count,
            custom_stats: Vec::new(),
        }
    }

    /// The total size of the stored values, saturating.
    fn total_value_size(&self) -> (r: usize)
    {
        let mut total: usize = 0;
        let mut i: usize = 0;
        while i < self.data.len()
            invariant
                i <= self.data@.len(),
            decreases self.data@.len() - i,
        {
            let l = self.data[i].1.len();
            if total <= usize::MAX - l {
                total = total + l;
            }
            i = i + 1;
        }
        total
    }
}

/// An in-memory transaction: buffered changes, applied at commit.
pub struct MemoryTransaction {
    changes: Vec<(Vec<u8>, Option<Vec<u8>>)>,
    committed: bool,
}

impl MemoryTransaction {
    /// The buffered changes, later writes shadowing earlier ones.
    pub closed spec fn changes_view(&self) -> Seq<(Vec<u8>, Option<Vec<u8>>)> {
        self.changes@
    }

    /// Whether the transaction was already committed or aborted.
    pub closed spec fn committed_spec(&self) -> bool {
        self.committed
    }

    pub closed spec fn wf(&self) -> bool {
        true
    }

    /// Record a put.
    pub fn put(&mut self, key: &Vec<u8>, value: &Vec<u8>) -> (r: Result<(), StorageError>)
        ensures
            r is Ok,
            final(self).committed_spec() == old(self).committed_spec(),
            final(self).changes_view().len() == old(self).changes_view().len() + 1,
            final(self).changes_view().last().0@ == key@,
            final(self).changes_view().last().1 matches Some(v) && v@ == value@,
            forall|i: int|
                0 <= i < old(self).changes_view().len() ==> #[trigger] final(self).changes_view()[
                    i
                ] == old(self).changes_view()[i],
    {
        self.changes.push((clone_bytes(key), Some(clone_bytes(value))));
        Ok(())
    }

    /// Record a deletion.
    pub fn delete(&mut self, key: &Vec<u8>) -> (r: Result<(), StorageError>)
        ensures
            r is Ok,
            final(self).committed_spec() == old(self).committed_spec(),
            final(self).changes_view().len() == old(self).changes_view().len() + 1,
            final(self).changes_view().last().0@ == key@,
            final(self).changes_view().last().1 is None,
            forall|i: int|
                0 <= i < old(self).changes_view().len() ==> #[trigger] final(self).changes_view()[
                    i
                ] == old(self).changes_view()[i],
    {
        self.changes.push((clone_bytes(key), None));
        Ok(())
    }

    /// The pending change for a key: the last buffered write, if any.
    pub open spec fn pending(&self, key: Seq<u8>) -> Option<Option<Vec<u8>>> {
        Self::pending_in(self.changes_view(), key)
    }

    pub open spec fn pending_in(
        cs: Seq<(Vec<u8>, Option<Vec<u8>>)>,
        key: Seq<u8>,
    ) -> Option<Option<Vec<u8>>>
        decreases cs.len(),
    {
        if cs.len() == 0 {
            None
        } else if cs.last().0@ == key {
            Some(cs.last().1)
        } else {
            Self::pending_in(cs.drop_last(), key)
        }
    }

    /// Get a value with read-your-writes visibility.
    pub fn get(&self, engine: &mut MemoryStorageEngine, key: &Vec<u8>) -> (r: Option<Vec<u8>>)
        requires
            old(engine).wf(),
        ensures
            final(engine).wf(),
            final(engine).kv() == old(engine).kv(),
            final(engine).pages_view() == old(engine).pages_view(),
            match self.pending(key@) {
                Some(Some(v)) => r matches Some(rv) && rv@ == v@,
                Some(None) => r is None,
                None => match r {
                    Some(rv) => kv_has(old(engine).kv(), key@) && rv@ == kv_at(
                        old(engine).kv(),
                        key@,
                    )@,
                    None => !kv_has(old(engine).kv(), key@),
                },
            },
    {
        let mut i: usize = self.changes.len();
        proof {
            assert(self.changes@.take(i as int) =~= self.changes@);
        }
        while i > 0
            invariant
                engine.wf(),
                engine.kv() == old(engine).kv(),
                engine.pages_view() == old(engine).pages_view(),
                i <= self.changes@.len(),
                self.pending(key@) == Self::pending_in(self.changes@.take(i as int), key@),
            decreases i,
        {
            i = i - 1;
            proof {
                assert(self.changes@.take(i + 1).drop_last() =~= self.changes@.take(i as int));
                assert(self.changes@.take(i + 1).last() == self.changes@[i as int]);
            }
            if bytes_eq(&self.changes[i].0, key) {
                match &self.changes[i].1 {
                    Some(v) => {
                        return Some(clone_bytes(v));
                    },
                    None => {
                        return None;
                    },
                }
            }
        }
        proof {
            assert(self.changes@.take(0) =~= Seq::<(Vec<u8>, Option<Vec<u8>>)>::empty());
        }
        engine.get_value(key)
    }

    /// Whether a key exists, with read-your-writes visibility.
    pub fn contains_key(&self, engine: &mut MemoryStorageEngine, key: &Vec<u8>) -> (r: bool)
        requires
            old(engine).wf(),
        ensures
            final(engine).wf(),
            final(engine).kv() == old(engine).kv(),
            final(engine).pages_view() == old(engine).pages_view(),
            r == (match self.pending(key@) {
                Some(Some(_)) => true,
                Some(None) => false,
                None => kv_has(old(engine).kv(), key@),
            }),
    {
        match self.get(engine, key) {
            Some(_) => {
                proof {
                    match self.pending(key@) {
                        Some(p) => {},
                        None => {},
                    }
                }
                true
            },
            None => false,
        }
    }

    /// Apply every buffered change to the engine, in order.  Fails when
    /// the transaction was already committed or aborted.
    pub fn commit(&mut self, engine: &mut MemoryStorageEngine) -> (r: Result<(), StorageError>)
        requires
            old(engine).wf(),
        ensures
            final(engine).wf(),
            old(self).committed_spec() ==> (r matches Err(
                StorageError::TransactionError(_),
            ) && final(engine).kv() == old(engine).kv()),
            !old(self).committed_spec() ==> (r is Ok && final(self).committed_spec() && (forall|
                k: Seq<u8>,
            |
                {
                    match Self::pending_in(old(self).changes_view(), k) {
                        Some(Some(v)) => #[trigger] kv_has(final(engine).kv(), k) && kv_at(
                            final(engine).kv(),
                            k,
                        )@ == v@,
                        Some(None) => !kv_has(final(engine).kv(), k),
                        None => kv_has(final(engine).kv(), k) == kv_has(old(engine).kv(), k) && (
                        kv_has(old(engine).kv(), k) ==> kv_at(final(engine).kv(), k) == kv_at(
                            old(engine).kv(),
                            k,
                        )),
                    }
                })),
            final(engine).pages_view() == old(engine).pages_view(),
    {
        if self.committed {
            return Err(StorageError::TransactionError(String::new()));
        }
        let mut i: usize = 0;
        while i < self.changes.len()
            invariant
                engine.wf(),
                i <= self.changes@.len(),
                engine.pages_view() == old(engine).pages_view(),
                forall|k: Seq<u8>|
                    {
                        match Self::pending_in(self.changes@.take(i as int), k) {
                            Some(Some(v)) => #[trigger] kv_has(engine.kv(), k) && kv_at(
                                engine.kv(),
                                k,
                            )@ == v@,
                            Some(None) => !kv_has(engine.kv(), k),
                            None => kv_has(engine.kv(), k) == kv_has(old(engine).kv(), k) && (
                            kv_has(old(engine).kv(), k) ==> kv_at(engine.kv(), k) == kv_at(
                                old(engine).kv(),
                                k,
                            )),
                        }
                    },
                self.changes@ == old(self).changes_view(),
                !self.committed,
            decreases self.changes@.len() - i,
        {
            let ghost prekv = engine.kv();
            let key_ref = &self.changes[i].0;
            match &self.changes[i].1 {
                Some(v) => {
                    engine.put_value(key_ref, v);
                },
                None => {
                    engine.delete_value(key_ref);
                },
            }
            i = i + 1;
            proof {
                let ck = self.changes@[i - 1].0@;
                assert forall|k: Seq<u8>| true implies ({
                    match Self::pending_in(self.changes@.take(i as int), k) {
                        Some(Some(v)) => #[trigger] kv_has(engine.kv(), k) && kv_at(
                            engine.kv(),
                            k,
                        )@ == v@,
                        Some(None) => !kv_has(engine.kv(), k),
                        None => kv_has(engine.kv(), k) == kv_has(old(engine).kv(), k) && (
                        kv_has(old(engine).kv(), k) ==> kv_at(engine.kv(), k) == kv_at(
                            old(engine).kv(),
                            k,
                        )),
                    }
                }) by {
                    assert(self.changes@.take(i as int).drop_last() =~= self.changes@.take(
                        i - 1,
                    ));
                    assert(self.changes@.take(i as int).last() == self.changes@[i - 1]);
                }
            }
        }
        proof {
            assert(self.changes@.take(self.changes@.len() as int) =~= self.changes@);
        }
        self.committed = true;
        Ok(())
    }

    /// Abort: discard the changes and bar a later commit.
    pub fn abort(&mut self) -> (r: Result<(), StorageError>)
        ensures
            r is Ok,
            final(self).committed_spec(),
    {
        self.committed = true;
        Ok(())
    }
}

impl StorageEngine for MemoryStorageEngine {
    open spec fn valid(&self) -> bool {
        self.wf()
    }

    fn get(&mut self, key: &Vec<u8>) -> (r: Result<Option<Vec<u8>>, StorageError>) {
        Ok(self.get_value(key))
    }

    fn put(&mut self, key: &Vec<u8>, value: &Vec<u8>) -> (r: Result<(), StorageError>) {
        self.put_value(key, value);
        Ok(())
    }

    fn delete(&mut self, key: &Vec<u8>) -> (r: Result<(), StorageError>) {
        self.delete_value(key);
        Ok(())
    }

    fn contains_key(&mut self, key: &Vec<u8>) -> (r: Result<bool, StorageError>) {
        Ok(self.exists_value(key))
    }

    fn get_page(&mut self, page_id: u64) -> (r: Result<Option<Page>, StorageError>) {
        Ok(MemoryStorageEngine::get_page(self, page_id))
    }

    fn put_page(&mut self, page: Page) -> (r: Result<(), StorageError>) {
        MemoryStorageEngine::put_page(self, page);
        Ok(())
    }

    fn flush(&mut self) -> (r: Result<(), StorageError>) {
        MemoryStorageEngine::flush(self)
    }

    fn close(&mut self) -> (r: Result<(), StorageError>) {
        MemoryStorageEngine::close(self)
    }
}

/// Elementwise equality of two byte vectors.
fn bytes_eq(a: &Vec<u8>, b: &Vec<u8>) -> (r: bool)
    ensures
        r == (a@ == b@),
{
    if a.len() != b.len() {
        proof {
            assert(a@ != b@);
        }
        return false;
    }
    let mut i: usize = 0;
    while i < a.len()
        invariant
            a@.len() == b@.len(),
            i <= a@.len(),
            forall|j: int| 0 <= j < i ==> a@[j] == b@[j],
        decreases a@.len() - i,
    {
        if a[i] != b[i] {
            return false;
        }
        i = i + 1;
    }
    proof {
        assert(a@ =~= b@);
    }
    true
}

/// A copy of a byte vector.
pub(crate) fn clone_bytes(v: &Vec<u8>) -> (r: Vec<u8>)
    ensures
        r@ == v@,
{
    let mut r: Vec<u8> = Vec::new();
    let mut i: usize = 0;
    while i < v.len()
        invariant
            i <= v@.len(),
            r@ == v@.take(i as int),
        decreases v@.len() - i,
    {
        r.push(v[i]);
        i = i + 1;
        proof {
            assert(r@ =~= v@.take(i as int));
        }
    }
    proof {
        assert(v@.take(v@.len() as int) =~= v@);
    }
    r
}

/// The factory: the in-memory backend is the one the verified core can
/// instantiate; file-backed drivers live with the embedding program.
pub fn create_storage_engine(config: &crate::storage_config::StorageConfig) -> (r: Result<
    MemoryStorageEngine,
    StorageError,
>)
    ensures
        match r {
            Ok(e) => e.wf() && e.kv().len() == 0 && config.storage_type
                == crate::storage_config::StorageType::Memory,
            Err(e) => e matches StorageError::UnsupportedStorageType(_) && config.storage_type
                != crate::storage_config::StorageType::Memory,
        },
{
    match config.storage_type {
        crate::storage_config::StorageType::Memory => Ok(MemoryStorageEngine::new()),
        _ => Err(StorageError::UnsupportedStorageType(String::new())),
    }
}

} // verus!
