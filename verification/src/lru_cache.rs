//! A size-bounded cache with least-recently-used eviction.
//!
//! Entries carry a caller-reported byte size, a logical last-access tick
//! and a pin count; pinned entries are ineligible for eviction.  Keys are
//! flat `u32` sequences; the tier caches encode their own key shapes into
//! that space.

use vstd::prelude::*;

verus! {

/// One cache entry: key, value, reported size, last access tick, pins.
pub struct LruEntry<V> {
    pub key: Vec<u32>,
    pub value: V,
    pub size: usize,
    pub last_access: u64,
    pub ref_count: u32,
}

/// LRU cache with size-based eviction.
pub struct LruCache<V> {
    entries: Vec<LruEntry<V>>,
    max_size: usize,
    current_size: usize,
    clock: u64,
    hits: u64,
    misses: u64,
}

/// A counter bumped by one, sticking at its ceiling.
pub open spec fn saturating_inc(n: u64) -> u64 {
    if n == u64::MAX {
        n
    } else {
        (n + 1) as u64
    }
}

/// The sum of the reported sizes of the entries.
pub open spec fn sizes_sum<V>(es: Seq<LruEntry<V>>) -> int
    decreases es.len(),
{
    if es.len() == 0 {
        0
    } else {
        sizes_sum(es.drop_last()) + es.last().size
    }
}

impl<V> LruCache<V> {
    /// The entries, in storage order.
    pub closed spec fn entries_view(&self) -> Seq<LruEntry<V>> {
        self.entries@
    }

    /// The configured byte budget.
    pub closed spec fn max_size_spec(&self) -> int {
        self.max_size as int
    }

    /// The tracked total of the reported sizes.
    pub closed spec fn current_size_spec(&self) -> int {
        self.current_size as int
    }

    /// The logical clock; each access takes the next tick.
    pub closed spec fn clock_spec(&self) -> u64 {
        self.clock
    }

    /// The number of counted hits.
    pub closed spec fn hits_spec(&self) -> u64 {
        self.hits
    }

    /// The number of counted misses.
    pub closed spec fn misses_spec(&self) -> u64 {
        self.misses
    }

    /// Whether some entry has the key.
    pub open spec fn has_key(&self, key: Seq<u32>) -> bool {
        exists|i: int|
            0 <= i < self.entries_view().len() && (#[trigger] self.entries_view()[i]).key@ == key
    }

    /// The entry holding the key.
    pub open spec fn entry_of(&self, key: Seq<u32>) -> LruEntry<V> {
        self.entries_view()[choose|i: int|
            0 <= i < self.entries_view().len() && (#[trigger] self.entries_view()[i]).key@
                == key]
    }

    /// Keys are unique, the size total is tracked, every tick is below the
    /// clock, and every entry is within the clock's history.
    pub closed spec fn wf(&self) -> bool {
        &&& forall|i: int, j: int|
            0 <= i < j < self.entries@.len() ==> (#[trigger] self.entries@[i]).key@ != (
            #[trigger] self.entries@[j]).key@
        &&& self.current_size as int == sizes_sum(self.entries@)
        &&& forall|i: int|
            0 <= i < self.entries@.len() ==> (#[trigger] self.entries@[i]).last_access
                <= self.clock
    }

    /// Create a new cache with the given byte budget.
    pub fn new(max_size: usize) -> (r: Self)
        ensures
            r.wf(),
            r.max_size_spec() == max_size,
            r.entries_view().len() == 0,
            r.current_size_spec() == 0,
    {
        LruCache {
            entries: Vec::new(),
            max_size,
            current_size: 0,
            clock: 1,
            hits: 0,
            misses: 0,
        }
    }

    /// The position of the key, if present.
    fn find(&self, key: &Vec<u32>) -> (r: Option<usize>)
        ensures
            match r {
                Some(i) => i < self.entries_view().len() && self.entries_view()[i as int].key@
                    == key@,
                None => !self.has_key(key@),
            },
    {
        let mut i: usize = 0;
        while i < self.entries.len()
            invariant
                i <= self.entries@.len(),
                forall|j: int| 0 <= j < i ==> (#[trigger] self.entries@[j]).key@ != key@,
            decreases self.entries@.len() - i,
        {
            if keys_eq(&self.entries[i].key, key) {
                return Some(i);
            }
            i = i + 1;
        }
        proof {
            if self.has_key(key@) {
                let j = choose|j: int|
                    0 <= j < self.entries@.len() && (#[trigger] self.entries@[j]).key@ == key@;
                assert(false);
            }
        }
        None
    }

    /// Look a key up; a hit refreshes the entry's recency (its value,
    /// size and pin count are untouched) and is counted, a miss leaves
    /// the entries alone and is counted.
    pub fn get(&mut self, key: &Vec<u32>) -> (r: Option<&V>)
        requires
            old(self).wf(),
        ensures
            final(self).wf(),
            final(self).max_size_spec() == old(self).max_size_spec(),
            final(self).current_size_spec() == old(self).current_size_spec(),
            final(self).entries_view().len() == old(self).entries_view().len(),
            forall|k: Seq<u32>| final(self).has_key(k) == old(self).has_key(k),
            match r {
                Some(v) => {
                    &&& old(self).has_key(key@)
                    &&& *v == old(self).entry_of(key@).value
                    &&& final(self).entry_of(key@) == (LruEntry {
                        last_access: old(self).clock_spec(),
                        ..old(self).entry_of(key@)
                    })
                    &&& final(self).hits_spec() == saturating_inc(old(self).hits_spec())
                    &&& final(self).misses_spec() == old(self).misses_spec()
                },
                None => {
                    &&& !old(self).has_key(key@)
                    &&& final(self).entries_view() == old(self).entries_view()
                    &&& final(self).misses_spec() == saturating_inc(old(self).misses_spec())
                    &&& final(self).hits_spec() == old(self).hits_spec()
                },
            },
            forall|k: Seq<u32>|
                k != key@ && old(self).has_key(k) ==> #[trigger] final(self).entry_of(k)
                    == old(self).entry_of(k),
    {
        let ghost pre = *self;
        match self.find(key) {
            Some(i) => {
                proof {
                    assert(pre.has_key(key@));
                    Self::lemma_entry_at(&pre, i as int);
                }
                let tick = self.clock;
                let mut e = self.entries.remove(i);
                e.last_access = tick;
                self.entries.insert(i, e);
                if tick < u64::MAX {
                    self.clock = tick + 1;
                }
                if self.hits < u64::MAX {
                    self.hits = self.hits + 1;
                }
                proof {
                    assert(self.entries@ =~= pre.entries@.update(
                        i as int,
                        self.entries@[i as int],
                    ));
                    Self::lemma_sum_update(pre.entries@, i as int, self.entries@[i as int]);
                    assert(self.wf());
                    Self::lemma_same_keys(&pre, self, key@, i as int);
                    Self::lemma_entry_at(self, i as int);
                    assert(self.entry_of(key@) == (LruEntry {
                        last_access: pre.clock,
                        ..pre.entry_of(key@)
                    }));
                }
                Some(&self.entries[i].value)
            },
            None => {
                if self.misses < u64::MAX {
                    self.misses = self.misses + 1;
                }
                proof {
                    assert(self.entries@ == pre.entries@);
                    assert forall|k: Seq<u32>| true implies #[trigger] self.has_key(k)
                        == pre.has_key(k) by {}
                    assert forall|k: Seq<u32>| k != key@ && pre.has_key(k) implies
                        #[trigger] self.entry_of(k) == pre.entry_of(k) by {}
                }
                None
            },
        }
    }

    /// The entry at a valid position witnesses its own key.
    proof fn lemma_entry_at(c: &Self, i: int)
        requires
            c.wf(),
            0 <= i < c.entries_view().len(),
        ensures
            c.has_key(c.entries_view()[i].key@),
            c.entry_of(c.entries_view()[i].key@) == c.entries_view()[i],
    {
        let k = c.entries_view()[i].key@;
        assert(c.has_key(k)) by {
            assert(0 <= i < c.entries_view().len() && c.entries_view()[i].key@ == k);
        }
        let j = choose|j: int|
            0 <= j < c.entries_view().len() && (#[trigger] c.entries_view()[j]).key@ == k;
        if j != i {
            assert(false);
        }
    }

    /// Updating one entry in place, key unchanged, keeps every other
    /// entry's identity.
    proof fn lemma_same_keys(a: &Self, b: &Self, key: Seq<u32>, i: int)
        requires
            a.wf(),
            b.wf(),
            0 <= i < a.entries_view().len(),
            b.entries_view().len() == a.entries_view().len(),
            a.entries_view()[i].key@ == key,
            b.entries_view()[i].key@ == key,
            forall|j: int|
                0 <= j < a.entries_view().len() && j != i ==> #[trigger] b.entries_view()[j]
                    == a.entries_view()[j],
        ensures
            forall|k: Seq<u32>| #[trigger] b.has_key(k) == a.has_key(k),
            forall|k: Seq<u32>|
                k != key && a.has_key(k) ==> #[trigger] b.entry_of(k) == a.entry_of(k),
    {
        assert forall|k: Seq<u32>| true implies #[trigger] b.has_key(k) == a.has_key(k) by {
            if a.has_key(k) {
                let j = choose|j: int|
                    0 <= j < a.entries_view().len() && (#[trigger] a.entries_view()[j]).key@
                        == k;
                assert(b.entries_view()[j].key@ == k);
            }
            if b.has_key(k) {
                let j = choose|j: int|
                    0 <= j < b.entries_view().len() && (#[trigger] b.entries_view()[j]).key@
                        == k;
                assert(a.entries_view()[j].key@ == k);
            }
        }
        assert forall|k: Seq<u32>| k != key && a.has_key(k) implies #[trigger] b.entry_of(k)
            == a.entry_of(k) by {
            let j = choose|j: int|
                0 <= j < a.entries_view().len() && (#[trigger] a.entries_view()[j]).key@ == k;
            assert(j != i);
            assert(b.entries_view()[j].key@ == k);
            Self::lemma_entry_at(a, j);
            Self::lemma_entry_at(b, j);
        }
    }

    /// Replacing or removing one position changes the size total by the
    /// difference.
    proof fn lemma_sum_update(es: Seq<LruEntry<V>>, i: int, e: LruEntry<V>)
        requires
            0 <= i < es.len(),
        ensures
            sizes_sum(es.update(i, e)) == sizes_sum(es) - es[i].size + e.size,
        decreases es.len(),
    {
        if i == es.len() - 1 {
            assert(es.update(i, e).drop_last() =~= es.drop_last());
        } else {
            Self::lemma_sum_update(es.drop_last(), i, e);
            assert(es.update(i, e).drop_last() =~= es.drop_last().update(i, e));
        }
    }

    proof fn lemma_sum_remove(es: Seq<LruEntry<V>>, i: int)
        requires
            0 <= i < es.len(),
        ensures
            sizes_sum(es.remove(i)) == sizes_sum(es) - es[i].size,
        decreases es.len(),
    {
        if i == es.len() - 1 {
            assert(es.remove(i) =~= es.drop_last());
        } else {
            Self::lemma_sum_remove(es.drop_last(), i);
            assert(es.remove(i).drop_last() =~= es.drop_last().remove(i));
            assert(es.remove(i).last() == es.last());
        }
    }

    proof fn lemma_sum_push(es: Seq<LruEntry<V>>, e: LruEntry<V>)
        ensures
            sizes_sum(es.push(e)) == sizes_sum(es) + e.size,
    {
        assert(es.push(e).drop_last() =~= es);
    }

    /// Insert or replace an entry.  A replacement adjusts the running
    /// total in place and returns the previous value; an insertion first
    /// evicts the oldest unpinned entries until the new total fits the
    /// budget, or no eviction candidate is left, and returns nothing.
    pub fn put(&mut self, key: Vec<u32>, value: V, size: usize) -> (r: Option<V>)
        requires
            old(self).wf(),
            old(self).current_size_spec() + size <= usize::MAX,
        ensures
            final(self).wf(),
            final(self).max_size_spec() == old(self).max_size_spec(),
            final(self).has_key(key@),
            final(self).entry_of(key@).value == value,
            final(self).entry_of(key@).size == size,
            match r {
                Some(v) => old(self).has_key(key@) && v == old(self).entry_of(key@).value,
                None => !old(self).has_key(key@),
            },
            // every other surviving entry comes fully unchanged from the
            // old cache: value, size, pin count and recency
            forall|k: Seq<u32>|
                k != key@ && #[trigger] final(self).has_key(k) ==> (old(self).has_key(k)
                    && final(self).entry_of(k) == old(self).entry_of(k)),
            // a replacement evicts nothing and adjusts the total in place
            old(self).has_key(key@) ==> (final(self).current_size_spec()
                == old(self).current_size_spec() - old(self).entry_of(key@).size + size
                && (forall|k: Seq<u32>|
                #[trigger] final(self).has_key(k) == old(self).has_key(k))),
            // an insertion never evicts a pinned entry ...
            !old(self).has_key(key@) ==> (forall|k: Seq<u32>|
                old(self).has_key(k) && old(self).entry_of(k).ref_count > 0
                    ==> #[trigger] final(self).has_key(k)),
            // ... evicts oldest-first among the unpinned ...
            !old(self).has_key(key@) ==> (forall|k1: Seq<u32>, k2: Seq<u32>|
                #![trigger old(self).entry_of(k1).last_access, old(self).entry_of(k2).last_access]
                old(self).has_key(k1) && !final(self).has_key(k1) && k2 != key@
                    && final(self).has_key(k2) && old(self).entry_of(k2).ref_count == 0
                    ==> old(self).entry_of(k1).last_access <= old(self).entry_of(
                    k2,
                ).last_access),
            // ... and stops only once the budget holds or only pinned
            // entries are left ...
            !old(self).has_key(key@) ==> (final(self).current_size_spec()
                <= final(self).max_size_spec() || (forall|k: Seq<u32>|
                k != key@ && #[trigger] final(self).has_key(k) ==> final(self).entry_of(
                    k,
                ).ref_count > 0)),
            // ... so with nothing pinned the total respects the budget, up
            // to an entry that alone exceeds it
            (!old(self).has_key(key@) && (forall|i: int|
                0 <= i < old(self).entries_view().len() ==> (#[trigger] old(self).entries_view()[
                    i
                ]).ref_count == 0)) ==> final(self).current_size_spec() <= vstd::math::max(
                old(self).max_size_spec(),
                size as int,
            ),
    {
        let ghost pre = *self;
        let tick = self.clock;
        match self.find(&key) {
            Some(i) => {
                proof {
                    assert(pre.has_key(key@));
                    Self::lemma_entry_at(&pre, i as int);
                }
                proof {
                    Self::lemma_sum_bounds(pre.entries@, i as int);
                }
                let old_entry = self.entries.remove(i);
                let old_size = old_entry.size;
                let old_pins = old_entry.ref_count;
                let e = LruEntry { key, value, size, last_access: tick, ref_count: old_pins };
                let ghost k = e.key@;
                self.entries.insert(i, e);
                proof {
                    pre.entries@.remove_ensures(i as int);
                    pre.entries@.remove(i as int).insert_ensures(i as int, self.entries@[
                        i as int
                    ]);
                    assert(self.entries@ =~= pre.entries@.update(
                        i as int,
                        self.entries@[i as int],
                    ));
                    Self::lemma_sum_update(pre.entries@, i as int, self.entries@[i as int]);
                    assert(sizes_sum(self.entries@) == sizes_sum(pre.entries@) - old_size
                        + size);
                }
                self.current_size = self.current_size - old_size + size;
                if tick < u64::MAX {
                    self.clock = tick + 1;
                }
                proof {
                    assert(self.wf());
                    Self::lemma_entry_at(self, i as int);
                    Self::lemma_same_keys(&pre, self, k, i as int);
                    assert(old_entry == pre.entry_of(k));
                }
                return Some(old_entry.value);
            },
            None => {
                proof {
                    assert(!pre.has_key(key@));
                }
                // evict oldest unpinned entries until the new entry fits
                self.make_room(size);
                let ghost mid = *self;
                let e = LruEntry { key, value, size, last_access: tick, ref_count: 0 };
                let ghost k = e.key@;
                let ghost pre_push = self.entries@;
                self.entries.push(e);
                proof {
                    Self::lemma_sum_nonneg(mid.entries@);
                }
                self.current_size = self.current_size + size;
                if tick < u64::MAX {
                    self.clock = tick + 1;
                }
                proof {
                    Self::lemma_sum_push(pre_push, self.entries@.last());
                    assert(self.entries@.drop_last() =~= pre_push);
                    assert forall|i: int, j: int|
                        0 <= i < j < self.entries@.len() implies (
                    #[trigger] self.entries@[i]).key@ != (#[trigger] self.entries@[j]).key@ by {
                        if j == self.entries@.len() - 1 {
                            assert(self.entries@[i] == pre_push[i]);
                            assert(mid.has_key(self.entries@[i].key@)) by {
                                assert(mid.entries_view()[i].key@ == self.entries@[i].key@);
                            }
                            if self.entries@[i].key@ == k {
                                assert(pre.has_key(k));
                            }
                        }
                    }
                    assert(self.current_size as int == sizes_sum(self.entries@)) by {
                        assert(pre_push == mid.entries_view());
                    }
                    assert forall|i: int|
                        0 <= i < self.entries@.len() implies (
                    #[trigger] self.entries@[i]).last_access <= self.clock by {
                        if i < self.entries@.len() - 1 {
                            assert(self.entries@[i] == pre_push[i]);
                            assert(mid.entries_view()[i].last_access <= mid.clock);
                        }
                    }
                    assert(self.wf());
                    assert(self.has_key(k)) by {
                        assert(self.entries_view()[self.entries_view().len() - 1].key@ == k);
                    }
                    Self::lemma_entry_at(self, self.entries@.len() as int - 1);
                    assert forall|k2: Seq<u32>| k2 != k && #[trigger] self.has_key(k2) implies (
                    mid.has_key(k2) && self.entry_of(k2) == mid.entry_of(k2)) by {
                        let j = choose|j: int|
                            0 <= j < self.entries@.len() && (#[trigger] self.entries@[j]).key@
                                == k2;
                        assert(j < self.entries@.len() - 1);
                        assert(mid.entries_view()[j].key@ == k2);
                        Self::lemma_entry_at(&mid, j);
                        assert(mid.has_key(k2));
                        Self::lemma_entry_at(self, j);
                    }
                    assert forall|k2: Seq<u32>| k2 != k && mid.has_key(k2) implies
                        #[trigger] self.has_key(k2) by {
                        let j = choose|j: int|
                            0 <= j < mid.entries_view().len() && (
                            #[trigger] mid.entries_view()[j]).key@ == k2;
                        assert(self.entries_view()[j].key@ == k2);
                    }
                    // the stop condition carries over: the budget holds, or
                    // only pinned entries besides the new one survive
                    if mid.current_size_spec() + size <= mid.max_size_spec() {
                        assert(self.current_size_spec() <= self.max_size_spec());
                    } else {
                        assert forall|k2: Seq<u32>| k2 != k && #[trigger] self.has_key(
                            k2,
                        ) implies self.entry_of(k2).ref_count > 0 by {
                            assert(mid.has_key(k2));
                            let j2 = choose|j2: int|
                                0 <= j2 < mid.entries_view().len() && (
                                #[trigger] mid.entries_view()[j2]).key@ == k2;
                            assert(mid.entries_view()[j2].ref_count > 0);
                            Self::lemma_entry_at(&mid, j2);
                        }
                    }
                    // with nothing pinned to begin with, the total respects
                    // the budget, or the new entry alone exceeds it
                    if forall|i2: int|
                        0 <= i2 < pre.entries_view().len() ==> (#[trigger] pre.entries_view()[
                            i2
                        ]).ref_count == 0 {
                        if mid.current_size_spec() + size <= mid.max_size_spec() {
                            assert(self.current_size_spec() <= self.max_size_spec());
                        } else {
                            assert(mid.entries_view().len() == 0) by {
                                if mid.entries_view().len() > 0 {
                                    Self::lemma_entry_at(&mid, 0);
                                    let k2 = mid.entries_view()[0].key@;
                                    assert(mid.entries_view()[0].ref_count > 0);
                                    assert(pre.has_key(k2) && mid.entry_of(k2) == pre.entry_of(
                                        k2,
                                    ));
                                    let j2 = choose|j2: int|
                                        0 <= j2 < pre.entries_view().len() && (
                                        #[trigger] pre.entries_view()[j2]).key@ == k2;
                                    Self::lemma_entry_at(&pre, j2);
                                    assert(pre.entries_view()[j2].ref_count == 0);
                                }
                            }
                            assert(sizes_sum(mid.entries_view()) == 0);
                            assert(self.current_size_spec() == size);
                        }
                        assert(self.current_size_spec() <= vstd::math::max(
                            pre.max_size_spec(),
                            size as int,
                        ));
                    }
                }
                return None;
            },
        }
    }

    /// Evict the oldest unpinned entries until a new entry of the given
    /// size would fit the budget, or nothing evictable is left.
    fn make_room(&mut self, size: usize)
        requires
            old(self).wf(),
        ensures
            final(self).wf(),
            final(self).max_size_spec() == old(self).max_size_spec(),
            final(self).clock == old(self).clock,
            final(self).current_size_spec() <= old(self).current_size_spec(),
            // survivors come unchanged from the old cache
            forall|k: Seq<u32>|
                #[trigger] final(self).has_key(k) ==> (old(self).has_key(k)
                    && final(self).entry_of(k) == old(self).entry_of(k)),
            // pinned entries are never evicted
            forall|k: Seq<u32>|
                old(self).has_key(k) && old(self).entry_of(k).ref_count > 0
                    ==> #[trigger] final(self).has_key(k),
            // evictions are oldest-first among the unpinned
            forall|k1: Seq<u32>, k2: Seq<u32>|
                #![trigger old(self).entry_of(k1).last_access, old(self).entry_of(k2).last_access]
                old(self).has_key(k1) && !final(self).has_key(k1) && final(self).has_key(k2)
                    && old(self).entry_of(k2).ref_count == 0 ==> old(self).entry_of(
                    k1,
                ).last_access <= old(self).entry_of(k2).last_access,
            // eviction stops only once the new entry fits or nothing
            // evictable is left
            final(self).current_size_spec() + size <= final(self).max_size_spec() || (forall|
                j: int,
            |
                0 <= j < final(self).entries_view().len()
                    ==> (#[trigger] final(self).entries_view()[j]).ref_count > 0),
    {
        proof {
            assert forall|i: int| 0 <= i < self.entries@.len() implies (old(self).has_key(
                (#[trigger] self.entries@[i]).key@,
            ) && old(self).entry_of(self.entries@[i].key@) == self.entries@[i]) by {
                Self::lemma_entry_at(&*self, i);
            }
        }
        loop
            invariant
                self.wf(),
                self.max_size == old(self).max_size,
                self.clock == old(self).clock,
                self.current_size <= old(self).current_size,
                forall|k: Seq<u32>|
                    #[trigger] self.has_key(k) ==> (old(self).has_key(k) && self.entry_of(k)
                        == old(self).entry_of(k)),
                forall|i: int|
                    0 <= i < self.entries@.len() ==> old(self).has_key(
                        (#[trigger] self.entries@[i]).key@,
                    ) && old(self).entry_of(self.entries@[i].key@) == self.entries@[i],
                forall|k: Seq<u32>|
                    old(self).has_key(k) && old(self).entry_of(k).ref_count > 0
                        ==> #[trigger] self.has_key(k),
                forall|k1: Seq<u32>, k2: Seq<u32>|
                    #![trigger old(self).entry_of(k1).last_access, old(self).entry_of(k2).last_access]
                    old(self).has_key(k1) && !self.has_key(k1) && self.has_key(k2) && old(
                        self,
                    ).entry_of(k2).ref_count == 0 ==> old(self).entry_of(k1).last_access <= old(
                        self,
                    ).entry_of(k2).last_access,
            decreases self.entries@.len(),
        {
            if self.current_size <= self.max_size && self.max_size - self.current_size >= size {
                return ;
            }
            // find the oldest unpinned entry
            let mut oldest: Option<usize> = None;
            let mut i: usize = 0;
            while i < self.entries.len()
                invariant
                    self.wf(),
                    i <= self.entries@.len(),
                    match oldest {
                        Some(o) => o < self.entries@.len() && self.entries@[
                            o as int
                        ].ref_count == 0 && (forall|j: int|
                            0 <= j < i && (#[trigger] self.entries@[j]).ref_count == 0
                                ==> self.entries@[o as int].last_access <= self.entries@[
                                j
                            ].last_access),
                        None => forall|j: int|
                            0 <= j < i ==> (#[trigger] self.entries@[j]).ref_count > 0,
                    },
                decreases self.entries@.len() - i,
            {
                if self.entries[i].ref_count == 0 {
                    match oldest {
                        Some(o) => {
                            if self.entries[i].last_access < self.entries[o].last_access {
                                oldest = Some(i);
                            }
                        },
                        None => {
                            oldest = Some(i);
                        },
                    }
                }
                i = i + 1;
            }
            match oldest {
                Some(o) => {
                    let ghost pre = *self;
                    proof {
                        Self::lemma_sum_bounds(pre.entries@, o as int);
                        Self::lemma_entry_at(&pre, o as int);
                    }
                    let gone = self.entries.remove(o);
                    self.current_size = self.current_size - gone.size;
                    proof {
                        pre.entries@.remove_ensures(o as int);
                        Self::lemma_sum_remove(pre.entries@, o as int);
                        assert forall|i2: int, j2: int|
                            0 <= i2 < j2 < self.entries@.len() implies (
                        #[trigger] self.entries@[i2]).key@ != (
                        #[trigger] self.entries@[j2]).key@ by {
                            let pi = if i2 < o as int {
                                i2
                            } else {
                                i2 + 1
                            };
                            let pj = if j2 < o as int {
                                j2
                            } else {
                                j2 + 1
                            };
                            assert(self.entries@[i2] == pre.entries@[pi]);
                            assert(self.entries@[j2] == pre.entries@[pj]);
                        }
                        assert(self.wf());
                        assert forall|i2: int| 0 <= i2 < self.entries@.len() implies old(self).has_doc_key_at(
                            self.entries@[i2].key@,
                            self.entries@[i2],
                        ) by {
                            let pi = if i2 < o as int {
                                i2
                            } else {
                                i2 + 1
                            };
                            assert(self.entries@[i2] == pre.entries@[pi]);
                        }
                        assert forall|k: Seq<u32>| #[trigger] self.has_key(k) implies (
                        old(self).has_key(k) && self.entry_of(k) == old(self).entry_of(k)) by {
                            let j = choose|j: int|
                                0 <= j < self.entries@.len() && (
                                #[trigger] self.entries@[j]).key@ == k;
                        }
                        // the evicted key is exactly the selected entry's
                        let ghost gk = pre.entries@[o as int].key@;
                        assert(pre.entry_of(gk) == pre.entries@[o as int]);
                        assert(pre.entry_of(gk).ref_count == 0);
                        assert(!self.has_key(gk)) by {
                            if self.has_key(gk) {
                                let j = choose|j: int|
                                    0 <= j < self.entries@.len() && (
                                    #[trigger] self.entries@[j]).key@ == gk;
                                let pj = if j < o as int {
                                    j
                                } else {
                                    j + 1
                                };
                                assert(pre.entries@[pj].key@ == gk);
                                assert(pre.entries@[o as int].key@ == gk);
                            }
                        }
                        assert forall|k: Seq<u32>| k != gk && pre.has_key(k) implies
                            #[trigger] self.has_key(k) by {
                            let j = choose|j: int|
                                0 <= j < pre.entries@.len() && (
                                #[trigger] pre.entries@[j]).key@ == k;
                            assert(j != o as int);
                            let nj = if j < o as int {
                                j
                            } else {
                                j - 1
                            };
                            assert(self.entries@[nj] == pre.entries@[j]);
                            assert(self.entries_view()[nj].key@ == k);
                        }
                        // pinned entries survive this round
                        assert forall|k: Seq<u32>|
                            old(self).has_key(k) && old(self).entry_of(k).ref_count > 0 implies
                            #[trigger] self.has_key(k) by {
                            assert(pre.has_key(k));
                            assert(pre.entry_of(k) == old(self).entry_of(k));
                            assert(k != gk);
                        }
                        // the evicted entry is no newer than any unpinned
                        // survivor, this round or earlier
                        assert forall|k1: Seq<u32>, k2: Seq<u32>|
                            #![trigger old(self).entry_of(k1).last_access, old(self).entry_of(k2).last_access]
                            old(self).has_key(k1) && !self.has_key(k1) && self.has_key(k2)
                                && old(self).entry_of(k2).ref_count == 0 implies old(
                            self,
                        ).entry_of(k1).last_access <= old(self).entry_of(k2).last_access by {
                            assert(pre.has_key(k2));
                            assert(pre.entry_of(k2) == old(self).entry_of(k2));
                            if pre.has_key(k1) {
                                // evicted this round: it is the selected
                                // minimum among the unpinned
                                assert(k1 == gk) by {
                                    if k1 != gk {
                                        assert(self.has_key(k1));
                                    }
                                }
                                let j2 = choose|j2: int|
                                    0 <= j2 < pre.entries@.len() && (
                                    #[trigger] pre.entries@[j2]).key@ == k2;
                                Self::lemma_entry_at(&pre, j2);
                                assert(pre.entries@[j2].ref_count == 0);
                                assert(pre.entries@[o as int].last_access <= pre.entries@[
                                    j2
                                ].last_access);
                                assert(old(self).entry_of(k1) == pre.entries@[o as int]);
                            } else {
                                // evicted in an earlier round: the loop
                                // invariant already orders it
                            }
                        }
                    }
                },
                None => {
                    proof {
                        // nothing is evictable: every survivor is pinned
                        assert forall|j: int| 0 <= j < self.entries@.len() implies (
                        #[trigger] self.entries@[j]).ref_count > 0 by {}
                    }
                    return ;
                },
            }
        }
    }

    /// The spec alias: the old cache holds exactly this entry under the
    /// key.
    pub open spec fn has_doc_key_at(&self, k: Seq<u32>, e: LruEntry<V>) -> bool {
        self.has_key(k) && self.entry_of(k) == e
    }

    /// A single entry's size never exceeds the total.
    proof fn lemma_sum_bounds(es: Seq<LruEntry<V>>, i: int)
        requires
            0 <= i < es.len(),
        ensures
            es[i].size as int <= sizes_sum(es),
            sizes_sum(es) >= 0,
        decreases es.len(),
    {
        if es.len() > 0 {
            if i == es.len() - 1 {
                Self::lemma_sum_nonneg(es.drop_last());
            } else {
                Self::lemma_sum_bounds(es.drop_last(), i);
            }
        }
    }

    proof fn lemma_sum_nonneg(es: Seq<LruEntry<V>>)
        ensures
            sizes_sum(es) >= 0,
        decreases es.len(),
    {
        if es.len() > 0 {
            Self::lemma_sum_nonneg(es.drop_last());
        }
    }

    /// Remove the entry with the key, if present.
    pub fn remove(&mut self, key: &Vec<u32>) -> (r: Option<V>)
        requires
            old(self).wf(),
        ensures
            final(self).wf(),
            final(self).max_size_spec() == old(self).max_size_spec(),
            !final(self).has_key(key@),
            r is Some == old(self).has_key(key@),
            forall|k: Seq<u32>|
                k != key@ ==> #[trigger] final(self).has_key(k) == old(self).has_key(k),
            forall|k: Seq<u32>|
                k != key@ && old(self).has_key(k) ==> #[trigger] final(self).entry_of(k)
                    == old(self).entry_of(k),
    {
        let ghost pre = *self;
        match self.find(key) {
            Some(i) => {
                proof {
                    Self::lemma_entry_at(&pre, i as int);
                }
                proof {
                    Self::lemma_sum_bounds(pre.entries@, i as int);
                }
                let gone = self.entries.remove(i);
                self.current_size = self.current_size - gone.size;
                proof {
                    pre.entries@.remove_ensures(i as int);
                    Self::lemma_sum_remove(pre.entries@, i as int);
                    assert forall|i2: int, j2: int|
                        0 <= i2 < j2 < self.entries@.len() implies (
                    #[trigger] self.entries@[i2]).key@ != (#[trigger] self.entries@[j2]).key@ by {
                        let pi = if i2 < i as int {
                            i2
                        } else {
                            i2 + 1
                        };
                        let pj = if j2 < i as int {
                            j2
                        } else {
                            j2 + 1
                        };
                        assert(self.entries@[i2] == pre.entries@[pi]);
                        assert(self.entries@[j2] == pre.entries@[pj]);
                    }
                    assert(self.wf());
                    assert forall|k: Seq<u32>| true implies !(#[trigger] self.has_key(k) && k
                        == key@) by {
                        if self.has_key(k) && k == key@ {
                            let j = choose|j: int|
                                0 <= j < self.entries@.len() && (
                                #[trigger] self.entries@[j]).key@ == k;
                            let pj = if j < i as int {
                                j
                            } else {
                                j + 1
                            };
                            assert(pre.entries@[pj].key@ == key@);
                            assert(pre.entries@[i as int].key@ == key@);
                        }
                    }
                    assert forall|k: Seq<u32>| k != key@ implies #[trigger] self.has_key(k)
                        == pre.has_key(k) by {
                        if pre.has_key(k) {
                            let j = choose|j: int|
                                0 <= j < pre.entries@.len() && (
                                #[trigger] pre.entries@[j]).key@ == k;
                            assert(j != i as int);
                            let nj = if j < i as int {
                                j
                            } else {
                                j - 1
                            };
                            assert(self.entries@[nj] == pre.entries@[j]);
                            assert(self.entries_view()[nj].key@ == k);
                            assert(self.has_key(k));
                        }
                        if self.has_key(k) {
                            let j = choose|j: int|
                                0 <= j < self.entries@.len() && (
                                #[trigger] self.entries@[j]).key@ == k;
                            let pj = if j < i as int {
                                j
                            } else {
                                j + 1
                            };
                            assert(pre.entries@[pj].key@ == k);
                        }
                    }
                    assert forall|k: Seq<u32>| k != key@ && pre.has_key(k) implies
                        #[trigger] self.entry_of(k) == pre.entry_of(k) by {
                        let j = choose|j: int|
                            0 <= j < pre.entries@.len() && (#[trigger] pre.entries@[j]).key@
                                == k;
                        assert(j != i as int);
                        let nj = if j < i as int {
                            j
                        } else {
                            j - 1
                        };
                        assert(self.entries@[nj] == pre.entries@[j]);
                        Self::lemma_entry_at(&pre, j);
                        Self::lemma_entry_at(self, nj);
                    }
                }
                Some(gone.value)
            },
            None => None,
        }
    }

    /// Clear the cache.
    pub fn clear(&mut self)
        ensures
            final(self).wf(),
            final(self).max_size_spec() == old(self).max_size_spec(),
            final(self).entries_view().len() == 0,
            final(self).current_size_spec() == 0,
            forall|k: Seq<u32>| !final(self).has_key(k),
    {
        self.entries = Vec::new();
        self.current_size = 0;
    }

    /// The tracked byte total.
    pub fn size(&self) -> (r: usize)
        ensures
            r == self.current_size_spec(),
    {
        self.current_size
    }

    /// The configured byte budget.
    pub fn max_size(&self) -> (r: usize)
        ensures
            r == self.max_size_spec(),
    {
        self.max_size
    }

    /// The number of entries.
    pub fn len(&self) -> (r: usize)
        ensures
            r == self.entries_view().len(),
    {
        self.entries.len()
    }

    pub fn is_empty(&self) -> (r: bool)
        ensures
            r == (self.entries_view().len() == 0),
    {
        self.entries.len() == 0
    }

    /// The hit rate in thousandths: hits * 1000 / (hits + misses), zero
    /// when nothing was looked up.
    pub fn hit_rate(&self) -> (r: u64)
        ensures
            r <= 1000,
    {
        if self.hits == 0 {
            0
        } else if self.misses > u64::MAX - self.hits {
            // degenerate counter overflow guard; rates stay meaningful
            1000
        } else {
            let total = self.hits + self.misses;
            let rate = (((self.hits as u128) * 1000u128) / (total as u128)) as u64;
            if rate > 1000 {
                1000
            } else {
                rate
            }
        }
    }
}

/// Elementwise equality of two keys.
fn keys_eq(a: &Vec<u32>, b: &Vec<u32>) -> (r: bool)
    ensures
        r == (a@ == b@),
{
    if a.len() != b.len() {
        proof {
            assert(a@ != b@);
        }
        return false;
    }
    let mut i: usize = 0;
    while i < a.len()
        invariant
            a@.len() == b@.len(),
            i <= a@.len(),
            forall|j: int| 0 <= j < i ==> a@[j] == b@[j],
        decreases a@.len() - i,
    {
        if a[i] != b[i] {
            return false;
        }
        i = i + 1;
    }
    proof {
        assert(a@ =~= b@);
    }
    true
}

/// Size budget law: a put into a cache with nothing pinned leaves the
/// total within the budget whenever the entry itself fits it; any single
/// put leaves the total at most one new entry above the previous bound.
pub proof fn lemma_size_budget<V>(pre: LruCache<V>, post: LruCache<V>, key: Seq<u32>, size: int)
    requires
        size >= 0,
        !pre.has_key(key),
        forall|i: int|
            0 <= i < pre.entries_view().len() ==> (#[trigger] pre.entries_view()[i]).ref_count
                == 0,
        post.current_size_spec() <= vstd::math::max(pre.max_size_spec(), size),
        post.max_size_spec() == pre.max_size_spec(),
    ensures
        post.current_size_spec() <= post.max_size_spec() + size,
        size <= post.max_size_spec() ==> post.current_size_spec() <= post.max_size_spec(),
{
}

} // verus!
