//! Fixed-size pages: byte buffers addressed by a 64-bit id, with a
//! dirty/clean status, a pin count for cache retention and a last-access
//! tick.

use vstd::prelude::*;

verus! {

/// Page status.
#[derive(Debug, Clone, Copy, PartialEq, Eq, Structural)]
pub enum PageStatus {
    /// Not modified since the last write-out.
    Clean,
    /// Modified but not yet written to disk.
    Dirty,
    /// Being written to disk.
    Writing,
    /// Being read from disk.
    Reading,
}

/// A fixed-size chunk of data with cache-management bookkeeping.
pub struct Page {
    /// Unique identifier for the page.
    pub id: u64,
    /// The data stored in the page.
    pub data: Vec<u8>,
    /// Status of the page.
    pub status: PageStatus,
    /// Reference count for cache management.
    pub ref_count: u32,
    /// Last access tick for cache recency; supplied by the page's owner.
    pub last_access: u64,
}

impl Page {
    /// Create a new clean, unpinned page with the given id and data.
    pub fn new(id: u64, data: Vec<u8>) -> (p: Page)
        ensures
            p.id == id,
            p.data@ == data@,
            p.status == PageStatus::Clean,
            p.ref_count == 0,
            p.last_access == 0,
    {
        Page { id, data, status: PageStatus::Clean, ref_count: 0, last_access: 0 }
    }

    /// Create a new zero-filled page of the given size.
    pub fn new_empty(id: u64, size: usize) -> (p: Page)
        ensures
            p.id == id,
            p.data@.len() == size,
            forall|i: int| 0 <= i < size ==> p.data@[i] == 0u8,
            p.status == PageStatus::Clean,
            p.ref_count == 0,
    {
        let mut data: Vec<u8> = Vec::new();
        while data.len() < size
            invariant
                data@.len() <= size,
                forall|i: int| 0 <= i < data@.len() ==> data@[i] == 0u8,
            decreases size - data@.len(),
        {
            data.push(0);
        }
        Page::new(id, data)
    }

    /// Mark the page as dirty.
    pub fn mark_dirty(&mut self)
        ensures
            *final(self) == (Page { status: PageStatus::Dirty, ..*old(self) }),
    {
        self.status = PageStatus::Dirty;
    }

    /// Mark the page as clean.
    pub fn mark_clean(&mut self)
        ensures
            *final(self) == (Page { status: PageStatus::Clean, ..*old(self) }),
    {
        self.status = PageStatus::Clean;
    }

    /// Record an access at the given tick.
    pub fn touch(&mut self, now: u64)
        ensures
            *final(self) == (Page { last_access: now, ..*old(self) }),
    {
        self.last_access = now;
    }

    /// Increment the pin count, saturating.
    pub fn increment_ref_count(&mut self)
        ensures
            final(self).ref_count == (if old(self).ref_count == u32::MAX {
                u32::MAX
            } else {
                (old(self).ref_count + 1) as u32
            }),
            *final(self) == (Page { ref_count: final(self).ref_count, ..*old(self) }),
    {
        if self.ref_count < u32::MAX {
            self.ref_count = self.ref_count + 1;
        }
    }

    /// Decrement the pin count, saturating at zero.
    pub fn decrement_ref_count(&mut self)
        ensures
            final(self).ref_count == (if old(self).ref_count == 0 {
                0u32
            } else {
                (old(self).ref_count - 1) as u32
            }),
            *final(self) == (Page { ref_count: final(self).ref_count, ..*old(self) }),
    {
        if self.ref_count > 0 {
            self.ref_count = self.ref_count - 1;
        }
    }

    /// Whether the page is dirty.
    pub fn is_dirty(&self) -> (r: bool)
        ensures
            r == (self.status == PageStatus::Dirty),
    {
        match self.status {
            PageStatus::Dirty => true,
            _ => false,
        }
    }

    /// The size of the page in bytes.
    pub fn size(&self) -> (r: usize)
        ensures
            r == self.data@.len(),
    {
        self.data.len()
    }
}

/// A page held in a cache together with its pinned flag.
pub struct PageCacheEntry {
    /// The cached page.
    pub page: Page,
    /// Whether the page is pinned in memory.
    pub pinned: bool,
}

impl PageCacheEntry {
    /// Create a new page cache entry.
    pub fn new(page: Page, pinned: bool) -> (e: PageCacheEntry)
        ensures
            e.page == page,
            e.pinned == pinned,
    {
        PageCacheEntry { page, pinned }
    }

    /// Pin the page in memory.
    pub fn pin(&mut self)
        ensures
            *final(self) == (PageCacheEntry { pinned: true, ..*old(self) }),
    {
        self.pinned = true;
    }

    /// Unpin the page.
    pub fn unpin(&mut self)
        ensures
            *final(self) == (PageCacheEntry { pinned: false, ..*old(self) }),
    {
        self.pinned = false;
    }

    /// Whether the page is pinned.
    pub fn is_pinned(&self) -> (r: bool)
        ensures
            r == self.pinned,
    {
        self.pinned
    }

    /// The page id.
    pub fn id(&self) -> (r: u64)
        ensures
            r == self.page.id,
    {
        self.page.id
    }

    /// Whether the page is dirty.
    pub fn is_dirty(&self) -> (r: bool)
        ensures
            r == (self.page.status == PageStatus::Dirty),
    {
        self.page.is_dirty()
    }

    /// The page's pin count.
    pub fn ref_count(&self) -> (r: u32)
        ensures
            r == self.page.ref_count,
    {
        self.page.ref_count
    }

    /// The page's last access tick.
    pub fn last_access(&self) -> (r: u64)
        ensures
            r == self.page.last_access,
    {
        self.page.last_access
    }
}

} // verus!
