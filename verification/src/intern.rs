//! String interning: a bidirectional map between strings and compact,
//! dense integer ids.
//!
//! Ids are issued in increasing order starting at 0 and are never reused
//! within a session; equal strings always share an id.  The interner is
//! modelled as the sequence of interned strings, indexed by id.  The
//! table is a duplicate-free vector searched linearly, trading the hash
//! map's amortised constant-time lookup for a directly verifiable shape.

use vstd::prelude::*;

verus! {

/// A unique identifier for an interned string.
#[derive(Debug, Clone, Copy, PartialEq, Eq, Hash, Structural)]
pub struct StringId(pub u32);

impl StringId {
    pub fn new(id: u32) -> (r: Self)
        ensures
            r.0 == id,
    {
        StringId(id)
    }

    pub fn as_u32(self) -> (r: u32)
        ensures
            r == self.0,
    {
        self.0
    }
}

/// String interning table.  Its view is the sequence of interned strings in
/// id order; the id of a string is its position in that sequence.
pub struct StringInterner {
    strings: Vec<String>,
}

impl View for StringInterner {
    type V = Seq<Seq<char>>;

    closed spec fn view(&self) -> Seq<Seq<char>> {
        Seq::new(self.strings@.len(), |i: int| self.strings@[i]@)
    }
}

/// What a successful `intern` guarantees: the table keeps every previous
/// string at its id, the requested string stands at the returned id, and
/// nothing else was added.
pub open spec fn intern_post(
    old_strs: Seq<Seq<char>>,
    new_strs: Seq<Seq<char>>,
    id: int,
    s: Seq<char>,
) -> bool {
    &&& 0 <= id < new_strs.len()
    &&& new_strs[id] == s
    &&& (if old_strs.contains(s) {
        new_strs == old_strs
    } else {
        new_strs == old_strs + seq![s] && id == old_strs.len()
    })
}

impl StringInterner {
    /// No string is interned twice, and every id fits in 32 bits.
    pub open spec fn wf(&self) -> bool {
        self@.no_duplicates() && self@.len() <= u32::MAX
    }

    pub fn new() -> (r: Self)
        ensures
            r@ == Seq::<Seq<char>>::empty(),
            r.wf(),
    {
        let r = StringInterner { strings: Vec::new() };
        proof {
            assert(r@ =~= Seq::<Seq<char>>::empty());
        }
        r
    }

    /// The position of `s` in the table, if it is interned.
    fn find(&self, s: &String) -> (r: Option<usize>)
        ensures
            match r {
                Some(i) => i < self@.len() && self@[i as int] == s@,
                None => !self@.contains(s@),
            },
    {
        let mut i: usize = 0;
        while i < self.strings.len()
            invariant
                i <= self@.len(),
                forall|j: int| 0 <= j < i ==> self@[j] != s@,
            decreases self@.len() - i,
        {
            if self.strings[i].eq(s) {
                proof {
                    assert(self@[i as int] == self.strings@[i as int]@);
                }
                return Some(i);
            }
            i = i + 1;
        }
        proof {
            if self@.contains(s@) {
                let j = choose|j: int| 0 <= j < self@.len() && self@[j] == s@;
                assert(false);
            }
        }
        None
    }

    /// Intern a string and return its id; equal strings share an id.  Fails
    /// only when the id space is exhausted.
    pub fn intern(&mut self, s: &str) -> (r: Option<StringId>)
        requires
            old(self).wf(),
        ensures
            final(self).wf(),
            match r {
                Some(id) => intern_post(old(self)@, final(self)@, id.0 as int, s@),
                None => final(self)@ == old(self)@ && final(self)@.len() >= u32::MAX,
            },
    {
        let owned = s.to_owned();
        match self.find(&owned) {
            Some(i) => {
                proof {
                    assert(self@.contains(s@));
                }
                Some(StringId(i as u32))
            },
            None => {
                if self.strings.len() >= u32::MAX as usize {
                    return None;
                }
                let id = self.strings.len() as u32;
                let ghost old_view = self@;
                self.strings.push(owned);
                proof {
                    assert(self@ =~= old_view + seq![s@]);
                    assert(self@.drop_last() =~= old_view);
                }
                Some(StringId(id))
            },
        }
    }

    /// The string interned under `id`, if any.
    pub fn get(&self, id: StringId) -> (r: Option<&str>)
        ensures
            match r {
                Some(s) => id.0 < self@.len() && s@ == self@[id.0 as int],
                None => id.0 >= self@.len(),
            },
    {
        let i = id.0 as usize;
        if i < self.strings.len() {
            let s: &str = self.strings[i].as_str();
            proof {
                assert(self@[i as int] == self.strings@[i as int]@);
            }
            Some(s)
        } else {
            None
        }
    }

    /// The id of `s`, if it is interned.
    pub fn get_id(&self, s: &str) -> (r: Option<StringId>)
        requires
            self.wf(),
        ensures
            match r {
                Some(id) => id.0 < self@.len() && self@[id.0 as int] == s@,
                None => !self@.contains(s@),
            },
    {
        let owned = s.to_owned();
        match self.find(&owned) {
            Some(i) => Some(StringId(i as u32)),
            None => None,
        }
    }

    /// The number of interned strings.
    pub fn len(&self) -> (r: usize)
        ensures
            r == self@.len(),
    {
        self.strings.len()
    }

    pub fn is_empty(&self) -> (r: bool)
        ensures
            r == (self@.len() == 0),
    {
        self.strings.len() == 0
    }

    /// Remove every interned string and reset the id counter.
    pub fn clear(&mut self)
        ensures
            final(self)@ == Seq::<Seq<char>>::empty(),
            final(self).wf(),
    {
        self.strings = Vec::new();
        proof {
            assert(self@ =~= Seq::<Seq<char>>::empty());
        }
    }

    /// All `(id, string)` pairs, in id order.
    pub fn iter(&self) -> (r: Vec<(StringId, String)>)
        requires
            self.wf(),
        ensures
            r@.len() == self@.len(),
            forall|i: int|
                0 <= i < r@.len() ==> (#[trigger] r@[i]).0.0 == i && r@[i].1@ == self@[i],
    {
        let mut r: Vec<(StringId, String)> = Vec::new();
        let mut i: usize = 0;
        while i < self.strings.len()
            invariant
                self@.len() <= u32::MAX,
                i <= self@.len(),
                r@.len() == i,
                forall|j: int|
                    0 <= j < i ==> (#[trigger] r@[j]).0.0 == j && r@[j].1@ == self@[j],
            decreases self@.len() - i,
        {
            let s = self.strings[i].clone();
            proof {
                assert(self@[i as int] == self.strings@[i as int]@);
            }
            r.push((StringId(i as u32), s));
            i = i + 1;
        }
        r
    }
}

/// Interner round trip: the id that interning a string returns resolves
/// back to exactly that string.
pub proof fn lemma_intern_round_trip(
    old_strs: Seq<Seq<char>>,
    new_strs: Seq<Seq<char>>,
    id: int,
    s: Seq<char>,
)
    requires
        intern_post(old_strs, new_strs, id, s),
    ensures
        0 <= id < new_strs.len(),
        new_strs[id] == s,
{
}

/// Interning is idempotent: interning a string a second time changes
/// nothing and returns the same id as long as the table is duplicate-free.
pub proof fn lemma_intern_idempotent(
    strs0: Seq<Seq<char>>,
    strs1: Seq<Seq<char>>,
    id1: int,
    strs2: Seq<Seq<char>>,
    id2: int,
    s: Seq<char>,
)
    requires
        strs0.no_duplicates(),
        intern_post(strs0, strs1, id1, s),
        intern_post(strs1, strs2, id2, s),
    ensures
        strs2 == strs1,
        id2 == id1,
{
    if strs0.contains(s) {
        assert(strs1 == strs0 && strs2 == strs1);
        assert(strs1[id1] == s && strs1[id2] == s);
        if id1 != id2 {
            assert(strs1[id1] == strs1[id2]);
            assert(false);
        }
    } else {
        assert(strs1 == strs0 + seq![s]);
        assert(strs1[strs0.len() as int] == s);
        assert(strs1.contains(s));
        assert(strs1.contains(s));
        assert(strs2 == strs1);
        assert(strs1[id1] == s && strs1[id2] == s);
        assert forall|j: int| 0 <= j < strs0.len() implies strs1[j] != s by {
            assert(strs1[j] == strs0[j]);
        }
        assert(id1 == strs0.len() && id2 == strs0.len());
    }
}

} // verus!
