//! A single mempool shard: a bounded, insertion-ordered holding area for
//! admitted fragments awaiting block inclusion.

use vstd::prelude::*;
use crate::fragment::Fragment;
use crate::fragment::FragmentId;

verus! {

/// Whether some fragment in the sequence carries the identifier.
pub open spec fn pool_contains(s: Seq<Fragment>, id: Seq<u8>) -> bool {
    exists|i: int| 0 <= i < s.len() && s[i].id@ == id
}

/// No two fragments share an identifier.
pub open spec fn unique_fragment_ids(s: Seq<Fragment>) -> bool {
    forall|i: int, j: int| 0 <= i < j < s.len() ==> s[i].id@ != s[j].id@
}

/// Position of the fragment carrying `id`, when one is there.
pub open spec fn pool_index_of(s: Seq<Fragment>, id: Seq<u8>) -> int {
    choose|i: int| 0 <= i < s.len() && s[i].id@ == id
}

/// What a pool holds after the fragment carrying `id` leaves; a pool not
/// holding it is unchanged.
pub open spec fn spec_drop_id(s: Seq<Fragment>, id: Seq<u8>) -> Seq<Fragment> {
    if pool_contains(s, id) {
        s.remove(pool_index_of(s, id))
    } else {
        s
    }
}

/// Under unique identifiers, `pool_index_of` is the one position holding `id`.
pub proof fn lemma_pool_index_of(s: Seq<Fragment>, id: Seq<u8>, j: int)
    requires
        unique_fragment_ids(s),
        0 <= j < s.len(),
        s[j].id@ == id,
    ensures
        pool_index_of(s, id) == j,
{
    let i = pool_index_of(s, id);
    assert(0 <= i < s.len() && s[i].id@ == id);
    if i < j {
        assert(s[i].id@ != s[j].id@);
    } else if j < i {
        assert(s[j].id@ != s[i].id@);
    }
}

/// One bounded FIFO of admitted fragments.
pub struct Pool {
    pub entries: Vec<Fragment>,
    pub cap: usize,
}

impl Pool {
    /// Identifiers are unique and the capacity is respected.
    pub open spec fn wf(&self) -> bool {
        &&& unique_fragment_ids(self.entries@)
        &&& self.entries@.len() <= self.cap
    }

    pub fn new(cap: usize) -> (r: Pool)
        ensures
            r.wf(),
            r.cap == cap,
            r.entries@.len() == 0,
    {
        Pool { entries: Vec::new(), cap }
    }

    pub fn len(&self) -> (r: usize)
        ensures
            r == self.entries@.len(),
    {
        self.entries.len()
    }

    /// Whether another fragment still fits.
    pub fn is_full(&self) -> (r: bool)
        ensures
            r == (self.entries@.len() >= self.cap),
    {
        self.entries.len() >= self.cap
    }

    /// Position of the fragment carrying `id`, if any.
    pub fn find(&self, id: &FragmentId) -> (r: Option<usize>)
        ensures
            match r {
                Some(i) => i < self.entries@.len() && self.entries@[i as int].id@ == id@,
                None => !pool_contains(self.entries@, id@),
            },
    {
        let mut i: usize = 0;
        while i < self.entries.len()
            invariant
                0 <= i <= self.entries@.len(),
                forall|j: int| 0 <= j < i ==> (#[trigger] self.entries@[j].id@) != id@,
            decreases self.entries@.len() - i,
        {
            if self.entries[i].id.same(id) {
                return Some(i);
            }
            i += 1;
        }
        None
    }

    /// Whether the identifier sits in this pool.
    pub fn contains_id(&self, id: &FragmentId) -> (r: bool)
        ensures
            r == pool_contains(self.entries@, id@),
    {
        self.find(id).is_some()
    }

    /// Appends a fragment already admitted by the shared dedup and capacity
    /// checks.
    pub fn push_admitted(&mut self, f: Fragment)
        requires
            old(self).wf(),
            !pool_contains(old(self).entries@, f.id@),
            old(self).entries@.len() < old(self).cap,
        ensures
            final(self).wf(),
            final(self).cap == old(self).cap,
            final(self).entries@ == old(self).entries@.push(f),
    {
        self.entries.push(f);
    }

    /// Removes the fragment carrying `id`, keeping the order of the rest;
    /// a pool not holding it is left alone.
    pub fn remove_id(&mut self, id: &FragmentId) -> (removed: bool)
        requires
            old(self).wf(),
        ensures
            final(self).wf(),
            final(self).cap == old(self).cap,
            removed == pool_contains(old(self).entries@, id@),
            final(self).entries@ == spec_drop_id(old(self).entries@, id@),
    {
        match self.find(id) {
            Some(i) => {
                proof {
                    lemma_pool_index_of(old(self).entries@, id@, i as int);
                }
                self.entries.remove(i);
                proof {
                    let o = old(self).entries@;
                    let f = self.entries@;
                    assert forall|a: int, b: int| 0 <= a < b < f.len() implies f[a].id@ != f[b].id@ by {
                        let oa = if a < i { a } else { a + 1 };
                        let ob = if b < i { b } else { b + 1 };
                        assert(f[a] == o[oa] && f[b] == o[ob]);
                    }
                }
                true
            },
            None => false,
        }
    }

    /// A reference to the fragment at a position, in insertion order.
    pub fn get(&self, i: usize) -> (r: &Fragment)
        requires
            i < self.entries@.len(),
        ensures
            *r == self.entries@[i as int],
    {
        &self.entries[i]
    }
}

} // verus!
