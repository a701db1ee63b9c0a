//! The logs index: a bounded, insertion-ordered registry of every fragment
//! that entered the node, mapping each identifier to its current status.
//! At capacity, inserting a new identifier evicts the least-recently-inserted
//! terminal entry, or the oldest entry when none is terminal.

use vstd::prelude::*;
use crate::fragment::FragmentId;
use crate::fragment::FragmentOrigin;
use crate::fragment::FragmentStatus;

verus! {

/// One row of the logs index.
#[derive(Clone, Copy, Debug)]
pub struct LogEntry {
    pub id: FragmentId,
    pub received_at: u64,
    pub origin: FragmentOrigin,
    pub status: FragmentStatus,
}

/// `e` with its status stepped by the monotonicity rule towards `next`.
pub open spec fn spec_with_status(e: LogEntry, next: FragmentStatus) -> LogEntry {
    LogEntry { status: e.status.step(next), ..e }
}

/// Whether some entry carries the identifier.
pub open spec fn logs_contain(s: Seq<LogEntry>, id: Seq<u8>) -> bool {
    exists|i: int| 0 <= i < s.len() && s[i].id@ == id
}

/// Whether some entry carries the identifier with `Pending` status.
pub open spec fn logs_contain_pending(s: Seq<LogEntry>, id: Seq<u8>) -> bool {
    exists|i: int| 0 <= i < s.len() && s[i].id@ == id && s[i].status is Pending
}

/// No two entries share an identifier.
pub open spec fn unique_entry_ids(s: Seq<LogEntry>) -> bool {
    forall|i: int, j: int| 0 <= i < j < s.len() ==> s[i].id@ != s[j].id@
}

/// Whether some entry has a terminal status.
pub open spec fn has_terminal(s: Seq<LogEntry>) -> bool {
    exists|i: int| 0 <= i < s.len() && s[i].status.is_terminal()
}

/// The index evicted when a new identifier arrives at capacity: the first
/// terminal entry, or the oldest entry when none is terminal.
pub open spec fn is_eviction_index(s: Seq<LogEntry>, i: int) -> bool {
    &&& 0 <= i < s.len()
    &&& (forall|j: int| 0 <= j < i ==> !(#[trigger] s[j].status).is_terminal())
    &&& (s[i].status.is_terminal() || (i == 0 && !has_terminal(s)))
}

/// The position evicted from a non-empty index (see `is_eviction_index`).
pub open spec fn spec_evict_index(s: Seq<LogEntry>) -> int {
    choose|i: int| is_eviction_index(s, i)
}

/// Position of the entry carrying `id`, when one exists.
pub open spec fn logs_index_of(s: Seq<LogEntry>, id: Seq<u8>) -> int {
    choose|i: int| 0 <= i < s.len() && s[i].id@ == id
}

/// What the whole index holds after `insert`: a tracked identifier has its
/// status stepped, a new one is appended, evicting per `is_eviction_index`
/// when at capacity.
pub open spec fn spec_logs_insert(s: Seq<LogEntry>, e: LogEntry, cap: int) -> Seq<LogEntry> {
    if logs_contain(s, e.id@) {
        s.update(logs_index_of(s, e.id@), spec_with_status(s[logs_index_of(s, e.id@)], e.status))
    } else if s.len() < cap {
        s.push(e)
    } else if cap == 0 {
        s
    } else {
        s.remove(spec_evict_index(s)).push(e)
    }
}

/// The entry that `insert` evicts, if any.
pub open spec fn spec_evicted(s: Seq<LogEntry>, e: LogEntry, cap: int) -> Option<LogEntry> {
    if !logs_contain(s, e.id@) && s.len() >= cap && cap > 0 {
        Some(s[spec_evict_index(s)])
    } else {
        None
    }
}

/// What the whole index holds after `set_status`: the tracked entry has its
/// status stepped; an untracked identifier changes nothing.
pub open spec fn spec_logs_set_status(s: Seq<LogEntry>, id: Seq<u8>, status: FragmentStatus) -> Seq<LogEntry> {
    if logs_contain(s, id) {
        s.update(logs_index_of(s, id), spec_with_status(s[logs_index_of(s, id)], status))
    } else {
        s
    }
}

/// Under unique identifiers, `logs_index_of` is the one position holding `id`.
pub proof fn lemma_logs_index_of(s: Seq<LogEntry>, id: Seq<u8>, j: int)
    requires
        unique_entry_ids(s),
        0 <= j < s.len(),
        s[j].id@ == id,
    ensures
        logs_index_of(s, id) == j,
{
    let i = logs_index_of(s, id);
    assert(0 <= i < s.len() && s[i].id@ == id);
    if i < j {
        assert(s[i].id@ != s[j].id@);
    } else if j < i {
        assert(s[j].id@ != s[i].id@);
    }
}

/// A terminal entry somewhere means a first terminal entry somewhere.
proof fn lemma_first_terminal_exists(s: Seq<LogEntry>, w: int)
    requires
        0 <= w < s.len(),
        s[w].status.is_terminal(),
    ensures
        exists|i: int| is_eviction_index(s, i),
    decreases w,
{
    if forall|j: int| 0 <= j < w ==> !(#[trigger] s[j].status).is_terminal() {
        assert(is_eviction_index(s, w));
    } else {
        let j = choose|j: int| 0 <= j < w && (#[trigger] s[j].status).is_terminal();
        lemma_first_terminal_exists(s, j);
    }
}

/// A non-empty index has its eviction index.
pub proof fn lemma_eviction_index_valid(s: Seq<LogEntry>)
    requires
        s.len() > 0,
    ensures
        is_eviction_index(s, spec_evict_index(s)),
{
    if has_terminal(s) {
        let w = choose|i: int| 0 <= i < s.len() && (#[trigger] s[i].status).is_terminal();
        lemma_first_terminal_exists(s, w);
    } else {
        assert(is_eviction_index(s, 0));
    }
}

/// At most one index satisfies `is_eviction_index`.
pub proof fn lemma_eviction_index_unique(s: Seq<LogEntry>, i: int, j: int)
    requires
        is_eviction_index(s, i),
        is_eviction_index(s, j),
    ensures
        i == j,
{
    if i < j {
        assert(!s[i].status.is_terminal());
        assert(i == 0 && !has_terminal(s));
        assert(!s[j].status.is_terminal());
    } else if j < i {
        assert(!s[j].status.is_terminal());
        assert(j == 0 && !has_terminal(s));
        assert(!s[i].status.is_terminal());
    }
}

/// Bounded, insertion-ordered map from fragment identifier to log entry.
pub struct Logs {
    pub entries: Vec<LogEntry>,
    pub cap: usize,
}

impl Logs {
    /// Identifiers are unique and the capacity is respected.
    pub open spec fn wf(&self) -> bool {
        &&& unique_entry_ids(self.entries@)
        &&& self.entries@.len() <= self.cap
    }

    pub fn new(cap: usize) -> (r: Logs)
        ensures
            r.wf(),
            r.cap == cap,
            r.entries@.len() == 0,
    {
        Logs { entries: Vec::new(), cap }
    }

    pub fn len(&self) -> (r: usize)
        ensures
            r == self.entries@.len(),
    {
        self.entries.len()
    }

    /// Position of the entry carrying `id`, if any.
    pub fn find(&self, id: &FragmentId) -> (r: Option<usize>)
        ensures
            match r {
                Some(i) => i < self.entries@.len() && self.entries@[i as int].id@ == id@,
                None => !logs_contain(self.entries@, id@),
            },
    {
        let mut i: usize = 0;
        while i < self.entries.len()
            invariant
                0 <= i <= self.entries@.len(),
                forall|j: int| 0 <= j < i ==> (#[trigger] self.entries@[j].id@) != id@,
            decreases self.entries@.len() - i,
        {
            if self.entries[i].id.same(id) {
                return Some(i);
            }
            i += 1;
        }
        None
    }

    /// Whether the identifier is tracked; admission deduplicates on this.
    pub fn exists_id(&self, id: &FragmentId) -> (r: bool)
        ensures
            r == logs_contain(self.entries@, id@),
    {
        self.find(id).is_some()
    }

    /// Position of the first terminal entry, if any.
    fn find_terminal(&self) -> (r: Option<usize>)
        ensures
            match r {
                Some(i) => {
                    &&& i < self.entries@.len()
                    &&& self.entries@[i as int].status.is_terminal()
                    &&& forall|j: int| 0 <= j < i
                        ==> !(#[trigger] self.entries@[j].status).is_terminal()
                },
                None => !has_terminal(self.entries@),
            },
    {
        let mut i: usize = 0;
        while i < self.entries.len()
            invariant
                0 <= i <= self.entries@.len(),
                forall|j: int| 0 <= j < i ==> !(#[trigger] self.entries@[j].status).is_terminal(),
            decreases self.entries@.len() - i,
        {
            let terminal = match self.entries[i].status {
                FragmentStatus::Pending => false,
                _ => true,
            };
            if terminal {
                return Some(i);
            }
            i += 1;
        }
        None
    }

    /// Adds or refreshes an entry. A tracked identifier only has its status
    /// stepped by the monotonicity rule; a new identifier is appended, after
    /// evicting one entry when the index is at capacity. The evicted entry,
    /// if any, is returned so the pools can let go of an evicted pending
    /// fragment.
    pub fn insert(&mut self, e: LogEntry) -> (evicted: Option<LogEntry>)
        requires
            old(self).wf(),
        ensures
            final(self).wf(),
            final(self).cap == old(self).cap,
            final(self).entries@ == spec_logs_insert(old(self).entries@, e, old(self).cap as int),
            evicted == spec_evicted(old(self).entries@, e, old(self).cap as int),
    {
        match self.find(&e.id) {
            Some(i) => {
                let cur = self.entries[i];
                let stepped = match cur.status {
                    FragmentStatus::Pending => LogEntry { status: e.status, ..cur },
                    _ => cur,
                };
                self.entries[i] = stepped;
                proof {
                    lemma_logs_index_of(old(self).entries@, e.id@, i as int);
                    assert(stepped == spec_with_status(old(self).entries@[i as int], e.status));
                }
                None
            },
            None => {
                if self.cap == 0 {
                    assert(self.entries@ =~= old(self).entries@);
                    return None;
                }
                if self.entries.len() < self.cap {
                    self.entries.push(e);
                    return None;
                }
                let victim_idx = match self.find_terminal() {
                    Some(i) => i,
                    None => 0,
                };
                proof {
                    assert(is_eviction_index(self.entries@, victim_idx as int));
                    lemma_eviction_index_valid(self.entries@);
                    lemma_eviction_index_unique(
                        self.entries@,
                        spec_evict_index(self.entries@),
                        victim_idx as int,
                    );
                }
                let victim = self.entries.remove(victim_idx);
                self.entries.push(e);
                proof {
                    let o = old(self).entries@;
                    let f = self.entries@;
                    assert forall|i: int, j: int| 0 <= i < j < f.len() implies f[i].id@ != f[j].id@ by {
                        if j < f.len() - 1 {
                            let oi = if i < victim_idx { i } else { i + 1 };
                            let oj = if j < victim_idx { j } else { j + 1 };
                            assert(f[i] == o[oi] && f[j] == o[oj]);
                        } else {
                            assert(f[j] == e);
                            let oi = if i < victim_idx { i } else { i + 1 };
                            assert(f[i] == o[oi]);
                            assert(!logs_contain(o, e.id@));
                        }
                    }
                }
                Some(victim)
            },
        }
    }

    /// Replaces the status of a tracked identifier under the monotonicity
    /// rule: terminal statuses never regress. Identifiers not tracked are
    /// left alone.
    pub fn set_status(&mut self, id: &FragmentId, status: FragmentStatus)
        requires
            old(self).wf(),
        ensures
            final(self).wf(),
            final(self).cap == old(self).cap,
            final(self).entries@ == spec_logs_set_status(old(self).entries@, id@, status),
    {
        match self.find(id) {
            Some(i) => {
                let cur = self.entries[i];
                let stepped = match cur.status {
                    FragmentStatus::Pending => LogEntry { status, ..cur },
                    _ => cur,
                };
                self.entries[i] = stepped;
                proof {
                    lemma_logs_index_of(old(self).entries@, id@, i as int);
                    assert(stepped == spec_with_status(old(self).entries@[i as int], status));
                }
            },
            None => {},
        }
    }

    /// A copy of every entry, in insertion order.
    pub fn snapshot_all(&self) -> (r: Vec<LogEntry>)
        ensures
            r@ == self.entries@,
    {
        let mut out: Vec<LogEntry> = Vec::new();
        let mut i: usize = 0;
        while i < self.entries.len()
            invariant
                0 <= i <= self.entries@.len(),
                out@ == self.entries@.subrange(0, i as int),
            decreases self.entries@.len() - i,
        {
            out.push(self.entries[i]);
            i += 1;
        }
        assert(out@ =~= self.entries@);
        out
    }

    /// The entries for the identifiers that are tracked, in the order the
    /// identifiers were asked for.
    pub fn query_by_ids(&self, ids: &Vec<FragmentId>) -> (r: Vec<LogEntry>)
        requires
            self.wf(),
        ensures
            r@ == spec_query(self.entries@, ids@),
    {
        let mut out: Vec<LogEntry> = Vec::new();
        let mut i: usize = 0;
        while i < ids.len()
            invariant
                0 <= i <= ids@.len(),
                self.wf(),
                out@ == spec_query(self.entries@, ids@.subrange(0, i as int)),
            decreases ids@.len() - i,
        {
            let ghost prefix = ids@.subrange(0, i as int);
            let ghost next_prefix = ids@.subrange(0, i + 1);
            match self.find(&ids[i]) {
                Some(j) => {
                    proof {
                        lemma_entry_for_unique(self.entries@, ids@[i as int]@, j as int);
                    }
                    out.push(self.entries[j]);
                },
                None => {},
            }
            proof {
                assert(next_prefix.drop_last() =~= prefix);
                assert(next_prefix.last() == ids@[i as int]);
            }
            i += 1;
        }
        assert(ids@.subrange(0, ids@.len() as int) =~= ids@);
        out
    }
}

/// The entry carrying `id`, when one exists.
pub open spec fn entry_for(s: Seq<LogEntry>, id: Seq<u8>) -> LogEntry {
    s[choose|i: int| 0 <= i < s.len() && s[i].id@ == id]
}

/// Under unique identifiers, any position holding `id` holds `entry_for`.
pub proof fn lemma_entry_for_unique(s: Seq<LogEntry>, id: Seq<u8>, j: int)
    requires
        unique_entry_ids(s),
        0 <= j < s.len(),
        s[j].id@ == id,
    ensures
        entry_for(s, id) == s[j],
{
    let i = choose|i: int| 0 <= i < s.len() && s[i].id@ == id;
    assert(0 <= i < s.len() && s[i].id@ == id);
    if i != j {
        if i < j {
            assert(s[i].id@ != s[j].id@);
        } else {
            assert(s[j].id@ != s[i].id@);
        }
    }
}

/// The entries answering a status query: for each requested identifier in
/// order, the entry tracking it, when one does.
pub open spec fn spec_query(s: Seq<LogEntry>, ids: Seq<FragmentId>) -> Seq<LogEntry>
    decreases ids.len(),
{
    if ids.len() == 0 {
        Seq::empty()
    } else {
        spec_query(s, ids.drop_last()) + (if logs_contain(s, ids.last()@) {
            seq![entry_for(s, ids.last()@)]
        } else {
            Seq::empty()
        })
    }
}

} // verus!
