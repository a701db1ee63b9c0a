//! Fragments and the plain values that describe their fate: origin tags,
//! status entries, rejection reasons, and admission summaries.

use vstd::prelude::*;

verus! {

/// Number of bytes in a content-addressed fragment identifier.
pub const FRAGMENT_ID_LEN: usize = 32;

/// Content-addressed identifier of a fragment.
#[derive(Clone, Copy, Debug, PartialEq, Eq, Hash)]
pub struct FragmentId {
    pub bytes: [u8; 32],
}

impl View for FragmentId {
    type V = Seq<u8>;

    open spec fn view(&self) -> Seq<u8> {
        self.bytes@
    }
}

impl FragmentId {
    pub fn new(bytes: [u8; 32]) -> (r: FragmentId)
        ensures
            r@ == bytes@,
    {
        FragmentId { bytes }
    }

    /// Identifier equality, decided byte by byte.
    pub fn same(&self, other: &FragmentId) -> (r: bool)
        ensures
            r == (self@ == other@),
    {
        let mut i: usize = 0;
        while i < FRAGMENT_ID_LEN
            invariant
                0 <= i <= 32,
                forall|j: int| 0 <= j < i ==> self.bytes@[j] == other.bytes@[j],
            decreases 32 - i,
        {
            if self.bytes[i] != other.bytes[i] {
                assert(self@[i as int] != other@[i as int]);
                return false;
            }
            i += 1;
        }
        assert(self@ =~= other@);
        true
    }
}

/// An opaque signed byte blob together with its content-addressed identifier.
/// The core never interprets the blob; only the identifier and the byte
/// length are inspected.
#[derive(Debug)]
pub struct Fragment {
    pub id: FragmentId,
    pub data: Vec<u8>,
}

impl Fragment {
    pub fn new(id: FragmentId, data: Vec<u8>) -> (r: Fragment)
        ensures
            r.id@ == id@,
            r.data@ == data@,
    {
        Fragment { id, data }
    }

    /// A fresh copy holding the same identifier and the same bytes.
    pub fn duplicate(&self) -> (r: Fragment)
        ensures
            r.id@ == self.id@,
            r.data@ == self.data@,
    {
        let mut data: Vec<u8> = Vec::new();
        let mut i: usize = 0;
        while i < self.data.len()
            invariant
                0 <= i <= self.data@.len(),
                data@ == self.data@.subrange(0, i as int),
            decreases self.data@.len() - i,
        {
            data.push(self.data[i]);
            i += 1;
        }
        assert(data@ =~= self.data@);
        Fragment { id: self.id, data }
    }
}

/// Provenance of a fragment: received over the local REST surface or relayed
/// by a network peer.
#[derive(Clone, Copy, Debug, PartialEq, Eq, Structural)]
pub enum FragmentOrigin {
    Rest,
    Network,
}

/// Why a fragment was refused admission. Recorded in the summary and in the
/// logs index; never surfaced as a failure of the core itself.
#[derive(Clone, Copy, Debug, PartialEq, Eq, Structural)]
pub enum RejectReason {
    AlreadyInLogs,
    PoolOverflow,
    FailedSignature,
    FailedStructuralCheck,
    InvalidForLedger,
}

/// Fate of a fragment as recorded in the logs index. `Pending` means the
/// fragment sits in the pools awaiting block inclusion; the other two
/// variants are terminal.
#[derive(Clone, Copy, Debug, PartialEq, Eq, Structural)]
pub enum FragmentStatus {
    Pending,
    Rejected { reason: RejectReason },
    InABlock { date: u64, block: u64 },
}

impl FragmentStatus {
    /// Terminal statuses never change again.
    pub open spec fn is_terminal(self) -> bool {
        !(self is Pending)
    }

    /// The monotonic status transition: a pending entry may move anywhere,
    /// a terminal entry keeps its status.
    pub open spec fn step(self, next: FragmentStatus) -> FragmentStatus {
        if self is Pending {
            next
        } else {
            self
        }
    }
}

/// Status transitions are monotonic: a pending entry may move anywhere, and
/// the terminal statuses — `Rejected` and `InABlock` — never change again.
pub proof fn lemma_status_monotonic(cur: FragmentStatus, next: FragmentStatus)
    ensures
        cur is Pending ==> cur.step(next) == next,
        cur.is_terminal() ==> cur.step(next) == cur,
{
}

/// Outcome of one admission batch, in batch order: identifiers accepted into
/// the pools, and identifiers rejected with the reason for each.
#[derive(Debug)]
pub struct Summary {
    pub accepted: Vec<FragmentId>,
    pub rejected: Vec<(FragmentId, RejectReason)>,
}

impl Summary {
    pub fn new() -> (r: Summary)
        ensures
            r.accepted@.len() == 0,
            r.rejected@.len() == 0,
    {
        Summary { accepted: Vec::new(), rejected: Vec::new() }
    }
}

/// Basic structural well-formedness checked before admission: the blob is
/// non-empty and its length fits the length field of a persistent record.
pub open spec fn spec_structurally_valid(data: Seq<u8>) -> bool {
    0 < data.len() <= u32::MAX
}

impl Fragment {
    /// Decides `spec_structurally_valid` on this fragment's bytes.
    pub fn structurally_valid(&self) -> (r: bool)
        ensures
            r == spec_structurally_valid(self.data@),
    {
        0 < self.data.len() && self.data.len() <= u32::MAX as usize
    }
}

} // verus!
