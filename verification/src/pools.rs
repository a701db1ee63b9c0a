//! The multi-pool admission controller: `n_pools` independent mempool shards
//! sharing one logs index, one propagation sink, and the optional persistent
//! log. Every shard carries every admitted fragment, so any block candidate
//! can draw from any shard; deduplication and status live in the shared logs.

use vstd::prelude::*;
use crate::fragment::Fragment;
use crate::fragment::FragmentId;
use crate::fragment::FragmentOrigin;
use crate::fragment::FragmentStatus;
use crate::fragment::RejectReason;
use crate::fragment::Summary;
use crate::fragment::spec_structurally_valid;
use crate::logs::LogEntry;
use crate::logs::Logs;
use crate::logs::logs_contain;
use crate::logs::logs_contain_pending;
use crate::logs::spec_logs_insert;
use crate::logs::spec_logs_set_status;
use crate::logs::spec_evicted;
use crate::logs::spec_evict_index;
use crate::logs::logs_index_of;
use crate::logs::is_eviction_index;
use crate::logs::lemma_eviction_index_valid;
use crate::pool::Pool;
use crate::pool::pool_contains;
use crate::pool::pool_index_of;
use crate::pool::spec_drop_id;
use crate::pool::unique_fragment_ids;
use crate::persist::PersistentLog;
use crate::sink::NetworkMsg;
use crate::sink::PropagationSink;

verus! {

/// A pool-level failure: not a per-fragment rejection but a misuse of the
/// component itself.
#[derive(Clone, Copy, Debug, PartialEq, Eq, Structural)]
pub enum PoolError {
    /// The controller was asked for zero pools.
    NoPools,
}

/// Two shards hold the same fragments, position by position.
pub open spec fn mirrored(a: Seq<Fragment>, b: Seq<Fragment>) -> bool {
    &&& a.len() == b.len()
    &&& forall|k: int| 0 <= k < a.len()
        ==> (#[trigger] a[k]).id@ == b[k].id@ && a[k].data@ == b[k].data@
}

/// Every pooled fragment is tracked as `Pending` in the logs index.
pub open spec fn covered_by_logs(pool: Seq<Fragment>, logs: Seq<LogEntry>) -> bool {
    forall|k: int| 0 <= k < pool.len()
        ==> logs_contain_pending(logs, (#[trigger] pool[k]).id@)
}

/// A shard after the entry evicted from the logs let go of its fragment: an
/// evicted pending identifier leaves the pools too; a terminal one was not
/// pooled.
pub open spec fn spec_pool_after_evict(p: Seq<Fragment>, ev: Option<LogEntry>) -> Seq<Fragment> {
    match ev {
        Some(v) => if !v.status.is_terminal() {
            spec_drop_id(p, v.id@)
        } else {
            p
        },
        None => p,
    }
}

/// `q` is `p` with a fresh copy of `f` appended.
pub open spec fn pushed_copy(p: Seq<Fragment>, q: Seq<Fragment>, f: Fragment) -> bool {
    &&& q.len() == p.len() + 1
    &&& q.subrange(0, p.len() as int) == p
    &&& q.last().id@ == f.id@
    &&& q.last().data@ == f.data@
}

/// `q` is `p` with a propagation message for `f` appended.
pub open spec fn queue_pushed(p: Seq<NetworkMsg>, q: Seq<NetworkMsg>, f: Fragment, origin: FragmentOrigin) -> bool {
    &&& q.len() == p.len() + 1
    &&& q.subrange(0, p.len() as int) == p
    &&& q.last().id@ == f.id@
    &&& q.last().data@ == f.data@
    &&& q.last().origin == origin
}

/// The log entry recorded for a fragment at admission time.
pub open spec fn spec_log_entry(id: FragmentId, received_at: u64, origin: FragmentOrigin, status: FragmentStatus) -> LogEntry {
    LogEntry { id, received_at, origin, status }
}

/// Dropping one identifier keeps two shards mirrored.
proof fn lemma_drop_id_mirrored(a: Seq<Fragment>, b: Seq<Fragment>, id: Seq<u8>)
    requires
        mirrored(a, b),
        unique_fragment_ids(a),
        unique_fragment_ids(b),
    ensures
        mirrored(spec_drop_id(a, id), spec_drop_id(b, id)),
{
    if pool_contains(a, id) {
        let i = pool_index_of(a, id);
        assert(0 <= i < a.len() && a[i].id@ == id);
        assert(b[i].id@ == id);
        assert(pool_contains(b, id));
        crate::pool::lemma_pool_index_of(b, id, i);
        assert forall|k: int| 0 <= k < a.remove(i).len()
            implies (#[trigger] a.remove(i)[k]).id@ == b.remove(i)[k].id@
                && a.remove(i)[k].data@ == b.remove(i)[k].data@ by {
            if k < i {
                assert(a.remove(i)[k] == a[k] && b.remove(i)[k] == b[k]);
            } else {
                assert(a.remove(i)[k] == a[k + 1] && b.remove(i)[k] == b[k + 1]);
            }
        }
    } else {
        if pool_contains(b, id) {
            let k = choose|k: int| 0 <= k < b.len() && b[k].id@ == id;
            assert(a[k].id@ == id);
        }
    }
}

/// Admission keeps every pooled fragment covered by a `Pending` entry: the
/// inserted entry may evict one other entry, and when that one was pending
/// the pools let its fragment go as well.
proof fn lemma_covered_after_insert(pool: Seq<Fragment>, logs: Seq<LogEntry>, e: LogEntry, cap: int)
    requires
        covered_by_logs(pool, logs),
        unique_fragment_ids(pool),
        !logs_contain(logs, e.id@),
        cap >= 0,
    ensures
        covered_by_logs(
            spec_pool_after_evict(pool, spec_evicted(logs, e, cap)),
            spec_logs_insert(logs, e, cap),
        ),
{
    let ev = spec_evicted(logs, e, cap);
    let logs2 = spec_logs_insert(logs, e, cap);
    let pool2 = spec_pool_after_evict(pool, ev);
    if logs.len() < cap {
        assert forall|k: int| 0 <= k < pool2.len()
            implies logs_contain_pending(logs2, (#[trigger] pool2[k]).id@) by {
            assert(logs_contain_pending(logs, pool[k].id@));
            let j = choose|j: int| 0 <= j < logs.len() && logs[j].id@ == pool[k].id@
                && logs[j].status is Pending;
            assert(logs2[j] == logs[j]);
        }
    } else if cap == 0 {
    } else {
        lemma_eviction_index_valid(logs);
        let i = spec_evict_index(logs);
        let v = logs[i];
        assert(logs2 == logs.remove(i).push(e));
        logs.remove_ensures(i);
        assert forall|k: int| 0 <= k < pool2.len()
            implies logs_contain_pending(logs2, (#[trigger] pool2[k]).id@) by {
            let x = pool2[k];
            // `x` sits in the original pool, and when a pending entry was
            // evicted its fragment is not `x`.
            if !v.status.is_terminal() && pool_contains(pool, v.id@) {
                let pi = pool_index_of(pool, v.id@);
                assert(0 <= pi < pool.len() && pool[pi].id@ == v.id@);
                pool.remove_ensures(pi);
                assert(pool2 == pool.remove(pi));
                let k0 = if k < pi { k } else { k + 1 };
                assert(x == pool[k0]);
                assert(x.id@ != v.id@);
                assert(logs_contain_pending(logs, x.id@));
            } else {
                assert(pool2 =~= pool);
                assert(logs_contain_pending(logs, x.id@));
                if !v.status.is_terminal() {
                    if x.id@ == v.id@ {
                        assert(pool_contains(pool, v.id@));
                    }
                }
            }
            let j = choose|j: int| 0 <= j < logs.len() && logs[j].id@ == x.id@
                && logs[j].status is Pending;
            if v.status.is_terminal() {
                assert(j != i);
            } else {
                assert(logs[i].id@ == v.id@ && x.id@ != v.id@);
                assert(j != i);
            }
            let j2 = if j < i { j } else { j - 1 };
            assert(logs2[j2] == logs.remove(i)[j2]);
            assert(logs.remove(i)[j2] == logs[j]);
            assert(logs2[j2].id@ == x.id@ && logs2[j2].status is Pending);
        }
    }
}

/// A shard after the fragments carrying `ids` left, one after the other.
pub open spec fn spec_drop_ids(pool: Seq<Fragment>, ids: Seq<FragmentId>) -> Seq<Fragment>
    decreases ids.len(),
{
    if ids.len() == 0 {
        pool
    } else {
        spec_drop_id(spec_drop_ids(pool, ids.drop_last()), ids.last()@)
    }
}

/// The logs index after the entries carrying `ids` were stepped to `status`,
/// one after the other.
pub open spec fn spec_set_statuses(logs: Seq<LogEntry>, ids: Seq<FragmentId>, status: FragmentStatus) -> Seq<LogEntry>
    decreases ids.len(),
{
    if ids.len() == 0 {
        logs
    } else {
        spec_logs_set_status(spec_set_statuses(logs, ids.drop_last(), status), ids.last()@, status)
    }
}

/// Dropping an identifier from a duplicate-free shard leaves no copy of it.
proof fn lemma_drop_id_removes(pool: Seq<Fragment>, id: Seq<u8>)
    requires
        unique_fragment_ids(pool),
    ensures
        !pool_contains(spec_drop_id(pool, id), id),
        unique_fragment_ids(spec_drop_id(pool, id)),
{
    if pool_contains(pool, id) {
        let i = pool_index_of(pool, id);
        assert(0 <= i < pool.len() && pool[i].id@ == id);
        pool.remove_ensures(i);
        let p2 = pool.remove(i);
        assert forall|a: int, b: int| 0 <= a < b < p2.len()
            implies (#[trigger] p2[a]).id@ != (#[trigger] p2[b]).id@ by {
            let a0 = if a < i { a } else { a + 1 };
            let b0 = if b < i { b } else { b + 1 };
            assert(p2[a] == pool[a0] && p2[b] == pool[b0]);
        }
        if pool_contains(p2, id) {
            let w = choose|w: int| 0 <= w < p2.len() && p2[w].id@ == id;
            let w0 = if w < i { w } else { w + 1 };
            assert(pool[w0].id@ == id && w0 != i);
            assert(pool[w0].id@ != pool[i].id@);
        }
    }
}

/// Letting a shard go of one fragment keeps it covered.
proof fn lemma_covered_after_drop(pool: Seq<Fragment>, logs: Seq<LogEntry>, id: Seq<u8>)
    requires
        covered_by_logs(pool, logs),
    ensures
        covered_by_logs(spec_drop_id(pool, id), logs),
{
    if pool_contains(pool, id) {
        let i = pool_index_of(pool, id);
        assert(0 <= i < pool.len() && pool[i].id@ == id);
        pool.remove_ensures(i);
        let p2 = spec_drop_id(pool, id);
        assert forall|k: int| 0 <= k < p2.len()
            implies logs_contain_pending(logs, (#[trigger] p2[k]).id@) by {
            let k0 = if k < i { k } else { k + 1 };
            assert(p2[k] == pool[k0]);
        }
    }
}

/// Stepping the status of an identifier that no pooled fragment carries
/// keeps the pools covered.
proof fn lemma_covered_after_set_status(pool: Seq<Fragment>, logs: Seq<LogEntry>, id: Seq<u8>, status: FragmentStatus)
    requires
        covered_by_logs(pool, logs),
        !pool_contains(pool, id),
    ensures
        covered_by_logs(pool, spec_logs_set_status(logs, id, status)),
{
    let logs2 = spec_logs_set_status(logs, id, status);
    if logs_contain(logs, id) {
        let m = logs_index_of(logs, id);
        assert(0 <= m < logs.len() && logs[m].id@ == id);
        assert forall|k: int| 0 <= k < pool.len()
            implies logs_contain_pending(logs2, (#[trigger] pool[k]).id@) by {
            assert(logs_contain_pending(logs, pool[k].id@));
            let j = choose|j: int| 0 <= j < logs.len() && logs[j].id@ == pool[k].id@
                && logs[j].status is Pending;
            assert(pool[k].id@ != id);
            assert(j != m);
            assert(logs2[j] == logs[j]);
        }
    }
}

/// How the controller changes when a fragment is refused with `reason`
/// (other than `AlreadyInLogs`, which changes nothing): the rejection is
/// recorded in the logs index, possibly evicting one entry, and an evicted
/// pending fragment leaves the shards; nothing is propagated or persisted.
pub open spec fn rejected_transition(
    a: Pools,
    b: Pools,
    f: Fragment,
    now_secs: u64,
    origin: FragmentOrigin,
    reason: RejectReason,
) -> bool {
    let e = spec_log_entry(f.id, now_secs, origin, FragmentStatus::Rejected { reason });
    let ev = spec_evicted(a.logs.entries@, e, a.logs.cap as int);
    &&& b.logs.entries@ == spec_logs_insert(a.logs.entries@, e, a.logs.cap as int)
    &&& b.pools@.len() == a.pools@.len()
    &&& forall|k: int| 0 <= k < a.pools@.len()
        ==> (#[trigger] b.pools@[k]).entries@ == spec_pool_after_evict(a.pools@[k].entries@, ev)
    &&& b.sink.queue@ == a.sink.queue@
    &&& b.persistent == a.persistent
}

/// How the controller changes when a fragment is admitted: a pending entry
/// enters the logs index (possibly evicting one entry, whose pending
/// fragment then leaves the shards), a copy of the fragment enters every
/// shard, one record goes to the open persistent log, and one propagation
/// message is sent unless the sink is full.
pub open spec fn accepted_transition(
    a: Pools,
    b: Pools,
    f: Fragment,
    now_secs: u64,
    origin: FragmentOrigin,
) -> bool {
    let e = spec_log_entry(f.id, now_secs, origin, FragmentStatus::Pending);
    let ev = spec_evicted(a.logs.entries@, e, a.logs.cap as int);
    &&& b.logs.entries@ == spec_logs_insert(a.logs.entries@, e, a.logs.cap as int)
    &&& logs_contain_pending(b.logs.entries@, f.id@)
    &&& b.pools@.len() == a.pools@.len()
    &&& forall|k: int| 0 <= k < a.pools@.len()
        ==> pushed_copy(
            spec_pool_after_evict(a.pools@[k].entries@, ev),
            (#[trigger] b.pools@[k]).entries@,
            f,
        )
    &&& match a.persistent {
        None => b.persistent is None,
        Some(pl) => b.persistent matches Some(pl2) && pl2.hour == pl.hour
            && pl2.written@ == pl.written@
                + crate::persist::spec_record_bytes(now_secs, origin, f.data@),
    }
    &&& if a.sink.queue@.len() < a.sink.cap {
        queue_pushed(a.sink.queue@, b.sink.queue@, f, origin)
    } else {
        b.sink.queue@ == a.sink.queue@
    }
}

/// What the selection algorithm, an external collaborator, decided about one
/// pooled fragment it was shown, in insertion order: take it into the block,
/// pass over it, refuse it as permanently invalid for the ledger, or declare
/// the block full and stop.
#[derive(Clone, Copy, Debug, PartialEq, Eq, Structural)]
pub enum FragmentVerdict {
    Selected,
    Skipped,
    Invalid,
    Full,
}

/// The fragments picked for a block candidate, in pool order.
#[derive(Debug)]
pub struct BlockContents {
    pub fragments: Vec<Fragment>,
}

/// The fragments selected among the first `n` the algorithm was shown.
pub open spec fn spec_selected(pool: Seq<Fragment>, verdicts: Seq<FragmentVerdict>, n: int) -> Seq<Fragment>
    decreases n,
{
    if n <= 0 {
        Seq::empty()
    } else {
        spec_selected(pool, verdicts, n - 1) + (if verdicts[n - 1] is Selected {
            seq![pool[n - 1]]
        } else {
            Seq::empty()
        })
    }
}

/// The identifiers refused as invalid for the ledger among the first `n`.
pub open spec fn spec_invalidated(pool: Seq<Fragment>, verdicts: Seq<FragmentVerdict>, n: int) -> Seq<FragmentId>
    decreases n,
{
    if n <= 0 {
        Seq::empty()
    } else {
        spec_invalidated(pool, verdicts, n - 1) + (if verdicts[n - 1] is Invalid {
            seq![pool[n - 1].id]
        } else {
            Seq::empty()
        })
    }
}

/// Every selected fragment is a pooled one whose verdict was `Selected`.
proof fn lemma_selected_member(pool: Seq<Fragment>, verdicts: Seq<FragmentVerdict>, n: int, a: int)
    requires
        0 <= n <= pool.len(),
        n <= verdicts.len(),
        0 <= a < spec_selected(pool, verdicts, n).len(),
    ensures
        exists|i: int| 0 <= i < n && verdicts[i] is Selected
            && spec_selected(pool, verdicts, n)[a] == pool[i],
    decreases n,
{
    let s = spec_selected(pool, verdicts, n);
    let prev = spec_selected(pool, verdicts, n - 1);
    if a < prev.len() {
        lemma_selected_member(pool, verdicts, n - 1, a);
        let i = choose|i: int| 0 <= i < n - 1 && verdicts[i] is Selected && prev[a] == pool[i];
        assert(s[a] == prev[a]);
        assert(0 <= i < n && verdicts[i] is Selected && s[a] == pool[i]);
    } else {
        assert(verdicts[n - 1] is Selected && s[a] == pool[n - 1]);
    }
}

/// Every invalidated identifier sits in the pool under an `Invalid` verdict.
proof fn lemma_invalidated_member(pool: Seq<Fragment>, verdicts: Seq<FragmentVerdict>, n: int, b: int)
    requires
        0 <= n <= pool.len(),
        n <= verdicts.len(),
        0 <= b < spec_invalidated(pool, verdicts, n).len(),
    ensures
        exists|i: int| 0 <= i < n && verdicts[i] is Invalid
            && spec_invalidated(pool, verdicts, n)[b] == pool[i].id,
    decreases n,
{
    let s = spec_invalidated(pool, verdicts, n);
    let prev = spec_invalidated(pool, verdicts, n - 1);
    if b < prev.len() {
        lemma_invalidated_member(pool, verdicts, n - 1, b);
        let i = choose|i: int| 0 <= i < n - 1 && verdicts[i] is Invalid && prev[b] == pool[i].id;
        assert(s[b] == prev[b]);
        assert(0 <= i < n && verdicts[i] is Invalid && s[b] == pool[i].id);
    } else {
        assert(verdicts[n - 1] is Invalid && s[b] == pool[n - 1].id);
    }
}

/// Dropping identifiers other than `id` keeps `id`'s fragment pooled.
proof fn lemma_drop_ids_keeps(pool: Seq<Fragment>, ids: Seq<FragmentId>, id: Seq<u8>)
    requires
        pool_contains(pool, id),
        unique_fragment_ids(pool),
        forall|b: int| 0 <= b < ids.len() ==> (#[trigger] ids[b])@ != id,
    ensures
        pool_contains(spec_drop_ids(pool, ids), id),
        unique_fragment_ids(spec_drop_ids(pool, ids)),
    decreases ids.len(),
{
    if ids.len() > 0 {
        lemma_drop_ids_keeps(pool, ids.drop_last(), id);
        let mid = spec_drop_ids(pool, ids.drop_last());
        let last = ids.last()@;
        lemma_drop_id_removes(mid, last);
        if pool_contains(mid, last) {
            let i = pool_index_of(mid, last);
            mid.remove_ensures(i);
            let w = choose|w: int| 0 <= w < mid.len() && mid[w].id@ == id;
            assert(last != id);
            assert(w != i);
            let w2 = if w < i { w } else { w - 1 };
            assert(mid.remove(i)[w2] == mid[w]);
            assert(pool_contains(spec_drop_id(mid, last), id));
        }
    }
}

/// Selection never removes what it selected: every fragment picked for the
/// block candidate is still pooled after the invalid-for-ledger fragments
/// left the shards.
pub proof fn lemma_select_monotonic(pool: Seq<Fragment>, verdicts: Seq<FragmentVerdict>, n: int, a: int)
    requires
        unique_fragment_ids(pool),
        0 <= n <= pool.len(),
        n <= verdicts.len(),
        0 <= a < spec_selected(pool, verdicts, n).len(),
    ensures
        pool_contains(
            spec_drop_ids(pool, spec_invalidated(pool, verdicts, n)),
            spec_selected(pool, verdicts, n)[a].id@,
        ),
{
    lemma_selected_member(pool, verdicts, n, a);
    let i = choose|i: int| 0 <= i < n && verdicts[i] is Selected
        && spec_selected(pool, verdicts, n)[a] == pool[i];
    let invalid = spec_invalidated(pool, verdicts, n);
    assert forall|b: int| 0 <= b < invalid.len()
        implies (#[trigger] invalid[b])@ != pool[i].id@ by {
        lemma_invalidated_member(pool, verdicts, n, b);
        let w = choose|w: int| 0 <= w < n && verdicts[w] is Invalid && invalid[b] == pool[w].id;
        assert(w != i);
    }
    assert(pool_contains(pool, pool[i].id@));
    lemma_drop_ids_keeps(pool, invalid, pool[i].id@);
}

/// At any time, every shard holds at most `pool_max_entries` fragments and
/// the logs index holds at most its effective capacity of entries.
pub proof fn lemma_capacities_bounded(p: Pools)
    requires
        p.wf(),
    ensures
        forall|k: int| 0 <= k < p.pools@.len()
            ==> (#[trigger] p.pools@[k]).entries@.len() <= p.pools@[k].cap,
        p.logs.entries@.len() <= p.logs.cap,
{
}

/// Every fragment sitting in any shard is tracked as `Pending` in the logs
/// index.
pub proof fn lemma_pooled_fragment_is_pending(p: Pools, k: int, i: int)
    requires
        p.wf(),
        0 <= k < p.pools@.len(),
        0 <= i < p.pools@[k].entries@.len(),
    ensures
        logs_contain_pending(p.logs.entries@, p.pools@[k].entries@[i].id@),
{
    assert(mirrored(p.pools@[k].entries@, p.pools@[0].entries@));
    assert(p.pools@[0].entries@[i].id@ == p.pools@[k].entries@[i].id@);
    assert(logs_contain_pending(p.logs.entries@, p.pools@[0].entries@[i].id@));
}

/// Admission is idempotent, first half: a fragment whose identifier the
/// logs index tracks is refused as `AlreadyInLogs`, and the refusal changes
/// nothing.
pub proof fn lemma_admission_idempotent(p: Pools, f: Fragment)
    requires
        logs_contain(p.logs.entries@, f.id@),
    ensures
        p.spec_admit_reason(f) == Some(RejectReason::AlreadyInLogs),
{
}

/// Admission is idempotent, second half: once a fragment was admitted, the
/// controller tracks its identifier, so resubmitting that fragment is
/// refused as `AlreadyInLogs`.
pub proof fn lemma_admitted_then_rejected(
    a: Pools,
    b: Pools,
    f: Fragment,
    now_secs: u64,
    origin: FragmentOrigin,
)
    requires
        accepted_transition(a, b, f, now_secs, origin),
    ensures
        b.spec_admit_reason(f) == Some(RejectReason::AlreadyInLogs),
{
    assert(logs_contain_pending(b.logs.entries@, f.id@));
    let j = choose|j: int| 0 <= j < b.logs.entries@.len()
        && b.logs.entries@[j].id@ == f.id@ && b.logs.entries@[j].status is Pending;
    assert(logs_contain(b.logs.entries@, f.id@));
}

/// Every fragment of the batch is already tracked by the logs index.
pub open spec fn all_logged(logs: Seq<LogEntry>, frags: Seq<Fragment>) -> bool {
    forall|k: int| 0 <= k < frags.len() ==> logs_contain(logs, (#[trigger] frags[k]).id@)
}

/// The exact outcome of a batch of one: the summary and the state change
/// that the single fragment's admission reason dictates.
pub open spec fn batch_outcome_one(
    a: Pools,
    b: Pools,
    f: Fragment,
    summary: Summary,
    now_secs: u64,
    origin: FragmentOrigin,
) -> bool {
    match a.spec_admit_reason(f) {
        None => {
            &&& summary.accepted@.len() == 1
            &&& summary.accepted@[0]@ == f.id@
            &&& summary.rejected@.len() == 0
            &&& accepted_transition(a, b, f, now_secs, origin)
        },
        Some(rr) => {
            &&& summary.accepted@.len() == 0
            &&& summary.rejected@.len() == 1
            &&& summary.rejected@[0].0@ == f.id@
            &&& summary.rejected@[0].1 == rr
            &&& (rr == RejectReason::AlreadyInLogs ==> state_unchanged(a, b))
            &&& (rr != RejectReason::AlreadyInLogs
                ==> rejected_transition(a, b, f, now_secs, origin, rr))
        },
    }
}

/// The controller: the shards, the shared logs index, the outbound
/// propagation queue, and the persistent log when one is open.
pub struct Pools {
    pub pools: Vec<Pool>,
    pub logs: Logs,
    pub sink: PropagationSink,
    pub persistent: Option<PersistentLog>,
}

/// Capacities and the pool count are fixed for the controller's life.
pub open spec fn same_shape(a: Pools, b: Pools) -> bool {
    &&& b.pools@.len() == a.pools@.len()
    &&& forall|k: int| 0 <= k < a.pools@.len()
        ==> (#[trigger] b.pools@[k]).cap == a.pools@[k].cap
    &&& b.logs.cap == a.logs.cap
    &&& b.sink.cap == a.sink.cap
}

/// Nothing observable moved.
pub open spec fn state_unchanged(a: Pools, b: Pools) -> bool {
    &&& b.pools@ == a.pools@
    &&& b.logs.entries@ == a.logs.entries@
    &&& b.sink.queue@ == a.sink.queue@
    &&& b.persistent == a.persistent
}

impl Pools {
    /// The shards hold each other's fragments and respect their own bounds.
    pub open spec fn pools_wf(&self) -> bool {
        &&& self.pools@.len() >= 1
        &&& forall|k: int| 0 <= k < self.pools@.len() ==> (#[trigger] self.pools@[k]).wf()
        &&& forall|k: int| 0 <= k < self.pools@.len()
            ==> (#[trigger] self.pools@[k]).cap == self.pools@[0].cap
        &&& forall|k: int| 0 <= k < self.pools@.len()
            ==> mirrored((#[trigger] self.pools@[k]).entries@, self.pools@[0].entries@)
    }

    /// Well-formedness of the whole controller; every public operation
    /// preserves it. In particular every shard and the logs index respect
    /// their capacities, and every pooled fragment is `Pending` in the logs.
    pub open spec fn wf(&self) -> bool {
        &&& self.pools_wf()
        &&& self.logs.wf()
        &&& self.sink.wf()
        &&& self.logs.cap >= self.pools@[0].cap
        &&& covered_by_logs(self.pools@[0].entries@, self.logs.entries@)
    }

    /// How many shards the controller runs.
    pub fn n_pools(&self) -> (r: usize)
        ensures
            r == self.pools@.len(),
    {
        self.pools.len()
    }

    /// Builds the controller: `n_pools` empty shards of `pool_max_entries`
    /// each, around the given logs index, sink, and optional persistent log.
    /// Zero pools is refused at construction.
    pub fn new(
        pool_max_entries: usize,
        n_pools: usize,
        logs: Logs,
        sink: PropagationSink,
        persistent: Option<PersistentLog>,
    ) -> (r: Result<Pools, PoolError>)
        requires
            logs.wf(),
            sink.wf(),
            logs.cap >= pool_max_entries,
        ensures
            n_pools == 0 <==> r is Err,
            r matches Err(e) ==> e == PoolError::NoPools,
            r matches Ok(p) ==> {
                &&& p.wf()
                &&& p.pools@.len() == n_pools
                &&& forall|k: int| 0 <= k < n_pools
                    ==> (#[trigger] p.pools@[k]).cap == pool_max_entries
                        && p.pools@[k].entries@.len() == 0
                &&& p.logs == logs
                &&& p.sink == sink
                &&& p.persistent == persistent
            },
    {
        if n_pools == 0 {
            return Err(PoolError::NoPools);
        }
        let mut pools: Vec<Pool> = Vec::new();
        let mut k: usize = 0;
        while k < n_pools
            invariant
                0 <= k <= n_pools,
                pools@.len() == k,
                forall|j: int| 0 <= j < k ==> (#[trigger] pools@[j]).cap == pool_max_entries
                    && pools@[j].entries@.len() == 0 && pools@[j].wf(),
            decreases n_pools - k,
        {
            pools.push(Pool::new(pool_max_entries));
            k += 1;
        }
        Ok(Pools { pools, logs, sink, persistent })
    }

    /// Lets every shard go of the fragment carrying `id`.
    fn drop_from_pools(&mut self, id: &FragmentId)
        requires
            old(self).pools_wf(),
        ensures
            final(self).pools_wf(),
            same_shape(*old(self), *final(self)),
            final(self).pools@.len() == old(self).pools@.len(),
            forall|k: int| 0 <= k < old(self).pools@.len()
                ==> (#[trigger] final(self).pools@[k]).entries@
                    == spec_drop_id(old(self).pools@[k].entries@, id@),
            final(self).logs == old(self).logs,
            final(self).sink == old(self).sink,
            final(self).persistent == old(self).persistent,
    {
        let n = self.pools.len();
        let mut k: usize = 0;
        while k < n
            invariant
                0 <= k <= n,
                n == self.pools@.len(),
                n == old(self).pools@.len(),
                forall|j: int| 0 <= j < k ==> (#[trigger] self.pools@[j]).entries@
                    == spec_drop_id(old(self).pools@[j].entries@, id@)
                    && self.pools@[j].cap == old(self).pools@[j].cap
                    && self.pools@[j].wf(),
                forall|j: int| k <= j < n ==> (#[trigger] self.pools@[j]) == old(self).pools@[j],
                self.logs == old(self).logs,
                self.sink == old(self).sink,
                self.persistent == old(self).persistent,
                old(self).pools_wf(),
            decreases n - k,
        {
            assert(self.pools@[k as int] == old(self).pools@[k as int]);
            self.pools[k].remove_id(id);
            k += 1;
        }
        proof {
            let o = old(self).pools@;
            let f = self.pools@;
            assert forall|k: int| 0 <= k < f.len()
                implies mirrored((#[trigger] f[k]).entries@, f[0].entries@) by {
                lemma_drop_id_mirrored(o[k].entries@, o[0].entries@, id@);
            }
        }
    }

    /// Appends a fresh copy of `f` to every shard.
    fn push_to_all(&mut self, f: &Fragment)
        requires
            old(self).pools_wf(),
            !pool_contains(old(self).pools@[0].entries@, f.id@),
            old(self).pools@[0].entries@.len() < old(self).pools@[0].cap,
        ensures
            final(self).pools_wf(),
            same_shape(*old(self), *final(self)),
            final(self).pools@.len() == old(self).pools@.len(),
            forall|k: int| 0 <= k < old(self).pools@.len()
                ==> pushed_copy(
                    (#[trigger] old(self).pools@[k]).entries@,
                    final(self).pools@[k].entries@,
                    *f,
                ),
            final(self).logs == old(self).logs,
            final(self).sink == old(self).sink,
            final(self).persistent == old(self).persistent,
    {
        let n = self.pools.len();
        let mut k: usize = 0;
        while k < n
            invariant
                0 <= k <= n,
                n == self.pools@.len(),
                n == old(self).pools@.len(),
                forall|j: int| 0 <= j < k ==> pushed_copy(
                    (#[trigger] old(self).pools@[j]).entries@,
                    self.pools@[j].entries@,
                    *f,
                ) && self.pools@[j].cap == old(self).pools@[j].cap && self.pools@[j].wf(),
                forall|j: int| k <= j < n ==> (#[trigger] self.pools@[j]) == old(self).pools@[j],
                self.logs == old(self).logs,
                self.sink == old(self).sink,
                self.persistent == old(self).persistent,
                old(self).pools_wf(),
                !pool_contains(old(self).pools@[0].entries@, f.id@),
                old(self).pools@[0].entries@.len() < old(self).pools@[0].cap,
            decreases n - k,
        {
            proof {
                assert(self.pools@[k as int] == old(self).pools@[k as int]);
                assert(mirrored(
                    old(self).pools@[k as int].entries@,
                    old(self).pools@[0].entries@,
                ));
                if pool_contains(old(self).pools@[k as int].entries@, f.id@) {
                    let w = choose|w: int| 0 <= w
                        < old(self).pools@[k as int].entries@.len()
                        && old(self).pools@[k as int].entries@[w].id@ == f.id@;
                    assert(old(self).pools@[0].entries@[w].id@ == f.id@);
                }
            }
            let copy = f.duplicate();
            let ghost before = self.pools@;
            self.pools[k].push_admitted(copy);
            proof {
                let p = old(self).pools@[k as int].entries@;
                let q = self.pools@[k as int].entries@;
                assert(q.subrange(0, p.len() as int) =~= p);
                assert(pushed_copy(p, q, *f));
                assert forall|j: int| 0 <= j < k + 1 implies pushed_copy(
                    (#[trigger] old(self).pools@[j]).entries@,
                    self.pools@[j].entries@,
                    *f,
                ) && self.pools@[j].cap == old(self).pools@[j].cap && self.pools@[j].wf() by {
                    if j < k {
                        assert(self.pools@[j] == before[j]);
                    }
                }
            }
            k += 1;
        }
        proof {
            let o = old(self).pools@;
            let q = self.pools@;
            assert forall|k: int| 0 <= k < q.len()
                implies (#[trigger] q[k]).wf() && q[k].cap == q[0].cap by {
                assert(q[k].cap == o[k].cap && q[0].cap == o[0].cap);
                assert(o[k].cap == o[0].cap);
            }
            assert forall|k: int| 0 <= k < q.len()
                implies mirrored((#[trigger] q[k]).entries@, q[0].entries@) by {
                assert(pushed_copy(o[k].entries@, q[k].entries@, *f));
                assert(pushed_copy(o[0].entries@, q[0].entries@, *f));
                assert(mirrored(o[k].entries@, o[0].entries@));
                let a = q[k].entries@;
                let b = q[0].entries@;
                assert(a.len() == b.len());
                assert forall|m: int| 0 <= m < a.len()
                    implies (#[trigger] a[m]).id@ == b[m].id@ && a[m].data@ == b[m].data@ by {
                    if m < a.len() - 1 {
                        assert(a[m] == a.subrange(0, o[k].entries@.len() as int)[m]);
                        assert(b[m] == b.subrange(0, o[0].entries@.len() as int)[m]);
                        assert(a[m] == o[k].entries@[m] && b[m] == o[0].entries@[m]);
                    } else {
                        assert(a[m] == a.last() && b[m] == b.last());
                        assert(a[m].id@ == f.id@ && b[m].id@ == f.id@);
                        assert(a[m].data@ == f.data@ && b[m].data@ == f.data@);
                    }
                }
            }
        }
    }

    /// Why one fragment would be refused now: its identifier is already
    /// tracked, it is structurally invalid, or the shards are full. `None`
    /// means admission is owed.
    pub open spec fn spec_admit_reason(&self, f: Fragment) -> Option<RejectReason> {
        if logs_contain(self.logs.entries@, f.id@) {
            Some(RejectReason::AlreadyInLogs)
        } else if !spec_structurally_valid(f.data@) {
            Some(RejectReason::FailedStructuralCheck)
        } else if self.pools@[0].entries@.len() >= self.pools@[0].cap {
            Some(RejectReason::PoolOverflow)
        } else {
            None
        }
    }

    /// Records a refused fragment in the logs index, letting the shards go
    /// of an evicted pending fragment.
    fn record_rejection(
        &mut self,
        f: &Fragment,
        now_secs: u64,
        origin: FragmentOrigin,
        reason: RejectReason,
    )
        requires
            old(self).wf(),
            !logs_contain(old(self).logs.entries@, f.id@),
        ensures
            final(self).wf(),
            same_shape(*old(self), *final(self)),
            rejected_transition(*old(self), *final(self), *f, now_secs, origin, reason),
    {
        let entry = LogEntry {
            id: f.id,
            received_at: now_secs,
            origin,
            status: FragmentStatus::Rejected { reason },
        };
        let evicted = self.logs.insert(entry);
        let ghost mid = *self;
        match evicted {
            Some(v) => {
                let pending = match v.status {
                    FragmentStatus::Pending => true,
                    _ => false,
                };
                if pending {
                    self.drop_from_pools(&v.id);
                } else {
                    assert(forall|k: int| 0 <= k < self.pools@.len()
                        ==> (#[trigger] self.pools@[k]).entries@ == spec_pool_after_evict(
                            old(self).pools@[k].entries@,
                            spec_evicted(old(self).logs.entries@, entry, old(self).logs.cap as int),
                        ));
                }
            },
            None => {},
        }
        proof {
            lemma_covered_after_insert(
                old(self).pools@[0].entries@,
                old(self).logs.entries@,
                entry,
                old(self).logs.cap as int,
            );
        }
    }

    /// Runs one fragment through admission: deduplication against the logs,
    /// the structural check, and the shared capacity check; an admitted
    /// fragment enters every shard, the logs, the persistent log, and the
    /// propagation queue (dropped without harm when the sink is full).
    pub fn admit_one(
        &mut self,
        origin: FragmentOrigin,
        f: &Fragment,
        now_secs: u64,
    ) -> (r: Option<RejectReason>)
        requires
            old(self).wf(),
        ensures
            final(self).wf(),
            same_shape(*old(self), *final(self)),
            r == old(self).spec_admit_reason(*f),
            r == Some(RejectReason::AlreadyInLogs)
                ==> state_unchanged(*old(self), *final(self)),
            (r == Some(RejectReason::FailedStructuralCheck)
                || r == Some(RejectReason::PoolOverflow))
                ==> rejected_transition(*old(self), *final(self), *f, now_secs, origin, r->Some_0),
            r is None ==> accepted_transition(*old(self), *final(self), *f, now_secs, origin),
    {
        if self.logs.exists_id(&f.id) {
            return Some(RejectReason::AlreadyInLogs);
        }
        if !f.structurally_valid() {
            self.record_rejection(f, now_secs, origin, RejectReason::FailedStructuralCheck);
            return Some(RejectReason::FailedStructuralCheck);
        }
        if self.pools[0].is_full() {
            self.record_rejection(f, now_secs, origin, RejectReason::PoolOverflow);
            return Some(RejectReason::PoolOverflow);
        }
        let entry = LogEntry {
            id: f.id,
            received_at: now_secs,
            origin,
            status: FragmentStatus::Pending,
        };
        let ghost ev = spec_evicted(old(self).logs.entries@, entry, old(self).logs.cap as int);
        let evicted = self.logs.insert(entry);
        match evicted {
            Some(v) => {
                let pending = match v.status {
                    FragmentStatus::Pending => true,
                    _ => false,
                };
                if pending {
                    self.drop_from_pools(&v.id);
                }
            },
            None => {},
        }
        proof {
            // The shards now hold `spec_pool_after_evict` of their old state;
            // the new fragment is not among them and they have room for it.
            assert(forall|k: int| 0 <= k < self.pools@.len()
                ==> (#[trigger] self.pools@[k]).entries@ == spec_pool_after_evict(
                    old(self).pools@[k].entries@,
                    ev,
                ));
            if pool_contains(self.pools@[0].entries@, f.id@) {
                let w = choose|w: int| 0 <= w < self.pools@[0].entries@.len()
                    && self.pools@[0].entries@[w].id@ == f.id@;
                let p0 = old(self).pools@[0].entries@;
                match ev {
                    Some(v) if !v.status.is_terminal() => {
                        if pool_contains(p0, v.id@) {
                            let pi = pool_index_of(p0, v.id@);
                            let w0 = if w < pi { w } else { w + 1 };
                            assert(p0[w0].id@ == f.id@);
                            assert(pool_contains(p0, f.id@));
                        } else {
                            assert(pool_contains(p0, f.id@));
                        }
                    },
                    _ => {
                        assert(pool_contains(p0, f.id@));
                    },
                }
                assert(logs_contain_pending(old(self).logs.entries@, f.id@));
                assert(logs_contain(old(self).logs.entries@, f.id@));
                assert(false);
            }
            assert(self.pools@[0].entries@.len() <= old(self).pools@[0].entries@.len());
            lemma_covered_after_insert(
                old(self).pools@[0].entries@,
                old(self).logs.entries@,
                entry,
                old(self).logs.cap as int,
            );
        }
        let ghost before_push = *self;
        self.push_to_all(f);
        proof {
            // Every shard still covered: the pushed fragment's pending entry
            // sits at the end of the logs index.
            let logs2 = self.logs.entries@;
            assert(logs2[logs2.len() - 1] == entry);
            assert(logs_contain_pending(logs2, f.id@));
            let p2 = self.pools@[0].entries@;
            let p1 = before_push.pools@[0].entries@;
            assert forall|k: int| 0 <= k < p2.len()
                implies logs_contain_pending(logs2, (#[trigger] p2[k]).id@) by {
                if k < p2.len() - 1 {
                    assert(p2[k] == p2.subrange(0, p1.len() as int)[k]);
                    assert(p2[k] == p1[k]);
                } else {
                    assert(p2[k].id@ == f.id@);
                }
            }
        }
        if let Some(pl) = &mut self.persistent {
            pl.append(now_secs, origin, &f.data);
        }
        let ghost before_send = *self;
        let copy = f.duplicate();
        let msg = NetworkMsg { id: copy.id, data: copy.data, origin };
        self.sink.try_send(msg);
        proof {
            let a = *old(self);
            let b = *self;
            if a.sink.queue@.len() < a.sink.cap {
                assert(b.sink.queue@ == before_send.sink.queue@.push(msg));
                assert(b.sink.queue@.subrange(0, a.sink.queue@.len() as int)
                    =~= a.sink.queue@);
                assert(queue_pushed(a.sink.queue@, b.sink.queue@, *f, origin));
            }
            assert forall|k: int| 0 <= k < a.pools@.len()
                implies pushed_copy(
                    spec_pool_after_evict(a.pools@[k].entries@, ev),
                    (#[trigger] b.pools@[k]).entries@,
                    *f,
                ) by {
                assert(before_push.pools@[k].entries@
                    == spec_pool_after_evict(a.pools@[k].entries@, ev));
                assert(pushed_copy(before_push.pools@[k].entries@, b.pools@[k].entries@, *f));
            }
            assert(accepted_transition(a, b, *f, now_secs, origin));
        }
        None
    }

    /// Admits a batch of fragments in order, recording each outcome in the
    /// summary: a fragment already tracked, structurally invalid, or not
    /// fitting the shards is rejected with its reason; every other fragment
    /// enters all shards, the logs, the persistent log, and the propagation
    /// queue. With `fail_fast` the batch stops at the first rejection,
    /// leaving the rest unprocessed; already-admitted fragments stay.
    pub fn insert_and_propagate_all(
        &mut self,
        origin: FragmentOrigin,
        fragments: Vec<Fragment>,
        fail_fast: bool,
        now_secs: u64,
    ) -> (summary: Summary)
        requires
            old(self).wf(),
        ensures
            final(self).wf(),
            same_shape(*old(self), *final(self)),
            summary.accepted@.len() + summary.rejected@.len() <= fragments@.len(),
            fragments@.len() == 0 ==> state_unchanged(*old(self), *final(self))
                && summary.accepted@.len() == 0 && summary.rejected@.len() == 0,
            !fail_fast ==> summary.accepted@.len() + summary.rejected@.len()
                == fragments@.len(),
            fail_fast ==> summary.rejected@.len() <= 1,
            fail_fast && summary.rejected@.len() == 0
                ==> summary.accepted@.len() == fragments@.len(),
            forall|a: int| 0 <= a < summary.accepted@.len() ==> exists|k: int|
                0 <= k < fragments@.len()
                    && fragments@[k].id@ == (#[trigger] summary.accepted@[a])@,
            forall|a: int| 0 <= a < summary.rejected@.len() ==> exists|k: int|
                0 <= k < fragments@.len()
                    && fragments@[k].id@ == (#[trigger] summary.rejected@[a]).0@,
            old(self).sink.queue@.is_prefix_of(final(self).sink.queue@),
            final(self).sink.queue@.len()
                <= old(self).sink.queue@.len() + summary.accepted@.len(),
            fragments@.len() == 1 ==> batch_outcome_one(
                *old(self),
                *final(self),
                fragments@[0],
                summary,
                now_secs,
                origin,
            ),
            all_logged(old(self).logs.entries@, fragments@) ==> {
                &&& state_unchanged(*old(self), *final(self))
                &&& summary.accepted@.len() == 0
                &&& forall|a: int| 0 <= a < summary.rejected@.len()
                    ==> (#[trigger] summary.rejected@[a]).0@ == fragments@[a].id@
                        && summary.rejected@[a].1 == RejectReason::AlreadyInLogs
                &&& !fail_fast ==> summary.rejected@.len() == fragments@.len()
                &&& fail_fast && fragments@.len() > 0 ==> summary.rejected@.len() == 1
            },
    {
        let mut summary = Summary::new();
        let n = fragments.len();
        let mut i: usize = 0;
        while i < n
            invariant
                0 <= i <= n,
                n == fragments@.len(),
                self.wf(),
                same_shape(*old(self), *self),
                summary.accepted@.len() + summary.rejected@.len() == i,
                fail_fast ==> summary.rejected@.len() == 0,
                i == 0 ==> state_unchanged(*old(self), *self),
                forall|a: int| 0 <= a < summary.accepted@.len() ==> exists|k: int|
                    0 <= k < fragments@.len()
                        && fragments@[k].id@ == (#[trigger] summary.accepted@[a])@,
                forall|a: int| 0 <= a < summary.rejected@.len() ==> exists|k: int|
                    0 <= k < fragments@.len()
                        && fragments@[k].id@ == (#[trigger] summary.rejected@[a]).0@,
                old(self).sink.queue@.is_prefix_of(self.sink.queue@),
                self.sink.queue@.len()
                    <= old(self).sink.queue@.len() + summary.accepted@.len(),
                n == 1 && i == 1 ==> batch_outcome_one(
                    *old(self),
                    *self,
                    fragments@[0],
                    summary,
                    now_secs,
                    origin,
                ),
                all_logged(old(self).logs.entries@, fragments@) ==> {
                    &&& state_unchanged(*old(self), *self)
                    &&& summary.accepted@.len() == 0
                    &&& summary.rejected@.len() == i
                    &&& forall|a: int| 0 <= a < summary.rejected@.len()
                        ==> (#[trigger] summary.rejected@[a]).0@ == fragments@[a].id@
                            && summary.rejected@[a].1 == RejectReason::AlreadyInLogs
                },
            decreases n - i,
        {
            let ghost pre = *self;
            let f = &fragments[i];
            match self.admit_one(origin, f, now_secs) {
                None => {
                    summary.accepted.push(f.id);
                    proof {
                        if all_logged(old(self).logs.entries@, fragments@) {
                            assert(logs_contain(pre.logs.entries@, fragments@[i as int].id@));
                            assert(false);
                        }
                        if self.sink.queue@.len() > pre.sink.queue@.len() {
                            assert(self.sink.queue@.subrange(0, pre.sink.queue@.len() as int)
                                =~= pre.sink.queue@);
                        }
                        assert(old(self).sink.queue@
                            =~= self.sink.queue@.subrange(0, old(self).sink.queue@.len() as int));
                    }
                },
                Some(reason) => {
                    summary.rejected.push((f.id, reason));
                    proof {
                        if all_logged(old(self).logs.entries@, fragments@) {
                            assert(logs_contain(pre.logs.entries@, fragments@[i as int].id@));
                            assert(reason == RejectReason::AlreadyInLogs);
                        }
                    }
                    if fail_fast {
                        return summary;
                    }
                },
            }
            i += 1;
        }
        summary
    }

    /// Lets every shard go of the given fragments, one identifier after the
    /// other, stepping each one's logs entry to `status`.
    fn remove_with_status(&mut self, ids: &Vec<FragmentId>, status: FragmentStatus)
        requires
            old(self).wf(),
        ensures
            final(self).wf(),
            same_shape(*old(self), *final(self)),
            final(self).pools@.len() == old(self).pools@.len(),
            forall|k: int| 0 <= k < old(self).pools@.len()
                ==> (#[trigger] final(self).pools@[k]).entries@
                    == spec_drop_ids(old(self).pools@[k].entries@, ids@),
            final(self).logs.entries@
                == spec_set_statuses(old(self).logs.entries@, ids@, status),
            final(self).sink == old(self).sink,
            final(self).persistent == old(self).persistent,
    {
        let n = ids.len();
        let mut j: usize = 0;
        proof {
            assert(ids@.subrange(0, 0) =~= Seq::<FragmentId>::empty());
        }
        while j < n
            invariant
                0 <= j <= n,
                n == ids@.len(),
                self.wf(),
                same_shape(*old(self), *self),
                self.pools@.len() == old(self).pools@.len(),
                forall|k: int| 0 <= k < old(self).pools@.len()
                    ==> (#[trigger] self.pools@[k]).entries@
                        == spec_drop_ids(old(self).pools@[k].entries@, ids@.subrange(0, j as int)),
                self.logs.entries@
                    == spec_set_statuses(old(self).logs.entries@, ids@.subrange(0, j as int), status),
                self.sink == old(self).sink,
                self.persistent == old(self).persistent,
            decreases n - j,
        {
            let ghost pre = *self;
            let id = ids[j];
            self.drop_from_pools(&id);
            proof {
                lemma_covered_after_drop(pre.pools@[0].entries@, pre.logs.entries@, id@);
                lemma_drop_id_removes(pre.pools@[0].entries@, id@);
            }
            self.logs.set_status(&id, status);
            proof {
                lemma_covered_after_set_status(
                    self.pools@[0].entries@,
                    pre.logs.entries@,
                    id@,
                    status,
                );
                let prefix = ids@.subrange(0, j as int);
                let next = ids@.subrange(0, j + 1);
                assert(next.drop_last() =~= prefix);
                assert(next.last() == ids@[j as int]);
                assert forall|k: int| 0 <= k < old(self).pools@.len()
                    implies (#[trigger] self.pools@[k]).entries@
                        == spec_drop_ids(old(self).pools@[k].entries@, next) by {
                    assert(self.pools@[k].entries@
                        == spec_drop_id(pre.pools@[k].entries@, id@));
                }
            }
            j += 1;
        }
        proof {
            assert(ids@.subrange(0, n as int) =~= ids@);
        }
    }

    /// Applies the selection algorithm's verdicts over the shard at
    /// `pool_idx`, in insertion order, stopping at the first `Full` verdict
    /// or when the verdicts run out (a fired deadline shortens them). The
    /// selected fragments are returned as the block candidate and stay
    /// pooled; the invalid-for-ledger ones leave every shard and are marked
    /// `Rejected` in the logs. An already-elapsed hard deadline returns
    /// empty contents without consulting anything.
    pub fn apply_selection(
        &mut self,
        pool_idx: usize,
        verdicts: &Vec<FragmentVerdict>,
        hard_deadline_elapsed: bool,
    ) -> (contents: BlockContents)
        requires
            old(self).wf(),
            pool_idx < old(self).pools@.len(),
        ensures
            final(self).wf(),
            same_shape(*old(self), *final(self)),
            hard_deadline_elapsed ==> state_unchanged(*old(self), *final(self))
                && contents.fragments@.len() == 0,
            !hard_deadline_elapsed ==> exists|n: int|
                #![trigger spec_selected(old(self).pools@[pool_idx as int].entries@, verdicts@, n)]
                {
                    let pool = old(self).pools@[pool_idx as int].entries@;
                    &&& 0 <= n <= pool.len()
                    &&& n <= verdicts@.len()
                    &&& forall|j: int| 0 <= j < n
                        ==> (#[trigger] verdicts@[j]) != FragmentVerdict::Full
                    &&& (n < pool.len() && n < verdicts@.len() ==> verdicts@[n] is Full)
                    &&& mirrored(contents.fragments@, spec_selected(pool, verdicts@, n))
                    &&& forall|k: int| 0 <= k < old(self).pools@.len()
                        ==> (#[trigger] final(self).pools@[k]).entries@ == spec_drop_ids(
                            old(self).pools@[k].entries@,
                            spec_invalidated(pool, verdicts@, n),
                        )
                    &&& final(self).logs.entries@ == spec_set_statuses(
                        old(self).logs.entries@,
                        spec_invalidated(pool, verdicts@, n),
                        FragmentStatus::Rejected { reason: RejectReason::InvalidForLedger },
                    )
                    &&& final(self).sink == old(self).sink
                    &&& final(self).persistent == old(self).persistent
                },
    {
        if hard_deadline_elapsed {
            return BlockContents { fragments: Vec::new() };
        }
        let ghost pool = self.pools@[pool_idx as int].entries@;
        let pool_len = self.pools[pool_idx].len();
        let vlen = verdicts.len();
        let limit = if vlen < pool_len {
            vlen
        } else {
            pool_len
        };
        let mut selected: Vec<Fragment> = Vec::new();
        let mut invalid: Vec<FragmentId> = Vec::new();
        let mut k: usize = 0;
        let mut full = false;
        while k < limit && !full
            invariant
                0 <= k <= limit,
                limit <= pool.len(),
                limit <= verdicts@.len(),
                limit == vlen || limit == pool_len,
                vlen == verdicts@.len(),
                pool_len == pool.len(),
                limit == if vlen < pool_len { vlen as int } else { pool_len as int },
                *self == *old(self),
                pool == self.pools@[pool_idx as int].entries@,
                pool_idx < self.pools@.len(),
                full ==> k < limit && verdicts@[k as int] is Full,
                forall|j: int| 0 <= j < k ==> (#[trigger] verdicts@[j]) != FragmentVerdict::Full,
                mirrored(selected@, spec_selected(pool, verdicts@, k as int)),
                invalid@ == spec_invalidated(pool, verdicts@, k as int),
            decreases limit - k + if full { 0int } else { 1int },
        {
            let ghost prev_sel = spec_selected(pool, verdicts@, k as int);
            let ghost prev_inv = spec_invalidated(pool, verdicts@, k as int);
            match verdicts[k] {
                FragmentVerdict::Full => {
                    full = true;
                },
                FragmentVerdict::Selected => {
                    let fr = self.pools[pool_idx].get(k).duplicate();
                    selected.push(fr);
                    proof {
                        let cur = spec_selected(pool, verdicts@, k + 1);
                        assert(cur =~= prev_sel + seq![pool[k as int]]);
                        assert(spec_invalidated(pool, verdicts@, k + 1) =~= prev_inv);
                        assert forall|m: int| 0 <= m < selected@.len()
                            implies (#[trigger] selected@[m]).id@ == cur[m].id@
                                && selected@[m].data@ == cur[m].data@ by {}
                        assert(mirrored(selected@, cur));
                    }
                    k += 1;
                },
                FragmentVerdict::Skipped => {
                    proof {
                        assert(spec_selected(pool, verdicts@, k + 1) =~= prev_sel);
                        assert(spec_invalidated(pool, verdicts@, k + 1) =~= prev_inv);
                    }
                    k += 1;
                },
                FragmentVerdict::Invalid => {
                    invalid.push(self.pools[pool_idx].get(k).id);
                    proof {
                        assert(spec_selected(pool, verdicts@, k + 1) =~= prev_sel);
                        assert(spec_invalidated(pool, verdicts@, k + 1)
                            =~= prev_inv.push(pool[k as int].id));
                    }
                    k += 1;
                },
            }
        }
        let ghost n = k as int;
        self.remove_with_status(
            &invalid,
            FragmentStatus::Rejected { reason: RejectReason::InvalidForLedger },
        );
        BlockContents { fragments: selected }
    }

    /// The persistent log is closed; nothing else moves. The host process
    /// closes the real file by dropping its handle.
    pub fn close_persistent_log(&mut self)
        requires
            old(self).wf(),
        ensures
            final(self).wf(),
            same_shape(*old(self), *final(self)),
            final(self).pools@ == old(self).pools@,
            final(self).logs == old(self).logs,
            final(self).sink == old(self).sink,
            final(self).persistent is None,
    {
        self.persistent = None;
    }

    /// A freshly opened persistent log for the given wall-clock hour is
    /// installed; nothing else moves.
    pub fn set_persistent_log(&mut self, hour: u64)
        requires
            old(self).wf(),
        ensures
            final(self).wf(),
            same_shape(*old(self), *final(self)),
            final(self).pools@ == old(self).pools@,
            final(self).logs == old(self).logs,
            final(self).sink == old(self).sink,
            final(self).persistent matches Some(pl) && pl.hour == hour
                && pl.written@.len() == 0,
    {
        self.persistent = Some(PersistentLog::new(hour));
    }

    /// Hourly rotation: when persistence is on, the current file is closed
    /// and an empty one for the hour of `now_secs` is installed; the name the
    /// host process must open is returned. With persistence off, rotation is
    /// inert.
    pub fn rotate(&mut self, now_secs: u64) -> (r: Option<String>)
        requires
            old(self).wf(),
            now_secs <= crate::clock::MAX_TIMESTAMP_SECS,
        ensures
            final(self).wf(),
            same_shape(*old(self), *final(self)),
            final(self).pools@ == old(self).pools@,
            final(self).logs == old(self).logs,
            final(self).sink == old(self).sink,
            old(self).persistent is None ==> final(self).persistent is None && r is None,
            old(self).persistent is Some ==> {
                &&& r matches Some(name)
                    && name@ == crate::clock::log_file_name_of(crate::clock::spec_hour_of(now_secs))
                &&& final(self).persistent matches Some(pl)
                    && pl.hour == crate::clock::spec_hour_of(now_secs)
                    && pl.written@.len() == 0
            },
    {
        if self.persistent.is_some() {
            self.close_persistent_log();
            self.set_persistent_log(crate::clock::hour_of(now_secs));
            Some(crate::clock::log_file_name(now_secs))
        } else {
            None
        }
    }

    /// The shared logs index, for status queries and snapshots.
    pub fn logs(&self) -> (r: &Logs)
        ensures
            *r == self.logs,
    {
        &self.logs
    }

    /// Copies of the fragments in one shard, in insertion order: what the
    /// selection algorithm is shown.
    pub fn pool_fragments(&self, pool_idx: usize) -> (r: Vec<Fragment>)
        requires
            pool_idx < self.pools@.len(),
        ensures
            mirrored(r@, self.pools@[pool_idx as int].entries@),
    {
        let pool = &self.pools[pool_idx];
        let n = pool.len();
        let mut out: Vec<Fragment> = Vec::new();
        let mut i: usize = 0;
        while i < n
            invariant
                0 <= i <= n,
                n == pool.entries@.len(),
                out@.len() == i,
                forall|j: int| 0 <= j < i ==> (#[trigger] out@[j]).id@ == pool.entries@[j].id@
                    && out@[j].data@ == pool.entries@[j].data@,
            decreases n - i,
        {
            out.push(pool.get(i).duplicate());
            i += 1;
        }
        out
    }

    /// The bytes written to the open persistent log so far, if one is open.
    pub fn persistent_contents(&self) -> (r: Option<&Vec<u8>>)
        ensures
            match self.persistent {
                None => r is None,
                Some(pl) => r matches Some(b) && b@ == pl.written@,
            },
    {
        match &self.persistent {
            Some(pl) => Some(&pl.written),
            None => None,
        }
    }

    /// Hands the queued propagation messages out for the host process to
    /// forward, leaving the queue empty.
    pub fn drain_outbound(&mut self) -> (r: Vec<NetworkMsg>)
        requires
            old(self).wf(),
        ensures
            final(self).wf(),
            same_shape(*old(self), *final(self)),
            final(self).pools@ == old(self).pools@,
            final(self).logs == old(self).logs,
            final(self).persistent == old(self).persistent,
            r@ == old(self).sink.queue@,
            final(self).sink.queue@.len() == 0,
    {
        self.sink.drain()
    }

    /// Removes fragments that entered a confirmed block: each one leaves
    /// every shard and its logs entry becomes `InABlock` with the block's
    /// date and identifier. Identifiers no longer pooled (for instance
    /// evicted ones) still have their status stepped if tracked.
    pub fn remove_added_to_block(&mut self, ids: &Vec<FragmentId>, date: u64, block: u64)
        requires
            old(self).wf(),
        ensures
            final(self).wf(),
            same_shape(*old(self), *final(self)),
            final(self).pools@.len() == old(self).pools@.len(),
            forall|k: int| 0 <= k < old(self).pools@.len()
                ==> (#[trigger] final(self).pools@[k]).entries@
                    == spec_drop_ids(old(self).pools@[k].entries@, ids@),
            final(self).logs.entries@ == spec_set_statuses(
                old(self).logs.entries@,
                ids@,
                FragmentStatus::InABlock { date, block },
            ),
            final(self).sink == old(self).sink,
            final(self).persistent == old(self).persistent,
    {
        self.remove_with_status(ids, FragmentStatus::InABlock { date, block });
    }
}

} // verus!
