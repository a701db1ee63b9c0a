use fragment_core::Fragment;
use fragment_core::FragmentId;
use fragment_core::FragmentOrigin;
use fragment_core::FragmentStatus;
use fragment_core::Logs;
use fragment_core::Pools;
use fragment_core::PropagationSink;
use fragment_core::RejectReason;

fn fid(n: u8) -> FragmentId {
    FragmentId::new([n; 32])
}

fn frag(n: u8) -> Fragment {
    Fragment::new(fid(n), vec![n, n, n])
}

fn controller(pool_max: usize, n_pools: usize, logs_max: usize, sink_cap: usize) -> Pools {
    let logs = Logs::new(logs_max);
    let sink = PropagationSink::new(sink_cap);
    Pools::new(pool_max, n_pools, logs, sink, None).unwrap()
}

#[test]
fn admission_then_block() {
    let mut pools = controller(8, 3, 64, 16);
    let summary = pools.insert_and_propagate_all(FragmentOrigin::Rest, vec![frag(1)], false, 100);
    assert_eq!(summary.accepted.len(), 1);
    assert!(summary.accepted[0].same(&fid(1)));
    assert_eq!(summary.rejected.len(), 0);

    let entries = pools.logs().query_by_ids(&vec![fid(1)]);
    assert_eq!(entries.len(), 1);
    assert_eq!(entries[0].status, FragmentStatus::Pending);

    let outbound = pools.drain_outbound();
    assert_eq!(outbound.len(), 1);
    assert!(outbound[0].id.same(&fid(1)));
    assert_eq!(outbound[0].origin, FragmentOrigin::Rest);

    pools.remove_added_to_block(&vec![fid(1)], 7, 0xAB);
    let entries = pools.logs().query_by_ids(&vec![fid(1)]);
    assert_eq!(entries.len(), 1);
    assert_eq!(entries[0].status, FragmentStatus::InABlock { date: 7, block: 0xAB });
    let shard = pools.pool_fragments(0);
    assert!(shard.iter().all(|f| !f.id.same(&fid(1))));
    let shard = pools.pool_fragments(2);
    assert!(shard.iter().all(|f| !f.id.same(&fid(1))));
}

#[test]
fn duplicate_rejection() {
    let mut pools = controller(8, 2, 64, 16);
    let first = pools.insert_and_propagate_all(FragmentOrigin::Rest, vec![frag(1)], false, 5);
    assert_eq!(first.accepted.len(), 1);
    let second = pools.insert_and_propagate_all(FragmentOrigin::Rest, vec![frag(1)], false, 6);
    assert_eq!(second.accepted.len(), 0);
    assert_eq!(second.rejected.len(), 1);
    assert!(second.rejected[0].0.same(&fid(1)));
    assert_eq!(second.rejected[0].1, RejectReason::AlreadyInLogs);
    assert_eq!(pools.drain_outbound().len(), 1);
}

#[test]
fn overflow_with_fail_fast() {
    let mut pools = controller(2, 1, 64, 16);
    let summary = pools.insert_and_propagate_all(
        FragmentOrigin::Rest,
        vec![frag(1), frag(2), frag(3), frag(4)],
        true,
        5,
    );
    assert_eq!(summary.accepted.len(), 2);
    assert!(summary.accepted[0].same(&fid(1)));
    assert!(summary.accepted[1].same(&fid(2)));
    assert_eq!(summary.rejected.len(), 1);
    assert!(summary.rejected[0].0.same(&fid(3)));
    assert_eq!(summary.rejected[0].1, RejectReason::PoolOverflow);
    // the fourth fragment was never processed
    assert!(!pools.logs().exists_id(&fid(4)));
}

#[test]
fn empty_batch_changes_nothing() {
    let mut pools = controller(4, 2, 16, 8);
    let summary = pools.insert_and_propagate_all(FragmentOrigin::Network, vec![], false, 5);
    assert_eq!(summary.accepted.len(), 0);
    assert_eq!(summary.rejected.len(), 0);
    assert_eq!(pools.pool_fragments(0).len(), 0);
    assert_eq!(pools.logs().snapshot_all().len(), 0);
}

#[test]
fn structurally_invalid_fragment_rejected() {
    let mut pools = controller(4, 1, 16, 8);
    let empty = Fragment::new(fid(9), vec![]);
    let summary = pools.insert_and_propagate_all(FragmentOrigin::Rest, vec![empty], false, 5);
    assert_eq!(summary.accepted.len(), 0);
    assert_eq!(summary.rejected.len(), 1);
    assert_eq!(summary.rejected[0].1, RejectReason::FailedStructuralCheck);
    let entries = pools.logs().query_by_ids(&vec![fid(9)]);
    assert_eq!(entries.len(), 1);
    assert_eq!(
        entries[0].status,
        FragmentStatus::Rejected { reason: RejectReason::FailedStructuralCheck },
    );
}

#[test]
fn propagation_backpressure_drops_but_admits() {
    let mut pools = controller(8, 1, 64, 2);
    let s1 = pools.insert_and_propagate_all(FragmentOrigin::Rest, vec![frag(1), frag(2)], false, 5);
    assert_eq!(s1.accepted.len(), 2);
    // the sink is now at capacity; the next admission still succeeds
    let s2 = pools.insert_and_propagate_all(FragmentOrigin::Rest, vec![frag(3)], false, 6);
    assert_eq!(s2.accepted.len(), 1);
    assert!(pools.logs().exists_id(&fid(3)));
    assert!(pools.pool_fragments(0).iter().any(|f| f.id.same(&fid(3))));
    let outbound = pools.drain_outbound();
    assert_eq!(outbound.len(), 2);
    assert!(outbound[0].id.same(&fid(1)));
    assert!(outbound[1].id.same(&fid(2)));
}

#[test]
fn logs_snapshot_keeps_insertion_order() {
    let mut pools = controller(8, 2, 64, 16);
    pools.insert_and_propagate_all(FragmentOrigin::Rest, vec![frag(1)], false, 1);
    pools.insert_and_propagate_all(FragmentOrigin::Rest, vec![frag(2)], false, 2);
    pools.insert_and_propagate_all(FragmentOrigin::Rest, vec![frag(3)], false, 3);
    let snapshot = pools.logs().snapshot_all();
    assert_eq!(snapshot.len(), 3);
    assert!(snapshot[0].id.same(&fid(1)));
    assert!(snapshot[1].id.same(&fid(2)));
    assert!(snapshot[2].id.same(&fid(3)));
    assert_eq!(snapshot[0].received_at, 1);
    assert_eq!(snapshot[2].received_at, 3);
}

#[test]
fn zero_pools_refused_at_construction() {
    let logs = Logs::new(16);
    let sink = PropagationSink::new(4);
    assert!(Pools::new(4, 0, logs, sink, None).is_err());
}

#[test]
fn terminal_status_never_regresses() {
    let mut logs = Logs::new(8);
    let entry = fragment_core::LogEntry {
        id: fid(1),
        received_at: 3,
        origin: FragmentOrigin::Rest,
        status: FragmentStatus::Rejected { reason: RejectReason::PoolOverflow },
    };
    logs.insert(entry);
    logs.set_status(&fid(1), FragmentStatus::Pending);
    let entries = logs.query_by_ids(&vec![fid(1)]);
    assert_eq!(
        entries[0].status,
        FragmentStatus::Rejected { reason: RejectReason::PoolOverflow },
    );
    logs.set_status(&fid(1), FragmentStatus::InABlock { date: 1, block: 2 });
    let entries = logs.query_by_ids(&vec![fid(1)]);
    assert_eq!(
        entries[0].status,
        FragmentStatus::Rejected { reason: RejectReason::PoolOverflow },
    );
}

#[test]
fn evicted_pending_entry_leaves_the_pools() {
    // logs capacity 2, all entries pending, pools full: an overflow
    // rejection must be recorded, evicting the oldest pending entry, and
    // the pools let its fragment go with it
    let mut pools = controller(2, 1, 2, 16);
    pools.insert_and_propagate_all(FragmentOrigin::Rest, vec![frag(1), frag(2)], false, 1);
    let summary = pools.insert_and_propagate_all(FragmentOrigin::Rest, vec![frag(3)], false, 2);
    assert_eq!(summary.rejected.len(), 1);
    assert_eq!(summary.rejected[0].1, RejectReason::PoolOverflow);
    assert!(!pools.logs().exists_id(&fid(1)));
    assert!(pools.logs().exists_id(&fid(2)));
    let entries = pools.logs().query_by_ids(&vec![fid(3)]);
    assert_eq!(
        entries[0].status,
        FragmentStatus::Rejected { reason: RejectReason::PoolOverflow },
    );
    let held = pools.pool_fragments(0);
    assert_eq!(held.len(), 1);
    assert!(held[0].id.same(&fid(2)));
}

#[test]
fn logs_eviction_prefers_terminal_entries() {
    let mut pools = controller(2, 1, 2, 16);
    pools.insert_and_propagate_all(FragmentOrigin::Rest, vec![frag(1), frag(2)], false, 1);
    // make room in the pools and leave a terminal entry in the logs
    pools.remove_added_to_block(&vec![fid(1)], 1, 1);
    // the logs index is full (2 entries); the terminal entry for fragment 1
    // is evicted, not the pending entry for fragment 2
    let summary = pools.insert_and_propagate_all(FragmentOrigin::Rest, vec![frag(3)], false, 2);
    assert_eq!(summary.accepted.len(), 1);
    assert!(!pools.logs().exists_id(&fid(1)));
    assert!(pools.logs().exists_id(&fid(2)));
    assert!(pools.logs().exists_id(&fid(3)));
}
