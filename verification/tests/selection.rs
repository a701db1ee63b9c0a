use fragment_core::CommandOutcome;
use fragment_core::Fragment;
use fragment_core::FragmentId;
use fragment_core::FragmentOrigin;
use fragment_core::FragmentStatus;
use fragment_core::FragmentVerdict;
use fragment_core::Logs;
use fragment_core::Pools;
use fragment_core::PropagationSink;
use fragment_core::RejectReason;
use fragment_core::TransactionCommand;
use fragment_core::handle_command;

fn fid(n: u8) -> FragmentId {
    FragmentId::new([n; 32])
}

fn frag(n: u8) -> Fragment {
    Fragment::new(fid(n), vec![n, n])
}

fn filled_controller() -> Pools {
    let mut pools = Pools::new(8, 2, Logs::new(64), PropagationSink::new(16), None).unwrap();
    pools.insert_and_propagate_all(
        FragmentOrigin::Rest,
        vec![frag(1), frag(2), frag(3), frag(4)],
        false,
        9,
    );
    pools
}

#[test]
fn selection_keeps_selected_and_drops_invalid() {
    let mut pools = filled_controller();
    let verdicts = vec![
        FragmentVerdict::Selected,
        FragmentVerdict::Invalid,
        FragmentVerdict::Skipped,
        FragmentVerdict::Selected,
    ];
    let contents = pools.apply_selection(1, &verdicts, false);
    assert_eq!(contents.fragments.len(), 2);
    assert!(contents.fragments[0].id.same(&fid(1)));
    assert!(contents.fragments[1].id.same(&fid(4)));
    // selected fragments stay pooled, in both shards
    for shard in 0..2 {
        let held = pools.pool_fragments(shard);
        assert!(held.iter().any(|f| f.id.same(&fid(1))));
        assert!(held.iter().any(|f| f.id.same(&fid(4))));
        assert!(held.iter().all(|f| !f.id.same(&fid(2))));
    }
    // the invalid fragment is terminally rejected in the logs
    let entries = pools.logs().query_by_ids(&vec![fid(2)]);
    assert_eq!(
        entries[0].status,
        FragmentStatus::Rejected { reason: RejectReason::InvalidForLedger },
    );
}

#[test]
fn selection_stops_at_full() {
    let mut pools = filled_controller();
    let verdicts = vec![
        FragmentVerdict::Selected,
        FragmentVerdict::Full,
        FragmentVerdict::Selected,
        FragmentVerdict::Selected,
    ];
    let contents = pools.apply_selection(0, &verdicts, false);
    assert_eq!(contents.fragments.len(), 1);
    assert!(contents.fragments[0].id.same(&fid(1)));
    assert_eq!(pools.pool_fragments(0).len(), 4);
}

#[test]
fn elapsed_hard_deadline_selects_nothing() {
    let mut pools = filled_controller();
    let verdicts = vec![FragmentVerdict::Selected, FragmentVerdict::Invalid];
    let contents = pools.apply_selection(0, &verdicts, true);
    assert_eq!(contents.fragments.len(), 0);
    // nothing moved: all four fragments still pooled, none rejected
    assert_eq!(pools.pool_fragments(0).len(), 4);
    let entries = pools.logs().query_by_ids(&vec![fid(2)]);
    assert_eq!(entries[0].status, FragmentStatus::Pending);
}

#[test]
fn commands_dispatch_through_the_loop_step() {
    let mut pools = Pools::new(8, 1, Logs::new(64), PropagationSink::new(16), None).unwrap();
    let outcome = handle_command(
        &mut pools,
        TransactionCommand::Submit {
            origin: FragmentOrigin::Rest,
            fragments: vec![frag(1), frag(2)],
            fail_fast: false,
        },
        42,
    );
    match outcome {
        CommandOutcome::Submitted { summary } => assert_eq!(summary.accepted.len(), 2),
        _ => panic!("expected a submission summary"),
    }
    let outcome = handle_command(&mut pools, TransactionCommand::GetLogs, 43);
    match outcome {
        CommandOutcome::LogsSnapshot { entries } => {
            assert_eq!(entries.len(), 2);
            assert!(entries[0].id.same(&fid(1)));
            assert_eq!(entries[0].received_at, 42);
        },
        _ => panic!("expected a logs snapshot"),
    }
    let outcome = handle_command(
        &mut pools,
        TransactionCommand::RemoveInBlock { ids: vec![fid(1)], date: 3, block: 9 },
        44,
    );
    assert!(matches!(outcome, CommandOutcome::Removed));
    let outcome = handle_command(
        &mut pools,
        TransactionCommand::GetStatuses { ids: vec![fid(1), fid(2), fid(5)] },
        45,
    );
    match outcome {
        CommandOutcome::Statuses { entries } => {
            assert_eq!(entries.len(), 2);
            assert_eq!(entries[0].status, FragmentStatus::InABlock { date: 3, block: 9 });
            assert_eq!(entries[1].status, FragmentStatus::Pending);
        },
        _ => panic!("expected statuses"),
    }
    let outcome = handle_command(
        &mut pools,
        TransactionCommand::Select {
            pool_idx: 0,
            verdicts: vec![FragmentVerdict::Selected],
            hard_deadline_elapsed: false,
        },
        46,
    );
    match outcome {
        CommandOutcome::Selected { contents } => {
            assert_eq!(contents.fragments.len(), 1);
            assert!(contents.fragments[0].id.same(&fid(2)));
        },
        _ => panic!("expected block contents"),
    }
}
