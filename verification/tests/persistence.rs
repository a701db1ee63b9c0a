use fragment_core::Fragment;
use fragment_core::FragmentId;
use fragment_core::FragmentOrigin;
use fragment_core::Process;
use fragment_core::PropagationSink;
use fragment_core::decode_all;
use fragment_core::secs_until_next_hour;

fn fid(n: u8) -> FragmentId {
    FragmentId::new([n; 32])
}

fn frag(n: u8) -> Fragment {
    Fragment::new(fid(n), vec![n; 4])
}

// 2020-01-01 09:47:00 UTC
const START: u64 = 1577872020;
// 2020-01-01 10:00:00 UTC
const NEXT_HOUR: u64 = 1577872800;

#[test]
fn record_encoding_is_exact() {
    let mut pools = Process::new(4, 16, PropagationSink::new(4))
        .build(1, 0, true)
        .unwrap()
        .0;
    let f = Fragment::new(fid(7), vec![0xAA]);
    pools.insert_and_propagate_all(FragmentOrigin::Rest, vec![f], false, 1);
    let written = pools.persistent_contents().unwrap().clone();
    assert_eq!(
        written,
        vec![1, 0, 0, 0, 0, 0, 0, 0, 0, 1, 0, 0, 0, 0xAA],
    );
}

#[test]
fn persistent_log_round_trips() {
    let mut pools = Process::new(8, 64, PropagationSink::new(16))
        .build(2, START, true)
        .unwrap()
        .0;
    pools.insert_and_propagate_all(
        FragmentOrigin::Rest,
        vec![frag(1), frag(2)],
        false,
        START,
    );
    pools.insert_and_propagate_all(FragmentOrigin::Network, vec![frag(3)], false, START + 9);
    let written = pools.persistent_contents().unwrap().clone();
    let records = decode_all(&written).expect("the written stream scans back");
    assert_eq!(records.len(), 3);
    assert_eq!(records[0].received_at, START);
    assert_eq!(records[0].origin, FragmentOrigin::Rest);
    assert_eq!(records[0].data, vec![1; 4]);
    assert_eq!(records[1].data, vec![2; 4]);
    assert_eq!(records[2].received_at, START + 9);
    assert_eq!(records[2].origin, FragmentOrigin::Network);
    assert_eq!(records[2].data, vec![3; 4]);
}

#[test]
fn hourly_rotation_splits_files() {
    let (mut pools, warned, file) = Process::new(8, 64, PropagationSink::new(16))
        .build(1, START, true)
        .unwrap();
    assert!(!warned);
    assert_eq!(file.unwrap(), "2020-01-01_09.log");

    pools.insert_and_propagate_all(FragmentOrigin::Rest, vec![frag(1)], false, START);
    let hour09 = pools.persistent_contents().unwrap().clone();

    let name = pools.rotate(NEXT_HOUR).unwrap();
    assert_eq!(name, "2020-01-01_10.log");

    pools.insert_and_propagate_all(FragmentOrigin::Rest, vec![frag(2)], false, NEXT_HOUR + 5);
    let hour10 = pools.persistent_contents().unwrap().clone();

    let records09 = decode_all(&hour09).unwrap();
    assert_eq!(records09.len(), 1);
    assert_eq!(records09[0].data, vec![1; 4]);
    let records10 = decode_all(&hour10).unwrap();
    assert_eq!(records10.len(), 1);
    assert_eq!(records10[0].data, vec![2; 4]);
    assert_eq!(records10[0].received_at, NEXT_HOUR + 5);
}

#[test]
fn rotation_inert_without_persistence() {
    let (mut pools, _, file) = Process::new(8, 64, PropagationSink::new(16))
        .build(1, START, false)
        .unwrap();
    assert!(file.is_none());
    assert!(pools.persistent_contents().is_none());
    assert!(pools.rotate(NEXT_HOUR).is_none());
    assert!(pools.persistent_contents().is_none());
}

#[test]
fn decode_rejects_trailing_garbage() {
    assert!(decode_all(&vec![1, 2, 3]).is_none());
    assert!(decode_all(&vec![]).unwrap().is_empty());
}

#[test]
fn rotation_timer_aligns_to_the_hour() {
    // 13 minutes to the top of the hour
    assert_eq!(secs_until_next_hour(START), 780);
    assert_eq!(START + 780, NEXT_HOUR);
    // at the top of an hour the timer arms for the full next hour
    assert_eq!(secs_until_next_hour(NEXT_HOUR), 3600);
}

#[test]
fn zero_pools_refused_at_build() {
    let r = Process::new(4, 16, PropagationSink::new(4)).build(0, START, false);
    assert!(matches!(
        r,
        Err(fragment_core::Error::Pool(fragment_core::PoolError::NoPools)),
    ));
}

#[test]
fn rotation_delay_stays_within_the_hour() {
    let (now, delay) = fragment_core::next_rotation_delay();
    assert!(1 <= delay && delay <= 3600);
    assert_eq!((now + delay) % 3600, 0);
}

#[test]
fn capacity_warning_reported_once_at_build() {
    // logs capacity below n_pools * pool_max_entries: raised, flagged
    let (pools, warned, _) = Process::new(10, 5, PropagationSink::new(4))
        .build(3, 0, false)
        .unwrap();
    assert!(warned);
    assert_eq!(pools.logs().len(), 0);
    // generous logs capacity: no warning owed
    let (_, warned, _) = Process::new(10, 100, PropagationSink::new(4))
        .build(3, 0, false)
        .unwrap();
    assert!(!warned);
}
