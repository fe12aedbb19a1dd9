use chainshot::sender::{
    build_cycle, build_self_transfer, cycle_pause_millis, random_endpoint_index, Counters,
};
use chainshot::types::CellRec;

#[test]
fn endpoint_index_is_in_range() {
    assert_eq!(random_endpoint_index(1), 0);
    for _ in 0..32 {
        assert!(random_endpoint_index(5) < 5);
    }
}

#[test]
fn self_transfer_keeps_capacity() {
    let cell = CellRec { tx_hash: vec![3u8; 32], index: 4, capacity: 777 };
    let t = build_self_transfer(&cell);
    assert_eq!(t.input.tx_hash, vec![3u8; 32]);
    assert_eq!(t.input.index, 4);
    assert_eq!(t.output_capacity, 777);
}

#[test]
fn cycle_builds_one_transfer_per_cell() {
    let cells = vec![
        CellRec { tx_hash: vec![1u8; 32], index: 0, capacity: 10 },
        CellRec { tx_hash: vec![2u8; 32], index: 1, capacity: 20 },
    ];
    let ts = build_cycle(&cells);
    assert_eq!(ts.len(), 2);
    assert_eq!(ts[0].input.tx_hash, vec![1u8; 32]);
    assert_eq!(ts[0].output_capacity, 10);
    assert_eq!(ts[1].input.index, 1);
    assert_eq!(ts[1].output_capacity, 20);
}

#[test]
fn empty_cycle_sleeps_longer() {
    assert_eq!(cycle_pause_millis(0, 500, 5000), 5000);
    assert_eq!(cycle_pause_millis(3, 500, 5000), 500);
}

#[test]
fn counters_accumulate_outcomes() {
    let mut c = Counters::new();
    c.record(true);
    c.record(true);
    c.record(false);
    assert_eq!(c.sent, 3);
    assert_eq!(c.passed, 2);
    assert_eq!(c.failed, 1);
}
