use chainshot::harvest::{
    consolidate, harvest_scan_block, parse_capacity, record_harvest_success, steal_plan,
    sum_capacities,
};
use chainshot::ledger::Ledger;
use chainshot::types::{HarvestError, OutPoint};

fn outpoint(b: u8, index: u32) -> OutPoint {
    OutPoint { tx_hash: vec![b; 32], index }
}

#[test]
fn parse_capacity_reads_decimal() {
    assert_eq!(parse_capacity(&b"0".to_vec()), Some(0));
    assert_eq!(parse_capacity(&b"12345".to_vec()), Some(12345));
    assert_eq!(parse_capacity(&b"007".to_vec()), Some(7));
    assert_eq!(
        parse_capacity(&b"18446744073709551615".to_vec()),
        Some(u64::MAX)
    );
}

#[test]
fn parse_capacity_rejects_non_numbers() {
    assert_eq!(parse_capacity(&b"".to_vec()), None);
    assert_eq!(parse_capacity(&b"12x4".to_vec()), None);
    assert_eq!(parse_capacity(&b"-5".to_vec()), None);
    // one past the largest 64-bit value
    assert_eq!(parse_capacity(&b"18446744073709551616".to_vec()), None);
}

#[test]
fn sum_capacities_is_exact() {
    assert_eq!(sum_capacities(&vec![1, 2, 3]), Some(6));
    assert_eq!(sum_capacities(&vec![]), Some(0));
    assert_eq!(sum_capacities(&vec![u64::MAX, 0]), Some(u64::MAX));
}

#[test]
fn sum_capacities_detects_overflow() {
    assert_eq!(sum_capacities(&vec![u64::MAX, 1]), None);
}

#[test]
fn consolidation_splits_million() {
    // total 1,000,000 at minimum capacity 6,100 and at most 10 outputs
    let c = consolidate(1_000_000, 6_100, 10).unwrap();
    assert_eq!(c.dest_count, 10);
    assert_eq!(c.dest_capacity, 6_100);
    assert_eq!(c.change_capacity, 939_000);
    assert_eq!(c.change_capacity + c.dest_count as u64 * c.dest_capacity, 1_000_000);
}

#[test]
fn consolidation_skips_poor_totals() {
    assert!(consolidate(6_100, 6_100, 10).is_none());
    assert!(consolidate(5_000, 6_100, 10).is_none());
}

#[test]
fn consolidation_without_room_for_destinations() {
    // just above the minimum: everything goes back as change
    let c = consolidate(6_101, 6_100, 10).unwrap();
    assert_eq!(c.dest_count, 0);
    assert_eq!(c.change_capacity, 6_101);
}

#[test]
fn steal_plan_conserves_capacity() {
    let cells = vec![
        (outpoint(1, 0), b"400000".to_vec()),
        (outpoint(2, 3), b"600000".to_vec()),
    ];
    let plan = steal_plan(&cells, 6_100, 10).unwrap().unwrap();
    assert_eq!(plan.inputs.len(), 2);
    assert_eq!(plan.inputs[0].tx_hash, vec![1u8; 32]);
    assert_eq!(plan.inputs[1].index, 3);
    assert_eq!(plan.dest_capacities.len(), 10);
    let mut produced: u64 = plan.change_capacity;
    for d in &plan.dest_capacities {
        assert!(*d >= 6_100);
        assert_eq!(*d, 6_100);
        produced += *d;
    }
    assert_eq!(produced, 1_000_000);
    assert!(plan.change_capacity >= 6_100);
}

#[test]
fn steal_plan_reports_bad_capacity() {
    let cells = vec![(outpoint(1, 0), b"12x4".to_vec())];
    assert!(matches!(steal_plan(&cells, 6_100, 10), Err(HarvestError::NonNumericCapacity)));
}

#[test]
fn steal_plan_reports_overflow() {
    let cells = vec![
        (outpoint(1, 0), b"18446744073709551615".to_vec()),
        (outpoint(2, 0), b"18446744073709551615".to_vec()),
    ];
    assert!(matches!(steal_plan(&cells, 6_100, 10), Err(HarvestError::CapacityOverflow)));
}

#[test]
fn steal_plan_skips_poor_block() {
    let cells = vec![(outpoint(1, 0), b"50".to_vec())];
    assert!(matches!(steal_plan(&cells, 6_100, 10), Ok(None)));
}

fn ledger_with_blocks(n: u64) -> Ledger {
    let mut l = Ledger::new();
    l.update_tip_status(n + 10).unwrap();
    for h in 0..=n {
        l.record_block_facts(h, h * 1000, &vec![], &vec![]).unwrap();
    }
    l
}

#[test]
fn poor_harvest_still_advances_cursor() {
    let mut l = ledger_with_blocks(2);
    let cells = vec![(outpoint(1, 0), b"50".to_vec())];
    let r = harvest_scan_block(&mut l, 1, &cells, 6_100, 10);
    assert!(matches!(r, Ok(None)));
    assert_eq!(l.select_stolen_status(), 1);
    assert_eq!(l.count_unspent_cells(), 0);
}

#[test]
fn rich_harvest_waits_for_submission_success() {
    let mut l = ledger_with_blocks(2);
    let cells = vec![(outpoint(1, 0), b"1000000".to_vec())];
    let r = harvest_scan_block(&mut l, 1, &cells, 6_100, 10);
    let plan = r.unwrap().unwrap();
    assert_eq!(plan.dest_capacities.len(), 10);
    // nothing moved yet: the cursor advances only after acceptance
    assert_eq!(l.select_stolen_status(), 0);
    record_harvest_success(&mut l, 1, &vec![4u8; 32]);
    assert_eq!(l.select_stolen_status(), 1);
}

#[test]
fn failed_arithmetic_leaves_ledger_untouched() {
    let mut l = ledger_with_blocks(2);
    let cells = vec![(outpoint(1, 0), b"bogus".to_vec())];
    let r = harvest_scan_block(&mut l, 1, &cells, 6_100, 10);
    assert!(matches!(r, Err(HarvestError::NonNumericCapacity)));
    assert_eq!(l.select_stolen_status(), 0);
}
