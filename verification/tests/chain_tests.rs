use chainshot::chain::{calculate_safe_number, extract_facts, plan_fetch, record_block};
use chainshot::ledger::Ledger;
use chainshot::types::{Block, Txn};

#[test]
fn safe_number_with_margin_behind_tip() {
    assert_eq!(calculate_safe_number(25), Some(15));
}

#[test]
fn safe_number_none_when_tip_below_margin() {
    assert_eq!(calculate_safe_number(5), None);
    assert_eq!(calculate_safe_number(9), None);
}

#[test]
fn safe_number_at_exact_margin() {
    assert_eq!(calculate_safe_number(10), Some(0));
}

#[test]
fn plan_fetch_from_genesis() {
    // safe = 15, nothing recorded: fetch the first five blocks
    assert_eq!(plan_fetch(None, 25), Some((0, 4)));
}

#[test]
fn plan_fetch_caps_batch() {
    assert_eq!(plan_fetch(Some(2), 25), Some((3, 7)));
}

#[test]
fn plan_fetch_up_to_safe() {
    assert_eq!(plan_fetch(Some(10), 25), Some((11, 15)));
    assert_eq!(plan_fetch(Some(14), 25), Some((15, 15)));
}

#[test]
fn plan_fetch_none_when_caught_up() {
    assert_eq!(plan_fetch(Some(15), 25), None);
    assert_eq!(plan_fetch(Some(20), 25), None);
}

#[test]
fn plan_fetch_none_without_safe_height() {
    assert_eq!(plan_fetch(None, 5), None);
    // safe height of zero: nothing to act on yet
    assert_eq!(plan_fetch(None, 10), None);
}

#[test]
fn extract_facts_collects_hashes_and_outputs() {
    let block = Block {
        timestamp: 777,
        transactions: vec![
            Txn { hash: vec![1u8; 32], outputs: vec![100, 200] },
            Txn { hash: vec![2u8; 32], outputs: vec![300] },
        ],
    };
    let (hashes, cells) = extract_facts(&block);
    assert_eq!(hashes.len(), 2);
    assert_eq!(hashes[0], vec![1u8; 32]);
    assert_eq!(hashes[1], vec![2u8; 32]);
    assert_eq!(cells.len(), 3);
    assert_eq!(cells[0].tx_hash, vec![1u8; 32]);
    assert_eq!(cells[0].index, 0);
    assert_eq!(cells[0].capacity, 100);
    assert_eq!(cells[1].index, 1);
    assert_eq!(cells[1].capacity, 200);
    assert_eq!(cells[2].tx_hash, vec![2u8; 32]);
    assert_eq!(cells[2].index, 0);
    assert_eq!(cells[2].capacity, 300);
}

#[test]
fn record_block_advances_chain() {
    let mut l = Ledger::new();
    l.update_tip_status(12).unwrap();
    let b0 = Block {
        timestamp: 1000,
        transactions: vec![Txn { hash: vec![1u8; 32], outputs: vec![100] }],
    };
    let b1 = Block {
        timestamp: 2000,
        transactions: vec![Txn { hash: vec![2u8; 32], outputs: vec![] }],
    };
    assert!(record_block(&mut l, 0, &b0).is_ok());
    assert!(record_block(&mut l, 1, &b1).is_ok());
    assert_eq!(l.select_chain_number(), Some(1));
}
