use chainshot::ledger::Ledger;
use chainshot::types::{CellRec, LedgerError};

fn cell(hash_byte: u8, index: u32, capacity: u64) -> CellRec {
    CellRec { tx_hash: vec![hash_byte; 32], index, capacity }
}

#[test]
fn cursors_start_at_zero() {
    let l = Ledger::new();
    assert_eq!(l.select_tip_status(), 0);
    assert_eq!(l.select_turn_status(), 0);
    assert_eq!(l.select_stolen_status(), 0);
    assert_eq!(l.select_chain_number(), None);
}

#[test]
fn tip_cursor_moves_forward_only() {
    let mut l = Ledger::new();
    assert!(l.update_tip_status(5).is_ok());
    assert_eq!(l.update_tip_status(3), Err(LedgerError::CursorRegression));
    assert_eq!(l.select_tip_status(), 5);
}

#[test]
fn turn_cursor_stays_at_or_below_tip() {
    let mut l = Ledger::new();
    l.update_tip_status(5).unwrap();
    assert!(l.update_turn_status(4).is_ok());
    assert_eq!(l.update_turn_status(6), Err(LedgerError::BeyondTip));
    assert_eq!(l.update_turn_status(2), Err(LedgerError::CursorRegression));
    assert_eq!(l.select_turn_status(), 4);
}

#[test]
fn harvested_cursor_stays_at_or_below_chain() {
    let mut l = Ledger::new();
    assert_eq!(l.update_stolen_status(1), Err(LedgerError::BeyondChain));
    l.update_tip_status(12).unwrap();
    l.record_block_facts(0, 10, &vec![], &vec![]).unwrap();
    l.record_block_facts(1, 20, &vec![], &vec![]).unwrap();
    assert!(l.update_stolen_status(1).is_ok());
    assert_eq!(l.update_stolen_status(2), Err(LedgerError::BeyondChain));
    assert_eq!(l.update_stolen_status(0), Err(LedgerError::CursorRegression));
    assert_eq!(l.select_stolen_status(), 1);
}

#[test]
fn record_refuses_gaps_and_unsafe_heights() {
    let mut l = Ledger::new();
    l.update_tip_status(12).unwrap();
    assert_eq!(
        l.record_block_facts(2, 10, &vec![], &vec![]),
        Err(LedgerError::HeightGap)
    );
    assert_eq!(
        l.record_block_facts(13, 10, &vec![], &vec![]),
        Err(LedgerError::BeyondTip)
    );
    assert!(l.record_block_facts(0, 10, &vec![], &vec![]).is_ok());
    assert_eq!(l.select_chain_number(), Some(0));
}

#[test]
fn reinserting_block_facts_changes_nothing() {
    let mut l = Ledger::new();
    l.update_tip_status(12).unwrap();
    let hashes = vec![vec![9u8; 32]];
    let cells = vec![cell(9, 0, 100), cell(9, 1, 200)];
    l.record_block_facts(0, 10, &hashes, &cells).unwrap();
    l.save_stolen_transaction(0, &vec![9u8; 32]);
    let before_count = l.count_unspent_cells();
    let before = l.fetch_unspent_cells(10);
    // the same height, timestamp, hashes and outpoints a second time
    assert!(l.record_block_facts(0, 10, &hashes, &cells).is_ok());
    let after = l.fetch_unspent_cells(10);
    assert_eq!(l.count_unspent_cells(), before_count);
    assert_eq!(l.select_chain_number(), Some(0));
    assert_eq!(before.len(), after.len());
    for i in 0..before.len() {
        assert_eq!(before[i].tx_hash, after[i].tx_hash);
        assert_eq!(before[i].index, after[i].index);
        assert_eq!(before[i].capacity, after[i].capacity);
    }
}

#[test]
fn unspent_is_owned_minus_submitted() {
    let mut l = Ledger::new();
    l.update_tip_status(12).unwrap();
    // one harvest transaction with three outputs, one unrelated output
    let hashes = vec![vec![9u8; 32], vec![5u8; 32]];
    let cells = vec![cell(9, 0, 100), cell(9, 1, 200), cell(9, 2, 300), cell(5, 0, 400)];
    l.record_block_facts(0, 10, &hashes, &cells).unwrap();
    assert_eq!(l.count_unspent_cells(), 0);
    l.save_stolen_transaction(0, &vec![9u8; 32]);
    assert_eq!(l.count_unspent_cells(), 3);
    // spend one owned output
    l.save_transaction(&vec![9u8; 32], 1, &vec![7u8; 32]);
    assert_eq!(l.count_unspent_cells(), 2);
    let got = l.fetch_unspent_cells(10);
    assert_eq!(got.len(), 2);
    assert_eq!(got[0].index, 0);
    assert_eq!(got[1].index, 2);
    // spending the same outpoint again is ignored
    l.save_transaction(&vec![9u8; 32], 1, &vec![8u8; 32]);
    assert_eq!(l.count_unspent_cells(), 2);
}

#[test]
fn fetch_unspent_respects_limit() {
    let mut l = Ledger::new();
    l.update_tip_status(12).unwrap();
    let hashes = vec![vec![9u8; 32]];
    let cells = vec![cell(9, 0, 100), cell(9, 1, 200), cell(9, 2, 300)];
    l.record_block_facts(0, 10, &hashes, &cells).unwrap();
    l.save_stolen_transaction(0, &vec![9u8; 32]);
    let got = l.fetch_unspent_cells(2);
    assert_eq!(got.len(), 2);
    assert_eq!(got[0].index, 0);
    assert_eq!(got[1].index, 1);
    assert_eq!(l.fetch_unspent_cells(0).len(), 0);
}
