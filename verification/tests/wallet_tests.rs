use chainshot::wallet::{
    BlockStore, StoredBlock, StoredOutput, StoredTxn, Wallet, WalletReader, WalletWriter,
    FLAG_CHECKED, FLAG_DIRTY,
};

fn two_block_store() -> BlockStore {
    let mut s = BlockStore::new();
    let b0 = StoredBlock {
        transactions: vec![StoredTxn {
            hash: vec![0xaa; 32],
            outputs: vec![
                StoredOutput { lock: vec![7u8; 20], capacity: 500 },
                StoredOutput { lock: vec![8u8; 20], capacity: 300 },
            ],
        }],
    };
    let b1 = StoredBlock { transactions: vec![] };
    s.push_block(b0);
    s.push_block(b1);
    s
}

#[test]
fn numbers_round_trip_by_flag() {
    let mut s = BlockStore::new();
    let key = vec![5u8; 20];
    assert_eq!(s.select_dirty_number(&key), None);
    s.insert_dirty_number(&key, 42);
    s.insert_checked_number(&key, 7);
    assert_eq!(s.select_dirty_number(&key), Some(42));
    assert_eq!(s.select_checked_number(&key), Some(7));
    // replacing under the same flagged key
    s.insert_number(FLAG_DIRTY, &key, 43);
    assert_eq!(s.select_number(FLAG_DIRTY, &key), Some(43));
    assert_eq!(s.select_number(FLAG_CHECKED, &key), Some(7));
    // another identity is untouched
    assert_eq!(s.select_dirty_number(&vec![6u8; 20]), None);
}

#[test]
fn cell_status_round_trip() {
    let mut s = BlockStore::new();
    let h = vec![0xaa; 32];
    assert_eq!(s.select_cell_status(&h, 0), None);
    s.update_cell_status(&h, 0, true);
    assert_eq!(s.select_cell_status(&h, 0), Some(true));
    assert_eq!(s.select_cell_status(&h, 1), None);
    s.update_cell_status(&h, 0, false);
    assert_eq!(s.select_cell_status(&h, 0), Some(false));
}

#[test]
fn takes_an_available_cell_once() {
    let mut s = two_block_store();
    let lock = vec![7u8; 20];
    s.update_cell_status(&vec![0xaa; 32], 0, true);
    let (op, capacity) = s.take_a_cell(&lock).unwrap();
    assert_eq!(op.tx_hash, vec![0xaa; 32]);
    assert_eq!(op.index, 0);
    assert_eq!(capacity, 500);
    // consumed: a second take finds nothing
    assert_eq!(s.select_cell_status(&vec![0xaa; 32], 0), Some(false));
    assert!(s.take_a_cell(&lock).is_none());
    // the fully confirmed scan advanced the checked cursor
    assert_eq!(s.select_checked_number(&lock), Some(0));
}

#[test]
fn unknown_status_marks_scan_dirty() {
    let mut s = two_block_store();
    let lock = vec![7u8; 20];
    // no status row for the matching output: nothing to take, dirty scan
    assert!(s.take_a_cell(&lock).is_none());
    assert_eq!(s.select_dirty_number(&lock), Some(0));
    assert_eq!(s.select_checked_number(&lock), None);
}

#[test]
fn other_locks_are_ignored() {
    let mut s = two_block_store();
    s.update_cell_status(&vec![0xaa; 32], 0, true);
    assert!(s.take_a_cell(&vec![9u8; 20]).is_none());
    // the available cell under the other lock is still there
    assert_eq!(s.select_cell_status(&vec![0xaa; 32], 0), Some(true));
}
