use chainshot::ledger::{derive_rates, window_start, Ledger, TRAILING_WINDOW};
use chainshot::types::CellRec;

/// Three submissions in one cycle; two result hashes appear on chain
/// within the trailing window, one never does.
fn scenario() -> Ledger {
    let mut l = Ledger::new();
    l.update_tip_status(5).unwrap();
    // blocks 0..=5, timestamp = height * 1000; block 1 carries the harvest
    // transaction whose outputs get spent
    for h in 0u64..=5 {
        let (hashes, cells) = if h == 1 {
            (
                vec![vec![9u8; 32]],
                vec![
                    CellRec { tx_hash: vec![9u8; 32], index: 0, capacity: 100 },
                    CellRec { tx_hash: vec![9u8; 32], index: 1, capacity: 100 },
                    CellRec { tx_hash: vec![9u8; 32], index: 2, capacity: 100 },
                ],
            )
        } else {
            (vec![], vec![])
        };
        l.record_block_facts(h, h * 1000, &hashes, &cells).unwrap();
    }
    l.save_stolen_transaction(1, &vec![9u8; 32]);
    // three load transactions submitted at tip 5 (their turn height)
    l.save_transaction(&vec![9u8; 32], 0, &vec![1u8; 32]);
    l.save_transaction(&vec![9u8; 32], 1, &vec![2u8; 32]);
    l.save_transaction(&vec![9u8; 32], 2, &vec![3u8; 32]);
    // block 6 confirms the first two result hashes; the third never lands
    l.update_tip_status(16).unwrap();
    l.record_block_facts(6, 6000, &vec![vec![1u8; 32], vec![2u8; 32]], &vec![])
        .unwrap();
    l
}

#[test]
fn counts_submitted_and_confirmed() {
    let l = scenario();
    let (submitted, by_hash, on_chain) = l.count_transactions();
    assert_eq!(submitted, 3);
    assert_eq!(by_hash, 2);
    assert_eq!(on_chain, 2);
}

#[test]
fn trailing_window_counts_confirmed_submissions() {
    let l = scenario();
    // trailing window of the most recent 50 recorded heights: from 0 here
    let chain = l.select_chain_number().unwrap();
    let from = window_start(chain, TRAILING_WINDOW);
    assert_eq!(from, 0);
    let stats = l.do_statistics(from);
    assert_eq!(stats.count, 2);
    assert_eq!(stats.first_timestamp, 5000);
    assert_eq!(stats.last_timestamp, 6000);
    assert_eq!(stats.min_latency, 1000);
    assert_eq!(stats.max_latency, 1000);
    assert_eq!(stats.sum_latency, 2000);
}

#[test]
fn window_past_turn_height_excludes_submissions() {
    let l = scenario();
    let stats = l.do_statistics(6);
    assert_eq!(stats.count, 0);
    assert_eq!(stats.first_timestamp, 0);
    assert_eq!(stats.last_timestamp, 0);
    assert_eq!(stats.min_latency, 0);
    assert_eq!(stats.max_latency, 0);
    assert_eq!(stats.sum_latency, 0);
}

#[test]
fn rates_derive_from_window_statistics() {
    let l = scenario();
    let s = l.do_statistics(0);
    let (elapsed, tps, avg) = derive_rates(&s);
    assert_eq!(elapsed, 1000);
    assert_eq!(tps, 2);
    assert_eq!(avg, 1000);
}

#[test]
fn window_start_covers_recent_heights() {
    assert_eq!(window_start(100, 50), 51);
    assert_eq!(window_start(49, 50), 0);
    assert_eq!(window_start(50, 50), 1);
    assert_eq!(window_start(0, 50), 0);
}

#[test]
fn statistics_on_empty_ledger_are_zero() {
    let l = Ledger::new();
    let stats = l.do_statistics(0);
    assert_eq!(stats.count, 0);
    assert_eq!(stats.sum_latency, 0);
    let (submitted, by_hash, on_chain) = l.count_transactions();
    assert_eq!((submitted, by_hash, on_chain), (0, 0, 0));
}
