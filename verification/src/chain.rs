//! The chain follower's decisions: which height is safe to act on, which
//! blocks to fetch next, and how a fetched block becomes ledger facts.

use vstd::prelude::*;

use crate::ledger::{
    cells_model, hashes_model, insert_cells, insert_txns, CellModel, Ledger,
};
use crate::types::{clone_bytes, Block, CellRec, LedgerError, Txn};

verus! {

/// Trailing safety margin: blocks closer than this to the remote tip may
/// still be reorganized away and are never acted on.
pub const SAFE_NUMBER_DISTANCE: u64 = 10;

/// How many blocks one follower iteration fetches at most, so the worker
/// yields regularly instead of starving the others.
pub const FETCH_BATCH: u64 = 5;

/// Highest block height considered final, if any: the remote tip minus the
/// safety margin.
pub fn calculate_safe_number(tip_number: u64) -> (safe: Option<u64>)
    ensures
        tip_number < SAFE_NUMBER_DISTANCE ==> safe is None,
        tip_number >= SAFE_NUMBER_DISTANCE ==> safe == Some(
            (tip_number - SAFE_NUMBER_DISTANCE) as u64,
        ),
{
    if tip_number < SAFE_NUMBER_DISTANCE {
        None
    } else {
        Some(tip_number - SAFE_NUMBER_DISTANCE)
    }
}

/// The height the follower would fetch first: one past the last recorded
/// block, or height zero while nothing is recorded.
pub open spec fn next_height(chain: Option<u64>) -> int {
    match chain {
        Option::None => 0,
        Option::Some(c) => c + 1,
    }
}

/// The heights one follower iteration fetches, inclusive on both ends:
/// from the block after the last recorded one up to the safe height,
/// capped at `FETCH_BATCH` blocks. Nothing is fetched while no safe height
/// exists, the safe height is zero with nothing recorded, or the safe
/// height is already recorded.
pub fn plan_fetch(chain: Option<u64>, tip: u64) -> (r: Option<(u64, u64)>)
    ensures
        tip < SAFE_NUMBER_DISTANCE ==> r is None,
        tip >= SAFE_NUMBER_DISTANCE ==> {
            let safe = tip - SAFE_NUMBER_DISTANCE;
            &&& (safe == 0 || safe < next_height(chain)) <==> r is None
            &&& r matches Some(range) ==> {
                &&& range.0 == next_height(chain)
                &&& range.1 == (if safe < next_height(chain) + (FETCH_BATCH - 1) {
                    safe as int
                } else {
                    next_height(chain) + (FETCH_BATCH - 1)
                })
                &&& range.0 <= range.1 <= safe
                &&& range.1 - range.0 < FETCH_BATCH
            }
        },
{
    let safe = match calculate_safe_number(tip) {
        None => {
            return None;
        },
        Some(s) => s,
    };
    if safe == 0 {
        return None;
    }
    let start = match chain {
        None => 0,
        Some(c) => {
            if c >= safe {
                return None;
            }
            c + 1
        },
    };
    let capped = start + (FETCH_BATCH - 1);
    let end = if safe < capped {
        safe
    } else {
        capped
    };
    Some((start, end))
}

/// The transaction hashes a block carries, in order.
pub open spec fn block_hashes(txs: Seq<Txn>) -> Seq<Seq<u8>> {
    txs.map_values(|t: Txn| t.hash@)
}

/// The output rows one transaction contributes: its hash, each output's
/// position, and that output's capacity.
pub open spec fn txn_cells(t: Txn) -> Seq<CellModel> {
    Seq::new(t.outputs@.len(), |i: int| (t.hash@, i as u32, t.outputs@[i]))
}

/// The output rows a block contributes, transaction by transaction.
pub open spec fn block_cells(txs: Seq<Txn>) -> Seq<CellModel>
    decreases txs.len(),
{
    if txs.len() == 0 {
        Seq::empty()
    } else {
        block_cells(txs.drop_last()) + txn_cells(txs.last())
    }
}

/// Extracts a fetched block's facts: the hash of every transaction, and
/// every output of every transaction as a row keyed by (hash, position).
#[verifier::loop_isolation(false)]
pub fn extract_facts(b: &Block) -> (r: (Vec<Vec<u8>>, Vec<CellRec>))
    ensures
        hashes_model(r.0@) == block_hashes(b.transactions@),
        cells_model(r.1@) == block_cells(b.transactions@),
{
    let mut hashes: Vec<Vec<u8>> = Vec::new();
    let mut cells: Vec<CellRec> = Vec::new();
    let n = b.transactions.len();
    let mut i: usize = 0;
    while i < n
        invariant
            i <= n,
            hashes_model(hashes@) == block_hashes(b.transactions@.take(i as int)),
            cells_model(cells@) == block_cells(b.transactions@.take(i as int)),
        decreases n - i,
    {
        proof {
            assert(b.transactions@.take(i + 1).drop_last() =~= b.transactions@.take(i as int));
        }
        let t = &b.transactions[i];
        let ghost hashes_before = hashes@;
        hashes.push(clone_bytes(&t.hash));
        proof {
            assert(hashes_model(hashes@) =~= hashes_model(hashes_before).push(
                b.transactions@[i as int].hash@,
            ));
            assert(block_hashes(b.transactions@.take(i + 1)) =~= block_hashes(
                b.transactions@.take(i as int),
            ).push(b.transactions@[i as int].hash@));
        }
        let m = t.outputs.len();
        let mut j: usize = 0;
        while j < m
            invariant
                j <= m,
                m == b.transactions@[i as int].outputs@.len(),
                i < n,
                cells_model(cells@) == block_cells(b.transactions@.take(i as int)) + txn_cells(
                    b.transactions@[i as int],
                ).take(j as int),
            decreases m - j,
        {
            let ghost cells_before = cells@;
            cells.push(
                CellRec {
                    tx_hash: clone_bytes(&t.hash),
                    index: j as u32,
                    capacity: t.outputs[j],
                },
            );
            proof {
                assert(cells_model(cells@) =~= cells_model(cells_before).push(
                    (b.transactions@[i as int].hash@, j as u32, b.transactions@[
                        i as int
                    ].outputs@[j as int]),
                ));
                assert(txn_cells(b.transactions@[i as int]).take(j + 1) =~= txn_cells(
                    b.transactions@[i as int],
                ).take(j as int).push(
                    (b.transactions@[i as int].hash@, j as u32, b.transactions@[
                        i as int
                    ].outputs@[j as int]),
                ));
            }
            j += 1;
        }
        proof {
            assert(txn_cells(b.transactions@[i as int]).take(m as int) =~= txn_cells(
                b.transactions@[i as int],
            ));
            assert(block_cells(b.transactions@.take(i + 1)) =~= block_cells(
                b.transactions@.take(i as int),
            ) + txn_cells(b.transactions@[i as int]));
        }
        i += 1;
    }
    proof {
        assert(b.transactions@.take(n as int) =~= b.transactions@);
    }
    (hashes, cells)
}

/// Records one fetched block in the ledger: timestamp, transaction hashes
/// and outputs, in a single idempotent batch.
pub fn record_block(ledger: &mut Ledger, height: u64, b: &Block) -> (r: Result<(), LedgerError>)
    requires
        old(ledger).wf(),
    ensures
        final(ledger).wf(),
        height > old(ledger).tip ==> r == Result::<(), LedgerError>::Err(LedgerError::BeyondTip)
            && *final(ledger) == *old(ledger),
        height <= old(ledger).tip && height > old(ledger).blocks@.len() ==> r == Result::<
            (),
            LedgerError,
        >::Err(LedgerError::HeightGap) && *final(ledger) == *old(ledger),
        height <= old(ledger).tip && height <= old(ledger).blocks@.len() ==> {
            &&& r is Ok
            &&& final(ledger).blocks@ == (if height < old(ledger).blocks@.len() {
                old(ledger).blocks@.update(height as int, b.timestamp)
            } else {
                old(ledger).blocks@.push(b.timestamp)
            })
            &&& final(ledger).txns() == insert_txns(
                old(ledger).txns(),
                block_hashes(b.transactions@),
                height,
            )
            &&& final(ledger).cells_m() == insert_cells(
                old(ledger).cells_m(),
                block_cells(b.transactions@),
            )
            &&& final(ledger).harvested_m() == old(ledger).harvested_m()
            &&& final(ledger).submissions_m() == old(ledger).submissions_m()
            &&& final(ledger).tip == old(ledger).tip
            &&& final(ledger).turn == old(ledger).turn
            &&& final(ledger).harvested == old(ledger).harvested
        },
{
    let (hashes, cells) = extract_facts(b);
    ledger.record_block_facts(height, b.timestamp, &hashes, &cells)
}

} // verus!
