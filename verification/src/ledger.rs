//! The ledger: the durable, queryable record of chain blocks, observed
//! outputs, harvest transactions, submitted load transactions and named
//! progress cursors. Every worker of the harness communicates only through
//! it.
//!
//! Block facts form a contiguous prefix of heights: the timestamp of the
//! block at height `h` sits at index `h` of `blocks`, so a block is never
//! skipped. The `chain` cursor is derived as the last recorded height.
//! Persistence of this state is the embedding program's concern; the
//! bookkeeping rules live here.

use vstd::prelude::*;

use crate::types::{bytes_eq, clone_bytes, outpoint_eq, CellRec, LedgerError};

verus! {

/// A spent owned output: the outpoint that was consumed, the hash of the
/// load transaction that spent it, and the tip height at submission time
/// (the "turn" the submission belongs to).
pub struct Submission {
    pub tx_hash: Vec<u8>,
    pub index: u32,
    pub result_hash: Vec<u8>,
    pub turn_height: u64,
}

/// Mathematical model of a recorded transaction hash: content and height.
pub type TxnModel = (Seq<u8>, u64);

/// Mathematical model of a recorded output: hash, index and capacity.
pub type CellModel = (Seq<u8>, u32, u64);

/// Mathematical model of a submission: spent outpoint, result hash and
/// turn height.
pub type SubmissionModel = (Seq<u8>, u32, Seq<u8>, u64);

pub open spec fn txns_model(rows: Seq<(Vec<u8>, u64)>) -> Seq<TxnModel> {
    rows.map_values(|r: (Vec<u8>, u64)| (r.0@, r.1))
}

pub open spec fn cells_model(rows: Seq<CellRec>) -> Seq<CellModel> {
    rows.map_values(|r: CellRec| (r.tx_hash@, r.index, r.capacity))
}

pub open spec fn submissions_model(rows: Seq<Submission>) -> Seq<SubmissionModel> {
    rows.map_values(|r: Submission| (r.tx_hash@, r.index, r.result_hash@, r.turn_height))
}

pub open spec fn hashes_model(rows: Seq<Vec<u8>>) -> Seq<Seq<u8>> {
    rows.map_values(|r: Vec<u8>| r@)
}

/// True when a row with hash `h` is in the table.
pub open spec fn txn_present(t: Seq<TxnModel>, h: Seq<u8>) -> bool {
    exists|i: int| 0 <= i < t.len() && t[i].0 == h
}

/// Insert-or-ignore of one hash row, keyed by the hash.
pub open spec fn insert_txn(t: Seq<TxnModel>, h: Seq<u8>, height: u64) -> Seq<TxnModel> {
    if txn_present(t, h) {
        t
    } else {
        t.push((h, height))
    }
}

/// Insert-or-ignore of a batch of hash rows, in order.
pub open spec fn insert_txns(t: Seq<TxnModel>, hs: Seq<Seq<u8>>, height: u64) -> Seq<TxnModel>
    decreases hs.len(),
{
    if hs.len() == 0 {
        t
    } else {
        insert_txn(insert_txns(t, hs.drop_last(), height), hs.last(), height)
    }
}

/// True when a row with outpoint `(h, index)` is in the table.
pub open spec fn cell_present(t: Seq<CellModel>, h: Seq<u8>, index: u32) -> bool {
    exists|i: int| 0 <= i < t.len() && t[i].0 == h && t[i].1 == index
}

/// Insert-or-ignore of one output row, keyed by the outpoint.
pub open spec fn insert_cell(t: Seq<CellModel>, c: CellModel) -> Seq<CellModel> {
    if cell_present(t, c.0, c.1) {
        t
    } else {
        t.push(c)
    }
}

/// Insert-or-ignore of a batch of output rows, in order.
pub open spec fn insert_cells(t: Seq<CellModel>, cs: Seq<CellModel>) -> Seq<CellModel>
    decreases cs.len(),
{
    if cs.len() == 0 {
        t
    } else {
        insert_cell(insert_cells(t, cs.drop_last()), cs.last())
    }
}

/// True when a submission row for outpoint `(h, index)` is in the table.
pub open spec fn submission_present(t: Seq<SubmissionModel>, h: Seq<u8>, index: u32) -> bool {
    exists|i: int| 0 <= i < t.len() && t[i].0 == h && t[i].1 == index
}

/// Every recorded transaction's height lies in the recorded prefix.
pub open spec fn txn_heights_below(t: Seq<TxnModel>, nblocks: int) -> bool {
    forall|i: int| 0 <= i < t.len() ==> (#[trigger] t[i]).1 < nblocks
}

/// Hashes are a primary key: no two rows share one.
pub open spec fn txns_unique(t: Seq<TxnModel>) -> bool {
    forall|i: int, j: int| 0 <= i < j < t.len() ==> (#[trigger] t[i]).0 != (#[trigger] t[j]).0
}

/// Outpoints are a primary key: no two rows share one.
pub open spec fn cells_unique(t: Seq<CellModel>) -> bool {
    forall|i: int, j: int|
        0 <= i < j < t.len() ==> !((#[trigger] t[i]).0 == (#[trigger] t[j]).0 && t[i].1 == t[j].1)
}

/// Spent outpoints are a primary key: no two rows share one.
pub open spec fn submissions_unique(t: Seq<SubmissionModel>) -> bool {
    forall|i: int, j: int|
        0 <= i < j < t.len() ==> !((#[trigger] t[i]).0 == (#[trigger] t[j]).0 && t[i].1 == t[j].1)
}

/// The smaller of two timestamps or latencies.
pub open spec fn min_u64(a: u64, b: u64) -> u64 {
    if a <= b {
        a
    } else {
        b
    }
}

/// The larger of two timestamps or latencies.
pub open spec fn max_u64(a: u64, b: u64) -> u64 {
    if a >= b {
        a
    } else {
        b
    }
}

/// Inclusion latency of one confirmed submission, as (originating
/// timestamp, confirming timestamp): the difference, or zero where the
/// confirming block's clock ran behind the originating one's.
pub open spec fn latency_of(row: (u64, u64)) -> u64 {
    if row.1 >= row.0 {
        (row.1 - row.0) as u64
    } else {
        0
    }
}

/// Earliest originating timestamp over the rows; zero when there are none.
pub open spec fn rows_first_ts(rows: Seq<(u64, u64)>) -> u64
    decreases rows.len(),
{
    if rows.len() == 0 {
        0
    } else if rows.len() == 1 {
        rows.last().0
    } else {
        min_u64(rows_first_ts(rows.drop_last()), rows.last().0)
    }
}

/// Latest confirming timestamp over the rows; zero when there are none.
pub open spec fn rows_last_ts(rows: Seq<(u64, u64)>) -> u64
    decreases rows.len(),
{
    if rows.len() == 0 {
        0
    } else {
        max_u64(rows_last_ts(rows.drop_last()), rows.last().1)
    }
}

/// Smallest inclusion latency over the rows; zero when there are none.
pub open spec fn rows_min_latency(rows: Seq<(u64, u64)>) -> u64
    decreases rows.len(),
{
    if rows.len() == 0 {
        0
    } else if rows.len() == 1 {
        latency_of(rows.last())
    } else {
        min_u64(rows_min_latency(rows.drop_last()), latency_of(rows.last()))
    }
}

/// Largest inclusion latency over the rows; zero when there are none.
pub open spec fn rows_max_latency(rows: Seq<(u64, u64)>) -> u64
    decreases rows.len(),
{
    if rows.len() == 0 {
        0
    } else {
        max_u64(rows_max_latency(rows.drop_last()), latency_of(rows.last()))
    }
}

/// Sum of the inclusion latencies over the rows.
pub open spec fn rows_sum_latency(rows: Seq<(u64, u64)>) -> int
    decreases rows.len(),
{
    if rows.len() == 0 {
        0
    } else {
        rows_sum_latency(rows.drop_last()) + latency_of(rows.last())
    }
}

/// The latency sum is bounded by one maximal latency per row.
pub proof fn lemma_sum_latency_bound(rows: Seq<(u64, u64)>)
    ensures
        0 <= rows_sum_latency(rows) <= rows.len() * (u64::MAX as int),
    decreases rows.len(),
{
    if rows.len() > 0 {
        lemma_sum_latency_bound(rows.drop_last());
        assert(rows.len() * (u64::MAX as int) == (rows.len() - 1) * (u64::MAX as int) + (
        u64::MAX as int)) by (nonlinear_arith);
    }
}

/// How many of the most recent recorded heights the rolling "recent
/// throughput" statistics cover.
pub const TRAILING_WINDOW: u64 = 50;

/// First turn height of a trailing statistics window: the height that
/// leaves exactly `window` recorded heights from it up to `chain`, or
/// height zero while the chain is still shorter than the window.
pub fn window_start(chain: u64, window: u64) -> (r: u64)
    requires
        window >= 1,
    ensures
        chain + 1 >= window ==> r == chain + 1 - window,
        chain + 1 < window ==> r == 0,
{
    if window > chain {
        0
    } else {
        chain - window + 1
    }
}

/// Derived statistics of one measurement window: how many submissions were
/// confirmed, the wall-clock span they cover, and the smallest, largest
/// and summed inclusion latencies.
pub struct TurnStats {
    pub count: u64,
    pub first_timestamp: u64,
    pub last_timestamp: u64,
    pub min_latency: u64,
    pub max_latency: u64,
    pub sum_latency: u128,
}

/// The display figures derived from one window's statistics, never
/// stored: elapsed wall time between the first and last timestamp,
/// confirmed transactions per second over that span (timestamps are in
/// milliseconds), and mean inclusion latency. Zero where the window is
/// empty or instantaneous.
pub fn derive_rates(s: &TurnStats) -> (r: (u64, u128, u128))
    ensures
        r.0 == (if s.last_timestamp >= s.first_timestamp {
            s.last_timestamp - s.first_timestamp
        } else {
            0
        }),
        r.1 == (if r.0 > 0 {
            (s.count * 1000) as u128 / (r.0 as u128)
        } else {
            0
        }),
        r.2 == (if s.count > 0 {
            s.sum_latency / (s.count as u128)
        } else {
            0
        }),
{
    let elapsed = if s.last_timestamp >= s.first_timestamp {
        s.last_timestamp - s.first_timestamp
    } else {
        0
    };
    let tps = if elapsed > 0 {
        s.count as u128 * 1000 / elapsed as u128
    } else {
        0
    };
    let avg = if s.count > 0 {
        s.sum_latency / s.count as u128
    } else {
        0
    };
    (elapsed, tps, avg)
}

/// Linear search for a hash among the rows of a hash-keyed table.
fn contains_txn(table: &Vec<(Vec<u8>, u64)>, h: &Vec<u8>) -> (r: bool)
    ensures
        r == txn_present(txns_model(table@), h@),
{
    let n = table.len();
    let mut i: usize = 0;
    while i < n
        invariant
            n == table.len(),
            i <= n,
            forall|j: int| 0 <= j < i ==> (#[trigger] txns_model(table@)[j]).0 != h@,
        decreases n - i,
    {
        if bytes_eq(&table[i].0, h) {
            proof {
                assert(txns_model(table@)[i as int].0 == h@);
            }
            return true;
        }
        i += 1;
    }
    false
}

/// Linear search returning the height stored beside a hash, if any.
fn find_txn_height(table: &Vec<(Vec<u8>, u64)>, h: &Vec<u8>) -> (r: Option<u64>)
    ensures
        r is None ==> !txn_present(txns_model(table@), h@),
        r matches Some(x) ==> exists|i: int|
            0 <= i < txns_model(table@).len() && (#[trigger] txns_model(table@)[i]).0 == h@
                && txns_model(table@)[i].1 == x,
{
    let n = table.len();
    let mut i: usize = 0;
    while i < n
        invariant
            n == table.len(),
            i <= n,
            forall|j: int| 0 <= j < i ==> (#[trigger] txns_model(table@)[j]).0 != h@,
        decreases n - i,
    {
        if bytes_eq(&table[i].0, h) {
            proof {
                assert(txns_model(table@)[i as int].0 == h@);
            }
            return Some(table[i].1);
        }
        i += 1;
    }
    None
}

/// Linear search for an outpoint among the rows of an outpoint-keyed table.
fn contains_cell(table: &Vec<CellRec>, h: &Vec<u8>, index: u32) -> (r: bool)
    ensures
        r == cell_present(cells_model(table@), h@, index),
{
    let n = table.len();
    let mut i: usize = 0;
    while i < n
        invariant
            n == table.len(),
            i <= n,
            forall|j: int|
                0 <= j < i ==> !((#[trigger] cells_model(table@)[j]).0 == h@ && cells_model(
                    table@,
                )[j].1 == index),
        decreases n - i,
    {
        let row = &table[i];
        if outpoint_eq(&row.tx_hash, row.index, h, index) {
            proof {
                assert(cells_model(table@)[i as int].0 == h@);
            }
            return true;
        }
        i += 1;
    }
    false
}

/// Linear search for a spent outpoint among the submission rows.
fn contains_submission(table: &Vec<Submission>, h: &Vec<u8>, index: u32) -> (r: bool)
    ensures
        r == submission_present(submissions_model(table@), h@, index),
{
    let n = table.len();
    let mut i: usize = 0;
    while i < n
        invariant
            n == table.len(),
            i <= n,
            forall|j: int|
                0 <= j < i ==> !((#[trigger] submissions_model(table@)[j]).0 == h@
                    && submissions_model(table@)[j].1 == index),
        decreases n - i,
    {
        let row = &table[i];
        if outpoint_eq(&row.tx_hash, row.index, h, index) {
            proof {
                assert(submissions_model(table@)[i as int].0 == h@);
            }
            return true;
        }
        i += 1;
    }
    false
}

/// Inserting rows whose heights lie below `nblocks` keeps every height
/// below `nblocks` and keeps hashes unique.
pub proof fn lemma_insert_txns_preserves(t: Seq<TxnModel>, hs: Seq<Seq<u8>>, height: u64, nblocks: int)
    requires
        txn_heights_below(t, nblocks),
        txns_unique(t),
        height < nblocks,
    ensures
        txn_heights_below(insert_txns(t, hs, height), nblocks),
        txns_unique(insert_txns(t, hs, height)),
        insert_txns(t, hs, height).len() >= t.len(),
    decreases hs.len(),
{
    if hs.len() > 0 {
        lemma_insert_txns_preserves(t, hs.drop_last(), height, nblocks);
    }
}

/// Inserting output rows keeps outpoints unique.
pub proof fn lemma_insert_cells_preserves(t: Seq<CellModel>, cs: Seq<CellModel>)
    requires
        cells_unique(t),
    ensures
        cells_unique(insert_cells(t, cs)),
        insert_cells(t, cs).len() >= t.len(),
    decreases cs.len(),
{
    if cs.len() > 0 {
        lemma_insert_cells_preserves(t, cs.drop_last());
    }
}

/// Idempotence of the hash-table insert: a batch whose every hash is
/// already recorded changes nothing.
pub proof fn lemma_insert_txns_idempotent(t: Seq<TxnModel>, hs: Seq<Seq<u8>>, height: u64)
    requires
        forall|k: int| 0 <= k < hs.len() ==> txn_present(t, #[trigger] hs[k]),
    ensures
        insert_txns(t, hs, height) == t,
    decreases hs.len(),
{
    if hs.len() > 0 {
        lemma_insert_txns_idempotent(t, hs.drop_last(), height);
    }
}

/// Idempotence of the output-table insert: a batch whose every outpoint is
/// already recorded changes nothing.
pub proof fn lemma_insert_cells_idempotent(t: Seq<CellModel>, cs: Seq<CellModel>)
    requires
        forall|k: int|
            0 <= k < cs.len() ==> cell_present(t, (#[trigger] cs[k]).0, cs[k].1),
    ensures
        insert_cells(t, cs) == t,
    decreases cs.len(),
{
    if cs.len() > 0 {
        lemma_insert_cells_idempotent(t, cs.drop_last());
    }
}

pub struct Ledger {
    /// Timestamp of the block at height == index: block facts form a
    /// contiguous prefix of heights with no gaps.
    pub blocks: Vec<u64>,
    /// Hash and height of every transaction seen in a recorded block.
    pub chain_txns: Vec<(Vec<u8>, u64)>,
    /// Every transaction output observed in a recorded block. Immutable
    /// once written, never deleted.
    pub cells: Vec<CellRec>,
    /// Hash and height of every accepted harvest transaction: outputs of
    /// these transactions are owned.
    pub harvested_txns: Vec<(Vec<u8>, u64)>,
    /// Every owned output spent by a load transaction.
    pub submissions: Vec<Submission>,
    /// Remote chain head as last observed.
    pub tip: u64,
    /// Statistics checkpoint: start of the current measurement window.
    pub turn: u64,
    /// Last block height scanned by the harvester.
    pub harvested: u64,
}

impl Ledger {
    pub open spec fn txns(self) -> Seq<TxnModel> {
        txns_model(self.chain_txns@)
    }

    pub open spec fn cells_m(self) -> Seq<CellModel> {
        cells_model(self.cells@)
    }

    pub open spec fn harvested_m(self) -> Seq<TxnModel> {
        txns_model(self.harvested_txns@)
    }

    pub open spec fn submissions_m(self) -> Seq<SubmissionModel> {
        submissions_model(self.submissions@)
    }

    /// Last recorded block height, the derived `chain` cursor.
    pub open spec fn chain_number(self) -> Option<u64> {
        if self.blocks.len() == 0 {
            None
        } else {
            Some((self.blocks.len() - 1) as u64)
        }
    }

    /// The `chain` cursor as an integer, 0 while nothing is recorded.
    pub open spec fn chain_int(self) -> int {
        if self.blocks.len() == 0 {
            0
        } else {
            self.blocks.len() - 1
        }
    }

    /// A block fact exists for height `h`.
    pub open spec fn has_block(self, h: int) -> bool {
        0 <= h < self.blocks.len()
    }

    /// Well-formedness: cursor ordering `harvested <= chain <= tip`,
    /// `turn <= tip`, recorded transaction heights within the recorded
    /// prefix, and primary-key uniqueness of every table.
    pub open spec fn wf(self) -> bool {
        &&& self.blocks.len() > 0 ==> self.blocks.len() - 1 <= self.tip
        &&& self.harvested <= self.chain_int()
        &&& self.turn <= self.tip
        &&& txn_heights_below(self.txns(), self.blocks.len() as int)
        &&& txns_unique(self.txns())
        &&& cells_unique(self.cells_m())
        &&& txns_unique(self.harvested_m())
        &&& submissions_unique(self.submissions_m())
    }

    /// An output is owned when an accepted harvest transaction produced it.
    pub open spec fn cell_owned(self, c: CellModel) -> bool {
        txn_present(self.harvested_m(), c.0)
    }

    /// An output is spent when a submission row consumed it.
    pub open spec fn cell_spent(self, c: CellModel) -> bool {
        submission_present(self.submissions_m(), c.0, c.1)
    }

    /// An output is owned-unspent when a harvest transaction produced it
    /// and no submission spent it.
    pub open spec fn cell_unspent_owned(self, c: CellModel) -> bool {
        self.cell_owned(c) && !self.cell_spent(c)
    }

    /// The owned-unspent rows of `cs`, in table order.
    pub open spec fn unspent_owned_of(self, cs: Seq<CellModel>) -> Seq<CellModel>
        decreases cs.len(),
    {
        if cs.len() == 0 {
            Seq::empty()
        } else {
            let rest = self.unspent_owned_of(cs.drop_last());
            if self.cell_unspent_owned(cs.last()) {
                rest.push(cs.last())
            } else {
                rest
            }
        }
    }

    /// The inventory: every recorded output that is owned and unspent.
    pub open spec fn unspent_owned(self) -> Seq<CellModel> {
        self.unspent_owned_of(self.cells_m())
    }

    /// How many rows of `cs` are owned.
    pub open spec fn owned_count_of(self, cs: Seq<CellModel>) -> int
        decreases cs.len(),
    {
        if cs.len() == 0 {
            0
        } else {
            self.owned_count_of(cs.drop_last()) + (if self.cell_owned(cs.last()) {
                1int
            } else {
                0int
            })
        }
    }

    /// How many rows of `cs` are owned and already spent.
    pub open spec fn spent_owned_count_of(self, cs: Seq<CellModel>) -> int
        decreases cs.len(),
    {
        if cs.len() == 0 {
            0
        } else {
            self.spent_owned_count_of(cs.drop_last()) + (if self.cell_owned(cs.last())
                && self.cell_spent(cs.last()) {
                1int
            } else {
                0int
            })
        }
    }

    /// A submission is confirmed by hash when its result hash was seen as
    /// a transaction of some recorded block.
    pub open spec fn confirmed_by_hash(self, s: SubmissionModel) -> bool {
        txn_present(self.txns(), s.2)
    }

    /// A submission is confirmed on chain when, additionally, the block
    /// fact of the confirming transaction's height is recorded. Whenever
    /// the ledger is well formed the two notions coincide; the second
    /// guards the timestamp lookups of the statistics.
    pub open spec fn confirmed_on_chain(self, s: SubmissionModel) -> bool {
        exists|i: int|
            0 <= i < self.txns().len() && (#[trigger] self.txns()[i]).0 == s.2 && self.txns()[i].1
                < self.blocks@.len()
    }

    /// How many rows of `subs` are confirmed by hash.
    pub open spec fn confirmed_by_hash_count_of(self, subs: Seq<SubmissionModel>) -> int
        decreases subs.len(),
    {
        if subs.len() == 0 {
            0
        } else {
            self.confirmed_by_hash_count_of(subs.drop_last()) + (if self.confirmed_by_hash(
                subs.last(),
            ) {
                1int
            } else {
                0int
            })
        }
    }

    /// How many rows of `subs` are confirmed on chain.
    pub open spec fn confirmed_on_chain_count_of(self, subs: Seq<SubmissionModel>) -> int
        decreases subs.len(),
    {
        if subs.len() == 0 {
            0
        } else {
            self.confirmed_on_chain_count_of(subs.drop_last()) + (if self.confirmed_on_chain(
                subs.last(),
            ) {
                1int
            } else {
                0int
            })
        }
    }

    /// Height of the recorded transaction with hash `h`. Well defined on a
    /// well-formed ledger, where hashes are unique.
    pub open spec fn txn_height(self, h: Seq<u8>) -> u64 {
        let i = choose|i: int| 0 <= i < self.txns().len() && self.txns()[i].0 == h;
        self.txns()[i].1
    }

    /// A submission belongs to the statistics window starting at `from`
    /// when its turn height is at least `from`, its originating block fact
    /// is recorded, and it is confirmed on chain.
    pub open spec fn stat_included(self, s: SubmissionModel, from: u64) -> bool {
        &&& s.3 >= from
        &&& s.3 < self.blocks@.len()
        &&& self.confirmed_on_chain(s)
    }

    /// Timestamp of the block whose turn the submission was stamped with.
    pub open spec fn orig_ts(self, s: SubmissionModel) -> u64 {
        self.blocks@[s.3 as int]
    }

    /// Timestamp of the block that confirmed the submission.
    pub open spec fn conf_ts(self, s: SubmissionModel) -> u64 {
        self.blocks@[self.txn_height(s.2) as int]
    }

    /// The (originating timestamp, confirming timestamp) pairs of the
    /// rows of `subs` that the window starting at `from` includes.
    pub open spec fn stat_rows_of(self, subs: Seq<SubmissionModel>, from: u64) -> Seq<(u64, u64)>
        decreases subs.len(),
    {
        if subs.len() == 0 {
            Seq::empty()
        } else {
            let rest = self.stat_rows_of(subs.drop_last(), from);
            if self.stat_included(subs.last(), from) {
                rest.push((self.orig_ts(subs.last()), self.conf_ts(subs.last())))
            } else {
                rest
            }
        }
    }

    /// The timestamp pairs of every confirmed submission of the window
    /// starting at `from`.
    pub open spec fn stat_rows(self, from: u64) -> Seq<(u64, u64)> {
        self.stat_rows_of(self.submissions_m(), from)
    }

    /// A fresh ledger: no facts recorded, every cursor at zero.
    pub fn new() -> (l: Ledger)
        ensures
            l.wf(),
            l.blocks@ =~= Seq::<u64>::empty(),
            l.txns() =~= Seq::<TxnModel>::empty(),
            l.cells_m() =~= Seq::<CellModel>::empty(),
            l.harvested_m() =~= Seq::<TxnModel>::empty(),
            l.submissions_m() =~= Seq::<SubmissionModel>::empty(),
            l.tip == 0 && l.turn == 0 && l.harvested == 0,
    {
        Ledger {
            blocks: Vec::new(),
            chain_txns: Vec::new(),
            cells: Vec::new(),
            harvested_txns: Vec::new(),
            submissions: Vec::new(),
            tip: 0,
            turn: 0,
            harvested: 0,
        }
    }

    pub fn select_tip_status(&self) -> (r: u64)
        ensures
            r == self.tip,
    {
        self.tip
    }

    pub fn select_turn_status(&self) -> (r: u64)
        ensures
            r == self.turn,
    {
        self.turn
    }

    pub fn select_stolen_status(&self) -> (r: u64)
        ensures
            r == self.harvested,
    {
        self.harvested
    }

    /// Last recorded block height, if any block facts exist.
    pub fn select_chain_number(&self) -> (r: Option<u64>)
        ensures
            r == self.chain_number(),
    {
        if self.blocks.len() == 0 {
            None
        } else {
            Some((self.blocks.len() - 1) as u64)
        }
    }

    /// Advances the tip cursor. The cursor only moves forward: a value
    /// behind the current one is refused and nothing changes.
    pub fn update_tip_status(&mut self, number: u64) -> (r: Result<(), LedgerError>)
        requires
            old(self).wf(),
        ensures
            final(self).wf(),
            number >= old(self).tip ==> r is Ok && *final(self) == (Ledger {
                tip: number,
                ..*old(self)
            }),
            number < old(self).tip ==> r == Result::<(), LedgerError>::Err(
                LedgerError::CursorRegression,
            ) && *final(self) == *old(self),
    {
        if number < self.tip {
            Err(LedgerError::CursorRegression)
        } else {
            self.tip = number;
            Ok(())
        }
    }

    /// Advances the turn cursor: forward only, and never past the tip.
    pub fn update_turn_status(&mut self, number: u64) -> (r: Result<(), LedgerError>)
        requires
            old(self).wf(),
        ensures
            final(self).wf(),
            old(self).turn <= number <= old(self).tip ==> r is Ok && *final(self) == (Ledger {
                turn: number,
                ..*old(self)
            }),
            number < old(self).turn ==> r == Result::<(), LedgerError>::Err(
                LedgerError::CursorRegression,
            ) && *final(self) == *old(self),
            number > old(self).tip ==> r == Result::<(), LedgerError>::Err(LedgerError::BeyondTip)
                && *final(self) == *old(self),
    {
        if number < self.turn {
            Err(LedgerError::CursorRegression)
        } else if number > self.tip {
            Err(LedgerError::BeyondTip)
        } else {
            self.turn = number;
            Ok(())
        }
    }

    /// Advances the harvested cursor: forward only, and never past the
    /// last recorded block.
    pub fn update_stolen_status(&mut self, number: u64) -> (r: Result<(), LedgerError>)
        requires
            old(self).wf(),
        ensures
            final(self).wf(),
            old(self).harvested <= number <= old(self).chain_int() ==> r is Ok && *final(self)
                == (Ledger { harvested: number, ..*old(self) }),
            number < old(self).harvested ==> r == Result::<(), LedgerError>::Err(
                LedgerError::CursorRegression,
            ) && *final(self) == *old(self),
            number > old(self).chain_int() ==> r == Result::<(), LedgerError>::Err(
                LedgerError::BeyondChain,
            ) && *final(self) == *old(self),
    {
        if number < self.harvested {
            Err(LedgerError::CursorRegression)
        } else {
            let within_chain = if self.blocks.len() == 0 {
                number == 0
            } else {
                number <= (self.blocks.len() - 1) as u64
            };
            if !within_chain {
                Err(LedgerError::BeyondChain)
            } else {
                self.harvested = number;
                Ok(())
            }
        }
    }

    /// Records one block's facts: its timestamp, the hash of every
    /// transaction in it, and every output of every transaction. The batch
    /// is idempotent: hashes and outpoints already recorded are silently
    /// ignored. A block beyond the tip, or one that would leave a height
    /// gap, is refused and nothing changes.
    #[verifier::loop_isolation(false)]
    pub fn record_block_facts(
        &mut self,
        height: u64,
        timestamp: u64,
        tx_hashes: &Vec<Vec<u8>>,
        cells: &Vec<CellRec>,
    ) -> (r: Result<(), LedgerError>)
        requires
            old(self).wf(),
        ensures
            final(self).wf(),
            height > old(self).tip ==> r == Result::<(), LedgerError>::Err(LedgerError::BeyondTip)
                && *final(self) == *old(self),
            height <= old(self).tip && height > old(self).blocks@.len() ==> r == Result::<
                (),
                LedgerError,
            >::Err(LedgerError::HeightGap) && *final(self) == *old(self),
            height <= old(self).tip && height <= old(self).blocks@.len() ==> {
                &&& r is Ok
                &&& final(self).blocks@ == (if height < old(self).blocks@.len() {
                    old(self).blocks@.update(height as int, timestamp)
                } else {
                    old(self).blocks@.push(timestamp)
                })
                &&& final(self).txns() == insert_txns(
                    old(self).txns(),
                    hashes_model(tx_hashes@),
                    height,
                )
                &&& final(self).cells_m() == insert_cells(old(self).cells_m(), cells_model(cells@))
                &&& final(self).harvested_m() == old(self).harvested_m()
                &&& final(self).submissions_m() == old(self).submissions_m()
                &&& final(self).tip == old(self).tip
                &&& final(self).turn == old(self).turn
                &&& final(self).harvested == old(self).harvested
            },
    {
        if height > self.tip {
            return Err(LedgerError::BeyondTip);
        }
        if height > self.blocks.len() as u64 {
            return Err(LedgerError::HeightGap);
        }
        let ghost nb: Seq<u64> = (if height < old(self).blocks@.len() {
            old(self).blocks@.update(height as int, timestamp)
        } else {
            old(self).blocks@.push(timestamp)
        });
        if height < self.blocks.len() as u64 {
            self.blocks.set(height as usize, timestamp);
        } else {
            self.blocks.push(timestamp);
        }
        let ghost txns0 = self.txns();
        let ghost hm = hashes_model(tx_hashes@);
        let n_hashes = tx_hashes.len();
        let mut i: usize = 0;
        while i < n_hashes
            invariant
                i <= n_hashes,
                self.txns() == insert_txns(txns0, hm.take(i as int), height),
                self.blocks@ == nb,
                self.cells == old(self).cells,
                self.harvested_txns == old(self).harvested_txns,
                self.submissions == old(self).submissions,
                self.tip == old(self).tip,
                self.turn == old(self).turn,
                self.harvested == old(self).harvested,
            decreases n_hashes - i,
        {
            proof {
                assert(hm.take(i + 1).drop_last() =~= hm.take(i as int));
                assert(hm.take(i + 1).last() == tx_hashes@[i as int]@);
            }
            if !contains_txn(&self.chain_txns, &tx_hashes[i]) {
                let row = (clone_bytes(&tx_hashes[i]), height);
                let ghost before = self.chain_txns@;
                self.chain_txns.push(row);
                proof {
                    assert(txns_model(self.chain_txns@) =~= txns_model(before).push(
                        (tx_hashes@[i as int]@, height),
                    ));
                }
            }
            i += 1;
        }
        proof {
            assert(hm.take(n_hashes as int) =~= hm);
        }
        let ghost txns_done = self.txns();
        let ghost cells0 = self.cells_m();
        let ghost cm = cells_model(cells@);
        let n_cells = cells.len();
        let mut k: usize = 0;
        while k < n_cells
            invariant
                k <= n_cells,
                self.cells_m() == insert_cells(cells0, cm.take(k as int)),
                self.blocks@ == nb,
                self.txns() == txns_done,
                self.harvested_txns == old(self).harvested_txns,
                self.submissions == old(self).submissions,
                self.tip == old(self).tip,
                self.turn == old(self).turn,
                self.harvested == old(self).harvested,
            decreases n_cells - k,
        {
            proof {
                assert(cm.take(k + 1).drop_last() =~= cm.take(k as int));
            }
            let c = &cells[k];
            if !contains_cell(&self.cells, &c.tx_hash, c.index) {
                let row = CellRec {
                    tx_hash: clone_bytes(&c.tx_hash),
                    index: c.index,
                    capacity: c.capacity,
                };
                let ghost before = self.cells@;
                self.cells.push(row);
                proof {
                    assert(cells_model(self.cells@) =~= cells_model(before).push(
                        (cells@[k as int].tx_hash@, cells@[k as int].index, cells@[
                            k as int
                        ].capacity),
                    ));
                }
            }
            k += 1;
        }
        proof {
            assert(cm.take(n_cells as int) =~= cm);
            assert(txn_heights_below(old(self).txns(), nb.len() as int)) by {
                assert forall|i: int|
                    0 <= i < old(self).txns().len() implies (#[trigger] old(self).txns()[
                    i
                ]).1 < nb.len() by {
                    assert(old(self).txns()[i].1 < old(self).blocks@.len());
                }
            }
            lemma_insert_txns_preserves(old(self).txns(), hm, height, nb.len() as int);
            lemma_insert_cells_preserves(old(self).cells_m(), cm);
        }
        Ok(())
    }

    /// Records an accepted harvest transaction at the given height: its
    /// outputs are owned from now on. A hash already recorded is silently
    /// ignored.
    pub fn save_stolen_transaction(&mut self, number: u64, tx_hash: &Vec<u8>)
        requires
            old(self).wf(),
        ensures
            final(self).wf(),
            final(self).harvested_m() == insert_txn(old(self).harvested_m(), tx_hash@, number),
            final(self).blocks == old(self).blocks,
            final(self).txns() == old(self).txns(),
            final(self).cells_m() == old(self).cells_m(),
            final(self).submissions_m() == old(self).submissions_m(),
            final(self).tip == old(self).tip,
            final(self).turn == old(self).turn,
            final(self).harvested == old(self).harvested,
    {
        if !contains_txn(&self.harvested_txns, tx_hash) {
            let ghost before = self.harvested_txns@;
            self.harvested_txns.push((clone_bytes(tx_hash), number));
            proof {
                assert(txns_model(self.harvested_txns@) =~= txns_model(before).push(
                    (tx_hash@, number),
                ));
            }
        }
    }

    /// Records that the owned output `(tx_hash, index)` was spent by the
    /// load transaction `result_hash`, stamped with the tip cursor as the
    /// turn the submission belongs to. An outpoint already spent is
    /// silently ignored.
    pub fn save_transaction(&mut self, tx_hash: &Vec<u8>, index: u32, result_hash: &Vec<u8>)
        requires
            old(self).wf(),
        ensures
            final(self).wf(),
            final(self).submissions_m() == (if submission_present(
                old(self).submissions_m(),
                tx_hash@,
                index,
            ) {
                old(self).submissions_m()
            } else {
                old(self).submissions_m().push((tx_hash@, index, result_hash@, old(self).tip))
            }),
            final(self).blocks == old(self).blocks,
            final(self).txns() == old(self).txns(),
            final(self).cells_m() == old(self).cells_m(),
            final(self).harvested_m() == old(self).harvested_m(),
            final(self).tip == old(self).tip,
            final(self).turn == old(self).turn,
            final(self).harvested == old(self).harvested,
    {
        if !contains_submission(&self.submissions, tx_hash, index) {
            let row = Submission {
                tx_hash: clone_bytes(tx_hash),
                index,
                result_hash: clone_bytes(result_hash),
                turn_height: self.tip,
            };
            let ghost before = self.submissions@;
            self.submissions.push(row);
            proof {
                assert(submissions_model(self.submissions@) =~= submissions_model(before).push(
                    (tx_hash@, index, result_hash@, old(self).tip),
                ));
            }
        }
    }

    /// Whether the recorded output `c` is owned and unspent, by searching
    /// the harvest and submission tables.
    fn cell_is_unspent_owned(&self, c: &CellRec) -> (r: bool)
        ensures
            r == self.cell_unspent_owned((c.tx_hash@, c.index, c.capacity)),
    {
        contains_txn(&self.harvested_txns, &c.tx_hash) && !contains_submission(
            &self.submissions,
            &c.tx_hash,
            c.index,
        )
    }

    /// Up to `limit` owned-unspent outputs, in table order: the anti-join
    /// of recorded outputs against submissions, restricted to outputs of
    /// harvest transactions.
    #[verifier::loop_isolation(false)]
    pub fn fetch_unspent_cells(&self, limit: usize) -> (r: Vec<CellRec>)
        ensures
            cells_model(r@) == (if self.unspent_owned().len() <= limit {
                self.unspent_owned()
            } else {
                self.unspent_owned().take(limit as int)
            }),
    {
        let mut out: Vec<CellRec> = Vec::new();
        let n = self.cells.len();
        let mut i: usize = 0;
        while i < n && out.len() < limit
            invariant
                i <= n,
                out.len() <= limit,
                cells_model(out@) == self.unspent_owned_of(self.cells_m().take(i as int)),
            decreases n - i,
        {
            proof {
                assert(self.cells_m().take(i + 1).drop_last() =~= self.cells_m().take(i as int));
            }
            let c = &self.cells[i];
            if self.cell_is_unspent_owned(c) {
                let ghost before = out@;
                out.push(
                    CellRec {
                        tx_hash: clone_bytes(&c.tx_hash),
                        index: c.index,
                        capacity: c.capacity,
                    },
                );
                proof {
                    assert(cells_model(out@) =~= cells_model(before).push(
                        (self.cells@[i as int].tx_hash@, self.cells@[i as int].index, self.cells@[
                            i as int
                        ].capacity),
                    ));
                }
            }
            i += 1;
        }
        proof {
            if i == n {
                assert(self.cells_m().take(n as int) =~= self.cells_m());
                assert(cells_model(out@) == self.unspent_owned());
                if self.unspent_owned().len() > limit {
                    // impossible: the loop would have stopped at `limit`
                    lemma_unspent_of_concat(
                        *self,
                        self.cells_m().take(i as int),
                        self.cells_m().skip(i as int),
                    );
                    assert(self.cells_m().take(i as int) + self.cells_m().skip(i as int)
                        =~= self.cells_m());
                }
            } else {
                lemma_unspent_of_concat(
                    *self,
                    self.cells_m().take(i as int),
                    self.cells_m().skip(i as int),
                );
                assert(self.cells_m().take(i as int) + self.cells_m().skip(i as int)
                    =~= self.cells_m());
                assert(cells_model(out@) =~= self.unspent_owned().take(limit as int));
            }
        }
        out
    }

    /// How many recorded outputs are owned and unspent.
    #[verifier::loop_isolation(false)]
    pub fn count_unspent_cells(&self) -> (r: u64)
        ensures
            r == self.unspent_owned().len(),
    {
        let n = self.cells.len();
        let mut count: usize = 0;
        let mut i: usize = 0;
        while i < n
            invariant
                i <= n,
                count == self.unspent_owned_of(self.cells_m().take(i as int)).len(),
                count <= i,
            decreases n - i,
        {
            proof {
                assert(self.cells_m().take(i + 1).drop_last() =~= self.cells_m().take(i as int));
            }
            let c = &self.cells[i];
            if self.cell_is_unspent_owned(c) {
                count += 1;
            }
            i += 1;
        }
        proof {
            assert(self.cells_m().take(n as int) =~= self.cells_m());
        }
        count as u64
    }

    /// The global (submitted, confirmed-by-hash, confirmed-on-chain)
    /// triple over all submissions.
    #[verifier::loop_isolation(false)]
    pub fn count_transactions(&self) -> (r: (u64, u64, u64))
        requires
            self.wf(),
        ensures
            r.0 == self.submissions_m().len(),
            r.1 == self.confirmed_by_hash_count_of(self.submissions_m()),
            r.2 == self.confirmed_on_chain_count_of(self.submissions_m()),
    {
        let n = self.submissions.len();
        let mut by_hash: usize = 0;
        let mut on_chain: usize = 0;
        let mut i: usize = 0;
        while i < n
            invariant
                i <= n,
                by_hash <= i,
                on_chain <= i,
                by_hash == self.confirmed_by_hash_count_of(self.submissions_m().take(i as int)),
                on_chain == self.confirmed_on_chain_count_of(self.submissions_m().take(i as int)),
            decreases n - i,
        {
            proof {
                assert(self.submissions_m().take(i + 1).drop_last() =~= self.submissions_m().take(
                    i as int,
                ));
            }
            let s = &self.submissions[i];
            let ghost sm = self.submissions_m()[i as int];
            match find_txn_height(&self.chain_txns, &s.result_hash) {
                Some(h) => {
                    proof {
                        let k = choose|k: int|
                            0 <= k < txns_model(self.chain_txns@).len() && (#[trigger] txns_model(
                                self.chain_txns@,
                            )[k]).0 == s.result_hash@ && txns_model(self.chain_txns@)[k].1 == h;
                        assert(self.txns()[k].0 == sm.2);
                        if h < self.blocks@.len() {
                            assert(self.confirmed_on_chain(sm));
                        } else {
                            if self.confirmed_on_chain(sm) {
                                let j = choose|j: int|
                                    0 <= j < self.txns().len() && (#[trigger] self.txns()[j]).0
                                        == sm.2 && self.txns()[j].1 < self.blocks@.len();
                                assert(j != k);
                                if j < k {
                                    assert(self.txns()[j].0 != self.txns()[k].0);
                                } else {
                                    assert(self.txns()[k].0 != self.txns()[j].0);
                                }
                                assert(false);
                            }
                        }
                    }
                    by_hash += 1;
                    if h < self.blocks.len() as u64 {
                        on_chain += 1;
                    }
                },
                None => {
                    proof {
                        if self.confirmed_on_chain(sm) {
                            let j = choose|j: int|
                                0 <= j < self.txns().len() && (#[trigger] self.txns()[j]).0 == sm.2
                                    && self.txns()[j].1 < self.blocks@.len();
                            assert(txn_present(self.txns(), sm.2));
                        }
                    }
                },
            }
            i += 1;
        }
        proof {
            assert(self.submissions_m().take(n as int) =~= self.submissions_m());
        }
        (n as u64, by_hash as u64, on_chain as u64)
    }

    /// Derived statistics over the confirmed submissions whose turn height
    /// is at least `number`: their count, the earliest originating and
    /// latest confirming block timestamps, and the smallest, largest and
    /// summed inclusion latencies. All zero when nothing qualifies.
    #[verifier::loop_isolation(false)]
    pub fn do_statistics(&self, number: u64) -> (r: TurnStats)
        requires
            self.wf(),
        ensures
            r.count == self.stat_rows(number).len(),
            r.first_timestamp == rows_first_ts(self.stat_rows(number)),
            r.last_timestamp == rows_last_ts(self.stat_rows(number)),
            r.min_latency == rows_min_latency(self.stat_rows(number)),
            r.max_latency == rows_max_latency(self.stat_rows(number)),
            r.sum_latency == rows_sum_latency(self.stat_rows(number)),
    {
        let n = self.submissions.len();
        let mut count: usize = 0;
        let mut first: u64 = 0;
        let mut last: u64 = 0;
        let mut min_lat: u64 = 0;
        let mut max_lat: u64 = 0;
        let mut sum_lat: u128 = 0;
        let mut i: usize = 0;
        while i < n
            invariant
                i <= n,
                count == self.stat_rows_of(self.submissions_m().take(i as int), number).len(),
                count <= i,
                first == rows_first_ts(self.stat_rows_of(self.submissions_m().take(i as int), number)),
                last == rows_last_ts(self.stat_rows_of(self.submissions_m().take(i as int), number)),
                min_lat == rows_min_latency(
                    self.stat_rows_of(self.submissions_m().take(i as int), number),
                ),
                max_lat == rows_max_latency(
                    self.stat_rows_of(self.submissions_m().take(i as int), number),
                ),
                sum_lat == rows_sum_latency(
                    self.stat_rows_of(self.submissions_m().take(i as int), number),
                ),
            decreases n - i,
        {
            let ghost cur = self.stat_rows_of(self.submissions_m().take(i as int), number);
            proof {
                assert(self.submissions_m().take(i + 1).drop_last() =~= self.submissions_m().take(
                    i as int,
                ));
                lemma_sum_latency_bound(cur);
            }
            let s = &self.submissions[i];
            let ghost sm = self.submissions_m()[i as int];
            if s.turn_height >= number && s.turn_height < self.blocks.len() as u64 {
                match find_txn_height(&self.chain_txns, &s.result_hash) {
                    Some(h) => {
                        proof {
                            let k = choose|k: int|
                                0 <= k < txns_model(self.chain_txns@).len() && (
                                #[trigger] txns_model(self.chain_txns@)[k]).0 == s.result_hash@
                                    && txns_model(self.chain_txns@)[k].1 == h;
                            assert(self.txns()[k].0 == sm.2);
                            let j = choose|j: int|
                                0 <= j < self.txns().len() && self.txns()[j].0 == sm.2;
                            if j != k {
                                if j < k {
                                    assert(self.txns()[j].0 != self.txns()[k].0);
                                } else {
                                    assert(self.txns()[k].0 != self.txns()[j].0);
                                }
                            }
                            assert(self.txn_height(sm.2) == h);
                            assert(self.txns()[k].1 < self.blocks@.len());
                            assert(self.confirmed_on_chain(sm));
                            assert(self.stat_included(sm, number));
                        }
                        let orig = self.blocks[s.turn_height as usize];
                        let conf = self.blocks[h as usize];
                        let lat = if conf >= orig {
                            conf - orig
                        } else {
                            0
                        };
                        proof {
                            assert(orig == self.orig_ts(sm));
                            assert(conf == self.conf_ts(sm));
                            assert(self.stat_rows_of(
                                self.submissions_m().take(i + 1),
                                number,
                            ) =~= cur.push((orig, conf)));
                            assert(lat == latency_of((orig, conf)));
                            assert(cur.push((orig, conf)).drop_last() =~= cur);
                        }
                        if count == 0 {
                            first = orig;
                            min_lat = lat;
                        } else {
                            if orig < first {
                                first = orig;
                            }
                            if lat < min_lat {
                                min_lat = lat;
                            }
                        }
                        if conf > last {
                            last = conf;
                        }
                        if lat > max_lat {
                            max_lat = lat;
                        }
                        sum_lat = sum_lat + lat as u128;
                        count += 1;
                    },
                    None => {
                        proof {
                            if self.confirmed_on_chain(sm) {
                                let j = choose|j: int|
                                    0 <= j < self.txns().len() && (#[trigger] self.txns()[j]).0
                                        == sm.2 && self.txns()[j].1 < self.blocks@.len();
                                assert(txn_present(self.txns(), sm.2));
                            }
                            assert(self.stat_rows_of(self.submissions_m().take(i + 1), number)
                                =~= cur);
                        }
                    },
                }
            } else {
                proof {
                    assert(!self.stat_included(sm, number));
                    assert(self.stat_rows_of(self.submissions_m().take(i + 1), number) =~= cur);
                }
            }
            i += 1;
        }
        proof {
            assert(self.submissions_m().take(n as int) =~= self.submissions_m());
        }
        TurnStats {
            count: count as u64,
            first_timestamp: first,
            last_timestamp: last,
            min_latency: min_lat,
            max_latency: max_lat,
            sum_latency: sum_lat,
        }
    }
}

/// Appending tables piecewise: the owned-unspent rows of a concatenation
/// are the concatenation of the owned-unspent rows.
pub proof fn lemma_unspent_of_concat(l: Ledger, a: Seq<CellModel>, b: Seq<CellModel>)
    ensures
        l.unspent_owned_of(a + b) == l.unspent_owned_of(a) + l.unspent_owned_of(b),
    decreases b.len(),
{
    if b.len() == 0 {
        assert(a + b =~= a);
        assert(l.unspent_owned_of(b) =~= Seq::<CellModel>::empty());
        assert(l.unspent_owned_of(a) + l.unspent_owned_of(b) =~= l.unspent_owned_of(a));
    } else {
        lemma_unspent_of_concat(l, a, b.drop_last());
        assert((a + b).drop_last() =~= a + b.drop_last());
        assert((a + b).last() == b.last());
        if l.cell_unspent_owned(b.last()) {
            assert(l.unspent_owned_of(a + b) =~= l.unspent_owned_of(a) + l.unspent_owned_of(b));
        } else {
            assert(l.unspent_owned_of(a + b) =~= l.unspent_owned_of(a) + l.unspent_owned_of(b));
        }
    }
}

/// Anti-join correctness: the number of owned-unspent outputs equals the
/// number of owned outputs minus the number of owned outputs with a
/// matching submission row.
pub proof fn lemma_unspent_count_is_anti_join(l: Ledger)
    ensures
        l.unspent_owned().len() == l.owned_count_of(l.cells_m()) - l.spent_owned_count_of(
            l.cells_m(),
        ),
{
    lemma_unspent_count_of(l, l.cells_m());
}

/// Induction behind the anti-join law, over any table of output rows.
pub proof fn lemma_unspent_count_of(l: Ledger, cs: Seq<CellModel>)
    ensures
        l.unspent_owned_of(cs).len() == l.owned_count_of(cs) - l.spent_owned_count_of(cs),
        l.spent_owned_count_of(cs) <= l.owned_count_of(cs) <= cs.len(),
    decreases cs.len(),
{
    if cs.len() > 0 {
        lemma_unspent_count_of(l, cs.drop_last());
    }
}

/// Idempotence of block-fact recording: re-inserting an already-recorded
/// block's facts — the same height with its recorded timestamp, hashes and
/// outpoints already in the tables — leaves every table unchanged in
/// content and cardinality.
pub proof fn lemma_record_idempotent(
    l: Ledger,
    height: u64,
    timestamp: u64,
    hs: Seq<Seq<u8>>,
    cs: Seq<CellModel>,
)
    requires
        height < l.blocks@.len(),
        l.blocks@[height as int] == timestamp,
        forall|k: int| 0 <= k < hs.len() ==> txn_present(l.txns(), #[trigger] hs[k]),
        forall|k: int| 0 <= k < cs.len() ==> cell_present(l.cells_m(), (#[trigger] cs[k]).0, cs[k].1),
    ensures
        l.blocks@.update(height as int, timestamp) == l.blocks@,
        insert_txns(l.txns(), hs, height) == l.txns(),
        insert_cells(l.cells_m(), cs) == l.cells_m(),
{
    assert(l.blocks@.update(height as int, timestamp) =~= l.blocks@);
    lemma_insert_txns_idempotent(l.txns(), hs, height);
    lemma_insert_cells_idempotent(l.cells_m(), cs);
}

/// Cursor ordering and gaplessness: whenever any block is recorded, the
/// cursors satisfy `harvested <= chain <= tip`, and a block fact exists
/// for every height up to the chain cursor.
pub proof fn lemma_cursor_order(l: Ledger)
    requires
        l.wf(),
        l.chain_number() is Some,
    ensures
        l.harvested <= l.chain_number().unwrap() <= l.tip,
        forall|h: int| 0 <= h <= l.chain_number().unwrap() ==> l.has_block(h),
{
}

} // verus!
