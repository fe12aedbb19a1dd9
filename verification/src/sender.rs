//! The load sender's decisions: which remote endpoint each transaction
//! goes to, the self-transfer shape that respends an owned output to the
//! owned identity, the pacing between cycles, and the running outcome
//! counters the aggregator keeps.

use vstd::prelude::*;

use crate::types::{clone_bytes, CellRec, OutPoint};

verus! {

/// Relies on rand::random: an independently drawn machine word. Nothing is
/// promised of the value; callers state what holds of every outcome.
#[verifier::external_body]
fn draw_random() -> u64 {
    rand::random::<u64>()
}

/// Chooses the remote endpoint for one transaction: drawn independently
/// for every send, so load spreads over the pool and no single endpoint
/// becomes the bottleneck. Whatever was drawn, the index is in range.
pub fn random_endpoint_index(n_endpoints: usize) -> (r: usize)
    requires
        n_endpoints > 0,
    ensures
        r < n_endpoints,
{
    let num = draw_random();
    (num % (n_endpoints as u64)) as usize
}

/// A planned self-transfer: one owned output respent back to the owned
/// identity, with the output holding exactly the input's capacity. Pure
/// load; no value moves.
pub struct TransferPlan {
    pub input: OutPoint,
    pub output_capacity: u64,
}

/// Builds the self-transfer that respends one owned output: one input, one
/// output, the same capacity.
pub fn build_self_transfer(cell: &CellRec) -> (t: TransferPlan)
    ensures
        t.input.tx_hash@ == cell.tx_hash@,
        t.input.index == cell.index,
        t.output_capacity == cell.capacity,
{
    TransferPlan {
        input: OutPoint { tx_hash: clone_bytes(&cell.tx_hash), index: cell.index },
        output_capacity: cell.capacity,
    }
}

/// Builds one cycle's transactions: one self-transfer per fetched
/// owned-unspent output, in order.
#[verifier::loop_isolation(false)]
pub fn build_cycle(cells: &Vec<CellRec>) -> (ts: Vec<TransferPlan>)
    ensures
        ts@.len() == cells@.len(),
        forall|k: int|
            0 <= k < cells@.len() ==> {
                &&& (#[trigger] ts@[k]).input.tx_hash@ == cells@[k].tx_hash@
                &&& ts@[k].input.index == cells@[k].index
                &&& ts@[k].output_capacity == cells@[k].capacity
            },
{
    let n = cells.len();
    let mut ts: Vec<TransferPlan> = Vec::new();
    let mut i: usize = 0;
    while i < n
        invariant
            i <= n,
            ts@.len() == i,
            forall|k: int|
                0 <= k < i ==> {
                    &&& (#[trigger] ts@[k]).input.tx_hash@ == cells@[k].tx_hash@
                    &&& ts@[k].input.index == cells@[k].index
                    &&& ts@[k].output_capacity == cells@[k].capacity
                },
        decreases n - i,
    {
        let t = build_self_transfer(&cells[i]);
        ts.push(t);
        i += 1;
    }
    ts
}

/// How long the sender pauses after a cycle: the configured inter-cycle
/// delay, or the longer idle pause when the cycle found nothing to spend,
/// so an empty inventory is not busy-polled.
pub fn cycle_pause_millis(found: usize, delay_millis: u64, idle_millis: u64) -> (r: u64)
    ensures
        found == 0 ==> r == idle_millis,
        found > 0 ==> r == delay_millis,
{
    if found == 0 {
        idle_millis
    } else {
        delay_millis
    }
}

/// Running sent/passed/failed counters that the outcome aggregator keeps
/// for display. Saturating: a counter stops at the largest representable
/// value rather than wrapping.
pub struct Counters {
    pub sent: u64,
    pub passed: u64,
    pub failed: u64,
}

impl Counters {
    /// All counters at zero.
    pub fn new() -> (c: Counters)
        ensures
            c.sent == 0 && c.passed == 0 && c.failed == 0,
    {
        Counters { sent: 0, passed: 0, failed: 0 }
    }

    /// Accumulates one send outcome: every outcome counts as sent, a
    /// success as passed, a failure as failed.
    pub fn record(&mut self, ok: bool)
        ensures
            final(self).sent == (if old(self).sent < u64::MAX {
                old(self).sent + 1
            } else {
                u64::MAX as int
            }),
            ok ==> final(self).passed == (if old(self).passed < u64::MAX {
                old(self).passed + 1
            } else {
                u64::MAX as int
            }) && final(self).failed == old(self).failed,
            !ok ==> final(self).failed == (if old(self).failed < u64::MAX {
                old(self).failed + 1
            } else {
                u64::MAX as int
            }) && final(self).passed == old(self).passed,
    {
        self.sent = self.sent.saturating_add(1);
        if ok {
            self.passed = self.passed.saturating_add(1);
        } else {
            self.failed = self.failed.saturating_add(1);
        }
    }
}

} // verus!
