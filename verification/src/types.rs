//! Shared data types of the harness: transaction outputs, block facts as
//! the remote interface hands them over, and the error taxonomy of the
//! ledger and the harvester.

use vstd::prelude::*;

verus! {

/// Identifies one spendable output: the hash of the transaction that
/// produced it and the output's position in that transaction.
pub struct OutPoint {
    pub tx_hash: Vec<u8>,
    pub index: u32,
}

/// One recorded transaction output: its outpoint and its capacity.
pub struct CellRec {
    pub tx_hash: Vec<u8>,
    pub index: u32,
    pub capacity: u64,
}

/// A transaction as the remote interface reports it inside a block: its
/// hash and the capacity of each of its outputs.
pub struct Txn {
    pub hash: Vec<u8>,
    pub outputs: Vec<u64>,
}

/// A block as the remote interface reports it: its timestamp and its
/// transactions.
pub struct Block {
    pub timestamp: u64,
    pub transactions: Vec<Txn>,
}

/// Why the ledger refused a write. Each write that can be refused says in
/// its contract exactly which variant comes on which input.
#[derive(Clone, Copy, PartialEq, Eq, Structural, Debug)]
pub enum LedgerError {
    /// Recording the block would leave a gap: its height is more than one
    /// past the last recorded height.
    HeightGap,
    /// The block's height lies beyond the tip cursor, so its facts are not
    /// yet final.
    BeyondTip,
    /// A cursor may only advance; the requested value lies behind the
    /// cursor's current position.
    CursorRegression,
    /// The harvested cursor may not pass the last recorded block.
    BeyondChain,
}

/// Why a harvest attempt was abandoned. The attempt is retried on the next
/// loop iteration; neither variant crashes a worker.
#[derive(Clone, Copy, PartialEq, Eq, Structural, Debug)]
pub enum HarvestError {
    /// A reported capacity field was not a decimal number that fits in 64
    /// bits.
    NonNumericCapacity,
    /// Summing the input capacities overflowed 64 bits.
    CapacityOverflow,
}

/// Copies a byte string; the copy has the same content.
pub fn clone_bytes(v: &Vec<u8>) -> (r: Vec<u8>)
    ensures
        r@ == v@,
{
    let r = v.clone();
    proof {
        assert(r@ =~= v@);
    }
    r
}

/// Compares two byte strings by content.
pub fn bytes_eq(a: &Vec<u8>, b: &Vec<u8>) -> (r: bool)
    ensures
        r <==> a@ == b@,
{
    if a.len() != b.len() {
        return false;
    }
    let n = a.len();
    let mut i: usize = 0;
    while i < n
        invariant
            n == a.len() == b.len(),
            i <= n,
            forall|j: int| 0 <= j < i ==> a@[j] == b@[j],
        decreases n - i,
    {
        if a[i] != b[i] {
            return false;
        }
        i += 1;
    }
    proof {
        assert(a@ =~= b@);
    }
    true
}

/// True when the two outpoints name the same output.
pub fn outpoint_eq(a_hash: &Vec<u8>, a_index: u32, b_hash: &Vec<u8>, b_index: u32) -> (r: bool)
    ensures
        r <==> (a_hash@ == b_hash@ && a_index == b_index),
{
    a_index == b_index && bytes_eq(a_hash, b_hash)
}

} // verus!
