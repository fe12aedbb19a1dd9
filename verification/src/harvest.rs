//! The harvester's arithmetic: parsing reported capacity fields,
//! overflow-checked summation of an inventory, and the consolidation that
//! splits the harvested total into destination outputs plus one change
//! output so that no value is created or destroyed.

use vstd::arithmetic::div_mod::lemma_fundamental_div_mod;
use vstd::arithmetic::mul::lemma_mul_inequality;
use vstd::prelude::*;

use crate::ledger::{insert_txn, Ledger};
use crate::types::{clone_bytes, HarvestError, OutPoint};

verus! {

/// The byte is an ASCII decimal digit.
pub open spec fn is_dec_digit(b: u8) -> bool {
    48 <= b <= 57
}

/// Numeric value of an ASCII decimal string (most significant digit
/// first); partial nonsense on non-digit bytes, guarded by
/// `is_dec_string`.
pub open spec fn dec_value(s: Seq<u8>) -> int
    decreases s.len(),
{
    if s.len() == 0 {
        0
    } else {
        dec_value(s.drop_last()) * 10 + (s.last() - 48)
    }
}

/// A non-empty string of ASCII decimal digits.
pub open spec fn is_dec_string(s: Seq<u8>) -> bool {
    s.len() > 0 && forall|i: int| 0 <= i < s.len() ==> is_dec_digit(#[trigger] s[i])
}

/// Appending digits never decreases the value of a digit string.
proof fn lemma_dec_value_grows(s: Seq<u8>, i: int)
    requires
        0 <= i <= s.len(),
        forall|k: int| 0 <= k < s.len() ==> is_dec_digit(#[trigger] s[k]),
    ensures
        dec_value(s.take(i)) <= dec_value(s),
        dec_value(s) >= 0,
    decreases s.len() - i,
{
    if i == s.len() {
        assert(s.take(i) =~= s);
        lemma_dec_value_nonneg(s);
    } else {
        lemma_dec_value_grows(s, i + 1);
        assert(s.take(i + 1).drop_last() =~= s.take(i));
        lemma_dec_value_nonneg(s.take(i));
    }
}

/// The value of a digit string is never negative.
proof fn lemma_dec_value_nonneg(s: Seq<u8>)
    requires
        forall|k: int| 0 <= k < s.len() ==> is_dec_digit(#[trigger] s[k]),
    ensures
        dec_value(s) >= 0,
    decreases s.len(),
{
    if s.len() > 0 {
        lemma_dec_value_nonneg(s.drop_last());
    }
}

/// Parses a capacity field, reported by the remote interface as a decimal
/// string: the value, or nothing when a byte is no digit, the string is
/// empty, or the value does not fit in 64 bits.
pub fn parse_capacity(s: &Vec<u8>) -> (r: Option<u64>)
    ensures
        r is Some <==> is_dec_string(s@) && dec_value(s@) <= u64::MAX,
        r matches Some(v) ==> v == dec_value(s@),
{
    let n = s.len();
    if n == 0 {
        return None;
    }
    let mut v: u64 = 0;
    let mut i: usize = 0;
    while i < n
        invariant
            n == s.len(),
            0 < n,
            i <= n,
            forall|k: int| 0 <= k < i ==> is_dec_digit(#[trigger] s@[k]),
            v == dec_value(s@.take(i as int)),
        decreases n - i,
    {
        let b = s[i];
        if b < 48 || b > 57 {
            return None;
        }
        let d = b - 48;
        proof {
            assert(s@.take(i + 1).drop_last() =~= s@.take(i as int));
        }
        let m = match v.checked_mul(10) {
            Some(m) => m,
            None => {
                proof {
                    if is_dec_string(s@) {
                        lemma_dec_value_grows(s@, i + 1);
                    }
                }
                return None;
            },
        };
        let w = match m.checked_add(d as u64) {
            Some(w) => w,
            None => {
                proof {
                    if is_dec_string(s@) {
                        lemma_dec_value_grows(s@, i + 1);
                    }
                }
                return None;
            },
        };
        v = w;
        i += 1;
    }
    proof {
        assert(s@.take(n as int) =~= s@);
    }
    Some(v)
}

/// Sum of a sequence of capacities, as an unbounded integer.
pub open spec fn seq_sum(s: Seq<u64>) -> int
    decreases s.len(),
{
    if s.len() == 0 {
        0
    } else {
        seq_sum(s.drop_last()) + s.last()
    }
}

/// A prefix of capacities never sums to more than the whole.
proof fn lemma_seq_sum_grows(s: Seq<u64>, i: int)
    requires
        0 <= i <= s.len(),
    ensures
        seq_sum(s.take(i)) <= seq_sum(s),
        seq_sum(s) >= 0,
    decreases s.len() - i,
{
    if i == s.len() {
        assert(s.take(i) =~= s);
        lemma_seq_sum_nonneg(s);
    } else {
        lemma_seq_sum_grows(s, i + 1);
        assert(s.take(i + 1).drop_last() =~= s.take(i));
    }
}

/// Sums of capacities are never negative.
proof fn lemma_seq_sum_nonneg(s: Seq<u64>)
    ensures
        seq_sum(s) >= 0,
    decreases s.len(),
{
    if s.len() > 0 {
        lemma_seq_sum_nonneg(s.drop_last());
    }
}

/// Overflow-checked total of an inventory of capacities: the exact sum, or
/// nothing when it does not fit in 64 bits. A checked-add failure is never
/// silently truncated.
pub fn sum_capacities(caps: &Vec<u64>) -> (r: Option<u64>)
    ensures
        r is Some <==> seq_sum(caps@) <= u64::MAX,
        r matches Some(t) ==> t == seq_sum(caps@),
{
    let n = caps.len();
    let mut total: u64 = 0;
    let mut i: usize = 0;
    while i < n
        invariant
            n == caps.len(),
            i <= n,
            total == seq_sum(caps@.take(i as int)),
        decreases n - i,
    {
        proof {
            assert(caps@.take(i + 1).drop_last() =~= caps@.take(i as int));
        }
        total = match total.checked_add(caps[i]) {
            Some(t) => t,
            None => {
                proof {
                    lemma_seq_sum_grows(caps@, i + 1);
                }
                return None;
            },
        };
        i += 1;
    }
    proof {
        assert(caps@.take(n as int) =~= caps@);
    }
    Some(total)
}

/// The smaller of two unbounded integers.
pub open spec fn min_int(a: int, b: int) -> int {
    if a <= b {
        a
    } else {
        b
    }
}

/// How a harvested total is split: `dest_count` destination outputs of
/// exactly `dest_capacity` each, plus one change output returned to the
/// source identity. All capacity beyond what the destination outputs hold
/// is folded into the change output, so no value is lost.
pub struct Consolidation {
    pub dest_count: usize,
    pub dest_capacity: u64,
    pub change_capacity: u64,
}

/// Splits `total` capacity into `min(total / least - 1, max_count)`
/// destination outputs of `least` each, the minimum capacity a valid
/// output must hold, plus a change output. A total that does not exceed
/// `least` yields nothing: such a harvest is skipped.
pub fn consolidate(total: u64, least: u64, max_count: usize) -> (r: Option<Consolidation>)
    requires
        least > 0,
    ensures
        total <= least ==> r is None,
        total > least ==> r is Some,
        r matches Some(c) ==> {
            &&& c.dest_capacity == least
            &&& c.dest_count == min_int(total as int / least as int - 1, max_count as int)
            &&& c.change_capacity == total - c.dest_count * least
            &&& c.change_capacity >= least
            &&& c.dest_count * least + c.change_capacity == total
        },
{
    if total <= least {
        return None;
    }
    let quot = total / least;
    proof {
        lemma_fundamental_div_mod(total as int, least as int);
        assert(quot >= 1 && quot * least <= total) by (nonlinear_arith)
            requires
                total > least,
                least > 0,
                quot == total as int / least as int,
        ;
    }
    let size_wide = quot - 1;
    let size: usize = if size_wide > max_count as u64 {
        max_count
    } else {
        size_wide as usize
    };
    proof {
        lemma_mul_inequality(size as int, quot as int - 1, least as int);
        assert((quot as int - 1) * (least as int) == quot as int * (least as int) - least as int)
            by (nonlinear_arith);
    }
    let change = total - (size as u64) * least;
    Some(Consolidation { dest_count: size, dest_capacity: least, change_capacity: change })
}

/// Every reported capacity field is a decimal number that fits in 64 bits.
pub open spec fn caps_parseable(cells: Seq<(OutPoint, Vec<u8>)>) -> bool {
    forall|k: int|
        0 <= k < cells.len() ==> is_dec_string((#[trigger] cells[k]).1@) && dec_value(cells[k].1@)
            <= u64::MAX
}

/// Sum of unbounded integers.
pub open spec fn int_seq_sum(s: Seq<int>) -> int
    decreases s.len(),
{
    if s.len() == 0 {
        0
    } else {
        int_seq_sum(s.drop_last()) + s.last()
    }
}

/// The capacity values the cells report, in order.
pub open spec fn caps_values(cells: Seq<(OutPoint, Vec<u8>)>) -> Seq<int> {
    cells.map_values(|c: (OutPoint, Vec<u8>)| dec_value(c.1@))
}

/// Total capacity the cells report.
pub open spec fn caps_total(cells: Seq<(OutPoint, Vec<u8>)>) -> int {
    int_seq_sum(caps_values(cells))
}

/// Parsed capacities sum to the reported total.
proof fn lemma_caps_sum(caps: Seq<u64>, cells: Seq<(OutPoint, Vec<u8>)>)
    requires
        caps.len() == cells.len(),
        forall|k: int| 0 <= k < caps.len() ==> #[trigger] caps[k] == dec_value(cells[k].1@),
    ensures
        seq_sum(caps) == caps_total(cells),
    decreases caps.len(),
{
    if caps.len() > 0 {
        lemma_caps_sum(caps.drop_last(), cells.drop_last());
        assert(caps_values(cells).drop_last() =~= caps_values(cells.drop_last()));
    }
}

/// A planned harvest transaction: the outpoints it consumes, one change
/// output (position zero, returned to the source identity) and the
/// destination outputs (owned by the destination identity), each holding
/// exactly the minimum output capacity.
pub struct HarvestPlan {
    pub inputs: Vec<OutPoint>,
    pub change_capacity: u64,
    pub dest_capacities: Vec<u64>,
}

/// Builds the harvest transaction over one block's source-identity cells,
/// reported as (outpoint, decimal capacity field) pairs. Capacity is
/// conserved: the change plus the destination outputs hold exactly the
/// total the cells reported. A non-numeric field or an overflowing sum
/// abandons the attempt; a total at or below the minimum output capacity
/// builds nothing, and the block is skipped.
#[verifier::loop_isolation(false)]
pub fn steal_plan(cells: &Vec<(OutPoint, Vec<u8>)>, least: u64, max_count: usize) -> (r: Result<
    Option<HarvestPlan>,
    HarvestError,
>)
    requires
        least > 0,
    ensures
        !caps_parseable(cells@) ==> r == Result::<Option<HarvestPlan>, HarvestError>::Err(
            HarvestError::NonNumericCapacity,
        ),
        caps_parseable(cells@) && caps_total(cells@) > u64::MAX ==> r == Result::<
            Option<HarvestPlan>,
            HarvestError,
        >::Err(HarvestError::CapacityOverflow),
        caps_parseable(cells@) && caps_total(cells@) <= u64::MAX && caps_total(cells@) <= least
            ==> r == Result::<Option<HarvestPlan>, HarvestError>::Ok(None),
        caps_parseable(cells@) && caps_total(cells@) <= u64::MAX && caps_total(cells@) > least
            ==> (r matches Ok(op) && op is Some),
        r matches Ok(Some(p)) ==> {
            &&& p.inputs@.len() == cells@.len()
            &&& forall|k: int|
                0 <= k < cells@.len() ==> (#[trigger] p.inputs@[k]).tx_hash@
                    == cells@[k].0.tx_hash@ && p.inputs@[k].index == cells@[k].0.index
            &&& p.dest_capacities@.len() == min_int(
                caps_total(cells@) / least as int - 1,
                max_count as int,
            )
            &&& forall|k: int|
                0 <= k < p.dest_capacities@.len() ==> #[trigger] p.dest_capacities@[k] == least
            &&& p.change_capacity >= least
            &&& seq_sum(p.dest_capacities@) + p.change_capacity == caps_total(cells@)
        },
{
    let n = cells.len();
    let mut caps: Vec<u64> = Vec::new();
    let mut i: usize = 0;
    while i < n
        invariant
            i <= n,
            caps@.len() == i,
            forall|k: int| 0 <= k < i ==> #[trigger] caps@[k] == dec_value(cells@[k].1@),
            forall|k: int|
                0 <= k < i ==> is_dec_string((#[trigger] cells@[k]).1@) && dec_value(cells@[k].1@)
                    <= u64::MAX,
        decreases n - i,
    {
        match parse_capacity(&cells[i].1) {
            Some(v) => {
                caps.push(v);
            },
            None => {
                return Err(HarvestError::NonNumericCapacity);
            },
        }
        i += 1;
    }
    proof {
        lemma_caps_sum(caps@, cells@);
    }
    let total = match sum_capacities(&caps) {
        Some(t) => t,
        None => {
            return Err(HarvestError::CapacityOverflow);
        },
    };
    let plan = match consolidate(total, least, max_count) {
        None => None,
        Some(c) => {
            let mut inputs: Vec<OutPoint> = Vec::new();
            let mut k: usize = 0;
            while k < n
                invariant
                    k <= n,
                    n == cells.len(),
                    inputs@.len() == k,
                    forall|j: int|
                        0 <= j < k ==> (#[trigger] inputs@[j]).tx_hash@ == cells@[j].0.tx_hash@
                            && inputs@[j].index == cells@[j].0.index,
                decreases n - k,
            {
                let c0 = &cells[k].0;
                inputs.push(
                    OutPoint { tx_hash: clone_bytes(&c0.tx_hash), index: c0.index },
                );
                k += 1;
            }
            let mut dests: Vec<u64> = Vec::new();
            let mut j: usize = 0;
            while j < c.dest_count
                invariant
                    j <= c.dest_count,
                    dests@.len() == j,
                    forall|m: int| 0 <= m < j ==> #[trigger] dests@[m] == c.dest_capacity,
                    seq_sum(dests@) == j * c.dest_capacity,
                decreases c.dest_count - j,
            {
                proof {
                    assert(dests@.push(c.dest_capacity).drop_last() =~= dests@);
                    assert((j + 1) * c.dest_capacity == j * c.dest_capacity + c.dest_capacity)
                        by (nonlinear_arith);
                }
                dests.push(c.dest_capacity);
                j += 1;
            }
            Some(
                HarvestPlan {
                    inputs,
                    change_capacity: c.change_capacity,
                    dest_capacities: dests,
                },
            )
        },
    };
    Ok(plan)
}

/// One harvester attempt over a newly safe block, given the
/// source-identity cells found in it. Poverty (a total at or below the
/// minimum output capacity) skips the block: the harvested cursor still
/// advances past it and no transaction is built. A built transaction
/// leaves the ledger untouched: the cursor advances only once the
/// submission succeeded, so a network failure retries the same block.
/// An arithmetic failure abandons the attempt with the ledger untouched.
pub fn harvest_scan_block(
    ledger: &mut Ledger,
    height: u64,
    cells: &Vec<(OutPoint, Vec<u8>)>,
    least: u64,
    max_count: usize,
) -> (r: Result<Option<HarvestPlan>, HarvestError>)
    requires
        old(ledger).wf(),
        least > 0,
        old(ledger).harvested <= height <= old(ledger).chain_int(),
    ensures
        final(ledger).wf(),
        r is Err ==> *final(ledger) == *old(ledger),
        r == Result::<Option<HarvestPlan>, HarvestError>::Ok(None::<HarvestPlan>) ==> *final(ledger)
            == (Ledger { harvested: height, ..*old(ledger) }),
        (r matches Ok(op) && op is Some) ==> *final(ledger) == *old(ledger),
        !caps_parseable(cells@) ==> r == Result::<Option<HarvestPlan>, HarvestError>::Err(
            HarvestError::NonNumericCapacity,
        ),
        caps_parseable(cells@) && caps_total(cells@) > u64::MAX ==> r == Result::<
            Option<HarvestPlan>,
            HarvestError,
        >::Err(HarvestError::CapacityOverflow),
        caps_parseable(cells@) && caps_total(cells@) <= u64::MAX && caps_total(cells@) <= least
            ==> r == Result::<Option<HarvestPlan>, HarvestError>::Ok(None::<HarvestPlan>),
        caps_parseable(cells@) && caps_total(cells@) <= u64::MAX && caps_total(cells@) > least
            ==> (r matches Ok(op) && op is Some),
{
    match steal_plan(cells, least, max_count) {
        Err(e) => Err(e),
        Ok(None) => {
            let _ = ledger.update_stolen_status(height);
            Ok(None)
        },
        Ok(Some(plan)) => Ok(Some(plan)),
    }
}

/// After a harvest transaction was accepted by a remote node: records it
/// as owned and advances the harvested cursor past the block it came
/// from.
pub fn record_harvest_success(ledger: &mut Ledger, height: u64, tx_hash: &Vec<u8>)
    requires
        old(ledger).wf(),
        old(ledger).harvested <= height <= old(ledger).chain_int(),
    ensures
        final(ledger).wf(),
        final(ledger).harvested_m() == insert_txn(old(ledger).harvested_m(), tx_hash@, height),
        final(ledger).harvested == height,
        final(ledger).blocks == old(ledger).blocks,
        final(ledger).txns() == old(ledger).txns(),
        final(ledger).cells_m() == old(ledger).cells_m(),
        final(ledger).submissions_m() == old(ledger).submissions_m(),
        final(ledger).tip == old(ledger).tip,
        final(ledger).turn == old(ledger).turn,
{
    ledger.save_stolen_transaction(height, tx_hash);
    let _ = ledger.update_stolen_status(height);
}

} // verus!
