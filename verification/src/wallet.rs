//! The wallet view over a synchronized store of full blocks: per-identity
//! dirty and checked scan cursors kept as flagged byte keys over
//! little-endian numbers, per-output availability statuses, and taking one
//! confirmed-available output under a lock identity.
//!
//! The dirty cursor marks how far an identity was scanned while some
//! output's status was still unknown; the checked cursor marks how far
//! every status was confirmed. They are two distinct cursors, each read
//! and advanced on its own.

use vstd::bytes::{
    lemma_auto_spec_u64_to_from_le_bytes, spec_u64_from_le_bytes, u64_from_le_bytes,
    u64_to_le_bytes,
};
use vstd::prelude::*;

use crate::types::{bytes_eq, clone_bytes, OutPoint};

verus! {

/// Key prefix of a dirty (scanned, not fully confirmed) cursor entry.
pub const FLAG_DIRTY: u8 = 1;

/// Key prefix of a checked (fully confirmed) cursor entry.
pub const FLAG_CHECKED: u8 = 2;

/// The stored key for a cursor: the flag byte followed by the identity.
pub open spec fn flagged(flag: u8, key: Seq<u8>) -> Seq<u8> {
    seq![flag] + key
}

/// Mathematical model of the byte-keyed number table.
pub open spec fn kv_model(rows: Seq<(Vec<u8>, Vec<u8>)>) -> Seq<(Seq<u8>, Seq<u8>)> {
    rows.map_values(|r: (Vec<u8>, Vec<u8>)| (r.0@, r.1@))
}

/// True when a row with key `k` is in the table.
pub open spec fn kv_present(t: Seq<(Seq<u8>, Seq<u8>)>, k: Seq<u8>) -> bool {
    exists|i: int| 0 <= i < t.len() && t[i].0 == k
}

/// The stored value beside key `k`; meaningful only under `kv_present`.
pub open spec fn kv_value(t: Seq<(Seq<u8>, Seq<u8>)>, k: Seq<u8>) -> Seq<u8> {
    let i = choose|i: int| 0 <= i < t.len() && t[i].0 == k;
    t[i].1
}

/// Keys are a primary key: no two rows share one.
pub open spec fn kv_unique(t: Seq<(Seq<u8>, Seq<u8>)>) -> bool {
    forall|i: int, j: int| 0 <= i < j < t.len() ==> (#[trigger] t[i]).0 != (#[trigger] t[j]).0
}

/// Every stored value is a little-endian 64-bit number.
pub open spec fn kv_values_are_numbers(t: Seq<(Seq<u8>, Seq<u8>)>) -> bool {
    forall|i: int| 0 <= i < t.len() ==> (#[trigger] t[i]).1.len() == 8
}

/// With unique keys, any row with key `k` gives the lookup's result.
proof fn lemma_kv_value_at(t: Seq<(Seq<u8>, Seq<u8>)>, k: Seq<u8>, i: int)
    requires
        kv_unique(t),
        0 <= i < t.len(),
        t[i].0 == k,
    ensures
        kv_present(t, k),
        kv_value(t, k) == t[i].1,
{
    let j = choose|j: int| 0 <= j < t.len() && t[j].0 == k;
    if j != i {
        if j < i {
            assert(t[j].0 != t[i].0);
        } else {
            assert(t[i].0 != t[j].0);
        }
    }
}

/// Mathematical model of the per-output status table.
pub open spec fn status_model(rows: Seq<(Vec<u8>, u32, bool)>) -> Seq<(Seq<u8>, u32, bool)> {
    rows.map_values(|r: (Vec<u8>, u32, bool)| (r.0@, r.1, r.2))
}

/// True when a status row for outpoint `(h, index)` is in the table.
pub open spec fn status_present(t: Seq<(Seq<u8>, u32, bool)>, h: Seq<u8>, index: u32) -> bool {
    exists|i: int| 0 <= i < t.len() && t[i].0 == h && t[i].1 == index
}

/// The stored status beside an outpoint; meaningful only under
/// `status_present`.
pub open spec fn status_value(t: Seq<(Seq<u8>, u32, bool)>, h: Seq<u8>, index: u32) -> bool {
    let i = choose|i: int| 0 <= i < t.len() && t[i].0 == h && t[i].1 == index;
    t[i].2
}

/// Outpoints are a primary key: no two status rows share one.
pub open spec fn status_unique(t: Seq<(Seq<u8>, u32, bool)>) -> bool {
    forall|i: int, j: int|
        0 <= i < j < t.len() ==> !((#[trigger] t[i]).0 == (#[trigger] t[j]).0 && t[i].1 == t[j].1)
}

/// With unique outpoints, any row with outpoint `(h, index)` gives the
/// lookup's result.
proof fn lemma_status_value_at(t: Seq<(Seq<u8>, u32, bool)>, h: Seq<u8>, index: u32, i: int)
    requires
        status_unique(t),
        0 <= i < t.len(),
        t[i].0 == h,
        t[i].1 == index,
    ensures
        status_present(t, h, index),
        status_value(t, h, index) == t[i].2,
{
    let j = choose|j: int| 0 <= j < t.len() && t[j].0 == h && t[j].1 == index;
    if j != i {
        if j < i {
            assert(!(t[j].0 == t[i].0 && t[j].1 == t[i].1));
        } else {
            assert(!(t[i].0 == t[j].0 && t[i].1 == t[j].1));
        }
    }
}

/// One output of a stored transaction: its lock identity and capacity.
pub struct StoredOutput {
    pub lock: Vec<u8>,
    pub capacity: u64,
}

/// A stored transaction: its hash and its outputs.
pub struct StoredTxn {
    pub hash: Vec<u8>,
    pub outputs: Vec<StoredOutput>,
}

/// A stored block: its transactions.
pub struct StoredBlock {
    pub transactions: Vec<StoredTxn>,
}

/// A synchronized store of full blocks: the number table holding the scan
/// cursors, the blocks by height, and each output's availability status.
pub struct BlockStore {
    pub numbers: Vec<(Vec<u8>, Vec<u8>)>,
    pub blocks: Vec<StoredBlock>,
    pub statuses: Vec<(Vec<u8>, u32, bool)>,
}

/// Capability interface of the store the wallet keeps its numbers in.
pub trait WalletStore {
    /// The store's internal invariant; each operation keeps it.
    spec fn inv(&self) -> bool;

    /// The stored numbers, by flagged key.
    spec fn kv(&self) -> Map<Seq<u8>, u64>;
}

/// Writing per-identity scan cursors.
pub trait WalletWriter: WalletStore {
    /// Stores `number` under `key` prefixed with `flag`, replacing any
    /// earlier number under that flagged key.
    fn insert_number(&mut self, flag: u8, key: &Vec<u8>, number: u64)
        requires
            old(self).inv(),
        ensures
            final(self).inv(),
            final(self).kv() == old(self).kv().insert(flagged(flag, key@), number),
    ;

    /// Stores the dirty cursor for `key`.
    fn insert_dirty_number(&mut self, key: &Vec<u8>, number: u64)
        requires
            old(self).inv(),
        ensures
            final(self).inv(),
            final(self).kv() == old(self).kv().insert(flagged(FLAG_DIRTY, key@), number),
    ;

    /// Stores the checked cursor for `key`.
    fn insert_checked_number(&mut self, key: &Vec<u8>, number: u64)
        requires
            old(self).inv(),
        ensures
            final(self).inv(),
            final(self).kv() == old(self).kv().insert(flagged(FLAG_CHECKED, key@), number),
    ;
}

/// Reading per-identity scan cursors.
pub trait WalletReader: WalletStore {
    /// The number stored under `key` prefixed with `flag`, if any.
    fn select_number(&self, flag: u8, key: &Vec<u8>) -> (r: Option<u64>)
        requires
            self.inv(),
        ensures
            r == (if self.kv().contains_key(flagged(flag, key@)) {
                Some(self.kv()[flagged(flag, key@)])
            } else {
                None::<u64>
            }),
    ;

    /// The dirty cursor for `key`, if any.
    fn select_dirty_number(&self, key: &Vec<u8>) -> (r: Option<u64>)
        requires
            self.inv(),
        ensures
            r == (if self.kv().contains_key(flagged(FLAG_DIRTY, key@)) {
                Some(self.kv()[flagged(FLAG_DIRTY, key@)])
            } else {
                None::<u64>
            }),
    ;

    /// The checked cursor for `key`, if any.
    fn select_checked_number(&self, key: &Vec<u8>) -> (r: Option<u64>)
        requires
            self.inv(),
        ensures
            r == (if self.kv().contains_key(flagged(FLAG_CHECKED, key@)) {
                Some(self.kv()[flagged(FLAG_CHECKED, key@)])
            } else {
                None::<u64>
            }),
    ;
}

/// Linear search for a key among the number rows.
fn find_kv(table: &Vec<(Vec<u8>, Vec<u8>)>, k: &Vec<u8>) -> (r: Option<usize>)
    ensures
        r is None ==> !kv_present(kv_model(table@), k@),
        r matches Some(i) ==> i < table@.len() && table@[i as int].0@ == k@,
{
    let n = table.len();
    let mut i: usize = 0;
    while i < n
        invariant
            n == table.len(),
            i <= n,
            forall|j: int| 0 <= j < i ==> (#[trigger] kv_model(table@)[j]).0 != k@,
        decreases n - i,
    {
        if bytes_eq(&table[i].0, k) {
            return Some(i);
        }
        i += 1;
    }
    None
}

/// The flag byte followed by the identity bytes, as one stored key.
fn build_flagged(flag: u8, key: &Vec<u8>) -> (r: Vec<u8>)
    ensures
        r@ == flagged(flag, key@),
{
    let mut r: Vec<u8> = Vec::new();
    r.push(flag);
    let n = key.len();
    let mut i: usize = 0;
    while i < n
        invariant
            i <= n,
            n == key.len(),
            r@ == seq![flag].add(key@.take(i as int)),
        decreases n - i,
    {
        r.push(key[i]);
        proof {
            assert(seq![flag].add(key@.take(i + 1)) =~= seq![flag].add(key@.take(i as int)).push(
                key@[i as int],
            ));
        }
        i += 1;
    }
    proof {
        assert(key@.take(n as int) =~= key@);
    }
    r
}

impl BlockStore {
    /// Table well-formedness: unique keys, 8-byte number values, unique
    /// status outpoints.
    pub open spec fn wf(self) -> bool {
        &&& kv_unique(kv_model(self.numbers@))
        &&& kv_values_are_numbers(kv_model(self.numbers@))
        &&& status_unique(status_model(self.statuses@))
    }

    /// An empty store.
    pub fn new() -> (s: BlockStore)
        ensures
            s.wf(),
            s.kv() =~= Map::<Seq<u8>, u64>::empty(),
            s.blocks@.len() == 0,
            s.statuses@.len() == 0,
    {
        let s = BlockStore { numbers: Vec::new(), blocks: Vec::new(), statuses: Vec::new() };
        proof {
            assert forall|k: Seq<u8>| !s.kv().dom().contains(k) by {
                assert(!kv_present(kv_model(s.numbers@), k));
            }
        }
        s
    }
}

/// Replacing the row at a found outpoint is the status map's insert.
proof fn lemma_status_set(
    t0: Seq<(Seq<u8>, u32, bool)>,
    t1: Seq<(Seq<u8>, u32, bool)>,
    h: Seq<u8>,
    index: u32,
    v: bool,
    i: int,
)
    requires
        status_unique(t0),
        0 <= i < t0.len(),
        t0[i].0 == h,
        t0[i].1 == index,
        t1 == t0.update(i, (h, index, v)),
    ensures
        status_unique(t1),
        status_present(t1, h, index),
        status_value(t1, h, index) == v,
        forall|h2: Seq<u8>, i2: u32| status_present(t1, h2, i2) <==> status_present(t0, h2, i2),
        forall|h2: Seq<u8>, i2: u32|
            !(h2 == h && i2 == index) && status_present(t0, h2, i2) ==> status_value(t1, h2, i2)
                == status_value(t0, h2, i2),
{
    assert forall|a: int, b: int| 0 <= a < b < t1.len() implies !((#[trigger] t1[a]).0 == (
    #[trigger] t1[b]).0 && t1[a].1 == t1[b].1) by {
        assert(!(t0[a].0 == t0[b].0 && t0[a].1 == t0[b].1));
        assert(t0[i].0 == h && t0[i].1 == index);
    }
    lemma_status_value_at(t1, h, index, i);
    assert forall|h2: Seq<u8>, i2: u32|
        status_present(t1, h2, i2) <==> status_present(t0, h2, i2) by {
        if status_present(t0, h2, i2) {
            let j = choose|j: int| 0 <= j < t0.len() && t0[j].0 == h2 && t0[j].1 == i2;
            if j == i {
                assert(t1[i].0 == h2 && t1[i].1 == i2);
            } else {
                assert(t1[j].0 == h2 && t1[j].1 == i2);
            }
        }
        if status_present(t1, h2, i2) {
            let j = choose|j: int| 0 <= j < t1.len() && t1[j].0 == h2 && t1[j].1 == i2;
            if j == i {
                assert(t0[i].0 == h2 && t0[i].1 == i2);
            } else {
                assert(t0[j].0 == h2 && t0[j].1 == i2);
            }
        }
    }
    assert forall|h2: Seq<u8>, i2: u32|
        !(h2 == h && i2 == index) && status_present(t0, h2, i2) implies status_value(t1, h2, i2)
        == status_value(t0, h2, i2) by {
        let j = choose|j: int| 0 <= j < t0.len() && t0[j].0 == h2 && t0[j].1 == i2;
        assert(j != i);
        assert(t1[j].0 == h2 && t1[j].1 == i2);
        lemma_status_value_at(t0, h2, i2, j);
        lemma_status_value_at(t1, h2, i2, j);
    }
}

/// Appending a row with a fresh outpoint is the status map's insert.
proof fn lemma_status_push(
    t0: Seq<(Seq<u8>, u32, bool)>,
    t1: Seq<(Seq<u8>, u32, bool)>,
    h: Seq<u8>,
    index: u32,
    v: bool,
)
    requires
        status_unique(t0),
        !status_present(t0, h, index),
        t1 == t0.push((h, index, v)),
    ensures
        status_unique(t1),
        status_present(t1, h, index),
        status_value(t1, h, index) == v,
        forall|h2: Seq<u8>, i2: u32|
            !(h2 == h && i2 == index) ==> (status_present(t1, h2, i2) <==> status_present(
                t0,
                h2,
                i2,
            )),
        forall|h2: Seq<u8>, i2: u32|
            !(h2 == h && i2 == index) && status_present(t0, h2, i2) ==> status_value(t1, h2, i2)
                == status_value(t0, h2, i2),
{
    assert forall|a: int, b: int| 0 <= a < b < t1.len() implies !((#[trigger] t1[a]).0 == (
    #[trigger] t1[b]).0 && t1[a].1 == t1[b].1) by {
        if b < t0.len() {
            assert(!(t0[a].0 == t0[b].0 && t0[a].1 == t0[b].1));
        } else {
            assert(t1[a] == t0[a]);
            if t0[a].0 == h && t0[a].1 == index {
                assert(status_present(t0, h, index));
            }
        }
    }
    lemma_status_value_at(t1, h, index, t0.len() as int);
    assert forall|h2: Seq<u8>, i2: u32|
        !(h2 == h && i2 == index) implies (status_present(t1, h2, i2) <==> status_present(
        t0,
        h2,
        i2,
    )) by {
        if status_present(t0, h2, i2) {
            let j = choose|j: int| 0 <= j < t0.len() && t0[j].0 == h2 && t0[j].1 == i2;
            assert(t1[j].0 == h2 && t1[j].1 == i2);
        }
        if status_present(t1, h2, i2) {
            let j = choose|j: int| 0 <= j < t1.len() && t1[j].0 == h2 && t1[j].1 == i2;
            assert(j < t0.len());
            assert(t0[j].0 == h2 && t0[j].1 == i2);
        }
    }
    assert forall|h2: Seq<u8>, i2: u32|
        !(h2 == h && i2 == index) && status_present(t0, h2, i2) implies status_value(t1, h2, i2)
        == status_value(t0, h2, i2) by {
        let j = choose|j: int| 0 <= j < t0.len() && t0[j].0 == h2 && t0[j].1 == i2;
        assert(t1[j].0 == h2 && t1[j].1 == i2);
        lemma_status_value_at(t0, h2, i2, j);
        lemma_status_value_at(t1, h2, i2, j);
    }
}

/// Linear search for an outpoint among the status rows.
fn find_status(table: &Vec<(Vec<u8>, u32, bool)>, h: &Vec<u8>, index: u32) -> (r: Option<usize>)
    ensures
        r is None ==> !status_present(status_model(table@), h@, index),
        r matches Some(i) ==> i < table@.len() && table@[i as int].0@ == h@ && table@[
            i as int
        ].1 == index,
{
    let n = table.len();
    let mut i: usize = 0;
    while i < n
        invariant
            n == table.len(),
            i <= n,
            forall|j: int|
                0 <= j < i ==> !((#[trigger] status_model(table@)[j]).0 == h@ && status_model(
                    table@,
                )[j].1 == index),
        decreases n - i,
    {
        let row = &table[i];
        if row.1 == index && bytes_eq(&row.0, h) {
            return Some(i);
        }
        i += 1;
    }
    None
}

impl BlockStore {
    /// The availability of outputs, by outpoint: present and true means
    /// confirmed available, present and false means consumed, absent means
    /// not yet confirmed.
    pub open spec fn status_map(self) -> Map<(Seq<u8>, u32), bool> {
        Map::new(
            |p: (Seq<u8>, u32)| status_present(status_model(self.statuses@), p.0, p.1),
            |p: (Seq<u8>, u32)| status_value(status_model(self.statuses@), p.0, p.1),
        )
    }

    /// The highest stored block height, if any block is stored.
    pub fn select_max_number(&self) -> (r: Option<u64>)
        ensures
            r is None <==> self.blocks@.len() == 0,
            r matches Some(m) ==> m == self.blocks@.len() - 1,
    {
        if self.blocks.len() == 0 {
            None
        } else {
            Some((self.blocks.len() - 1) as u64)
        }
    }

    /// Stores the next block, at the height one past the last stored one.
    pub fn push_block(&mut self, b: StoredBlock)
        requires
            old(self).wf(),
        ensures
            final(self).wf(),
            final(self).blocks@ == old(self).blocks@.push(b),
            final(self).numbers == old(self).numbers,
            final(self).statuses == old(self).statuses,
    {
        self.blocks.push(b);
    }

    /// Availability of one output, if recorded.
    pub fn select_cell_status(&self, tx_hash: &Vec<u8>, index: u32) -> (r: Option<bool>)
        requires
            self.wf(),
        ensures
            r == (if self.status_map().contains_key((tx_hash@, index)) {
                Some(self.status_map()[(tx_hash@, index)])
            } else {
                None::<bool>
            }),
    {
        match find_status(&self.statuses, tx_hash, index) {
            Some(i) => {
                proof {
                    lemma_status_value_at(status_model(self.statuses@), tx_hash@, index, i as int);
                }
                Some(self.statuses[i].2)
            },
            None => None,
        }
    }

    /// Sets the availability of one output, inserting or replacing its
    /// status row.
    pub fn update_cell_status(&mut self, tx_hash: &Vec<u8>, index: u32, available: bool)
        requires
            old(self).wf(),
        ensures
            final(self).wf(),
            final(self).status_map() == old(self).status_map().insert(
                (tx_hash@, index),
                available,
            ),
            final(self).numbers == old(self).numbers,
            final(self).blocks == old(self).blocks,
    {
        let ghost t0 = status_model(self.statuses@);
        match find_status(&self.statuses, tx_hash, index) {
            Some(i) => {
                self.statuses.set(i, (clone_bytes(tx_hash), index, available));
                proof {
                    let t1 = status_model(self.statuses@);
                    assert(t1 =~= t0.update(i as int, (tx_hash@, index, available)));
                    lemma_status_set(t0, t1, tx_hash@, index, available, i as int);
                    assert(self.status_map() =~= old(self).status_map().insert(
                        (tx_hash@, index),
                        available,
                    ));
                }
            },
            None => {
                self.statuses.push((clone_bytes(tx_hash), index, available));
                proof {
                    let t1 = status_model(self.statuses@);
                    assert(t1 =~= t0.push((tx_hash@, index, available)));
                    lemma_status_push(t0, t1, tx_hash@, index, available);
                    assert(self.status_map() =~= old(self).status_map().insert(
                        (tx_hash@, index),
                        available,
                    ));
                }
            },
        }
    }
}

impl WalletStore for BlockStore {
    open spec fn inv(&self) -> bool {
        self.wf()
    }

    open spec fn kv(&self) -> Map<Seq<u8>, u64> {
        Map::new(
            |k: Seq<u8>| kv_present(kv_model(self.numbers@), k),
            |k: Seq<u8>| spec_u64_from_le_bytes(kv_value(kv_model(self.numbers@), k)),
        )
    }
}

/// Replacing the row at a found key is the map's insert.
proof fn lemma_kv_set(t0: Seq<(Seq<u8>, Seq<u8>)>, t1: Seq<(Seq<u8>, Seq<u8>)>, k: Seq<u8>, v: Seq<u8>, i: int)
    requires
        kv_unique(t0),
        kv_values_are_numbers(t0),
        v.len() == 8,
        0 <= i < t0.len(),
        t0[i].0 == k,
        t1 == t0.update(i, (k, v)),
    ensures
        kv_unique(t1),
        kv_values_are_numbers(t1),
        kv_present(t1, k),
        kv_value(t1, k) == v,
        forall|k2: Seq<u8>| kv_present(t1, k2) <==> kv_present(t0, k2),
        forall|k2: Seq<u8>|
            k2 != k && kv_present(t0, k2) ==> kv_value(t1, k2) == kv_value(t0, k2),
{
    assert forall|a: int, b: int| 0 <= a < b < t1.len() implies (#[trigger] t1[a]).0 != (
    #[trigger] t1[b]).0 by {
        assert(t0[a].0 != t0[b].0);
        assert(t0[i].0 == k);
    }
    lemma_kv_value_at(t1, k, i);
    assert forall|k2: Seq<u8>| kv_present(t1, k2) <==> kv_present(t0, k2) by {
        if kv_present(t0, k2) {
            let j = choose|j: int| 0 <= j < t0.len() && t0[j].0 == k2;
            if j == i {
                assert(t0[j].0 == k);
                assert(t1[i].0 == k2);
            } else {
                assert(t1[j].0 == k2);
            }
        }
        if kv_present(t1, k2) {
            let j = choose|j: int| 0 <= j < t1.len() && t1[j].0 == k2;
            if j == i {
                assert(t0[i].0 == k2);
            } else {
                assert(t0[j].0 == k2);
            }
        }
    }
    assert forall|k2: Seq<u8>|
        k2 != k && kv_present(t0, k2) implies kv_value(t1, k2) == kv_value(t0, k2) by {
        let j = choose|j: int| 0 <= j < t0.len() && t0[j].0 == k2;
        assert(j != i);
        assert(t1[j].0 == k2);
        lemma_kv_value_at(t0, k2, j);
        lemma_kv_value_at(t1, k2, j);
    }
}

/// Appending a row with a fresh key is the map's insert.
proof fn lemma_kv_push(t0: Seq<(Seq<u8>, Seq<u8>)>, t1: Seq<(Seq<u8>, Seq<u8>)>, k: Seq<u8>, v: Seq<u8>)
    requires
        kv_unique(t0),
        kv_values_are_numbers(t0),
        v.len() == 8,
        !kv_present(t0, k),
        t1 == t0.push((k, v)),
    ensures
        kv_unique(t1),
        kv_values_are_numbers(t1),
        kv_present(t1, k),
        kv_value(t1, k) == v,
        forall|k2: Seq<u8>| k2 != k ==> (kv_present(t1, k2) <==> kv_present(t0, k2)),
        forall|k2: Seq<u8>|
            k2 != k && kv_present(t0, k2) ==> kv_value(t1, k2) == kv_value(t0, k2),
{
    assert forall|a: int, b: int| 0 <= a < b < t1.len() implies (#[trigger] t1[a]).0 != (
    #[trigger] t1[b]).0 by {
        if b < t0.len() {
            assert(t0[a].0 != t0[b].0);
        } else {
            assert(t1[a].0 == t0[a].0);
            if t0[a].0 == k {
                assert(kv_present(t0, k));
            }
        }
    }
    lemma_kv_value_at(t1, k, t0.len() as int);
    assert forall|k2: Seq<u8>| k2 != k implies (kv_present(t1, k2) <==> kv_present(t0, k2)) by {
        if kv_present(t0, k2) {
            let j = choose|j: int| 0 <= j < t0.len() && t0[j].0 == k2;
            assert(t1[j].0 == k2);
        }
        if kv_present(t1, k2) {
            let j = choose|j: int| 0 <= j < t1.len() && t1[j].0 == k2;
            assert(j < t0.len());
            assert(t0[j].0 == k2);
        }
    }
    assert forall|k2: Seq<u8>|
        k2 != k && kv_present(t0, k2) implies kv_value(t1, k2) == kv_value(t0, k2) by {
        let j = choose|j: int| 0 <= j < t0.len() && t0[j].0 == k2;
        assert(t1[j].0 == k2);
        lemma_kv_value_at(t0, k2, j);
        lemma_kv_value_at(t1, k2, j);
    }
}

impl BlockStore {
    /// Stores `number` under `key` prefixed with `flag`; nothing else
    /// changes.
    pub fn put_number(&mut self, flag: u8, key: &Vec<u8>, number: u64)
        requires
            old(self).wf(),
        ensures
            final(self).wf(),
            final(self).kv() == old(self).kv().insert(flagged(flag, key@), number),
            final(self).blocks == old(self).blocks,
            final(self).statuses == old(self).statuses,
    {
        let k = build_flagged(flag, key);
        let v = u64_to_le_bytes(number);
        proof {
            lemma_auto_spec_u64_to_from_le_bytes();
        }
        let ghost t0 = kv_model(self.numbers@);
        let ghost fk = flagged(flag, key@);
        let ghost vs = v@;
        match find_kv(&self.numbers, &k) {
            Some(i) => {
                self.numbers.set(i, (k, v));
                proof {
                    let t1 = kv_model(self.numbers@);
                    assert(t1 =~= t0.update(i as int, (fk, vs)));
                    lemma_kv_set(t0, t1, fk, vs, i as int);
                    assert(self.kv() =~= old(self).kv().insert(fk, number));
                }
            },
            None => {
                self.numbers.push((k, v));
                proof {
                    let t1 = kv_model(self.numbers@);
                    assert(t1 =~= t0.push((fk, vs)));
                    lemma_kv_push(t0, t1, fk, vs);
                    assert(self.kv() =~= old(self).kv().insert(fk, number));
                }
            },
        }
    }

}

impl WalletWriter for BlockStore {
    fn insert_number(&mut self, flag: u8, key: &Vec<u8>, number: u64) {
        self.put_number(flag, key, number)
    }

    fn insert_dirty_number(&mut self, key: &Vec<u8>, number: u64) {
        self.put_number(FLAG_DIRTY, key, number)
    }

    fn insert_checked_number(&mut self, key: &Vec<u8>, number: u64) {
        self.put_number(FLAG_CHECKED, key, number)
    }
}

impl WalletReader for BlockStore {
    fn select_number(&self, flag: u8, key: &Vec<u8>) -> (r: Option<u64>) {
        let k = build_flagged(flag, key);
        match find_kv(&self.numbers, &k) {
            Some(i) => {
                proof {
                    lemma_kv_value_at(kv_model(self.numbers@), flagged(flag, key@), i as int);
                }
                let row = &self.numbers[i];
                Some(u64_from_le_bytes(row.1.as_slice()))
            },
            None => None,
        }
    }

    fn select_dirty_number(&self, key: &Vec<u8>) -> (r: Option<u64>) {
        self.select_number(FLAG_DIRTY, key)
    }

    fn select_checked_number(&self, key: &Vec<u8>) -> (r: Option<u64>) {
        self.select_number(FLAG_CHECKED, key)
    }
}

/// The output at block `h`, transaction `t`, position `o` exists and is
/// locked by `lock`.
pub open spec fn output_under_lock(
    blocks: Seq<StoredBlock>,
    h: int,
    t: int,
    o: int,
    lock: Seq<u8>,
) -> bool {
    &&& 0 <= h < blocks.len()
    &&& 0 <= t < blocks[h].transactions@.len()
    &&& 0 <= o < blocks[h].transactions@[t].outputs@.len()
    &&& blocks[h].transactions@[t].outputs@[o].lock@ == lock
}

/// The output's recorded status is confirmed available.
pub open spec fn output_available(
    blocks: Seq<StoredBlock>,
    statuses: Map<(Seq<u8>, u32), bool>,
    h: int,
    t: int,
    o: int,
) -> bool {
    let hash = blocks[h].transactions@[t].hash@;
    statuses.contains_key((hash, o as u32)) && statuses[(hash, o as u32)]
}

/// Where a scan for `lock` starts: past whichever of the identity's dirty
/// and checked cursors stands higher, from zero when neither is set.
pub open spec fn scan_floor(kv: Map<Seq<u8>, u64>, lock: Seq<u8>) -> int {
    let d: int = if kv.contains_key(flagged(FLAG_DIRTY, lock)) {
        kv[flagged(FLAG_DIRTY, lock)] as int
    } else {
        0
    };
    let c: int = if kv.contains_key(flagged(FLAG_CHECKED, lock)) {
        kv[flagged(FLAG_CHECKED, lock)] as int
    } else {
        0
    };
    if d > c {
        d
    } else {
        c
    }
}

/// No output under `lock` in blocks `[lo, hi)` is confirmed available.
pub open spec fn no_taken_below(
    blocks: Seq<StoredBlock>,
    statuses: Map<(Seq<u8>, u32), bool>,
    lock: Seq<u8>,
    lo: int,
    hi: int,
) -> bool {
    forall|h: int, t: int, o: int|
        lo <= h < hi && #[trigger] output_under_lock(blocks, h, t, o, lock) ==> !output_available(
            blocks,
            statuses,
            h,
            t,
            o,
        )
}

/// No output under `lock` in the first `t_hi` transactions of block `h`
/// is confirmed available.
pub open spec fn no_taken_in_block_prefix(
    blocks: Seq<StoredBlock>,
    statuses: Map<(Seq<u8>, u32), bool>,
    lock: Seq<u8>,
    h: int,
    t_hi: int,
) -> bool {
    forall|t: int, o: int|
        0 <= t < t_hi && #[trigger] output_under_lock(blocks, h, t, o, lock) ==> !output_available(
            blocks,
            statuses,
            h,
            t,
            o,
        )
}

/// No output under `lock` among the first `o_hi` outputs of transaction
/// `t` of block `h` is confirmed available.
pub open spec fn no_taken_in_txn_prefix(
    blocks: Seq<StoredBlock>,
    statuses: Map<(Seq<u8>, u32), bool>,
    lock: Seq<u8>,
    h: int,
    t: int,
    o_hi: int,
) -> bool {
    forall|o: int|
        0 <= o < o_hi && #[trigger] output_under_lock(blocks, h, t, o, lock) ==> !output_available(
            blocks,
            statuses,
            h,
            t,
            o,
        )
}

/// A fully scanned block with nothing available extends the scanned range
/// by one.
proof fn lemma_no_taken_step(
    blocks: Seq<StoredBlock>,
    statuses: Map<(Seq<u8>, u32), bool>,
    lock: Seq<u8>,
    lo: int,
    hi: int,
)
    requires
        no_taken_below(blocks, statuses, lock, lo, hi),
        0 <= hi < blocks.len(),
        no_taken_in_block_prefix(blocks, statuses, lock, hi, blocks[hi].transactions@.len() as int),
    ensures
        no_taken_below(blocks, statuses, lock, lo, hi + 1),
{
    assert forall|h: int, t: int, o: int|
        lo <= h < hi + 1 && #[trigger] output_under_lock(blocks, h, t, o, lock) implies
        !output_available(blocks, statuses, h, t, o) by {
        if h == hi {
            assert(0 <= t < blocks[hi].transactions@.len());
        }
    }
}

/// A fully scanned transaction with nothing available extends the block's
/// scanned prefix by one.
proof fn lemma_block_prefix_step(
    blocks: Seq<StoredBlock>,
    statuses: Map<(Seq<u8>, u32), bool>,
    lock: Seq<u8>,
    h: int,
    t: int,
)
    requires
        0 <= h < blocks.len(),
        0 <= t < blocks[h].transactions@.len(),
        no_taken_in_block_prefix(blocks, statuses, lock, h, t),
        no_taken_in_txn_prefix(
            blocks,
            statuses,
            lock,
            h,
            t,
            blocks[h].transactions@[t].outputs@.len() as int,
        ),
    ensures
        no_taken_in_block_prefix(blocks, statuses, lock, h, t + 1),
{
    assert forall|t2: int, o: int|
        0 <= t2 < t + 1 && #[trigger] output_under_lock(blocks, h, t2, o, lock) implies
        !output_available(blocks, statuses, h, t2, o) by {
        if t2 == t {
            assert(0 <= o < blocks[h].transactions@[t].outputs@.len());
        }
    }
}

/// The frame of one scan: only the identity's two cursor keys may change.
pub open spec fn kv_frame(pre: Map<Seq<u8>, u64>, post: Map<Seq<u8>, u64>, lock: Seq<u8>) -> bool {
    forall|k2: Seq<u8>|
        #![trigger post.contains_key(k2)]
        #![trigger pre.contains_key(k2)]
        k2 != flagged(FLAG_DIRTY, lock) && k2 != flagged(FLAG_CHECKED, lock) ==> (
        post.contains_key(k2) <==> pre.contains_key(k2)) && (pre.contains_key(k2) ==> post[k2]
            == pre[k2])
}

/// The identity's two cursors only advance: a key that was present stays
/// present, with a value at least the old one.
pub open spec fn cursors_monotone(
    pre: Map<Seq<u8>, u64>,
    post: Map<Seq<u8>, u64>,
    lock: Seq<u8>,
) -> bool {
    &&& pre.contains_key(flagged(FLAG_DIRTY, lock)) ==> post.contains_key(
        flagged(FLAG_DIRTY, lock),
    ) && post[flagged(FLAG_DIRTY, lock)] >= pre[flagged(FLAG_DIRTY, lock)]
    &&& pre.contains_key(flagged(FLAG_CHECKED, lock)) ==> post.contains_key(
        flagged(FLAG_CHECKED, lock),
    ) && post[flagged(FLAG_CHECKED, lock)] >= pre[flagged(FLAG_CHECKED, lock)]
}

/// The two cursor keys store different flags, so they differ.
proof fn lemma_cursor_keys_differ(lock: Seq<u8>)
    ensures
        flagged(FLAG_DIRTY, lock) != flagged(FLAG_CHECKED, lock),
{
    assert(flagged(FLAG_DIRTY, lock)[0] != flagged(FLAG_CHECKED, lock)[0]);
}

/// Monotonicity is kept when a cursor key is written with a value at least
/// as large as whichever cursor stood higher.
proof fn lemma_cursors_monotone_insert(
    pre: Map<Seq<u8>, u64>,
    mid: Map<Seq<u8>, u64>,
    lock: Seq<u8>,
    flag: u8,
    number: u64,
)
    requires
        cursors_monotone(pre, mid, lock),
        flag == FLAG_DIRTY || flag == FLAG_CHECKED,
        number >= scan_floor(pre, lock),
    ensures
        cursors_monotone(pre, mid.insert(flagged(flag, lock), number), lock),
{
    lemma_cursor_keys_differ(lock);
}

/// The frame is kept when a cursor key of the identity is written.
proof fn lemma_kv_frame_insert(
    pre: Map<Seq<u8>, u64>,
    mid: Map<Seq<u8>, u64>,
    lock: Seq<u8>,
    flag: u8,
    number: u64,
)
    requires
        kv_frame(pre, mid, lock),
        flag == FLAG_DIRTY || flag == FLAG_CHECKED,
    ensures
        kv_frame(pre, mid.insert(flagged(flag, lock), number), lock),
{
    let post = mid.insert(flagged(flag, lock), number);
    assert forall|k2: Seq<u8>|
        k2 != flagged(FLAG_DIRTY, lock) && k2 != flagged(FLAG_CHECKED, lock) implies (
    post.contains_key(k2) <==> pre.contains_key(k2)) && (pre.contains_key(k2) ==> post[k2]
        == pre[k2]) by {
        assert(k2 != flagged(flag, lock));
        assert(post.contains_key(k2) <==> mid.contains_key(k2));
        assert(mid.contains_key(k2) <==> pre.contains_key(k2));
        if pre.contains_key(k2) {
            assert(post[k2] == mid[k2]);
            assert(mid[k2] == pre[k2]);
        }
    }
}

/// Taking one spendable output under a lock identity out of the store.
pub trait Wallet: WalletStore {
    /// The stored full blocks, by height.
    spec fn stored_blocks(&self) -> Seq<StoredBlock>;

    /// The availability of outputs, by outpoint.
    spec fn statuses_map(&self) -> Map<(Seq<u8>, u32), bool>;

    /// Takes the first confirmed-available output under `lock`, in scan
    /// order, from the stored blocks between the identity's scan cursors
    /// and the newest stored block (exclusive), and marks it consumed.
    /// Advances the identity's dirty or checked cursor over each fully
    /// scanned block: dirty while some matching output's status is still
    /// unknown, checked otherwise. Nothing comes back exactly when no
    /// matching available output stands in that range; then no status
    /// changes. Other identities' cursors are untouched.
    fn take_a_cell(&mut self, lock: &Vec<u8>) -> (r: Option<(OutPoint, u64)>)
        requires
            old(self).inv(),
        ensures
            final(self).inv(),
            final(self).stored_blocks() == old(self).stored_blocks(),
            kv_frame(old(self).kv(), final(self).kv(), lock@),
            cursors_monotone(old(self).kv(), final(self).kv(), lock@),
            r matches Some(found) ==> exists|h: int, t: int, o: int|
                {
                    &&& output_under_lock(old(self).stored_blocks(), h, t, o, lock@)
                    &&& #[trigger] output_available(
                        old(self).stored_blocks(),
                        old(self).statuses_map(),
                        h,
                        t,
                        o,
                    )
                    &&& scan_floor(old(self).kv(), lock@) <= h < old(self).stored_blocks().len()
                        - 1
                    &&& found.0.tx_hash@ == old(self).stored_blocks()[h].transactions@[t].hash@
                    &&& found.0.index == o as u32
                    &&& found.1 == old(self).stored_blocks()[h].transactions@[t].outputs@[
                        o
                    ].capacity
                    &&& no_taken_below(
                        old(self).stored_blocks(),
                        old(self).statuses_map(),
                        lock@,
                        scan_floor(old(self).kv(), lock@),
                        h,
                    )
                    &&& no_taken_in_block_prefix(
                        old(self).stored_blocks(),
                        old(self).statuses_map(),
                        lock@,
                        h,
                        t,
                    )
                    &&& no_taken_in_txn_prefix(
                        old(self).stored_blocks(),
                        old(self).statuses_map(),
                        lock@,
                        h,
                        t,
                        o,
                    )
                },
            r matches Some(found) ==> final(self).statuses_map() == old(self).statuses_map().insert(
                (found.0.tx_hash@, found.0.index),
                false,
            ),
            r is None ==> final(self).statuses_map() == old(self).statuses_map(),
            r is None ==> no_taken_below(
                old(self).stored_blocks(),
                old(self).statuses_map(),
                lock@,
                scan_floor(old(self).kv(), lock@),
                old(self).stored_blocks().len() - 1,
            ),
    ;
}

impl Wallet for BlockStore {
    open spec fn stored_blocks(&self) -> Seq<StoredBlock> {
        self.blocks@
    }

    open spec fn statuses_map(&self) -> Map<(Seq<u8>, u32), bool> {
        self.status_map()
    }

    #[verifier::loop_isolation(false)]
    fn take_a_cell(&mut self, lock: &Vec<u8>) -> (r: Option<(OutPoint, u64)>) {
        let ghost blocks0 = self.blocks@;
        let ghost statuses0 = self.status_map();
        let max_number: u64 = match self.select_max_number() {
            None => {
                return None;
            },
            Some(m) => m,
        };
        let dirty = match self.select_dirty_number(lock) {
            Some(d) => d,
            None => 0,
        };
        let checked = match self.select_checked_number(lock) {
            Some(c) => c,
            None => 0,
        };
        let mut has_dirty = dirty > checked;
        let min_number = if dirty > checked {
            dirty
        } else {
            checked
        };
        proof {
            assert(max_number as int == blocks0.len() - 1);
            assert(min_number == scan_floor(old(self).kv(), lock@));
        }
        let mut num = min_number;
        while num < max_number
            invariant
                self.wf(),
                num >= min_number,
                max_number as int == blocks0.len() - 1,
                min_number as int == scan_floor(old(self).kv(), lock@),
                self.blocks == old(self).blocks,
                self.statuses == old(self).statuses,
                kv_frame(old(self).kv(), self.kv(), lock@),
                cursors_monotone(old(self).kv(), self.kv(), lock@),
                no_taken_below(blocks0, statuses0, lock@, min_number as int, num as int),
            decreases max_number - num,
        {
            let n_blocks = self.blocks.len();
            proof {
                assert(num < n_blocks);
            }
            let nu = num as usize;
            let n_tx = self.blocks[nu].transactions.len();
            let mut ti: usize = 0;
            while ti < n_tx
                invariant
                    self.wf(),
                    num < max_number,
                    max_number as int == blocks0.len() - 1,
                    nu == num as usize,
                    nu as int == num as int,
                    n_tx == blocks0[nu as int].transactions@.len(),
                    ti <= n_tx,
                    self.blocks == old(self).blocks,
                    self.statuses == old(self).statuses,
                    kv_frame(old(self).kv(), self.kv(), lock@),
                    cursors_monotone(old(self).kv(), self.kv(), lock@),
                    no_taken_below(blocks0, statuses0, lock@, min_number as int, num as int),
                    no_taken_in_block_prefix(blocks0, statuses0, lock@, num as int, ti as int),
                decreases n_tx - ti,
            {
                let n_out = self.blocks[nu].transactions[ti].outputs.len();
                let mut oi: usize = 0;
                while oi < n_out
                    invariant
                        self.wf(),
                        num < max_number,
                        max_number as int == blocks0.len() - 1,
                        nu == num as usize,
                        nu as int == num as int,
                        ti < n_tx,
                        n_tx == blocks0[nu as int].transactions@.len(),
                        n_out == blocks0[nu as int].transactions@[ti as int].outputs@.len(),
                        oi <= n_out,
                        self.blocks == old(self).blocks,
                        self.statuses == old(self).statuses,
                        kv_frame(old(self).kv(), self.kv(), lock@),
                        cursors_monotone(old(self).kv(), self.kv(), lock@),
                        no_taken_below(blocks0, statuses0, lock@, min_number as int, num as int),
                        no_taken_in_block_prefix(blocks0, statuses0, lock@, num as int, ti as int),
                        no_taken_in_txn_prefix(
                            blocks0,
                            statuses0,
                            lock@,
                            num as int,
                            ti as int,
                            oi as int,
                        ),
                    decreases n_out - oi,
                {
                    let matches_lock = bytes_eq(
                        &self.blocks[nu].transactions[ti].outputs[oi].lock,
                        lock,
                    );
                    if matches_lock {
                        let h = clone_bytes(&self.blocks[nu].transactions[ti].hash);
                        let status = self.select_cell_status(&h, oi as u32);
                        match status {
                            Some(available) => {
                                if available {
                                    let capacity =
                                        self.blocks[nu].transactions[ti].outputs[oi].capacity;
                                    proof {
                                        assert(output_under_lock(
                                            blocks0,
                                            num as int,
                                            ti as int,
                                            oi as int,
                                            lock@,
                                        ));
                                        assert(output_available(
                                            blocks0,
                                            statuses0,
                                            num as int,
                                            ti as int,
                                            oi as int,
                                        ));
                                        assert(scan_floor(old(self).kv(), lock@) <= num as int);
                                        assert((num as int) < blocks0.len() - 1);
                                        assert(old(self).stored_blocks() == blocks0);
                                        assert(old(self).statuses_map() == statuses0);
                                        assert(output_available(
                                            old(self).stored_blocks(),
                                            old(self).statuses_map(),
                                            num as int,
                                            ti as int,
                                            oi as int,
                                        ));
                                        assert(h@ == blocks0[num as int].transactions@[
                                            ti as int
                                        ].hash@);
                                    }
                                    self.update_cell_status(&h, oi as u32, false);
                                    return Some(
                                        (OutPoint { tx_hash: h, index: oi as u32 }, capacity),
                                    );
                                } else {
                                    proof {
                                        assert(!output_available(
                                            blocks0,
                                            statuses0,
                                            num as int,
                                            ti as int,
                                            oi as int,
                                        ));
                                        assert(no_taken_in_txn_prefix(
                                            blocks0,
                                            statuses0,
                                            lock@,
                                            num as int,
                                            ti as int,
                                            oi + 1,
                                        ));
                                    }
                                }
                            },
                            None => {
                                has_dirty = true;
                                proof {
                                    assert(!output_available(
                                        blocks0,
                                        statuses0,
                                        num as int,
                                        ti as int,
                                        oi as int,
                                    ));
                                    assert(no_taken_in_txn_prefix(
                                        blocks0,
                                        statuses0,
                                        lock@,
                                        num as int,
                                        ti as int,
                                        oi + 1,
                                    ));
                                }
                            },
                        }
                    } else {
                        proof {
                            assert(no_taken_in_txn_prefix(
                                blocks0,
                                statuses0,
                                lock@,
                                num as int,
                                ti as int,
                                oi + 1,
                            ));
                        }
                    }
                    oi += 1;
                }
                proof {
                    lemma_block_prefix_step(blocks0, statuses0, lock@, num as int, ti as int);
                }
                ti += 1;
            }
            proof {
                lemma_no_taken_step(blocks0, statuses0, lock@, min_number as int, num as int);
            }
            let ghost kv_before = self.kv();
            if has_dirty {
                self.put_number(FLAG_DIRTY, lock, num);
            } else {
                self.put_number(FLAG_CHECKED, lock, num);
            }
            proof {
                if has_dirty {
                    lemma_kv_frame_insert(old(self).kv(), kv_before, lock@, FLAG_DIRTY, num);
                    lemma_cursors_monotone_insert(
                        old(self).kv(),
                        kv_before,
                        lock@,
                        FLAG_DIRTY,
                        num,
                    );
                } else {
                    lemma_kv_frame_insert(old(self).kv(), kv_before, lock@, FLAG_CHECKED, num);
                    lemma_cursors_monotone_insert(
                        old(self).kv(),
                        kv_before,
                        lock@,
                        FLAG_CHECKED,
                        num,
                    );
                }
            }
            num += 1;
        }
        None
    }
}

} // verus!
