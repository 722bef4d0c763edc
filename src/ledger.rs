//! Per-block ledger updates: the keys that a block's inputs spend, the entries
//! that its outputs create, and the counters kept over the run.

use crate::codec::{encode, encode_spec, LedgerValue};
use crate::key::{input_reference_key, key_of, output_key};
use vstd::prelude::*;

verus! {

/// A reference to an earlier transaction's output.
pub struct Outpoint {
    pub txid: [u8; 32],
    pub index: u32,
}

/// An output: an amount paid to an address.
pub struct TxOut {
    pub value: u64,
    pub address: String,
}

/// A transaction: its id, the outputs it spends and the outputs it creates.
pub struct Transaction {
    pub hash: [u8; 32],
    pub inputs: Vec<Outpoint>,
    pub outputs: Vec<TxOut>,
}

/// A block: its transactions, in order.
pub struct Block {
    pub txs: Vec<Transaction>,
}

/// One key-value pair of the ledger store.
pub struct StoreEntry {
    pub key: String,
    pub encoded: Vec<u8>,
}

impl View for StoreEntry {
    type V = (Seq<char>, Seq<u8>);

    open spec fn view(&self) -> (Seq<char>, Seq<u8>) {
        (self.key@, self.encoded@)
    }
}

/// The store mutations of one transaction: first the keys to delete, then
/// the entries to insert, in order.
pub struct TxUpdate {
    pub deletes: Vec<String>,
    pub inserts: Vec<StoreEntry>,
}

/// Mathematical form of the ledger store.
pub type StoreModel = Map<Seq<char>, Seq<u8>>;

pub open spec fn keys_view(v: Seq<String>) -> Seq<Seq<char>> {
    v.map_values(|k: String| k@)
}

pub open spec fn entries_view(v: Seq<StoreEntry>) -> Seq<(Seq<char>, Seq<u8>)> {
    v.map_values(|e: StoreEntry| e@)
}

impl View for TxUpdate {
    type V = (Seq<Seq<char>>, Seq<(Seq<char>, Seq<u8>)>);

    open spec fn view(&self) -> Self::V {
        (keys_view(self.deletes@), entries_view(self.inserts@))
    }
}

/// The keys of the outputs that `tx` spends, in input order.
pub open spec fn spent_keys(tx: Transaction) -> Seq<Seq<char>> {
    tx.inputs@.map_values(|o: Outpoint| key_of(o.txid@, o.index as nat))
}

/// The entries that `tx` creates in a block at `height`, in output order.
pub open spec fn created_entries(tx: Transaction, height: u64) -> Seq<(Seq<char>, Seq<u8>)> {
    tx.outputs@.map(
        |j: int, o: TxOut| (key_of(tx.hash@, j as nat), encode_spec((height, o.value, o.address@))),
    )
}

/// The store after inserting `es` in order into `m`.
pub open spec fn insert_all(m: StoreModel, es: Seq<(Seq<char>, Seq<u8>)>) -> StoreModel
    decreases es.len(),
{
    if es.len() == 0 {
        m
    } else {
        insert_all(m, es.drop_last()).insert(es.last().0, es.last().1)
    }
}

/// The store after one transaction's update: deletions first, then insertions.
pub open spec fn apply_update(
    m: StoreModel,
    deletes: Seq<Seq<char>>,
    inserts: Seq<(Seq<char>, Seq<u8>)>,
) -> StoreModel {
    insert_all(m.remove_keys(deletes.to_set()), inserts)
}

/// The store after the transactions `txs` of a block at `height`.
pub open spec fn apply_txs(m: StoreModel, txs: Seq<Transaction>, height: u64) -> StoreModel
    decreases txs.len(),
{
    if txs.len() == 0 {
        m
    } else {
        let last = txs.last();
        apply_update(
            apply_txs(m, txs.drop_last(), height),
            spent_keys(last),
            created_entries(last, height),
        )
    }
}

/// Number of inputs over `txs`.
pub open spec fn total_inputs(txs: Seq<Transaction>) -> nat
    decreases txs.len(),
{
    if txs.len() == 0 {
        0
    } else {
        total_inputs(txs.drop_last()) + txs.last().inputs@.len()
    }
}

/// Number of outputs over `txs`.
pub open spec fn total_outputs(txs: Seq<Transaction>) -> nat
    decreases txs.len(),
{
    if txs.len() == 0 {
        0
    } else {
        total_outputs(txs.drop_last()) + txs.last().outputs@.len()
    }
}

proof fn lemma_totals_prefix(txs: Seq<Transaction>, i: int)
    requires
        0 <= i <= txs.len(),
    ensures
        total_inputs(txs.take(i)) <= total_inputs(txs),
        total_outputs(txs.take(i)) <= total_outputs(txs),
    decreases txs.len(),
{
    if i < txs.len() {
        lemma_totals_prefix(txs.drop_last(), i);
        assert(txs.drop_last().take(i) =~= txs.take(i));
    } else {
        assert(txs.take(i) =~= txs);
    }
}

/// Builds the store update of one transaction in a block at `height`.
pub fn plan_transaction(tx: &Transaction, height: u64) -> (r: TxUpdate)
    ensures
        r@.0 == spent_keys(*tx),
        r@.1 == created_entries(*tx, height),
{
    let mut deletes: Vec<String> = Vec::new();
    let mut i: usize = 0;
    while i < tx.inputs.len()
        invariant
            i <= tx.inputs@.len(),
            keys_view(deletes@) == spent_keys(*tx).take(i as int),
        decreases tx.inputs@.len() - i,
    {
        let o = &tx.inputs[i];
        let k = input_reference_key(&o.txid, o.index);
        let ghost prev = deletes@;
        deletes.push(k);
        assert(keys_view(deletes@) =~= keys_view(prev).push(k@));
        assert(spent_keys(*tx)[i as int] == k@);
        assert(keys_view(deletes@) =~= spent_keys(*tx).take(i + 1));
        i = i + 1;
    }
    assert(spent_keys(*tx).take(i as int) =~= spent_keys(*tx));
    let mut inserts: Vec<StoreEntry> = Vec::new();
    let mut j: usize = 0;
    while j < tx.outputs.len()
        invariant
            j <= tx.outputs@.len(),
            entries_view(inserts@) == created_entries(*tx, height).take(j as int),
        decreases tx.outputs@.len() - j,
    {
        let o = &tx.outputs[j];
        let value = LedgerValue {
            block_height: height,
            output_value: o.value,
            address: o.address.clone(),
        };
        let key = output_key(&tx.hash, j as u64);
        let encoded = encode(&value);
        let entry = StoreEntry { key, encoded };
        let ghost prev = inserts@;
        let ghost ev = entry@;
        inserts.push(entry);
        assert(entries_view(inserts@) =~= entries_view(prev).push(ev));
        assert(created_entries(*tx, height)[j as int] == ev);
        assert(entries_view(inserts@) =~= created_entries(*tx, height).take(j + 1));
        j = j + 1;
    }
    assert(created_entries(*tx, height).take(j as int) =~= created_entries(*tx, height));
    TxUpdate { deletes, inserts }
}

/// Counters kept over a run: the observed height range and the numbers of
/// transactions, inputs and outputs processed.
pub struct LedgerUpdater {
    pub start_height: u64,
    pub end_height: u64,
    pub tx_count: u64,
    pub in_count: u64,
    pub out_count: u64,
}

/// Whether processing `block` keeps every counter of `u` within `u64`.
pub open spec fn counts_fit_spec(u: LedgerUpdater, block: Block) -> bool {
    &&& u.tx_count + block.txs@.len() <= u64::MAX
    &&& u.in_count + total_inputs(block.txs@) <= u64::MAX
    &&& u.out_count + total_outputs(block.txs@) <= u64::MAX
}

impl LedgerUpdater {
    /// An updater with every counter at zero.
    pub fn new() -> (r: Self)
        ensures
            r.start_height == 0,
            r.end_height == 0,
            r.tx_count == 0,
            r.in_count == 0,
            r.out_count == 0,
    {
        LedgerUpdater { start_height: 0, end_height: 0, tx_count: 0, in_count: 0, out_count: 0 }
    }

    /// Records the height of the first block of the run.
    pub fn on_start(&mut self, block_height: u64)
        ensures
            *final(self) == (LedgerUpdater { start_height: block_height, ..*old(self) }),
    {
        self.start_height = block_height;
    }

    /// Whether the counters can take `block` without overflowing.
    pub fn counts_fit(&self, block: &Block) -> (r: bool)
        ensures
            r == counts_fit_spec(*self, *block),
    {
        let n = block.txs.len();
        let mut ins: u64 = 0;
        let mut outs: u64 = 0;
        let mut i: usize = 0;
        while i < n
            invariant
                n == block.txs@.len(),
                i <= n,
                ins == total_inputs(block.txs@.take(i as int)),
                outs == total_outputs(block.txs@.take(i as int)),
                ins <= u64::MAX - self.in_count,
                outs <= u64::MAX - self.out_count,
            decreases n - i,
        {
            let tx = &block.txs[i];
            assert(block.txs@.take(i + 1).drop_last() =~= block.txs@.take(i as int));
            let a = tx.inputs.len() as u64;
            let b = tx.outputs.len() as u64;
            if a > u64::MAX - self.in_count - ins || b > u64::MAX - self.out_count - outs {
                proof {
                    lemma_totals_prefix(block.txs@, i + 1);
                }
                return false;
            }
            ins = ins + a;
            outs = outs + b;
            i = i + 1;
        }
        assert(block.txs@.take(n as int) =~= block.txs@);
        (n as u64) <= u64::MAX - self.tx_count
    }

    /// Plans the store updates of `block` at `block_height`, one per
    /// transaction in order, and adds its transactions, inputs and outputs
    /// to the counters.
    pub fn on_block(&mut self, block: &Block, block_height: u64) -> (r: Vec<TxUpdate>)
        requires
            counts_fit_spec(*old(self), *block),
        ensures
            r@.len() == block.txs@.len(),
            forall|i: int|
                0 <= i < r@.len() ==> #[trigger] r@[i]@ == (
                    spent_keys(block.txs@[i]),
                    created_entries(block.txs@[i], block_height),
                ),
            final(self).tx_count == old(self).tx_count + block.txs@.len(),
            final(self).in_count == old(self).in_count + total_inputs(block.txs@),
            final(self).out_count == old(self).out_count + total_outputs(block.txs@),
            final(self).start_height == old(self).start_height,
            final(self).end_height == old(self).end_height,
    {
        let n = block.txs.len();
        let mut updates: Vec<TxUpdate> = Vec::new();
        let mut i: usize = 0;
        proof {
            lemma_totals_prefix(block.txs@, 0);
            assert(block.txs@.take(0) =~= Seq::<Transaction>::empty());
        }
        while i < n
            invariant
                n == block.txs@.len(),
                i <= n,
                updates@.len() == i,
                forall|k: int|
                    0 <= k < i ==> #[trigger] updates@[k]@ == (
                        spent_keys(block.txs@[k]),
                        created_entries(block.txs@[k], block_height),
                    ),
                self.in_count == old(self).in_count + total_inputs(block.txs@.take(i as int)),
                self.out_count == old(self).out_count + total_outputs(block.txs@.take(i as int)),
                self.tx_count == old(self).tx_count,
                self.start_height == old(self).start_height,
                self.end_height == old(self).end_height,
                counts_fit_spec(*old(self), *block),
            decreases n - i,
        {
            let tx = &block.txs[i];
            assert(block.txs@.take(i + 1).drop_last() =~= block.txs@.take(i as int));
            proof {
                lemma_totals_prefix(block.txs@, i + 1);
            }
            let up = plan_transaction(tx, block_height);
            updates.push(up);
            self.in_count = self.in_count + tx.inputs.len() as u64;
            self.out_count = self.out_count + tx.outputs.len() as u64;
            i = i + 1;
        }
        assert(block.txs@.take(n as int) =~= block.txs@);
        self.tx_count = self.tx_count + n as u64;
        updates
    }

    /// Records the height of the last block of the run.
    pub fn on_complete(&mut self, block_height: u64)
        ensures
            *final(self) == (LedgerUpdater { end_height: block_height, ..*old(self) }),
    {
        self.end_height = block_height;
    }
}

} // verus!
