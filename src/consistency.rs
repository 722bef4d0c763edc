//! What the ledger holds after a run: the outputs created minus the outputs
//! spent, provided no output is spent twice or before it exists.

use crate::ledger::{
    apply_txs, apply_update, created_entries, insert_all, spent_keys, total_inputs,
    total_outputs, Block, StoreModel, Transaction,
};
use vstd::prelude::*;

verus! {

broadcast use vstd::set::group_set_axioms, vstd::map::group_map_axioms;

/// The transactions of a run in order, each with the height of its block.
pub type History = Seq<(Transaction, u64)>;

/// The transactions of one block, each paired with the block's height.
pub open spec fn block_history(txs: Seq<Transaction>, height: u64) -> History {
    txs.map_values(|t: Transaction| (t, height))
}

/// The history of a sequence of blocks, each with its height.
pub open spec fn chain_history(chain: Seq<(Block, u64)>) -> History
    decreases chain.len(),
{
    if chain.len() == 0 {
        seq![]
    } else {
        chain_history(chain.drop_last()) + block_history(chain.last().0.txs@, chain.last().1)
    }
}

/// The store after applying a history's updates in order to `m`.
pub open spec fn apply_history(m: StoreModel, h: History) -> StoreModel
    decreases h.len(),
{
    if h.len() == 0 {
        m
    } else {
        apply_update(
            apply_history(m, h.drop_last()),
            spent_keys(h.last().0),
            created_entries(h.last().0, h.last().1),
        )
    }
}

/// The store after processing a sequence of blocks, each at its height.
pub open spec fn apply_chain(m: StoreModel, chain: Seq<(Block, u64)>) -> StoreModel
    decreases chain.len(),
{
    if chain.len() == 0 {
        m
    } else {
        apply_txs(apply_chain(m, chain.drop_last()), chain.last().0.txs@, chain.last().1)
    }
}

/// Number of inputs over a sequence of blocks.
pub open spec fn chain_inputs(chain: Seq<(Block, u64)>) -> nat
    decreases chain.len(),
{
    if chain.len() == 0 {
        0
    } else {
        chain_inputs(chain.drop_last()) + total_inputs(chain.last().0.txs@)
    }
}

/// Number of outputs over a sequence of blocks.
pub open spec fn chain_outputs(chain: Seq<(Block, u64)>) -> nat
    decreases chain.len(),
{
    if chain.len() == 0 {
        0
    } else {
        chain_outputs(chain.drop_last()) + total_outputs(chain.last().0.txs@)
    }
}

pub open spec fn history_inputs(h: History) -> nat
    decreases h.len(),
{
    if h.len() == 0 {
        0
    } else {
        history_inputs(h.drop_last()) + h.last().0.inputs@.len()
    }
}

pub open spec fn history_outputs(h: History) -> nat
    decreases h.len(),
{
    if h.len() == 0 {
        0
    } else {
        history_outputs(h.drop_last()) + h.last().0.outputs@.len()
    }
}

pub open spec fn entry_keys(es: Seq<(Seq<char>, Seq<u8>)>) -> Seq<Seq<char>> {
    es.map_values(|e: (Seq<char>, Seq<u8>)| e.0)
}

/// Every entry that a history creates, keyed as stored.
pub open spec fn created(h: History) -> StoreModel
    decreases h.len(),
{
    if h.len() == 0 {
        Map::empty()
    } else {
        insert_all(created(h.drop_last()), created_entries(h.last().0, h.last().1))
    }
}

/// Every key that a history's inputs spend.
pub open spec fn consumed(h: History) -> Set<Seq<char>>
    decreases h.len(),
{
    if h.len() == 0 {
        Set::empty()
    } else {
        consumed(h.drop_last()).union(spent_keys(h.last().0).to_set())
    }
}

/// Each transaction spends distinct outputs that earlier transactions
/// created and nothing spent before, and creates outputs under keys that
/// are distinct and new.
pub open spec fn no_double_spend(h: History) -> bool
    decreases h.len(),
{
    if h.len() == 0 {
        true
    } else {
        let prev = h.drop_last();
        let spent = spent_keys(h.last().0);
        let made = entry_keys(created_entries(h.last().0, h.last().1));
        &&& no_double_spend(prev)
        &&& spent.no_duplicates()
        &&& forall|i: int|
            0 <= i < spent.len() ==> created(prev).dom().contains(#[trigger] spent[i])
                && !consumed(prev).contains(spent[i])
        &&& made.no_duplicates()
        &&& forall|j: int| 0 <= j < made.len() ==> !created(prev).dom().contains(#[trigger] made[j])
    }
}

proof fn lemma_insert_all_dom(m: StoreModel, es: Seq<(Seq<char>, Seq<u8>)>)
    ensures
        insert_all(m, es).dom() == m.dom().union(entry_keys(es).to_set()),
    decreases es.len(),
{
    if es.len() > 0 {
        lemma_insert_all_dom(m, es.drop_last());
        assert(entry_keys(es.drop_last()) =~= entry_keys(es).drop_last());
        assert(entry_keys(es).last() == es.last().0);
        assert(insert_all(m, es).dom() =~= m.dom().union(entry_keys(es).to_set())) by {
            assert forall|k: Seq<char>| entry_keys(es).contains(k) implies entry_keys(
                es.drop_last(),
            ).contains(k) || k == es.last().0 by {
                let i = choose|i: int| 0 <= i < entry_keys(es).len() && entry_keys(es)[i] == k;
                if i < es.len() - 1 {
                    assert(entry_keys(es.drop_last())[i] == k);
                }
            }
            assert forall|k: Seq<char>| entry_keys(es.drop_last()).contains(k) implies entry_keys(
                es,
            ).contains(k) by {
                let i = choose|i: int|
                    0 <= i < entry_keys(es.drop_last()).len() && entry_keys(es.drop_last())[i]
                        == k;
                assert(entry_keys(es)[i] == k);
            }
            assert(entry_keys(es)[es.len() - 1] == es.last().0);
        }
    } else {
        assert(insert_all(m, es).dom() =~= m.dom().union(entry_keys(es).to_set()));
    }
}

proof fn lemma_insert_all_remove_keys(
    m: StoreModel,
    es: Seq<(Seq<char>, Seq<u8>)>,
    x: Set<Seq<char>>,
)
    requires
        forall|j: int| 0 <= j < es.len() ==> !x.contains(#[trigger] es[j].0),
    ensures
        insert_all(m, es).remove_keys(x) == insert_all(m.remove_keys(x), es),
    decreases es.len(),
{
    if es.len() > 0 {
        assert forall|j: int| 0 <= j < es.drop_last().len() implies !x.contains(
            #[trigger] es.drop_last()[j].0,
        ) by {
            assert(es.drop_last()[j] == es[j]);
        }
        lemma_insert_all_remove_keys(m, es.drop_last(), x);
        assert(!x.contains(es[es.len() - 1].0));
        assert(insert_all(m, es).remove_keys(x) =~= insert_all(m.remove_keys(x), es));
    }
}

proof fn lemma_insert_all_len(m: StoreModel, es: Seq<(Seq<char>, Seq<u8>)>)
    requires
        m.dom().finite(),
        entry_keys(es).no_duplicates(),
        forall|j: int| 0 <= j < es.len() ==> !m.dom().contains(#[trigger] entry_keys(es)[j]),
    ensures
        insert_all(m, es).dom().finite(),
        insert_all(m, es).len() == m.len() + es.len(),
    decreases es.len(),
{
    if es.len() > 0 {
        let ks = entry_keys(es);
        let prev = es.drop_last();
        assert(entry_keys(prev) =~= ks.drop_last());
        assert forall|j: int| 0 <= j < prev.len() implies !m.dom().contains(
            #[trigger] entry_keys(prev)[j],
        ) by {
            assert(entry_keys(prev)[j] == ks[j]);
        }
        lemma_insert_all_len(m, prev);
        lemma_insert_all_dom(m, prev);
        let k = es.last().0;
        assert(ks[es.len() - 1] == k);
        assert(!entry_keys(prev).contains(k)) by {
            if entry_keys(prev).contains(k) {
                let i = choose|i: int| 0 <= i < entry_keys(prev).len() && entry_keys(prev)[i] == k;
                assert(ks[i] == ks[es.len() - 1]);
            }
        }
        assert(!insert_all(m, prev).dom().contains(k));
    }
}

proof fn lemma_remove_keys_len(m: StoreModel, s: Seq<Seq<char>>)
    requires
        m.dom().finite(),
        s.no_duplicates(),
        forall|i: int| 0 <= i < s.len() ==> m.dom().contains(#[trigger] s[i]),
    ensures
        m.remove_keys(s.to_set()).dom().finite(),
        m.remove_keys(s.to_set()).len() == m.len() - s.len(),
    decreases s.len(),
{
    if s.len() == 0 {
        assert(m.remove_keys(s.to_set()) =~= m);
    } else {
        let prev = s.drop_last();
        let k = s.last();
        assert forall|i: int| 0 <= i < prev.len() implies m.dom().contains(#[trigger] prev[i]) by {
            assert(prev[i] == s[i]);
        }
        lemma_remove_keys_len(m, prev);
        let r = m.remove_keys(prev.to_set());
        assert(!prev.contains(k)) by {
            if prev.contains(k) {
                let i = choose|i: int| 0 <= i < prev.len() && prev[i] == k;
                assert(s[i] == s[s.len() - 1]);
            }
        }
        assert(s.to_set() =~= prev.to_set().insert(k)) by {
            assert forall|a: Seq<char>| s.contains(a) implies prev.contains(a) || a == k by {
                let i = choose|i: int| 0 <= i < s.len() && s[i] == a;
                if i < s.len() - 1 {
                    assert(prev[i] == a);
                }
            }
            assert forall|a: Seq<char>| prev.contains(a) implies s.contains(a) by {
                let i = choose|i: int| 0 <= i < prev.len() && prev[i] == a;
                assert(s[i] == a);
            }
            assert(s[s.len() - 1] == k);
        }
        assert(m.remove_keys(s.to_set()) =~= r.remove(k));
        assert(m.dom().contains(s[s.len() - 1]));
        assert(r.dom().contains(k));
    }
}

/// What holds of the store after a history that spends no output twice.
pub open spec fn history_invariant(h: History, m: StoreModel) -> bool {
    &&& m == created(h).remove_keys(consumed(h))
    &&& consumed(h).subset_of(created(h).dom())
    &&& created(h).dom().finite()
    &&& m.dom().finite()
    &&& history_inputs(h) <= history_outputs(h)
    &&& m.len() == history_outputs(h) - history_inputs(h)
}

proof fn lemma_history(h: History)
    requires
        no_double_spend(h),
    ensures
        history_invariant(h, apply_history(Map::empty(), h)),
    decreases h.len(),
{
    if h.len() == 0 {
        assert(apply_history(Map::empty(), h) =~= created(h).remove_keys(consumed(h)));
    } else {
        let prev = h.drop_last();
        let tx = h.last().0;
        let spent = spent_keys(tx);
        let es = created_entries(tx, h.last().1);
        let c0 = created(prev);
        let k0 = consumed(prev);
        let m0 = apply_history(Map::empty(), prev);
        lemma_history(prev);
        let x = k0.union(spent.to_set());
        let r = m0.remove_keys(spent.to_set());
        assert(r =~= c0.remove_keys(x));
        lemma_insert_all_dom(c0, es);
        assert forall|j: int| 0 <= j < es.len() implies !x.contains(#[trigger] es[j].0) by {
            assert(entry_keys(es)[j] == es[j].0);
            if spent.to_set().contains(es[j].0) {
                let i = choose|i: int| 0 <= i < spent.len() && spent[i] == es[j].0;
                assert(c0.dom().contains(spent[i]));
            }
        }
        lemma_insert_all_remove_keys(c0, es, x);
        assert forall|i: int| 0 <= i < spent.len() implies m0.dom().contains(#[trigger] spent[i]) by {
            assert(c0.dom().contains(spent[i]));
        }
        lemma_remove_keys_len(m0, spent);
        assert forall|j: int| 0 <= j < es.len() implies !r.dom().contains(
            #[trigger] entry_keys(es)[j],
        ) by {
            assert(!c0.dom().contains(entry_keys(es)[j]));
        }
        lemma_insert_all_len(r, es);
        lemma_insert_all_len(c0, es);
        assert(consumed(h).subset_of(created(h).dom())) by {
            assert forall|k: Seq<char>| consumed(h).contains(k) implies created(h).dom().contains(
                k,
            ) by {
                if spent.to_set().contains(k) {
                    let i = choose|i: int| 0 <= i < spent.len() && spent[i] == k;
                    assert(c0.dom().contains(spent[i]));
                }
            }
        }
    }
}

proof fn lemma_history_of_block(m: StoreModel, h: History, txs: Seq<Transaction>, height: u64)
    ensures
        apply_history(m, h + block_history(txs, height)) == apply_txs(
            apply_history(m, h),
            txs,
            height,
        ),
        history_inputs(h + block_history(txs, height)) == history_inputs(h) + total_inputs(txs),
        history_outputs(h + block_history(txs, height)) == history_outputs(h) + total_outputs(txs),
    decreases txs.len(),
{
    if txs.len() == 0 {
        assert(h + block_history(txs, height) =~= h);
    } else {
        lemma_history_of_block(m, h, txs.drop_last(), height);
        let full = h + block_history(txs, height);
        assert(full.drop_last() =~= h + block_history(txs.drop_last(), height));
        assert(full.last() == (txs.last(), height));
    }
}

proof fn lemma_chain(chain: Seq<(Block, u64)>)
    ensures
        apply_chain(Map::empty(), chain) == apply_history(Map::empty(), chain_history(chain)),
        chain_inputs(chain) == history_inputs(chain_history(chain)),
        chain_outputs(chain) == history_outputs(chain_history(chain)),
    decreases chain.len(),
{
    if chain.len() > 0 {
        lemma_chain(chain.drop_last());
        lemma_history_of_block(
            Map::empty(),
            chain_history(chain.drop_last()),
            chain.last().0.txs@,
            chain.last().1,
        );
    }
}

/// Ledger consistency: after a sequence of blocks in which no output is
/// spent twice or before it exists, the store holds exactly the entries
/// created and not consumed, and their number is the number of outputs
/// minus the number of inputs.
pub proof fn lemma_ledger_consistency(chain: Seq<(Block, u64)>)
    requires
        no_double_spend(chain_history(chain)),
    ensures
        apply_chain(Map::empty(), chain) == created(chain_history(chain)).remove_keys(
            consumed(chain_history(chain)),
        ),
        chain_inputs(chain) <= chain_outputs(chain),
        apply_chain(Map::empty(), chain).len() == chain_outputs(chain) - chain_inputs(chain),
{
    lemma_chain(chain);
    lemma_history(chain_history(chain));
}

} // verus!
