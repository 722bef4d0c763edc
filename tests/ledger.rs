use utxo_ledger::export::render_rows;
use utxo_ledger::key::output_key;
use utxo_ledger::ledger::{
    plan_transaction, Block, LedgerUpdater, Outpoint, Transaction, TxOut, TxUpdate,
};
use utxo_ledger::store::MemoryStore;

fn apply(store: &mut MemoryStore, updates: Vec<TxUpdate>) -> usize {
    let before = store.len();
    let mut inserted = 0;
    for up in updates {
        inserted += up.inserts.len();
        store.apply(&up);
    }
    before + inserted - store.len()
}

fn contains(store: &MemoryStore, key: &str) -> bool {
    store.scan_all().iter().any(|e| e.key == key)
}

fn out(value: u64, address: &str) -> TxOut {
    TxOut { value, address: address.to_string() }
}

#[test]
fn coinbase_block_adds_its_outputs() {
    let tx = Transaction { hash: [7; 32], inputs: vec![], outputs: vec![out(5000000000, "addr1"), out(0, "addr2")] };
    let block = Block { txs: vec![tx] };
    let mut u = LedgerUpdater::new();
    u.on_start(0);
    assert!(u.counts_fit(&block));
    let mut store = MemoryStore::new();
    let deleted = apply(&mut store, u.on_block(&block, 0));
    assert_eq!(deleted, 0);
    assert_eq!(store.len(), 2);
    assert_eq!((u.tx_count, u.in_count, u.out_count), (1, 0, 2));
    u.on_complete(0);
    let rows = render_rows(&store.scan_all()).unwrap();
    assert_eq!(rows.len(), 2);
    let h = "07".repeat(32);
    assert_eq!(rows[0], format!("{};0;0;5000000000;addr1\n", h));
    assert_eq!(rows[1], format!("{};1;0;0;addr2\n", h));
    assert_eq!((u.start_height, u.end_height), (0, 0));
}

#[test]
fn spent_output_leaves_the_ledger() {
    let t = [0x5a; 32];
    let b0 = Block { txs: vec![Transaction { hash: t, inputs: vec![], outputs: vec![out(50, "a")] }] };
    let b1 = Block {
        txs: vec![Transaction {
            hash: [0x6b; 32],
            inputs: vec![Outpoint { txid: t, index: 0 }],
            outputs: vec![out(49, "b")],
        }],
    };
    let mut u = LedgerUpdater::new();
    u.on_start(0);
    let mut store = MemoryStore::new();
    apply(&mut store, u.on_block(&b0, 0));
    assert!(contains(&store, &output_key(&t, 0)));
    let deleted = apply(&mut store, u.on_block(&b1, 1));
    assert_eq!(deleted, 1);
    assert!(!contains(&store, &output_key(&t, 0)));
    u.on_complete(1);
    let rows = render_rows(&store.scan_all()).unwrap();
    assert_eq!(rows, vec![format!("{};0;1;49;b\n", "6b".repeat(32))]);
    assert_eq!((u.tx_count, u.in_count, u.out_count), (2, 1, 2));
    assert_eq!(store.len() as u64, u.out_count - u.in_count);
}

#[test]
fn coinbase_transaction_has_an_empty_delete_batch() {
    let tx = Transaction { hash: [1; 32], inputs: vec![], outputs: vec![out(1, "x")] };
    let up = plan_transaction(&tx, 3);
    assert!(up.deletes.is_empty());
    let mut store = MemoryStore::new();
    store.upsert("k".to_string(), vec![1]);
    assert_eq!(store.delete_many(&up.deletes), 0);
    assert_eq!(store.len(), 1);
    assert_eq!(store.scan_all()[0].key, "k");
}

#[test]
fn plan_lists_spent_keys_in_input_order() {
    let tx = Transaction {
        hash: [2; 32],
        inputs: vec![Outpoint { txid: [3; 32], index: 10 }, Outpoint { txid: [4; 32], index: 0 }],
        outputs: vec![],
    };
    let up = plan_transaction(&tx, 0);
    assert_eq!(up.deletes, vec![output_key(&[3; 32], 10), output_key(&[4; 32], 0)]);
    assert!(up.inserts.is_empty());
}

#[test]
fn counters_refuse_overflow() {
    let tx = Transaction { hash: [2; 32], inputs: vec![Outpoint { txid: [3; 32], index: 0 }], outputs: vec![] };
    let block = Block { txs: vec![tx] };
    let mut u = LedgerUpdater::new();
    assert!(u.counts_fit(&block));
    u.in_count = u64::MAX;
    assert!(!u.counts_fit(&block));
}

#[test]
fn memory_store_upsert_overwrites_and_delete_counts() {
    let mut store = MemoryStore::new();
    store.upsert("a0".to_string(), vec![1]);
    store.upsert("b0".to_string(), vec![2]);
    store.upsert("a0".to_string(), vec![3]);
    assert_eq!(store.len(), 2);
    let all = store.scan_all();
    assert_eq!((all[0].key.as_str(), all[0].encoded.clone()), ("a0", vec![3]));
    let keys = vec!["a0".to_string(), "zz".to_string(), "a0".to_string()];
    assert_eq!(store.delete_many(&keys), 1);
    assert_eq!(store.len(), 1);
    assert_eq!(store.scan_all()[0].key, "b0");
}

#[test]
fn snapshot_has_one_row_per_scanned_key() {
    let mut u = LedgerUpdater::new();
    let mut store = MemoryStore::new();
    let block = Block {
        txs: vec![
            Transaction { hash: [9; 32], inputs: vec![], outputs: (0..12).map(|i| out(i, "m")).collect() },
            Transaction { hash: [8; 32], inputs: vec![Outpoint { txid: [9; 32], index: 11 }], outputs: vec![out(1, "n")] },
        ],
    };
    apply(&mut store, u.on_block(&block, 5));
    let scanned = store.scan_all();
    let rows = render_rows(&scanned).unwrap();
    assert_eq!(scanned.len(), 12);
    assert_eq!(rows.len(), scanned.len());
    assert!(!contains(&store, &output_key(&[9; 32], 11)));
    assert!(rows.contains(&format!("{};10;5;10;m\n", "09".repeat(32))));
}
