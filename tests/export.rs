use utxo_ledger::codec::{encode, CodecError, LedgerValue};
use utxo_ledger::export::{csv_row, final_file_name, header, render_rows, temp_file_name, ExportError};
use utxo_ledger::key::output_key;
use utxo_ledger::ledger::StoreEntry;
use utxo_ledger::store::batch_delete_statement;

fn entry(txid: [u8; 32], index: u64, h: u64, v: u64, a: &str) -> StoreEntry {
    let value = LedgerValue { block_height: h, output_value: v, address: a.to_string() };
    StoreEntry { key: output_key(&txid, index), encoded: encode(&value) }
}

#[test]
fn header_row_is_fixed() {
    assert_eq!(header(), "txid;indexOut;height;value;address\n");
}

#[test]
fn csv_row_renders_every_field() {
    let e = entry([0x11; 32], 3, 120, 5000000000, "addr1");
    let row = csv_row(&e.key, &e.encoded).unwrap();
    assert_eq!(row, format!("{};3;120;5000000000;addr1\n", "11".repeat(32)));
}

#[test]
fn csv_row_keeps_multi_digit_indices() {
    let e = entry([0x22; 32], 12, 1, 2, "x");
    let row = csv_row(&e.key, &e.encoded).unwrap();
    assert_eq!(row, format!("{};12;1;2;x\n", "22".repeat(32)));
}

#[test]
fn csv_row_reports_malformed_key_and_bad_value() {
    let e = entry([0x33; 32], 0, 1, 2, "x");
    assert_eq!(csv_row("short0", &e.encoded), Err(ExportError::MalformedKey));
    assert_eq!(csv_row(&e.key, &e.encoded[..10]), Err(ExportError::Codec(CodecError::Truncated)));
}

#[test]
fn render_rows_gives_one_row_per_scanned_entry() {
    let entries = vec![entry([1; 32], 0, 0, 10, "a"), entry([2; 32], 1, 0, 20, "b"), entry([3; 32], 0, 1, 30, "c")];
    let rows = render_rows(&entries).unwrap();
    assert_eq!(rows.len(), entries.len());
    assert_eq!(rows[1], format!("{};1;0;20;b\n", "02".repeat(32)));
    assert_eq!(render_rows(&Vec::new()).unwrap().len(), 0);
}

#[test]
fn render_rows_stops_at_first_bad_entry() {
    let mut bad = entry([2; 32], 1, 0, 20, "b");
    bad.encoded.push(1);
    let entries = vec![entry([1; 32], 0, 0, 10, "a"), bad, StoreEntry { key: String::new(), encoded: Vec::new() }];
    assert_eq!(render_rows(&entries).err(), Some(ExportError::Codec(CodecError::TrailingBytes)));
}

#[test]
fn snapshot_file_names() {
    assert_eq!(final_file_name(0, 481823), "unspent-0-481823.csv");
    assert_eq!(final_file_name(12, 12), "unspent-12-12.csv");
    assert_eq!(temp_file_name(), "unspent.csv.tmp");
}

#[test]
fn batch_delete_statement_lists_quoted_keys() {
    assert_eq!(batch_delete_statement(&Vec::new()), None);
    assert_eq!(
        batch_delete_statement(&vec!["ab0".to_string()]),
        Some("DELETE FROM results WHERE key IN ('ab0');".to_string())
    );
    assert_eq!(
        batch_delete_statement(&vec!["ab0".to_string(), "cd12".to_string()]),
        Some("DELETE FROM results WHERE key IN ('ab0', 'cd12');".to_string())
    );
}
