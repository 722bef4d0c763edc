use utxo_ledger::key::{input_reference_key, output_key, split_key};

fn sample_txid() -> [u8; 32] {
    let mut t = [0u8; 32];
    for (i, b) in t.iter_mut().enumerate() {
        *b = i as u8;
    }
    t[31] = 0xab;
    t
}

const SAMPLE_HEX: &str = "ab1e1d1c1b1a191817161514131211100f0e0d0c0b0a09080706050403020100";

#[test]
fn output_key_is_swapped_hex_then_index() {
    let t = sample_txid();
    assert_eq!(output_key(&t, 0), format!("{}0", SAMPLE_HEX));
    assert_eq!(output_key(&t, 17), format!("{}17", SAMPLE_HEX));
    assert_eq!(output_key(&t, 4294967296), format!("{}4294967296", SAMPLE_HEX));
}

#[test]
fn input_reference_key_matches_output_key() {
    let t = sample_txid();
    for i in [0u32, 1, 9, 10, 255, u32::MAX] {
        assert_eq!(input_reference_key(&t, i), output_key(&t, i as u64));
    }
}

#[test]
fn split_key_round_trips_single_digit_indices() {
    let t = sample_txid();
    for i in 0u64..10 {
        let k = output_key(&t, i);
        assert_eq!(split_key(&k), Some((SAMPLE_HEX.to_string(), i)));
    }
}

#[test]
fn split_key_round_trips_long_indices() {
    let t = [0xffu8; 32];
    for i in [10u64, 123, 65535, u64::MAX] {
        let k = output_key(&t, i);
        let (txid, idx) = split_key(&k).unwrap();
        assert_eq!(txid, "f".repeat(64));
        assert_eq!(idx, i);
    }
}

#[test]
fn split_key_rejects_malformed_keys() {
    assert_eq!(split_key(""), None);
    assert_eq!(split_key(SAMPLE_HEX), None);
    assert_eq!(split_key(&format!("{}1x", SAMPLE_HEX)), None);
    assert_eq!(split_key(&format!("{}18446744073709551616", SAMPLE_HEX)), None);
    assert_eq!(split_key(&format!("{}18446744073709551615", SAMPLE_HEX)), Some((SAMPLE_HEX.to_string(), u64::MAX)));
}
