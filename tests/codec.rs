use utxo_ledger::codec::{decode, encode, CodecError, LedgerValue};

fn value(h: u64, v: u64, a: &str) -> LedgerValue {
    LedgerValue { block_height: h, output_value: v, address: a.to_string() }
}

#[test]
fn decode_of_encode_gives_the_value_back() {
    for (h, v, a) in [(0u64, 5000000000u64, "addr1"), (7, 0, ""), (u64::MAX, u64::MAX, "1BoatSLRHtKNngkdXEeobR76b53LETtpyT"), (3, 9, "zürich✓")] {
        let d = decode(&encode(&value(h, v, a))).unwrap();
        assert_eq!(d.block_height, h);
        assert_eq!(d.output_value, v);
        assert_eq!(d.address, a);
    }
}

#[test]
fn encoding_layout_is_exact() {
    let b = encode(&value(1, 2, "ab"));
    assert_eq!(
        b,
        vec![1, 0, 0, 0, 0, 0, 0, 0, 2, 0, 0, 0, 0, 0, 0, 0, 2, 0, 0, 0, 0, 0, 0, 0, b'a', b'b']
    );
}

#[test]
fn encoding_agrees_with_bincode() {
    let cases = [(0u64, 5000000000u64, "addr1"), (700000, 1, "bc1qxy2kgdygjrsqtzq2n0yrf2493p83kkfjhx0wlh"), (9, 9, "é")];
    for (h, v, a) in cases {
        let ours = encode(&value(h, v, a));
        let theirs = bincode::serialize(&(h, v, a.to_string())).unwrap();
        assert_eq!(ours, theirs);
    }
}

#[test]
fn decode_rejects_truncated_input() {
    assert_eq!(decode(&[]).err(), Some(CodecError::Truncated));
    assert_eq!(decode(&[0u8; 23]).err(), Some(CodecError::Truncated));
    let mut b = encode(&value(1, 2, "abc"));
    b.pop();
    assert_eq!(decode(&b).err(), Some(CodecError::Truncated));
}

#[test]
fn decode_rejects_trailing_bytes() {
    let mut b = encode(&value(1, 2, "abc"));
    b.push(0);
    assert_eq!(decode(&b).err(), Some(CodecError::TrailingBytes));
}

#[test]
fn decode_rejects_invalid_text() {
    let mut b = encode(&value(1, 2, "ab"));
    b[24] = 0xff;
    assert_eq!(decode(&b).err(), Some(CodecError::InvalidText));
}
