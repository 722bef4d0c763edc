//! Composite ledger keys: the byte-swapped hexadecimal transaction id
//! followed by the decimal output index, with no separator.

use vstd::prelude::*;

verus! {

/// Number of bytes in a transaction id.
pub const TXID_LEN: usize = 32;

/// Number of characters of the hexadecimal transaction id in a key.
pub const TXID_HEX_LEN: usize = 64;

/// Lower-case hexadecimal digit of a nibble.
pub open spec fn hex_digit(n: nat) -> char {
    if n == 0 { '0' } else if n == 1 { '1' } else if n == 2 { '2' } else if n == 3 { '3' }
    else if n == 4 { '4' } else if n == 5 { '5' } else if n == 6 { '6' } else if n == 7 { '7' }
    else if n == 8 { '8' } else if n == 9 { '9' } else if n == 10 { 'a' } else if n == 11 { 'b' }
    else if n == 12 { 'c' } else if n == 13 { 'd' } else if n == 14 { 'e' } else { 'f' }
}

/// The two hexadecimal digits of one byte, high nibble first.
pub open spec fn byte_hex(b: u8) -> Seq<char> {
    seq![hex_digit((b / 16) as nat), hex_digit((b % 16) as nat)]
}

/// Hexadecimal rendering of `bytes` in reversed byte order: the last byte's
/// digits come first, as transaction ids are conventionally displayed.
pub open spec fn hex_swapped(bytes: Seq<u8>) -> Seq<char>
    decreases bytes.len(),
{
    if bytes.len() == 0 {
        seq![]
    } else {
        hex_swapped(bytes.drop_first()) + byte_hex(bytes[0])
    }
}

/// Decimal digit character of a value below ten.
pub open spec fn digit_char(n: nat) -> char {
    hex_digit(n)
}

/// Value of a decimal digit character.
pub open spec fn digit_value(c: char) -> nat {
    if c == '1' { 1 } else if c == '2' { 2 } else if c == '3' { 3 } else if c == '4' { 4 }
    else if c == '5' { 5 } else if c == '6' { 6 } else if c == '7' { 7 } else if c == '8' { 8 }
    else if c == '9' { 9 } else { 0 }
}

pub open spec fn is_digit(c: char) -> bool {
    '0' <= c && c <= '9'
}

/// Decimal rendering of `n`, most significant digit first, without leading zeros.
pub open spec fn decimal(n: nat) -> Seq<char>
    decreases n,
{
    if n < 10 {
        seq![digit_char(n)]
    } else {
        decimal(n / 10).push(digit_char(n % 10))
    }
}

/// Value of a sequence of decimal digits (zero for the empty sequence).
pub open spec fn decimal_value(s: Seq<char>) -> nat
    decreases s.len(),
{
    if s.len() == 0 {
        0
    } else {
        decimal_value(s.drop_last()) * 10 + digit_value(s.last())
    }
}

pub open spec fn all_digits(s: Seq<char>) -> bool {
    forall|i: int| 0 <= i < s.len() ==> is_digit(#[trigger] s[i])
}

/// The composite key of output `index` of the transaction with id `txid`.
pub open spec fn key_of(txid: Seq<u8>, index: nat) -> Seq<char> {
    hex_swapped(txid) + decimal(index)
}

/// How a key splits into its transaction id text and its output index: the
/// id is the fixed-width prefix, the index every character after it.
pub open spec fn split_spec(key: Seq<char>) -> Option<(Seq<char>, u64)> {
    let rest = key.subrange(TXID_HEX_LEN as int, key.len() as int);
    if key.len() > TXID_HEX_LEN && all_digits(rest) && decimal_value(rest) <= u64::MAX {
        Some((key.subrange(0, TXID_HEX_LEN as int), decimal_value(rest) as u64))
    } else {
        None
    }
}

pub proof fn lemma_hex_swapped_len(bytes: Seq<u8>)
    ensures
        hex_swapped(bytes).len() == 2 * bytes.len(),
    decreases bytes.len(),
{
    if bytes.len() > 0 {
        lemma_hex_swapped_len(bytes.drop_first());
    }
}

pub proof fn lemma_decimal_digits(n: nat)
    ensures
        decimal(n).len() >= 1,
        all_digits(decimal(n)),
        decimal_value(decimal(n)) == n,
    decreases n,
{
    if n >= 10 {
        lemma_decimal_digits(n / 10);
        let d = decimal(n / 10);
        assert(decimal(n).drop_last() =~= d);
        assert(decimal(n).last() == digit_char(n % 10));
        assert(digit_value(digit_char(n % 10)) == n % 10);
        assert(n == (n / 10) * 10 + n % 10);
        assert(all_digits(decimal(n))) by {
            assert forall|i: int| 0 <= i < decimal(n).len() implies is_digit(#[trigger] decimal(n)[i]) by {
                if i < d.len() {
                    assert(decimal(n)[i] == d[i]);
                }
            }
        }
    } else {
        assert(seq![digit_char(n)].drop_last() =~= Seq::<char>::empty());
        assert(decimal_value(Seq::<char>::empty()) == 0);
        assert(digit_value(digit_char(n)) == n);
    }
}

/// Splitting the key of an output gives back its transaction id text and its index.
pub proof fn lemma_split_key_of(txid: Seq<u8>, index: u64)
    requires
        txid.len() == TXID_LEN,
    ensures
        split_spec(key_of(txid, index as nat)) == Some((hex_swapped(txid), index)),
{
    let k = key_of(txid, index as nat);
    lemma_hex_swapped_len(txid);
    lemma_decimal_digits(index as nat);
    assert(k.subrange(0, TXID_HEX_LEN as int) =~= hex_swapped(txid));
    assert(k.subrange(TXID_HEX_LEN as int, k.len() as int) =~= decimal(index as nat));
}

fn hex_char(n: u8) -> (c: char)
    requires
        n < 16,
    ensures
        c == hex_digit(n as nat),
{
    if n == 0 { '0' } else if n == 1 { '1' } else if n == 2 { '2' } else if n == 3 { '3' }
    else if n == 4 { '4' } else if n == 5 { '5' } else if n == 6 { '6' } else if n == 7 { '7' }
    else if n == 8 { '8' } else if n == 9 { '9' } else if n == 10 { 'a' } else if n == 11 { 'b' }
    else if n == 12 { 'c' } else if n == 13 { 'd' } else if n == 14 { 'e' } else { 'f' }
}

/// Relies on `String::push`: appends one character.
#[verifier::external_body]
pub(crate) fn push_char(s: &mut String, c: char)
    ensures
        final(s)@ == old(s)@.push(c),
{
    s.push(c)
}

/// Appends the byte-swapped hexadecimal rendering of `txid` to `s`.
pub fn push_hex_swapped(s: &mut String, txid: &[u8; 32])
    ensures
        final(s)@ == old(s)@ + hex_swapped(txid@),
{
    let ghost start = s@;
    let mut k: usize = TXID_LEN;
    assert(txid@.subrange(32, 32) =~= Seq::<u8>::empty());
    while k > 0
        invariant
            k <= TXID_LEN,
            txid@.len() == TXID_LEN,
            s@ == start + hex_swapped(txid@.subrange(k as int, TXID_LEN as int)),
        decreases k,
    {
        let b = txid[k - 1];
        push_char(s, hex_char(b / 16));
        push_char(s, hex_char(b % 16));
        let ghost sub = txid@.subrange(k - 1, TXID_LEN as int);
        assert(sub.drop_first() =~= txid@.subrange(k as int, TXID_LEN as int));
        assert(sub[0] == b);
        k = k - 1;
    }
    assert(txid@.subrange(0, 32) =~= txid@);
}

fn digit_of(c: char) -> (d: u64)
    requires
        is_digit(c),
    ensures
        d == digit_value(c),
        d <= 9,
{
    if c == '1' { 1 } else if c == '2' { 2 } else if c == '3' { 3 } else if c == '4' { 4 }
    else if c == '5' { 5 } else if c == '6' { 6 } else if c == '7' { 7 } else if c == '8' { 8 }
    else if c == '9' { 9 } else { 0 }
}

/// Appends the decimal rendering of `n` to `s`.
pub fn push_decimal(s: &mut String, n: u64)
    ensures
        final(s)@ == old(s)@ + decimal(n as nat),
    decreases n,
{
    if n >= 10 {
        push_decimal(s, n / 10);
    }
    push_char(s, hex_char((n % 10) as u8));
    assert(s@ =~= old(s)@ + decimal(n as nat));
}

/// The composite key of output `index` of the transaction whose id is `txid`.
pub fn output_key(txid: &[u8; 32], index: u64) -> (r: String)
    ensures
        r@ == key_of(txid@, index as nat),
{
    let mut s = String::new();
    push_hex_swapped(&mut s, txid);
    push_decimal(&mut s, index);
    assert(s@ =~= key_of(txid@, index as nat));
    s
}

/// The key of the output that an input spends, named by the spending input's
/// previous-output reference; equal to `output_key` of that output.
pub fn input_reference_key(prev_txid: &[u8; 32], prev_index: u32) -> (r: String)
    ensures
        r@ == key_of(prev_txid@, prev_index as nat),
{
    output_key(prev_txid, prev_index as u64)
}

/// Splits a key into its transaction id text and its output index.
pub fn split_key(key: &str) -> (r: Option<(String, u64)>)
    ensures
        match r {
            Some((t, i)) => split_spec(key@) == Some((t@, i)),
            None => split_spec(key@) is None,
        },
{
    let len = key.unicode_len();
    if len <= TXID_HEX_LEN {
        return None;
    }
    let ghost rest = key@.subrange(TXID_HEX_LEN as int, len as int);
    let mut value: u64 = 0;
    let mut i: usize = TXID_HEX_LEN;
    while i < len
        invariant
            TXID_HEX_LEN <= i <= len,
            len == key@.len(),
            rest == key@.subrange(TXID_HEX_LEN as int, len as int),
            all_digits(rest.subrange(0, i - TXID_HEX_LEN)),
            value as nat == decimal_value(rest.subrange(0, i - TXID_HEX_LEN)),
        decreases len - i,
    {
        let c = key.get_char(i);
        let ghost pre = rest.subrange(0, i - TXID_HEX_LEN);
        let ghost next = rest.subrange(0, i + 1 - TXID_HEX_LEN);
        assert(next.drop_last() =~= pre);
        assert(next.last() == c);
        if c < '0' || c > '9' {
            assert(!all_digits(rest)) by {
                assert(rest[i - TXID_HEX_LEN] == c);
            }
            return None;
        }
        let d = digit_of(c);
        if value > (u64::MAX - d) / 10 {
            proof {
                if all_digits(rest) {
                    lemma_prefix_value_bounds(rest, (i + 1 - TXID_HEX_LEN) as int);
                }
                assert(value * 10 + d > u64::MAX) by (nonlinear_arith)
                    requires value > (u64::MAX - d) / 10, d <= 9;
            }
            return None;
        }
        assert(value * 10 + d <= u64::MAX) by (nonlinear_arith)
            requires value <= (u64::MAX - d) / 10, d <= 9;
        value = value * 10 + d;
        assert(all_digits(next)) by {
            assert forall|j: int| 0 <= j < next.len() implies is_digit(#[trigger] next[j]) by {
                if j < pre.len() {
                    assert(next[j] == pre[j]);
                }
            }
        }
        i = i + 1;
    }
    assert(rest.subrange(0, len - TXID_HEX_LEN) =~= rest);
    let txid = key.substring_char(0, TXID_HEX_LEN).to_owned();
    Some((txid, value))
}

/// A digit sequence is worth at least as much as any of its prefixes.
proof fn lemma_prefix_value_bounds(s: Seq<char>, n: int)
    requires
        0 <= n <= s.len(),
        all_digits(s),
    ensures
        decimal_value(s.subrange(0, n)) <= decimal_value(s),
    decreases s.len(),
{
    if n < s.len() {
        lemma_prefix_value_bounds(s.drop_last(), n);
        assert(s.drop_last().subrange(0, n) =~= s.subrange(0, n));
        assert(all_digits(s.drop_last())) by {
            assert forall|j: int| 0 <= j < s.drop_last().len() implies is_digit(#[trigger] s.drop_last()[j]) by {
                assert(s.drop_last()[j] == s[j]);
            }
        }
        assert(decimal_value(s.drop_last()) <= decimal_value(s.drop_last()) * 10);
    } else {
        assert(s.subrange(0, n) =~= s);
    }
}

} // verus!
