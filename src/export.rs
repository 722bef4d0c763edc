//! The CSV snapshot of the ledger: one `;`-separated row per stored entry
//! under a fixed header, written to a temporary file that is renamed to a
//! name holding the run's height range.

use crate::codec::{decode, decode_spec, CodecError, ValueModel};
use crate::key::{decimal, push_char, push_decimal, split_key, split_spec};
use crate::ledger::StoreEntry;
use vstd::prelude::*;
use vstd::string::StringExecFns;

verus! {

/// Why a stored entry cannot be rendered as a row.
#[derive(Debug, Clone, Copy, PartialEq, Eq, Structural)]
pub enum ExportError {
    /// The key is not a transaction id followed by a decimal index.
    MalformedKey,
    /// The stored bytes are not an encoded ledger value.
    Codec(CodecError),
}

/// Base name of the snapshot file.
pub open spec fn base_name() -> Seq<char> {
    seq!['u', 'n', 's', 'p', 'e', 'n', 't']
}

/// The header row.
pub open spec fn header_spec() -> Seq<char> {
    seq!['t', 'x', 'i', 'd', ';', 'i', 'n', 'd', 'e', 'x', 'O', 'u', 't', ';', 'h', 'e', 'i', 'g',
    'h', 't', ';', 'v', 'a', 'l', 'u', 'e', ';', 'a', 'd', 'd', 'r', 'e', 's', 's', '\n']
}

/// The row of one entry: txid, index, height, value and address, separated
/// by `;` and ended by a newline.
pub open spec fn row_text(txid: Seq<char>, index: u64, v: ValueModel) -> Seq<char> {
    txid + seq![';'] + decimal(index as nat) + seq![';'] + decimal(v.0 as nat) + seq![';']
        + decimal(v.1 as nat) + seq![';'] + v.2 + seq!['\n']
}

/// The outcome of rendering the entry `(key, encoded)`.
#[verifier::opaque]
pub open spec fn row_spec(e: (Seq<char>, Seq<u8>)) -> Result<Seq<char>, ExportError> {
    match split_spec(e.0) {
        None => Err(ExportError::MalformedKey),
        Some((txid, index)) => match decode_spec(e.1) {
            Err(c) => Err(ExportError::Codec(c)),
            Ok(v) => Ok(row_text(txid, index, v)),
        },
    }
}

/// The name the snapshot file gets once complete.
pub open spec fn final_name_spec(start: u64, end: u64) -> Seq<char> {
    base_name() + seq!['-'] + decimal(start as nat) + seq!['-'] + decimal(end as nat) + seq![
        '.',
        'c',
        's',
        'v',
    ]
}

/// The name of the file the snapshot is written to before the rename.
pub open spec fn temp_name_spec() -> Seq<char> {
    base_name() + seq!['.', 'c', 's', 'v', '.', 't', 'm', 'p']
}

fn push_chars(s: &mut String, cs: &[char])
    ensures
        final(s)@ == old(s)@ + cs@,
{
    let mut i: usize = 0;
    while i < cs.len()
        invariant
            i <= cs@.len(),
            s@ == old(s)@ + cs@.take(i as int),
        decreases cs@.len() - i,
    {
        push_char(s, cs[i]);
        assert(cs@.take(i + 1) =~= cs@.take(i as int).push(cs@[i as int]));
        i = i + 1;
    }
    assert(cs@.take(i as int) =~= cs@);
}

/// The header row of the snapshot.
pub fn header() -> (r: String)
    ensures
        r@ == header_spec(),
{
    let mut s = String::new();
    let cs = [
        't', 'x', 'i', 'd', ';', 'i', 'n', 'd', 'e', 'x', 'O', 'u', 't', ';', 'h', 'e', 'i', 'g',
        'h', 't', ';', 'v', 'a', 'l', 'u', 'e', ';', 'a', 'd', 'd', 'r', 'e', 's', 's', '\n',
    ];
    push_chars(&mut s, &cs);
    assert(s@ =~= header_spec());
    s
}

/// The row of one stored entry.
pub fn csv_row(key: &str, encoded: &[u8]) -> (r: Result<String, ExportError>)
    ensures
        match r {
            Ok(s) => row_spec((key@, encoded@)) == Ok::<Seq<char>, ExportError>(s@),
            Err(e) => row_spec((key@, encoded@)) == Err::<Seq<char>, ExportError>(e),
        },
{
    reveal(row_spec);
    let (txid, index) = match split_key(key) {
        Some(p) => p,
        None => {
            return Err(ExportError::MalformedKey);
        },
    };
    let v = match decode(encoded) {
        Ok(v) => v,
        Err(c) => {
            return Err(ExportError::Codec(c));
        },
    };
    let mut s = txid;
    push_char(&mut s, ';');
    push_decimal(&mut s, index);
    push_char(&mut s, ';');
    push_decimal(&mut s, v.block_height);
    push_char(&mut s, ';');
    push_decimal(&mut s, v.output_value);
    push_char(&mut s, ';');
    s.append(v.address.as_str());
    push_char(&mut s, '\n');
    assert(s@ =~= row_text(txid@, index, v@));
    Ok(s)
}

/// The rows of every entry of a scan, in scan order; fails with the error of
/// the first entry that cannot be rendered.
pub fn render_rows(entries: &Vec<StoreEntry>) -> (r: Result<Vec<String>, ExportError>)
    ensures
        match r {
            Ok(rows) => {
                &&& rows@.len() == entries@.len()
                &&& forall|i: int|
                    0 <= i < rows@.len() ==> row_spec(#[trigger] entries@[i]@)
                        == Ok::<Seq<char>, ExportError>(rows@[i]@)
            },
            Err(e) => exists|i: int|
                0 <= i < entries@.len() && row_spec(#[trigger] entries@[i]@)
                    == Err::<Seq<char>, ExportError>(e) && forall|j: int|
                    0 <= j < i ==> (#[trigger] row_spec(entries@[j]@)) is Ok,
        },
{
    let mut rows: Vec<String> = Vec::new();
    let mut i: usize = 0;
    while i < entries.len()
        invariant
            i <= entries@.len(),
            rows@.len() == i,
            forall|k: int|
                0 <= k < i ==> row_spec(#[trigger] entries@[k]@) == Ok::<Seq<char>, ExportError>(
                    rows@[k]@,
                ),
        decreases entries@.len() - i,
    {
        let e = &entries[i];
        match csv_row(e.key.as_str(), e.encoded.as_slice()) {
            Ok(row) => {
                rows.push(row);
            },
            Err(err) => {
                assert(forall|j: int| 0 <= j < i ==> (#[trigger] row_spec(entries@[j]@)) is Ok);
                assert(row_spec(entries@[i as int]@) == Err::<Seq<char>, ExportError>(err));
                return Err(err);
            },
        }
        i = i + 1;
    }
    Ok(rows)
}

/// The name the snapshot file gets once complete: `unspent-<start>-<end>.csv`.
pub fn final_file_name(start_height: u64, end_height: u64) -> (r: String)
    ensures
        r@ == final_name_spec(start_height, end_height),
{
    let mut s = String::new();
    push_chars(&mut s, &['u', 'n', 's', 'p', 'e', 'n', 't', '-']);
    push_decimal(&mut s, start_height);
    push_char(&mut s, '-');
    push_decimal(&mut s, end_height);
    push_chars(&mut s, &['.', 'c', 's', 'v']);
    assert(s@ =~= final_name_spec(start_height, end_height));
    s
}

/// The name of the file that the snapshot is written to: `unspent.csv.tmp`.
pub fn temp_file_name() -> (r: String)
    ensures
        r@ == temp_name_spec(),
{
    let mut s = String::new();
    push_chars(&mut s, &['u', 'n', 's', 'p', 'e', 'n', 't', '.', 'c', 's', 'v', '.', 't', 'm', 'p']);
    assert(s@ =~= temp_name_spec());
    s
}

} // verus!
