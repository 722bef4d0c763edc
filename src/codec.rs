//! Fixed-schema binary encoding of ledger entry values.
//!
//! An entry is laid out as the block height, the output value and the byte
//! length of the address, each as eight little-endian bytes, followed by the
//! address's UTF-8 bytes. Decoding accepts exactly the encodings of values.

use vstd::bytes::{
    lemma_auto_spec_u64_to_from_le_bytes, spec_u64_from_le_bytes, spec_u64_to_le_bytes,
    u64_from_le_bytes, u64_to_le_bytes,
};
use vstd::prelude::*;
use vstd::slice::{slice_subrange, slice_to_vec};
use vstd::string::StringSliceAdditionalSpecFns;
use vstd::utf8::{decode_utf8, encode_utf8, encode_utf8_decode_utf8, valid_utf8, encode_utf8_valid_utf8};

verus! {

/// Size of the fixed part of an encoded entry: three eight-byte integers.
pub const HEADER_LEN: usize = 24;

/// The value stored under an unspent output's key.
pub struct LedgerValue {
    pub block_height: u64,
    pub output_value: u64,
    pub address: String,
}

/// Mathematical form of a ledger value: height, amount, address text.
pub type ValueModel = (u64, u64, Seq<char>);

impl View for LedgerValue {
    type V = ValueModel;

    open spec fn view(&self) -> ValueModel {
        (self.block_height, self.output_value, self.address@)
    }
}

/// Why stored bytes are not the encoding of a ledger value.
#[derive(Debug, Clone, Copy, PartialEq, Eq, Structural)]
pub enum CodecError {
    /// Fewer bytes than the header, or than the address length it announces.
    Truncated,
    /// More bytes than the header announces.
    TrailingBytes,
    /// The address bytes are not valid UTF-8.
    InvalidText,
}

/// The encoding of a value.
pub open spec fn encode_spec(v: ValueModel) -> Seq<u8> {
    let text = encode_utf8(v.2);
    spec_u64_to_le_bytes(v.0) + spec_u64_to_le_bytes(v.1) + spec_u64_to_le_bytes(
        text.len() as u64,
    ) + text
}

/// The address length that the header of `b` announces.
pub open spec fn announced_len(b: Seq<u8>) -> nat {
    spec_u64_from_le_bytes(b.subrange(16, 24)) as nat
}

/// The outcome of decoding `b`.
pub open spec fn decode_spec(b: Seq<u8>) -> Result<ValueModel, CodecError> {
    if b.len() < HEADER_LEN || b.len() < HEADER_LEN + announced_len(b) {
        Err(CodecError::Truncated)
    } else if b.len() > HEADER_LEN + announced_len(b) {
        Err(CodecError::TrailingBytes)
    } else if !valid_utf8(b.subrange(24, b.len() as int)) {
        Err(CodecError::InvalidText)
    } else {
        Ok(
            (
                spec_u64_from_le_bytes(b.subrange(0, 8)),
                spec_u64_from_le_bytes(b.subrange(8, 16)),
                decode_utf8(b.subrange(24, b.len() as int)),
            ),
        )
    }
}

/// Relies on `std::str::from_utf8`: it succeeds exactly on valid UTF-8, and
/// the text it returns has the given bytes.
#[verifier::external_body]
fn utf8_text(b: &[u8]) -> (r: Option<&str>)
    ensures
        match r {
            Some(s) => valid_utf8(b@) && s.spec_bytes() == b@,
            None => !valid_utf8(b@),
        },
{
    std::str::from_utf8(b).ok()
}

/// Encodes a ledger value.
pub fn encode(v: &LedgerValue) -> (r: Vec<u8>)
    ensures
        r@ == encode_spec(v@),
{
    let text: &[u8] = v.address.as_str().as_bytes();
    assert(text@ == encode_utf8(v.address@));
    let n = text.len();
    let mut out = u64_to_le_bytes(v.block_height);
    let mut part = u64_to_le_bytes(v.output_value);
    out.append(&mut part);
    let mut len_part = u64_to_le_bytes(n as u64);
    out.append(&mut len_part);
    let mut text_part = slice_to_vec(text);
    out.append(&mut text_part);
    out
}

/// Decodes stored bytes back into a ledger value.
pub fn decode(b: &[u8]) -> (r: Result<LedgerValue, CodecError>)
    ensures
        match r {
            Ok(v) => decode_spec(b@) == Ok::<ValueModel, CodecError>(v@),
            Err(e) => decode_spec(b@) == Err::<ValueModel, CodecError>(e),
        },
{
    let len = b.len();
    if len < HEADER_LEN {
        return Err(CodecError::Truncated);
    }
    let announced = u64_from_le_bytes(slice_subrange(b, 16, 24));
    if ((len - HEADER_LEN) as u64) < announced {
        return Err(CodecError::Truncated);
    }
    if ((len - HEADER_LEN) as u64) > announced {
        return Err(CodecError::TrailingBytes);
    }
    let text = match utf8_text(slice_subrange(b, HEADER_LEN, len)) {
        Some(t) => t,
        None => {
            return Err(CodecError::InvalidText);
        },
    };
    proof {
        encode_utf8_decode_utf8(text@);
    }
    let block_height = u64_from_le_bytes(slice_subrange(b, 0, 8));
    let output_value = u64_from_le_bytes(slice_subrange(b, 8, 16));
    Ok(LedgerValue { block_height, output_value, address: text.to_owned() })
}

/// Decoding an encoded value gives the value back.
pub proof fn lemma_decode_encode(v: ValueModel)
    requires
        encode_utf8(v.2).len() <= u64::MAX,
    ensures
        decode_spec(encode_spec(v)) == Ok::<ValueModel, CodecError>(v),
{
    lemma_auto_spec_u64_to_from_le_bytes();
    let b = encode_spec(v);
    let text = encode_utf8(v.2);
    assert(b.subrange(0, 8) =~= spec_u64_to_le_bytes(v.0));
    assert(b.subrange(8, 16) =~= spec_u64_to_le_bytes(v.1));
    assert(b.subrange(16, 24) =~= spec_u64_to_le_bytes(text.len() as u64));
    assert(b.subrange(24, b.len() as int) =~= text);
    encode_utf8_valid_utf8(v.2);
    encode_utf8_decode_utf8(v.2);
}

} // verus!
