//! How an element is written to and read from the bytes of the store.
use vstd::prelude::*;

use crate::le_bytes::{
    decode_le, encode_le, le_bytes, le_value, lemma_le_bytes_len, lemma_le_value_bound,
    lemma_le_value_of_bytes, lemma_pow256_widths,
};

verus! {

/// An element type with a binary encoding that decodes back to the value.
pub trait Codec: Sized {
    /// The bytes that `v` is stored as.
    spec fn spec_encode(v: Self) -> Seq<u8>;

    /// The value that `bytes` decode to, or `None` where they encode none.
    spec fn spec_decode(bytes: Seq<u8>) -> Option<Self>;

    /// Decoding the encoding of a value gives that value.
    proof fn lemma_decode_encode(v: Self)
        ensures
            Self::spec_decode(Self::spec_encode(v)) == Some(v),
    ;

    fn encode(&self) -> (r: Vec<u8>)
        ensures
            r@ == Self::spec_encode(*self),
    ;

    fn decode(bytes: &Vec<u8>) -> (r: Option<Self>)
        ensures
            r == Self::spec_decode(bytes@),
    ;
}

/// A `u64` is stored as its eight bytes, least significant first; any other
/// length decodes to nothing.
impl Codec for u64 {
    open spec fn spec_encode(v: u64) -> Seq<u8> {
        le_bytes(v as nat, 8)
    }

    open spec fn spec_decode(bytes: Seq<u8>) -> Option<u64> {
        if bytes.len() == 8 {
            Some(le_value(bytes) as u64)
        } else {
            None
        }
    }

    proof fn lemma_decode_encode(v: u64) {
        lemma_pow256_widths();
        lemma_le_bytes_len(v as nat, 8);
        lemma_le_value_of_bytes(v as nat, 8);
    }

    fn encode(&self) -> (r: Vec<u8>) {
        encode_le(*self as u128, 8)
    }

    fn decode(bytes: &Vec<u8>) -> (r: Option<u64>) {
        if bytes.len() != 8 {
            return None;
        }
        proof {
            lemma_le_value_bound(bytes@);
            lemma_pow256_widths();
        }
        Some(decode_le(bytes) as u64)
    }
}

/// A `u128` is stored as its sixteen bytes, least significant first; any other
/// length decodes to nothing.
impl Codec for u128 {
    open spec fn spec_encode(v: u128) -> Seq<u8> {
        le_bytes(v as nat, 16)
    }

    open spec fn spec_decode(bytes: Seq<u8>) -> Option<u128> {
        if bytes.len() == 16 {
            Some(le_value(bytes) as u128)
        } else {
            None
        }
    }

    proof fn lemma_decode_encode(v: u128) {
        lemma_pow256_widths();
        lemma_le_bytes_len(v as nat, 16);
        lemma_le_value_of_bytes(v as nat, 16);
    }

    fn encode(&self) -> (r: Vec<u8>) {
        encode_le(*self, 16)
    }

    fn decode(bytes: &Vec<u8>) -> (r: Option<u128>) {
        if bytes.len() != 16 {
            return None;
        }
        proof {
            lemma_le_value_bound(bytes@);
            lemma_pow256_widths();
        }
        Some(decode_le(bytes))
    }
}

} // verus!
