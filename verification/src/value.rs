//! The byte form of the values of a response table.

use crate::wire::{
    lemma_varint_extends, lemma_varint_round_trip, put_u32, put_u64, take_u32, take_u64, varint,
    varint_u32_decoding, varint_u64_decoding,
};
use vstd::prelude::*;

verus! {

/// A value that can stand in a response table: it has a byte form from which
/// it can be read back, whatever follows it.
pub trait Response: Sized {
    /// The bytes that stand for the value.
    spec fn encoding(&self) -> Seq<u8>;

    /// The value at the front of `bytes`, and the number of bytes it takes.
    spec fn decoding(bytes: Seq<u8>) -> Option<(Self, nat)>;

    /// Appends the bytes of the value to `out`.
    fn encode(&self, out: &mut Vec<u8>)
        ensures
            final(out)@ == old(out)@ + self.encoding(),
    ;

    /// Reads a value at `pos`; returns it with the place behind it.
    fn decode(bytes: &[u8], pos: usize) -> (r: Option<(Self, usize)>)
        requires
            pos <= bytes@.len(),
        ensures
            match r {
                Some((v, next)) => Self::decoding(bytes@.skip(pos as int)) == Some(
                    (v, (next - pos) as nat),
                ) && pos <= next <= bytes@.len(),
                None => Self::decoding(bytes@.skip(pos as int)) is None,
            },
    ;

    /// A value written is read back, whatever follows it.
    proof fn lemma_round_trip(v: Self, rest: Seq<u8>)
        ensures
            Self::decoding(v.encoding() + rest) == Some((v, v.encoding().len())),
    ;

    /// A value that is read is read from the bytes at hand, and is read the
    /// same whatever follows them.
    proof fn lemma_decoding_extends(bytes: Seq<u8>, ext: Seq<u8>)
        ensures
            Self::decoding(bytes) matches Some((v, n)) ==> n <= bytes.len() && Self::decoding(
                bytes + ext,
            ) == Some((v, n)),
    ;
}

impl Response for u32 {
    open spec fn encoding(&self) -> Seq<u8> {
        varint(*self as u64)
    }

    open spec fn decoding(bytes: Seq<u8>) -> Option<(Self, nat)> {
        varint_u32_decoding(bytes)
    }

    fn encode(&self, out: &mut Vec<u8>) {
        put_u32(out, *self);
    }

    fn decode(bytes: &[u8], pos: usize) -> (r: Option<(Self, usize)>) {
        match take_u32(bytes, pos) {
            Ok(found) => Some(found),
            Err(_) => None,
        }
    }

    proof fn lemma_round_trip(v: Self, rest: Seq<u8>) {
        lemma_varint_round_trip(v as u64, rest);
    }

    proof fn lemma_decoding_extends(bytes: Seq<u8>, ext: Seq<u8>) {
        lemma_varint_extends(bytes, ext);
    }
}

impl Response for u64 {
    open spec fn encoding(&self) -> Seq<u8> {
        varint(*self)
    }

    open spec fn decoding(bytes: Seq<u8>) -> Option<(Self, nat)> {
        varint_u64_decoding(bytes)
    }

    fn encode(&self, out: &mut Vec<u8>) {
        put_u64(out, *self);
    }

    fn decode(bytes: &[u8], pos: usize) -> (r: Option<(Self, usize)>) {
        match take_u64(bytes, pos) {
            Ok(found) => Some(found),
            Err(_) => None,
        }
    }

    proof fn lemma_round_trip(v: Self, rest: Seq<u8>) {
        lemma_varint_round_trip(v, rest);
    }

    proof fn lemma_decoding_extends(bytes: Seq<u8>, ext: Seq<u8>) {
        lemma_varint_extends(bytes, ext);
    }
}

} // verus!
