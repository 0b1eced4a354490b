//! The integers and byte strings of the byte form of a map. Integers are
//! written by `bincode` in its variable-length form: a value up to 250 is one
//! byte; a larger one is a marker byte (251, 252, 253) followed by 2, 4 or 8
//! bytes, lowest byte first.

use vstd::prelude::*;
use vstd::slice::slice_subrange;

verus! {

/// Why bytes are not the byte form of a map.
#[derive(Clone, Copy, Debug, PartialEq, Eq)]
pub enum CodecError {
    /// The bytes end before the map does.
    UnexpectedEnd,
    /// The bytes do not begin with the magic value.
    Magic,
    /// An integer is not in the variable-length form, or is cut short.
    Integer,
    /// A value of the response table cannot be read.
    Value,
    /// The logarithm of a width is not within 1 to 32.
    LogWidth,
    /// The widths exceed the locator space.
    WidthOverflow,
    /// A phase has fewer than 2 blocks.
    TooFewBlocks,
    /// The size of a phase's blocks exceeds a machine word.
    BlockOverflow,
    /// Bytes are left over behind the map.
    TrailingBytes,
}

impl CodecError {
    /// What went wrong, in words.
    pub fn describe(&self) -> (words: &'static str)
        ensures
            words@ == match self {
                CodecError::UnexpectedEnd => "unexpected end of input"@,
                CodecError::Magic => "magic value mismatch"@,
                CodecError::Integer => "invalid integer"@,
                CodecError::Value => "invalid response value"@,
                CodecError::LogWidth => "invalid logr"@,
                CodecError::WidthOverflow => "responses must sum to < Locator::BITS"@,
                CodecError::TooFewBlocks => "must have at least 2 nblocks"@,
                CodecError::BlockOverflow => "overflow on multiply"@,
                CodecError::TrailingBytes => "bytes left over on read_from_file"@,
            },
    {
        match self {
            CodecError::UnexpectedEnd => "unexpected end of input",
            CodecError::Magic => "magic value mismatch",
            CodecError::Integer => "invalid integer",
            CodecError::Value => "invalid response value",
            CodecError::LogWidth => "invalid logr",
            CodecError::WidthOverflow => "responses must sum to < Locator::BITS",
            CodecError::TooFewBlocks => "must have at least 2 nblocks",
            CodecError::BlockOverflow => "overflow on multiply",
            CodecError::TrailingBytes => "bytes left over on read_from_file",
        }
    }
}

/// The number that `n` bytes can hold, plus one: `256^n`.
pub open spec fn limit(n: nat) -> nat
    decreases n,
{
    if n == 0 {
        1
    } else {
        256 * limit((n - 1) as nat)
    }
}

/// The number that the bytes stand for, lowest byte first.
pub open spec fn le_value(b: Seq<u8>) -> nat
    decreases b.len(),
{
    if b.len() == 0 {
        0
    } else {
        b[0] as nat + 256 * le_value(b.drop_first())
    }
}

/// The `n` lowest bytes of `x`, lowest first.
pub open spec fn le_bytes(x: nat, n: nat) -> Seq<u8>
    decreases n,
{
    if n == 0 {
        Seq::empty()
    } else {
        seq![(x % 256) as u8] + le_bytes(x / 256, (n - 1) as nat)
    }
}

/// The variable-length form of `x`.
pub open spec fn varint(x: u64) -> Seq<u8> {
    if x <= 250 {
        seq![x as u8]
    } else if x <= 0xffff {
        seq![251u8] + le_bytes(x as nat, 2)
    } else if x <= 0xffff_ffff {
        seq![252u8] + le_bytes(x as nat, 4)
    } else {
        seq![253u8] + le_bytes(x as nat, 8)
    }
}

/// The integer of up to 64 bits at the front of `b`, and the number of bytes
/// it takes.
pub open spec fn varint_u64_decoding(b: Seq<u8>) -> Option<(u64, nat)> {
    if b.len() >= 1 && b[0] <= 250 {
        Some((b[0] as u64, 1))
    } else if b.len() >= 3 && b[0] == 251 {
        Some((le_value(b.subrange(1, 3)) as u64, 3))
    } else if b.len() >= 5 && b[0] == 252 {
        Some((le_value(b.subrange(1, 5)) as u64, 5))
    } else if b.len() >= 9 && b[0] == 253 {
        Some((le_value(b.subrange(1, 9)) as u64, 9))
    } else {
        None
    }
}

/// The integer of up to 32 bits at the front of `b`, and the number of bytes
/// it takes. The marker of a 64-bit integer is refused.
pub open spec fn varint_u32_decoding(b: Seq<u8>) -> Option<(u32, nat)> {
    if b.len() >= 1 && b[0] <= 250 {
        Some((b[0] as u32, 1))
    } else if b.len() >= 3 && b[0] == 251 {
        Some((le_value(b.subrange(1, 3)) as u32, 3))
    } else if b.len() >= 5 && b[0] == 252 {
        Some((le_value(b.subrange(1, 5)) as u32, 5))
    } else {
        None
    }
}

/// Bytes written lowest first stand for the number written.
pub proof fn lemma_le_round_trip(x: nat, n: nat)
    requires
        x < limit(n),
    ensures
        le_bytes(x, n).len() == n,
        le_value(le_bytes(x, n)) == x,
    decreases n,
{
    if n > 0 {
        lemma_le_round_trip(x / 256, (n - 1) as nat);
        let s = le_bytes(x, n);
        assert(s.drop_first() =~= le_bytes(x / 256, (n - 1) as nat));
    }
}

/// The number that bytes stand for is below the limit of their length.
pub proof fn lemma_le_value_bound(b: Seq<u8>)
    ensures
        le_value(b) < limit(b.len()),
    decreases b.len(),
{
    if b.len() > 0 {
        lemma_le_value_bound(b.drop_first());
    }
}

pub proof fn lemma_limits()
    ensures
        limit(2) == 0x1_0000,
        limit(4) == 0x1_0000_0000,
        limit(8) == 0x1_0000_0000_0000_0000,
{
    reveal_with_fuel(limit, 9);
}

/// An integer written in the variable-length form is read back, whatever
/// follows it.
pub proof fn lemma_varint_round_trip(x: u64, rest: Seq<u8>)
    ensures
        varint_u64_decoding(varint(x) + rest) == Some((x, varint(x).len())),
        x <= u32::MAX ==> varint_u32_decoding(varint(x) + rest) == Some((x as u32, varint(x).len())),
        1 <= varint(x).len() <= 9,
{
    lemma_limits();
    let b = varint(x) + rest;
    if x <= 250 {
    } else if x <= 0xffff {
        lemma_le_round_trip(x as nat, 2);
        assert(b.subrange(1, 3) =~= le_bytes(x as nat, 2));
    } else if x <= 0xffff_ffff {
        lemma_le_round_trip(x as nat, 4);
        assert(b.subrange(1, 5) =~= le_bytes(x as nat, 4));
    } else {
        lemma_le_round_trip(x as nat, 8);
        assert(b.subrange(1, 9) =~= le_bytes(x as nat, 8));
    }
}

/// An integer that is read is read from the bytes at hand, and is read the
/// same whatever follows them.
pub proof fn lemma_varint_extends(b: Seq<u8>, ext: Seq<u8>)
    ensures
        varint_u64_decoding(b) matches Some((v, n)) ==> n <= b.len() && varint_u64_decoding(b + ext)
            == Some((v, n)),
        varint_u32_decoding(b) matches Some((v, n)) ==> n <= b.len() && varint_u32_decoding(b + ext)
            == Some((v, n)),
{
    let c = b + ext;
    if b.len() >= 1 {
        assert(c[0] == b[0]);
    }
    if b.len() >= 3 {
        assert(c.subrange(1, 3) =~= b.subrange(1, 3));
    }
    if b.len() >= 5 {
        assert(c.subrange(1, 5) =~= b.subrange(1, 5));
    }
    if b.len() >= 9 {
        assert(c.subrange(1, 9) =~= b.subrange(1, 9));
    }
}

#[verifier::external_type_specification]
#[verifier::external_body]
pub struct ExDecodeError(bincode::error::DecodeError);

/// `bincode::encode_to_vec` on a `u32` under `bincode::config::standard()`.
/// The claim: it does not fail (it writes into a vector), and the bytes are
/// the variable-length form of the integer.
#[verifier::external_body]
fn bincode_encode_u32(x: u32) -> (r: Option<Vec<u8>>)
    ensures
        r is Some,
        r->0@ == varint(x as u64),
{
    bincode::encode_to_vec(x, bincode::config::standard()).ok()
}

/// `bincode::encode_to_vec` on a `u64` under `bincode::config::standard()`.
/// The claim: it does not fail (it writes into a vector), and the bytes are
/// the variable-length form of the integer.
#[verifier::external_body]
fn bincode_encode_u64(x: u64) -> (r: Option<Vec<u8>>)
    ensures
        r is Some,
        r->0@ == varint(x),
{
    bincode::encode_to_vec(x, bincode::config::standard()).ok()
}

/// `bincode::decode_from_slice` for a `u32` under
/// `bincode::config::standard()`. The claim: it returns the integer at the
/// front of the bytes and the number of bytes read, and fails exactly when
/// the bytes do not begin with an integer of up to 32 bits.
#[verifier::external_body]
fn bincode_decode_u32(bytes: &[u8]) -> (r: Result<(u32, usize), bincode::error::DecodeError>)
    ensures
        match r {
            Ok((v, used)) => varint_u32_decoding(bytes@) == Some((v, used as nat)),
            Err(_) => varint_u32_decoding(bytes@) is None,
        },
{
    bincode::decode_from_slice(bytes, bincode::config::standard())
}

/// `bincode::decode_from_slice` for a `u64` under
/// `bincode::config::standard()`. The claim: it returns the integer at the
/// front of the bytes and the number of bytes read, and fails exactly when
/// the bytes do not begin with an integer of up to 64 bits.
#[verifier::external_body]
fn bincode_decode_u64(bytes: &[u8]) -> (r: Result<(u64, usize), bincode::error::DecodeError>)
    ensures
        match r {
            Ok((v, used)) => varint_u64_decoding(bytes@) == Some((v, used as nat)),
            Err(_) => varint_u64_decoding(bytes@) is None,
        },
{
    bincode::decode_from_slice(bytes, bincode::config::standard())
}

/// Appends `src` to `out`.
pub fn put_bytes(out: &mut Vec<u8>, src: &[u8])
    ensures
        final(out)@ == old(out)@ + src@,
{
    let n: usize = src.len();
    let mut i: usize = 0;
    while i < n
        invariant
            i <= n,
            n == src@.len(),
            out@ == old(out)@ + src@.take(i as int),
        decreases n - i,
    {
        out.push(src[i]);
        i = i + 1;
        proof {
            assert(out@ =~= old(out)@ + src@.take(i as int));
        }
    }
    proof {
        assert(src@.take(n as int) =~= src@);
    }
}

/// Appends the variable-length form of `x` to `out`.
pub fn put_u32(out: &mut Vec<u8>, x: u32)
    ensures
        final(out)@ == old(out)@ + varint(x as u64),
{
    let bytes: Vec<u8> = bincode_encode_u32(x).unwrap();
    put_bytes(out, bytes.as_slice());
}

/// Appends the variable-length form of `x` to `out`.
pub fn put_u64(out: &mut Vec<u8>, x: u64)
    ensures
        final(out)@ == old(out)@ + varint(x),
{
    let bytes: Vec<u8> = bincode_encode_u64(x).unwrap();
    put_bytes(out, bytes.as_slice());
}

/// Reads an integer of up to 32 bits at `pos`; returns it with the place
/// behind it.
pub fn take_u32(bytes: &[u8], pos: usize) -> (r: Result<(u32, usize), CodecError>)
    requires
        pos <= bytes@.len(),
    ensures
        match r {
            Ok((v, next)) => varint_u32_decoding(bytes@.skip(pos as int)) == Some(
                (v, (next - pos) as nat),
            ) && pos < next <= bytes@.len(),
            Err(e) => e == CodecError::Integer && varint_u32_decoding(bytes@.skip(pos as int))
                is None,
        },
{
    let tail: &[u8] = slice_subrange(bytes, pos, bytes.len());
    proof {
        assert(tail@ =~= bytes@.skip(pos as int));
    }
    match bincode_decode_u32(tail) {
        Ok((v, used)) => Ok((v, pos + used)),
        Err(_) => Err(CodecError::Integer),
    }
}

/// Reads an integer of up to 64 bits at `pos`; returns it with the place
/// behind it.
pub fn take_u64(bytes: &[u8], pos: usize) -> (r: Result<(u64, usize), CodecError>)
    requires
        pos <= bytes@.len(),
    ensures
        match r {
            Ok((v, next)) => varint_u64_decoding(bytes@.skip(pos as int)) == Some(
                (v, (next - pos) as nat),
            ) && pos < next <= bytes@.len(),
            Err(e) => e == CodecError::Integer && varint_u64_decoding(bytes@.skip(pos as int))
                is None,
        },
{
    let tail: &[u8] = slice_subrange(bytes, pos, bytes.len());
    proof {
        assert(tail@ =~= bytes@.skip(pos as int));
    }
    match bincode_decode_u64(tail) {
        Ok((v, used)) => Ok((v, pos + used)),
        Err(_) => Err(CodecError::Integer),
    }
}

/// Reads `len` bytes at `pos`; returns them with the place behind them.
pub fn take_bytes(bytes: &[u8], pos: usize, len: usize) -> (r: Result<(Vec<u8>, usize), CodecError>)
    requires
        pos <= bytes@.len(),
    ensures
        match r {
            Ok((v, next)) => len <= bytes@.len() - pos && next == pos + len && v@
                == bytes@.subrange(pos as int, pos + len),
            Err(e) => e == CodecError::UnexpectedEnd && len > bytes@.len() - pos,
        },
{
    if len > bytes.len() - pos {
        return Err(CodecError::UnexpectedEnd);
    }
    let mut v: Vec<u8> = Vec::new();
    put_bytes(&mut v, slice_subrange(bytes, pos, pos + len));
    Ok((v, pos + len))
}

} // verus!
