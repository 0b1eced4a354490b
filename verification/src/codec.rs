//! The byte form of a map.
//!
//! ```text
//! magic       4 bytes, "cnm1"
//! log widths  an integer n - 1, then n - 1 bytes: for each interval but
//!             the last, the number of leading zeros of its width, plus 1
//! responses   n values
//! hash key    16 bytes: that of the lowest phase, or zeros
//! plan        an integer
//! salt        one byte for each phase but the lowest
//! nblocks     for each phase, an integer of at least 2
//! blocks      for each phase, nblocks * BLOCKSIZE * bits bytes
//! ```

use crate::bits::{count_bits, popcount};
use crate::blocks::Blocks;
use crate::map::{table_wf, CompressedMap, CoreView, MapCore, MapView, BLOCKSIZE};
use crate::phases::{lemma_shift_rises, phase_end, phase_shift, phase_shifts};
use crate::value::Response;
use crate::wire::{
    put_bytes, put_u32, put_u64, take_bytes, take_u32, take_u64, varint, varint_u32_decoding,
    varint_u64_decoding, CodecError,
};
use vstd::prelude::*;
use vstd::slice::slice_subrange;
use vstd::std_specs::bits::{axiom_u32_leading_zeros, u32_leading_zeros};

verus! {

/// The magic value: the bytes of "cnm1".
pub open spec fn magic() -> Seq<u8> {
    seq![0x63u8, 0x6eu8, 0x6du8, 0x31u8]
}

/// What stands for a width in the byte form: the number of its leading
/// zeros, plus 1.
pub open spec fn log_width(width: u32) -> u8 {
    (u32_leading_zeros(width) + 1) as u8
}

/// The width that `log` stands for.
pub open spec fn width_of_log(log: u8) -> u32 {
    1u32 << ((32 - log) as u32)
}

/// For each interval of the table but the last, what stands for its width.
pub open spec fn log_widths<V>(t: Seq<(u32, V)>) -> Seq<u8> {
    Seq::new((t.len() - 1) as nat, |i: int| log_width((t[i + 1].0 - t[i].0) as u32))
}

/// The bytes of the first `upto` values of the table.
pub open spec fn values_encoding<V: Response>(t: Seq<(u32, V)>, upto: int) -> Seq<u8>
    decreases upto,
{
    if upto <= 0 {
        Seq::empty()
    } else {
        values_encoding(t, upto - 1) + t[upto - 1].1.encoding()
    }
}

/// The hash key that is written: that of the lowest phase, or zeros.
pub open spec fn first_hash_key(core: Seq<CoreView>) -> Seq<u8> {
    if core.len() == 0 {
        Seq::new(16, |i: int| 0u8)
    } else {
        core[0].hash_key@
    }
}

/// The numbers of blocks of the first `upto` phases, as integers.
pub open spec fn nblocks_encoding(core: Seq<CoreView>, upto: int) -> Seq<u8>
    decreases upto,
{
    if upto <= 0 {
        Seq::empty()
    } else {
        nblocks_encoding(core, upto - 1) + varint(core[upto - 1].nblocks as u64)
    }
}

/// The blocks of the first `upto` phases.
pub open spec fn blocks_encoding(core: Seq<CoreView>, upto: int) -> Seq<u8>
    decreases upto,
{
    if upto <= 0 {
        Seq::empty()
    } else {
        blocks_encoding(core, upto - 1) + core[upto - 1].blocks
    }
}

/// The byte form of a map.
pub open spec fn encoding<V: Response>(m: MapView<V>) -> Seq<u8> {
    magic() + varint((m.responses.len() - 1) as u64) + log_widths(m.responses) + values_encoding(
        m.responses,
        m.responses.len() as int,
    ) + first_hash_key(m.core) + varint(m.plan as u64) + m.salt + nblocks_encoding(
        m.core,
        m.core.len() as int,
    ) + blocks_encoding(m.core, m.core.len() as int)
}

/// The logarithms of the widths, and the place behind them.
pub struct Header {
    pub widths: Seq<u8>,
    pub next: int,
}

/// Reads the magic value and the logarithms of the widths.
pub open spec fn parse_header(b: Seq<u8>) -> Result<Header, CodecError> {
    if b.len() < 4 {
        Err(CodecError::UnexpectedEnd)
    } else if b.subrange(0, 4) != magic() {
        Err(CodecError::Magic)
    } else {
        match varint_u64_decoding(b.skip(4)) {
            None => Err(CodecError::Integer),
            Some((len, used)) => if len > b.len() - 4 - used {
                Err(CodecError::UnexpectedEnd)
            } else {
                Ok(Header { widths: b.subrange(4 + used as int, 4 + used + len), next: 4 + used + len })
            },
        }
    }
}

/// Reads `count` values from `pos` on; gives them with the place behind
/// them.
pub open spec fn parse_values<V: Response>(b: Seq<u8>, pos: int, count: nat) -> Option<(Seq<V>, int)>
    decreases count,
{
    if count == 0 {
        Some((Seq::empty(), pos))
    } else {
        match parse_values::<V>(b, pos, (count - 1) as nat) {
            None => None,
            Some((values, p)) => match V::decoding(b.skip(p)) {
                None => None,
                Some((v, used)) => Some((values.push(v), p + used)),
            },
        }
    }
}

/// Lower end of interval `k` of a table with these logarithms of widths.
pub open spec fn lower_end(widths: Seq<u8>, k: int) -> int
    decreases k,
{
    if k <= 0 {
        0
    } else {
        lower_end(widths, k - 1) + width_of_log(widths[k - 1])
    }
}

/// What is wrong with the first `k` logarithms of widths, if anything: the
/// first that is not within 1 to 32, or with which the widths exceed the
/// highest locator.
pub open spec fn width_error(widths: Seq<u8>, k: int) -> Option<CodecError>
    decreases k,
{
    if k <= 0 {
        None
    } else if width_error(widths, k - 1) is Some {
        width_error(widths, k - 1)
    } else if widths[k - 1] == 0 || widths[k - 1] > 32 {
        Some(CodecError::LogWidth)
    } else if lower_end(widths, k) > u32::MAX {
        Some(CodecError::WidthOverflow)
    } else {
        None
    }
}

/// The response table with these logarithms of widths and these values.
pub open spec fn table_of<V>(widths: Seq<u8>, values: Seq<V>) -> Seq<(u32, V)> {
    Seq::new(values.len(), |k: int| (lower_end(widths, k) as u32, values[k]))
}

/// Number of bits that phase `k` of `plan` settles.
pub open spec fn phase_width(plan: u32, k: nat) -> int {
    phase_end(plan, k) - phase_shift(plan, k)
}

/// Reads the numbers of blocks of `count` phases from `pos` on.
pub open spec fn parse_nblocks(b: Seq<u8>, pos: int, count: nat) -> Result<(Seq<usize>, int), CodecError>
    decreases count,
{
    if count == 0 {
        Ok((Seq::empty(), pos))
    } else {
        match parse_nblocks(b, pos, (count - 1) as nat) {
            Err(e) => Err(e),
            Ok((ns, p)) => match varint_u64_decoding(b.skip(p)) {
                None => Err(CodecError::Integer),
                Some((v, used)) => if v > usize::MAX {
                    Err(CodecError::Integer)
                } else if v < 2 {
                    Err(CodecError::TooFewBlocks)
                } else {
                    Ok((ns.push(v as usize), p + used))
                },
            },
        }
    }
}

/// Reads the blocks of `count` phases from `pos` on.
pub open spec fn parse_blocks(b: Seq<u8>, pos: int, plan: u32, nblocks: Seq<usize>, count: nat) -> Result<
    (Seq<Seq<u8>>, int),
    CodecError,
>
    decreases count,
{
    if count == 0 {
        Ok((Seq::empty(), pos))
    } else {
        match parse_blocks(b, pos, plan, nblocks, (count - 1) as nat) {
            Err(e) => Err(e),
            Ok((bs, p)) => {
                let k = (count - 1) as nat;
                let size = nblocks[k as int] * BLOCKSIZE * phase_width(plan, k);
                if nblocks[k as int] * BLOCKSIZE > usize::MAX || size > usize::MAX {
                    Err(CodecError::BlockOverflow)
                } else if size > b.len() - p {
                    Err(CodecError::UnexpectedEnd)
                } else {
                    Ok((bs.push(b.subrange(p, p + size)), p + size))
                }
            },
        }
    }
}

/// What the byte form of a map holds.
pub struct Parsed<V> {
    pub plan: u32,
    pub responses: Seq<(u32, V)>,
    pub hash_key: Seq<u8>,
    pub salt: Seq<u8>,
    pub nblocks: Seq<usize>,
    pub blocks: Seq<Seq<u8>>,
    /// Number of bytes that the map takes.
    pub used: int,
}

/// Number of salt bytes of a plan: one for each phase but the lowest.
pub open spec fn salt_len(plan: u32) -> nat {
    if popcount(plan) >= 1 {
        (popcount(plan) - 1) as nat
    } else {
        0
    }
}

/// Reads what follows the response table: hash key, plan, salt, and the
/// blocks of the phases.
pub open spec fn parse_phases<V>(b: Seq<u8>, pos: int, table: Seq<(u32, V)>) -> Result<
    Parsed<V>,
    CodecError,
> {
    if b.len() - pos < 16 {
        Err(CodecError::UnexpectedEnd)
    } else {
        match varint_u32_decoding(b.skip(pos + 16)) {
            None => Err(CodecError::Integer),
            Some((plan, used)) => {
                let p2 = pos + 16 + used;
                if b.len() - p2 < salt_len(plan) {
                    Err(CodecError::UnexpectedEnd)
                } else {
                    let p3 = p2 + salt_len(plan);
                    match parse_nblocks(b, p3, popcount(plan)) {
                        Err(e) => Err(e),
                        Ok((nblocks, p4)) => match parse_blocks(b, p4, plan, nblocks, popcount(plan)) {
                            Err(e) => Err(e),
                            Ok((blocks, p5)) => Ok(
                                Parsed {
                                    plan,
                                    responses: table,
                                    hash_key: b.subrange(pos, pos + 16),
                                    salt: b.subrange(p2, p3),
                                    nblocks,
                                    blocks,
                                    used: p5,
                                },
                            ),
                        },
                    }
                }
            },
        }
    }
}

/// Reads a map from the front of `b`.
pub open spec fn parse<V: Response>(b: Seq<u8>) -> Result<Parsed<V>, CodecError> {
    match parse_header(b) {
        Err(e) => Err(e),
        Ok(h) => match parse_values::<V>(b, h.next, h.widths.len() + 1) {
            None => Err(CodecError::Value),
            Some((values, p1)) => match width_error(h.widths, h.widths.len() as int) {
                Some(e) => Err(e),
                None => parse_phases(b, p1, table_of(h.widths, values)),
            },
        }
    }
}

proof fn lemma_values_stay_none<V: Response>(b: Seq<u8>, pos: int, k: nat, n: nat)
    requires
        k <= n,
        parse_values::<V>(b, pos, k) is None,
    ensures
        parse_values::<V>(b, pos, n) is None,
    decreases n - k,
{
    if k < n {
        lemma_values_stay_none::<V>(b, pos, k, (n - 1) as nat);
    }
}

proof fn lemma_width_error_stays(widths: Seq<u8>, k: int, n: int)
    requires
        0 <= k <= n,
        width_error(widths, k) is Some,
    ensures
        width_error(widths, n) == width_error(widths, k),
    decreases n - k,
{
    if k < n {
        lemma_width_error_stays(widths, k, n - 1);
    }
}

proof fn lemma_nblocks_stay_err(b: Seq<u8>, pos: int, k: nat, n: nat)
    requires
        k <= n,
        parse_nblocks(b, pos, k) is Err,
    ensures
        parse_nblocks(b, pos, n) == parse_nblocks(b, pos, k),
    decreases n - k,
{
    if k < n {
        lemma_nblocks_stay_err(b, pos, k, (n - 1) as nat);
    }
}

proof fn lemma_blocks_stay_err(b: Seq<u8>, pos: int, plan: u32, nblocks: Seq<usize>, k: nat, n: nat)
    requires
        k <= n,
        parse_blocks(b, pos, plan, nblocks, k) is Err,
    ensures
        parse_blocks(b, pos, plan, nblocks, n) == parse_blocks(b, pos, plan, nblocks, k),
    decreases n - k,
{
    if k < n {
        lemma_blocks_stay_err(b, pos, plan, nblocks, k, (n - 1) as nat);
    }
}

proof fn lemma_width_of_log(log: u8)
    by (bit_vector)
    requires
        1 <= log <= 32,
    ensures
        1u32 << ((32 - log) as u32) >= 1,
{
}

/// The lower ends of a table rise with the widths.
pub proof fn lemma_lower_end_rises(widths: Seq<u8>, i: int, j: int)
    requires
        0 <= i <= j <= widths.len(),
        width_error(widths, j) is None,
    ensures
        0 <= lower_end(widths, i) <= lower_end(widths, j) <= u32::MAX,
        i < j ==> lower_end(widths, i) < lower_end(widths, j),
        width_error(widths, i) is None,
    decreases j - i, i,
{
    if i < j {
        lemma_lower_end_rises(widths, i, j - 1);
        lemma_width_of_log(widths[j - 1]);
    } else if i > 0 {
        lemma_lower_end_rises(widths, i - 1, i - 1);
        lemma_width_of_log(widths[i - 1]);
    }
}

/// Reads the magic value and the logarithms of the widths.
pub fn decode_header(bytes: &[u8]) -> (r: Result<(Vec<u8>, usize), CodecError>)
    ensures
        match r {
            Ok((w, next)) => parse_header(bytes@) == Ok::<Header, CodecError>(
                Header { widths: w@, next: next as int },
            ) && next <= bytes@.len() && w@.len() < next,
            Err(e) => parse_header(bytes@) == Err::<Header, CodecError>(e),
        },
{
    if bytes.len() < 4 {
        return Err(CodecError::UnexpectedEnd);
    }
    if bytes[0] != 0x63 || bytes[1] != 0x6e || bytes[2] != 0x6d || bytes[3] != 0x31 {
        proof {
            let head = bytes@.subrange(0, 4);
            assert(head[0] == bytes@[0] && head[1] == bytes@[1] && head[2] == bytes@[2] && head[3]
                == bytes@[3]);
        }
        return Err(CodecError::Magic);
    }
    proof {
        assert(bytes@.subrange(0, 4) =~= magic());
    }
    match take_u64(bytes, 4) {
        Err(e) => Err(e),
        Ok((len, p)) => {
            if len > (bytes.len() - p) as u64 {
                return Err(CodecError::UnexpectedEnd);
            }
            match take_bytes(bytes, p, len as usize) {
                Err(e) => Err(e),
                Ok((w, next)) => Ok((w, next)),
            }
        },
    }
}

/// Reads `count` values from `pos` on.
pub fn decode_values<V: Response>(bytes: &[u8], pos: usize, count: usize) -> (r: Result<
    (Vec<V>, usize),
    CodecError,
>)
    requires
        pos <= bytes@.len(),
    ensures
        match r {
            Ok((vs, next)) => parse_values::<V>(bytes@, pos as int, count as nat) == Some(
                (vs@, next as int),
            ) && pos <= next <= bytes@.len() && vs@.len() == count,
            Err(e) => e == CodecError::Value && parse_values::<V>(bytes@, pos as int, count as nat)
                is None,
        },
{
    let mut vs: Vec<V> = Vec::new();
    let mut p: usize = pos;
    let mut k: usize = 0;
    while k < count
        invariant
            k <= count,
            pos <= p <= bytes@.len(),
            vs@.len() == k,
            parse_values::<V>(bytes@, pos as int, k as nat) == Some((vs@, p as int)),
        decreases count - k,
    {
        match V::decode(bytes, p) {
            None => {
                proof {
                    assert(parse_values::<V>(bytes@, pos as int, (k + 1) as nat) is None);
                    lemma_values_stay_none::<V>(bytes@, pos as int, (k + 1) as nat, count as nat);
                }
                return Err(CodecError::Value);
            },
            Some((v, next)) => {
                vs.push(v);
                p = next;
            },
        }
        k = k + 1;
    }
    Ok((vs, p))
}

/// Turns the logarithms of the widths into the lower ends of the intervals.
pub fn decode_lower_ends(widths: &Vec<u8>) -> (r: Result<Vec<u32>, CodecError>)
    requires
        widths@.len() < usize::MAX,
    ensures
        match r {
            Ok(lowers) => width_error(widths@, widths@.len() as int) is None && lowers@.len()
                == widths@.len() + 1 && forall|k: int|
                0 <= k <= widths@.len() ==> #[trigger] lowers@[k] == lower_end(widths@, k),
            Err(e) => width_error(widths@, widths@.len() as int) == Some(e),
        },
{
    let n: usize = widths.len();
    let mut lowers: Vec<u32> = Vec::new();
    let mut total: u32 = 0;
    lowers.push(0);
    let mut k: usize = 0;
    while k < n
        invariant
            k <= n,
            n == widths@.len(),
            n < usize::MAX,
            width_error(widths@, k as int) is None,
            total == lower_end(widths@, k as int),
            lowers@.len() == k + 1,
            forall|j: int| 0 <= j <= k ==> #[trigger] lowers@[j] == lower_end(widths@, j),
        decreases n - k,
    {
        let logr: u8 = widths[k];
        if logr == 0 || logr > 32 {
            proof {
                assert(width_error(widths@, k + 1) == Some(CodecError::LogWidth));
                lemma_width_error_stays(widths@, k + 1, n as int);
            }
            return Err(CodecError::LogWidth);
        }
        let r: u32 = 1u32 << (32 - logr as u32);
        match total.checked_add(r) {
            None => {
                proof {
                    assert(width_error(widths@, k + 1) == Some(CodecError::WidthOverflow));
                    lemma_width_error_stays(widths@, k + 1, n as int);
                }
                return Err(CodecError::WidthOverflow);
            },
            Some(sum) => {
                total = sum;
            },
        }
        lowers.push(total);
        k = k + 1;
    }
    Ok(lowers)
}

/// Pairs the lower ends of the intervals with the values.
pub fn pair_up<V>(lowers: &Vec<u32>, values: Vec<V>) -> (table: Vec<(u32, V)>)
    requires
        lowers@.len() == values@.len(),
    ensures
        table@.len() == values@.len(),
        forall|k: int| 0 <= k < table@.len() ==> #[trigger] table@[k] == (lowers@[k], values@[k]),
{
    let n: usize = values.len();
    let ghost all: Seq<V> = values@;
    let mut values: Vec<V> = values;
    let mut back: Vec<V> = Vec::new();
    let mut left: usize = n;
    while left > 0
        invariant
            left <= n,
            n == all.len(),
            values@ == all.take(left as int),
            back@.len() == n - left,
            forall|j: int| 0 <= j < n - left ==> #[trigger] back@[j] == all[n - 1 - j],
        decreases left,
    {
        left = left - 1;
        let v: V = values.pop().unwrap();
        back.push(v);
        proof {
            assert(values@ =~= all.take(left as int));
        }
    }
    let mut table: Vec<(u32, V)> = Vec::new();
    let mut k: usize = 0;
    while k < n
        invariant
            k <= n,
            n == all.len(),
            n == lowers@.len(),
            back@.len() == n - k,
            forall|j: int| 0 <= j < n - k ==> #[trigger] back@[j] == all[n - 1 - j],
            table@.len() == k,
            forall|j: int| 0 <= j < k ==> #[trigger] table@[j] == (lowers@[j], all[j]),
        decreases n - k,
    {
        let v: V = back.pop().unwrap();
        table.push((lowers[k], v));
        k = k + 1;
    }
    table
}

/// Reads the numbers of blocks of `count` phases from `pos` on.
pub fn decode_nblocks(bytes: &[u8], pos: usize, count: usize) -> (r: Result<(Vec<usize>, usize), CodecError>)
    requires
        pos <= bytes@.len(),
    ensures
        match r {
            Ok((ns, next)) => parse_nblocks(bytes@, pos as int, count as nat) == Ok::<
                (Seq<usize>, int),
                CodecError,
            >((ns@, next as int)) && pos <= next <= bytes@.len() && ns@.len() == count,
            Err(e) => parse_nblocks(bytes@, pos as int, count as nat) == Err::<
                (Seq<usize>, int),
                CodecError,
            >(e),
        },
{
    let mut ns: Vec<usize> = Vec::new();
    let mut p: usize = pos;
    let mut k: usize = 0;
    while k < count
        invariant
            k <= count,
            pos <= p <= bytes@.len(),
            ns@.len() == k,
            parse_nblocks(bytes@, pos as int, k as nat) == Ok::<(Seq<usize>, int), CodecError>(
                (ns@, p as int),
            ),
        decreases count - k,
    {
        match take_u64(bytes, p) {
            Err(e) => {
                proof {
                    lemma_nblocks_stay_err(bytes@, pos as int, (k + 1) as nat, count as nat);
                }
                return Err(e);
            },
            Ok((v, next)) => {
                if v > usize::MAX as u64 {
                    proof {
                        lemma_nblocks_stay_err(bytes@, pos as int, (k + 1) as nat, count as nat);
                    }
                    return Err(CodecError::Integer);
                }
                if v < 2 {
                    proof {
                        lemma_nblocks_stay_err(bytes@, pos as int, (k + 1) as nat, count as nat);
                    }
                    return Err(CodecError::TooFewBlocks);
                }
                ns.push(v as usize);
                p = next;
            },
        }
        k = k + 1;
    }
    Ok((ns, p))
}

/// Reads the blocks of the phases of `plan` from `pos` on.
pub fn decode_blocks<'a>(bytes: &'a [u8], pos: usize, plan: u32, nblocks: &Vec<usize>) -> (r: Result<
    (Vec<&'a [u8]>, usize),
    CodecError,
>)
    requires
        pos <= bytes@.len(),
        nblocks@.len() == popcount(plan),
    ensures
        match r {
            Ok((bs, next)) => parse_blocks(bytes@, pos as int, plan, nblocks@, popcount(plan)) == Ok::<
                (Seq<Seq<u8>>, int),
                CodecError,
            >((Seq::new(bs@.len(), |k: int| bs@[k]@), next as int)) && pos <= next <= bytes@.len()
                && bs@.len() == popcount(plan),
            Err(e) => parse_blocks(bytes@, pos as int, plan, nblocks@, popcount(plan)) == Err::<
                (Seq<Seq<u8>>, int),
                CodecError,
            >(e),
        },
{
    let shifts: Vec<u32> = phase_shifts(plan);
    let count: usize = shifts.len();
    let mut bs: Vec<&'a [u8]> = Vec::new();
    let mut p: usize = pos;
    let mut k: usize = 0;
    proof {
        assert(Seq::new(bs@.len(), |j: int| bs@[j]@) =~= Seq::<Seq<u8>>::empty());
    }
    while k < count
        invariant
            k <= count,
            count == popcount(plan),
            nblocks@.len() == count,
            shifts@.len() == count,
            forall|j: int| 0 <= j < count ==> #[trigger] shifts@[j] == phase_shift(plan, j as nat),
            pos <= p <= bytes@.len(),
            bs@.len() == k,
            parse_blocks(bytes@, pos as int, plan, nblocks@, k as nat) == Ok::<
                (Seq<Seq<u8>>, int),
                CodecError,
            >((Seq::new(bs@.len(), |j: int| bs@[j]@), p as int)),
        decreases count - k,
    {
        proof {
            lemma_shift_rises(plan, k as nat);
        }
        let end: u32 = if k + 1 < count {
            shifts[k + 1]
        } else {
            32
        };
        let bpv: usize = (end - shifts[k]) as usize;
        let ghost before: Seq<Seq<u8>> = Seq::new(bs@.len(), |j: int| bs@[j]@);
        let size: usize = match nblocks[k].checked_mul(BLOCKSIZE) {
            None => {
                proof {
                    lemma_blocks_stay_err(
                        bytes@,
                        pos as int,
                        plan,
                        nblocks@,
                        (k + 1) as nat,
                        count as nat,
                    );
                }
                return Err(CodecError::BlockOverflow);
            },
            Some(mul1) => match mul1.checked_mul(bpv) {
                None => {
                    proof {
                        assert(nblocks@[k as int] * BLOCKSIZE * phase_width(plan, k as nat)
                            == mul1 * bpv) by (nonlinear_arith)
                            requires
                                mul1 == nblocks@[k as int] * BLOCKSIZE,
                                bpv == phase_width(plan, k as nat),
                        ;
                        lemma_blocks_stay_err(
                            bytes@,
                            pos as int,
                            plan,
                            nblocks@,
                            (k + 1) as nat,
                            count as nat,
                        );
                    }
                    return Err(CodecError::BlockOverflow);
                },
                Some(mul2) => {
                    proof {
                        assert(nblocks@[k as int] * BLOCKSIZE * phase_width(plan, k as nat)
                            == mul2) by (nonlinear_arith)
                            requires
                                mul1 == nblocks@[k as int] * BLOCKSIZE,
                                mul2 == mul1 * bpv,
                                bpv == phase_width(plan, k as nat),
                        ;
                    }
                    mul2
                },
            },
        };
        if size > bytes.len() - p {
            proof {
                lemma_blocks_stay_err(bytes@, pos as int, plan, nblocks@, (k + 1) as nat, count as nat);
            }
            return Err(CodecError::UnexpectedEnd);
        }
        bs.push(slice_subrange(bytes, p, p + size));
        p = p + size;
        proof {
            assert(Seq::new(bs@.len(), |j: int| bs@[j]@) =~= before.push(
                bytes@.subrange(p - size, p as int),
            ));
        }
        k = k + 1;
    }
    Ok((bs, p))
}

/// The map `m` holds what `p` holds, with the hash key of each phase above
/// the lowest chosen by `choose_key` from the hash key of the phase below
/// and that phase's salt byte.
pub open spec fn holds<V, F: Fn([u8; 16], u8) -> [u8; 16]>(m: MapView<V>, p: Parsed<V>, choose_key: F) -> bool {
    &&& m.plan == p.plan
    &&& m.responses == p.responses
    &&& m.salt == p.salt
    &&& m.core.len() == popcount(p.plan)
    &&& forall|k: int|
        0 <= k < m.core.len() ==> (#[trigger] m.core[k]).nblocks == p.nblocks[k] && m.core[k].blocks
            == p.blocks[k] && m.core[k].bits_per_value == phase_width(p.plan, k as nat)
    &&& m.core.len() >= 1 ==> m.core[0].hash_key@ == p.hash_key
    &&& forall|k: int|
        1 <= k < m.core.len() ==> call_ensures(
            choose_key,
            (m.core[k - 1].hash_key, m.salt[k - 1]),
            #[trigger] m.core[k].hash_key,
        )
}

impl<'a, V: Response> CompressedMap<'a, V> {
    /// Reads a map from the front of `bytes`; returns it with the number of
    /// bytes it takes. `choose_key` gives the hash key of a phase from the
    /// hash key of the phase below and that phase's salt byte.
    pub fn borrow_decode<F: Fn([u8; 16], u8) -> [u8; 16]>(bytes: &'a [u8], choose_key: F) -> (r: Result<
        (Self, usize),
        CodecError,
    >)
        requires
            forall|key: [u8; 16], s: u8| call_requires(choose_key, (key, s)),
        ensures
            match r {
                Ok((m, used)) => parse::<V>(bytes@) is Ok && used == parse::<V>(bytes@)->Ok_0.used
                    && used <= bytes@.len() && m@.wf() && holds(
                    m@,
                    parse::<V>(bytes@)->Ok_0,
                    choose_key,
                ),
                Err(e) => parse::<V>(bytes@) == Err::<Parsed<V>, CodecError>(e),
            },
    {
        let (widths, p0) = match decode_header(bytes) {
            Err(e) => {
                return Err(e);
            },
            Ok(found) => found,
        };
        let (values, p1) = match decode_values::<V>(bytes, p0, widths.len() + 1) {
            Err(e) => {
                return Err(e);
            },
            Ok(found) => found,
        };
        let lowers: Vec<u32> = match decode_lower_ends(&widths) {
            Err(e) => {
                return Err(e);
            },
            Ok(found) => found,
        };
        let ghost all: Seq<V> = values@;
        let table: Vec<(u32, V)> = pair_up(&lowers, values);
        proof {
            assert(table@ =~= table_of(widths@, all));
            assert(table_wf(table@)) by {
                assert forall|i: int, j: int| 0 <= i < j < table@.len() implies (
                #[trigger] table@[i]).0 < (#[trigger] table@[j]).0 by {
                    lemma_lower_end_rises(widths@, j, widths@.len() as int);
                    lemma_lower_end_rises(widths@, i, j);
                }
            }
        }
        if bytes.len() - p1 < 16 {
            return Err(CodecError::UnexpectedEnd);
        }
        let mut hash_key: [u8; 16] = [0u8; 16];
        let mut i: usize = 0;
        while i < 16
            invariant
                i <= 16,
                p1 + 16 <= bytes@.len(),
                p1 + 16 <= usize::MAX,
                forall|j: int| 0 <= j < i ==> hash_key@[j] == bytes@[p1 + j],
            decreases 16 - i,
        {
            hash_key[i] = bytes[p1 + i];
            i = i + 1;
        }
        proof {
            assert(hash_key@ =~= bytes@.subrange(p1 as int, p1 + 16));
        }
        let (plan, p2) = match take_u32(bytes, p1 + 16) {
            Err(e) => {
                return Err(e);
            },
            Ok(found) => found,
        };
        let nphases: usize = count_bits(plan);
        let len_salt: usize = if nphases >= 1 {
            nphases - 1
        } else {
            0
        };
        let (salt, p3) = match take_bytes(bytes, p2, len_salt) {
            Err(e) => {
                return Err(e);
            },
            Ok(found) => found,
        };
        let (nblocks, p4) = match decode_nblocks(bytes, p3, nphases) {
            Err(e) => {
                return Err(e);
            },
            Ok(found) => found,
        };
        let (blocks, p5) = match decode_blocks(bytes, p4, plan, &nblocks) {
            Err(e) => {
                return Err(e);
            },
            Ok(found) => found,
        };
        let ghost parsed: Parsed<V> = parse::<V>(bytes@)->Ok_0;
        proof {
            assert(parse::<V>(bytes@) is Ok);
            assert(parsed.used == p5);
            assert(parsed.plan == plan);
        }
        let shifts: Vec<u32> = phase_shifts(plan);
        let ghost all_blocks: Seq<Seq<u8>> = Seq::new(blocks@.len(), |k: int| blocks@[k]@);
        let mut core: Vec<MapCore<'a>> = Vec::new();
        let mut hashcur: [u8; 16] = hash_key;
        let mut phase: usize = 0;
        while phase < nphases
            invariant
                phase <= nphases,
                nphases == popcount(plan),
                nphases == all_blocks.len(),
                nblocks@.len() == nphases,
                shifts@.len() == nphases,
                forall|j: int|
                    0 <= j < nphases ==> #[trigger] shifts@[j] == phase_shift(plan, j as nat),
                salt@.len() == if nphases >= 1 {
                    nphases - 1
                } else {
                    0
                },
                blocks@.len() == nphases,
                forall|j: int| 0 <= j < nphases ==> (#[trigger] blocks@[j])@ == all_blocks[j],
                core@.len() == phase,
                forall|k: int|
                    0 <= k < phase ==> (#[trigger] core@[k]).nblocks == nblocks@[k] && core@[k].blocks@
                        == all_blocks[k] && core@[k].bits_per_value == phase_width(plan, k as nat)
                        && core@[k].blocks is Borrowed,
                phase >= 1 ==> core@[0].hash_key == hash_key,
                phase == 0 ==> hashcur == hash_key,
                forall|k: int|
                    1 <= k < phase ==> call_ensures(
                        choose_key,
                        (core@[k - 1].hash_key, salt@[k - 1]),
                        #[trigger] core@[k].hash_key,
                    ),
                phase >= 1 && phase < nphases ==> call_ensures(
                    choose_key,
                    (core@[phase - 1].hash_key, salt@[phase - 1]),
                    hashcur,
                ),
                forall|key: [u8; 16], s: u8| call_requires(choose_key, (key, s)),
            decreases nphases - phase,
        {
            proof {
                lemma_shift_rises(plan, phase as nat);
            }
            let end: u32 = if phase + 1 < nphases {
                shifts[phase + 1]
            } else {
                32
            };
            let bpv: u8 = (end - shifts[phase]) as u8;
            core.push(
                MapCore {
                    hash_key: hashcur,
                    bits_per_value: bpv,
                    nblocks: nblocks[phase],
                    blocks: Blocks::Borrowed(blocks[phase]),
                },
            );
            if phase < salt.len() {
                hashcur = choose_key(hashcur, salt[phase]);
            }
            phase = phase + 1;
        }
        let m = CompressedMap::from_parts(plan, table, salt, core);
        proof {
            assert(m@.wf());
            assert(holds(m@, parsed, choose_key));
        }
        Ok((m, p5))
    }

    /// Reads a map from `bytes`, which must hold the map and nothing else.
    /// The map owns its data.
    pub fn from_bytes<'b, F: Fn([u8; 16], u8) -> [u8; 16]>(bytes: &'a [u8], choose_key: F) -> (r: Result<
        CompressedMap<'b, V>,
        CodecError,
    >)
        requires
            forall|key: [u8; 16], s: u8| call_requires(choose_key, (key, s)),
        ensures
            match r {
                Ok(m) => parse::<V>(bytes@) is Ok && parse::<V>(bytes@)->Ok_0.used == bytes@.len()
                    && m@.wf() && m.owns() && holds(m@, parse::<V>(bytes@)->Ok_0, choose_key),
                Err(e) => if parse::<V>(bytes@) is Ok {
                    e == CodecError::TrailingBytes && parse::<V>(bytes@)->Ok_0.used < bytes@.len()
                } else {
                    parse::<V>(bytes@) == Err::<Parsed<V>, CodecError>(e)
                },
            },
    {
        match Self::borrow_decode(bytes, choose_key) {
            Err(e) => Err(e),
            Ok((m, used)) => {
                if used < bytes.len() {
                    Err(CodecError::TrailingBytes)
                } else {
                    Ok(m.take_ownership())
                }
            },
        }
    }

    /// Writes the byte form of the map.
    pub fn encode(&self) -> (out: Vec<u8>)
        requires
            self@.wf(),
        ensures
            out@ == encoding(self@),
    {
        let mut out: Vec<u8> = Vec::new();
        out.push(0x63);
        out.push(0x6e);
        out.push(0x6d);
        out.push(0x31);
        assert(out@ =~= magic());
        let table: &Vec<(u32, V)> = self.response_map();
        let n: usize = table.len();
        put_u64(&mut out, (n - 1) as u64);
        let ghost head: Seq<u8> = out@;
        let mut i: usize = 0;
        while i < n - 1
            invariant
                n >= 1,
                i <= n - 1,
                n == table@.len(),
                table_wf(table@),
                out@ == head + log_widths(table@).take(i as int),
            decreases n - 1 - i,
        {
            let delta: u32 = table[i + 1].0 - table[i].0;
            proof {
                axiom_u32_leading_zeros(delta);
            }
            out.push((delta.leading_zeros() + 1) as u8);
            i = i + 1;
            proof {
                assert(out@ =~= head + log_widths(table@).take(i as int));
            }
        }
        proof {
            assert(log_widths(table@).take(n - 1) =~= log_widths(table@));
        }
        let ghost head: Seq<u8> = out@;
        let mut i: usize = 0;
        while i < n
            invariant
                i <= n,
                n == table@.len(),
                out@ == head + values_encoding(table@, i as int),
            decreases n - i,
        {
            table[i].1.encode(&mut out);
            i = i + 1;
            proof {
                assert(out@ =~= head + values_encoding(table@, i as int));
            }
        }
        let core: &Vec<MapCore<'a>> = self.cores();
        let nphases: usize = core.len();
        let ghost head: Seq<u8> = out@;
        if nphases == 0 {
            let mut i: usize = 0;
            while i < 16
                invariant
                    i <= 16,
                    out@ == head + Seq::new(i as nat, |j: int| 0u8),
                decreases 16 - i,
            {
                out.push(0);
                i = i + 1;
                proof {
                    assert(out@ =~= head + Seq::new(i as nat, |j: int| 0u8));
                }
            }
        } else {
            put_bytes(&mut out, core[0].hash_key.as_slice());
        }
        proof {
            assert(out@ == head + first_hash_key(self@.core));
        }
        put_u32(&mut out, self.plan());
        put_bytes(&mut out, self.salt().as_slice());
        let ghost head: Seq<u8> = out@;
        let mut k: usize = 0;
        while k < nphases
            invariant
                k <= nphases,
                nphases == core@.len(),
                core@.len() == self@.core.len(),
                forall|j: int| 0 <= j < core@.len() ==> (#[trigger] core@[j])@ == self@.core[j],
                out@ == head + nblocks_encoding(self@.core, k as int),
            decreases nphases - k,
        {
            put_u64(&mut out, core[k].nblocks as u64);
            k = k + 1;
            proof {
                assert(out@ =~= head + nblocks_encoding(self@.core, k as int));
            }
        }
        let ghost head: Seq<u8> = out@;
        let mut k: usize = 0;
        while k < nphases
            invariant
                k <= nphases,
                nphases == core@.len(),
                core@.len() == self@.core.len(),
                forall|j: int| 0 <= j < core@.len() ==> (#[trigger] core@[j])@ == self@.core[j],
                out@ == head + blocks_encoding(self@.core, k as int),
            decreases nphases - k,
        {
            put_bytes(&mut out, core[k].blocks.as_slice());
            k = k + 1;
            proof {
                assert(out@ =~= head + blocks_encoding(self@.core, k as int));
            }
        }
        proof {
            assert(out@ =~= encoding(self@));
        }
        out
    }
}

} // verus!
