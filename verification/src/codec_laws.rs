//! What holds of the byte form: a map written is read back, whatever follows
//! it, and its bytes begin with the magic value.

use crate::bits::{is_power_of_two, lemma_high_bit, popcount, spec_high_bit};
use crate::codec::{
    blocks_encoding, encoding, first_hash_key, holds, log_width, log_widths, lower_end, magic,
    nblocks_encoding, parse, parse_blocks, parse_header, parse_nblocks, parse_phases, parse_values,
    phase_width, salt_len, table_of, values_encoding, width_error, width_of_log, Header, Parsed,
};
use crate::map::{CoreView, MapView, BLOCKSIZE};
use crate::value::Response;
use crate::wire::{
    lemma_varint_extends, lemma_varint_round_trip, varint, varint_u32_decoding, CodecError,
};
use vstd::prelude::*;
use vstd::std_specs::bits::axiom_u32_leading_zeros;

verus! {

/// A map that its byte form can stand for: beside the invariant of a map,
/// every interval but the last has a power of two as its width, and every
/// phase has at least 2 blocks, as many bits as the plan gives it, and blocks
/// of the size that follows from the two.
pub open spec fn encodable<V>(m: MapView<V>) -> bool {
    &&& m.wf()
    &&& m.responses.len() <= usize::MAX
    &&& forall|i: int|
        0 <= i < m.responses.len() - 1 ==> is_power_of_two(
            #[trigger] ((m.responses[i + 1].0 - m.responses[i].0) as u32),
        )
    &&& forall|k: int|
        0 <= k < m.core.len() ==> {
            &&& (#[trigger] m.core[k]).nblocks >= 2
            &&& m.core[k].nblocks * BLOCKSIZE <= usize::MAX
            &&& m.core[k].bits_per_value == phase_width(m.plan, k as nat)
            &&& m.core[k].blocks.len() == m.core[k].nblocks * BLOCKSIZE * phase_width(
                m.plan,
                k as nat,
            )
            &&& m.core[k].blocks.len() <= usize::MAX
        }
}

/// The values of the first `k` entries of a table.
pub open spec fn values_of<V>(t: Seq<(u32, V)>, k: int) -> Seq<V> {
    Seq::new(k as nat, |i: int| t[i].1)
}

/// The numbers of blocks of the first `k` phases.
pub open spec fn nblocks_of(core: Seq<CoreView>, k: int) -> Seq<usize> {
    Seq::new(k as nat, |i: int| core[i].nblocks)
}

/// The blocks of the first `k` phases.
pub open spec fn blocks_of(core: Seq<CoreView>, k: int) -> Seq<Seq<u8>> {
    Seq::new(k as nat, |i: int| core[i].blocks)
}

proof fn lemma_values_read_back<V: Response>(
    head: Seq<u8>,
    t: Seq<(u32, V)>,
    k: int,
    tail: Seq<u8>,
)
    requires
        0 <= k <= t.len(),
    ensures
        parse_values::<V>(head + values_encoding(t, k) + tail, head.len() as int, k as nat) == Some(
            (values_of(t, k), (head.len() + values_encoding(t, k).len()) as int),
        ),
    decreases k,
{
    let b = head + values_encoding(t, k) + tail;
    if k == 0 {
        assert(values_of(t, 0) =~= Seq::<V>::empty());
    } else {
        let enc = t[k - 1].1.encoding();
        lemma_values_read_back::<V>(head, t, k - 1, enc + tail);
        assert(b =~= head + values_encoding(t, k - 1) + (enc + tail));
        let p: int = (head.len() + values_encoding(t, k - 1).len()) as int;
        assert(b.skip(p) =~= enc + tail);
        V::lemma_round_trip(t[k - 1].1, tail);
        assert(values_of(t, k) =~= values_of(t, k - 1).push(t[k - 1].1));
    }
}

proof fn lemma_nblocks_read_back(head: Seq<u8>, core: Seq<CoreView>, k: int, tail: Seq<u8>)
    requires
        0 <= k <= core.len(),
        forall|j: int| 0 <= j < core.len() ==> (#[trigger] core[j]).nblocks >= 2,
    ensures
        parse_nblocks(head + nblocks_encoding(core, k) + tail, head.len() as int, k as nat) == Ok::<
            (Seq<usize>, int),
            CodecError,
        >((nblocks_of(core, k), (head.len() + nblocks_encoding(core, k).len()) as int)),
    decreases k,
{
    let b = head + nblocks_encoding(core, k) + tail;
    if k == 0 {
        assert(nblocks_of(core, 0) =~= Seq::<usize>::empty());
    } else {
        let enc = varint(core[k - 1].nblocks as u64);
        lemma_nblocks_read_back(head, core, k - 1, enc + tail);
        assert(b =~= head + nblocks_encoding(core, k - 1) + (enc + tail));
        let p: int = (head.len() + nblocks_encoding(core, k - 1).len()) as int;
        assert(b.skip(p) =~= enc + tail);
        lemma_varint_round_trip(core[k - 1].nblocks as u64, tail);
        assert(nblocks_of(core, k) =~= nblocks_of(core, k - 1).push(core[k - 1].nblocks));
    }
}

proof fn lemma_blocks_read_back(
    head: Seq<u8>,
    plan: u32,
    core: Seq<CoreView>,
    k: int,
    tail: Seq<u8>,
)
    requires
        0 <= k <= core.len(),
        forall|j: int|
            0 <= j < core.len() ==> (#[trigger] core[j]).nblocks * BLOCKSIZE <= usize::MAX
                && core[j].blocks.len() == core[j].nblocks * BLOCKSIZE * phase_width(plan, j as nat)
                && core[j].blocks.len() <= usize::MAX,
    ensures
        parse_blocks(
            head + blocks_encoding(core, k) + tail,
            head.len() as int,
            plan,
            nblocks_of(core, core.len() as int),
            k as nat,
        ) == Ok::<(Seq<Seq<u8>>, int), CodecError>(
            (blocks_of(core, k), (head.len() + blocks_encoding(core, k).len()) as int),
        ),
    decreases k,
{
    let b = head + blocks_encoding(core, k) + tail;
    if k == 0 {
        assert(blocks_of(core, 0) =~= Seq::<Seq<u8>>::empty());
    } else {
        let enc = core[k - 1].blocks;
        lemma_blocks_read_back(head, plan, core, k - 1, enc + tail);
        assert(b =~= head + blocks_encoding(core, k - 1) + (enc + tail));
        let p: int = (head.len() + blocks_encoding(core, k - 1).len()) as int;
        assert(b.subrange(p, p + enc.len()) =~= enc);
        assert(blocks_of(core, k) =~= blocks_of(core, k - 1).push(core[k - 1].blocks));
    }
}

proof fn lemma_single_bit(d: u32, h: u32)
    by (bit_vector)
    requires
        h < 32,
        d >> h == 1,
        d != 0,
        d & ((d - 1) as u32) == 0,
    ensures
        1u32 << h == d,
{
}

/// What stands for a power of two stands for no other width.
pub proof fn lemma_log_width(d: u32)
    requires
        is_power_of_two(d),
    ensures
        1 <= log_width(d) <= 32,
        width_of_log(log_width(d)) == d,
{
    axiom_u32_leading_zeros(d);
    lemma_high_bit(d);
    lemma_single_bit(d, spec_high_bit(d));
}

proof fn lemma_widths_read_back<V>(t: Seq<(u32, V)>, k: int)
    requires
        t.len() >= 1,
        t[0].0 == 0,
        forall|i: int, j: int| 0 <= i < j < t.len() ==> (#[trigger] t[i]).0 < (#[trigger] t[j]).0,
        forall|i: int|
            0 <= i < t.len() - 1 ==> is_power_of_two(#[trigger] ((t[i + 1].0 - t[i].0) as u32)),
        0 <= k <= t.len() - 1,
    ensures
        lower_end(log_widths(t), k) == t[k].0,
        width_error(log_widths(t), k) is None,
    decreases k,
{
    if k > 0 {
        lemma_widths_read_back(t, k - 1);
        let d: u32 = (t[k].0 - t[k - 1].0) as u32;
        assert(t[k - 1].0 < t[k].0);
        assert(is_power_of_two(d));
        lemma_log_width(d);
    }
}

/// The bytes of a map begin with the magic value.
pub proof fn law_begins_with_magic<V: Response>(m: MapView<V>)
    ensures
        encoding(m).len() >= 4,
        encoding(m).subrange(0, 4) == magic(),
{
    assert(encoding(m).subrange(0, 4) =~= magic());
}

proof fn lemma_header_read_back(len: u64, widths: Seq<u8>, tail: Seq<u8>)
    requires
        widths.len() == len,
    ensures
        parse_header(magic() + varint(len) + widths + tail) == Ok::<Header, CodecError>(
            Header { widths, next: (4 + varint(len).len() + widths.len()) as int },
        ),
{
    let b = magic() + varint(len) + widths + tail;
    let f1 = varint(len);
    lemma_varint_round_trip(len, widths + tail);
    assert(b.subrange(0, 4) =~= magic());
    assert(b.skip(4) =~= f1 + (widths + tail));
    assert(b.subrange((4 + f1.len()) as int, (4 + f1.len() + widths.len()) as int) =~= widths);
}

proof fn lemma_phases_read_back<V>(head: Seq<u8>, m: MapView<V>, rest: Seq<u8>)
    requires
        encodable(m),
    ensures
        parse_phases(
            head + first_hash_key(m.core) + varint(m.plan as u64) + m.salt + nblocks_encoding(
                m.core,
                m.core.len() as int,
            ) + blocks_encoding(m.core, m.core.len() as int) + rest,
            head.len() as int,
            m.responses,
        ) == Ok::<Parsed<V>, CodecError>(
            Parsed {
                plan: m.plan,
                responses: m.responses,
                hash_key: first_hash_key(m.core),
                salt: m.salt,
                nblocks: nblocks_of(m.core, m.core.len() as int),
                blocks: blocks_of(m.core, m.core.len() as int),
                used: (head.len() + 16 + varint(m.plan as u64).len() + m.salt.len()
                    + nblocks_encoding(m.core, m.core.len() as int).len() + blocks_encoding(
                    m.core,
                    m.core.len() as int,
                ).len()) as int,
            },
        ),
{
    let nc = m.core.len() as int;
    let f4 = first_hash_key(m.core);
    let f5 = varint(m.plan as u64);
    let f6 = m.salt;
    let f7 = nblocks_encoding(m.core, nc);
    let f8 = blocks_encoding(m.core, nc);
    let b = head + f4 + f5 + f6 + f7 + f8 + rest;
    let p1: int = head.len() as int;
    assert(f4.len() == 16);
    assert(b.subrange(p1, p1 + 16) =~= f4);
    lemma_varint_round_trip(m.plan as u64, f6 + f7 + f8 + rest);
    assert(b.skip(p1 + 16) =~= f5 + (f6 + f7 + f8 + rest));
    let p2: int = p1 + 16 + f5.len();
    assert(salt_len(m.plan) == f6.len());
    let p3: int = p2 + f6.len();
    assert(b.subrange(p2, p3) =~= f6);
    let head6 = head + f4 + f5 + f6;
    lemma_nblocks_read_back(head6, m.core, nc, f8 + rest);
    assert(b =~= head6 + f7 + (f8 + rest));
    let head7 = head6 + f7;
    lemma_blocks_read_back(head7, m.plan, m.core, nc, rest);
    assert(b =~= head7 + f8 + rest);
}

proof fn lemma_table_read_back<V>(t: Seq<(u32, V)>)
    requires
        t.len() >= 1,
        t[0].0 == 0,
        forall|i: int, j: int| 0 <= i < j < t.len() ==> (#[trigger] t[i]).0 < (#[trigger] t[j]).0,
        forall|i: int|
            0 <= i < t.len() - 1 ==> is_power_of_two(#[trigger] ((t[i + 1].0 - t[i].0) as u32)),
    ensures
        table_of(log_widths(t), values_of(t, t.len() as int)) == t,
        width_error(log_widths(t), log_widths(t).len() as int) is None,
{
    let n = t.len() as int;
    lemma_widths_read_back(t, n - 1);
    assert(table_of(log_widths(t), values_of(t, n)) =~= t) by {
        assert forall|k: int| 0 <= k < n implies #[trigger] table_of(
            log_widths(t),
            values_of(t, n),
        )[k] == t[k] by {
            lemma_widths_read_back(t, k);
        }
    }
}

/// A map written is read back, whatever follows it: the reader finds the
/// plan, the response table, the salt, the hash key of the lowest phase and
/// the blocks of every phase, and stops where the map ends.
pub proof fn law_round_trip<V: Response>(m: MapView<V>, rest: Seq<u8>)
    requires
        encodable(m),
    ensures
        parse::<V>(encoding(m) + rest) == Ok::<Parsed<V>, CodecError>(
            Parsed {
                plan: m.plan,
                responses: m.responses,
                hash_key: first_hash_key(m.core),
                salt: m.salt,
                nblocks: nblocks_of(m.core, m.core.len() as int),
                blocks: blocks_of(m.core, m.core.len() as int),
                used: encoding(m).len() as int,
            },
        ),
{
    let t = m.responses;
    let n = t.len() as int;
    let nc = m.core.len() as int;
    let b = encoding(m) + rest;
    let f1 = varint((n - 1) as u64);
    let f2 = log_widths(t);
    let f3 = values_encoding(t, n);
    let late = first_hash_key(m.core) + varint(m.plan as u64) + m.salt + nblocks_encoding(
        m.core,
        nc,
    ) + blocks_encoding(m.core, nc) + rest;
    lemma_header_read_back((n - 1) as u64, f2, f3 + late);
    assert(b =~= magic() + f1 + f2 + (f3 + late));
    let head2 = magic() + f1 + f2;
    lemma_values_read_back::<V>(head2, t, n, late);
    assert(b =~= head2 + f3 + late);
    lemma_table_read_back(t);
    let head3 = head2 + f3;
    lemma_phases_read_back(head3, m, rest);
    assert(b =~= head3 + first_hash_key(m.core) + varint(m.plan as u64) + m.salt
        + nblocks_encoding(m.core, nc) + blocks_encoding(m.core, nc) + rest);
    assert(values_of(t, n).len() == f2.len() + 1);
}

proof fn lemma_header_extends(c: Seq<u8>, ext: Seq<u8>)
    requires
        parse_header(c) is Ok,
    ensures
        parse_header(c + ext) == parse_header(c),
        0 <= parse_header(c)->Ok_0.next <= c.len(),
{
    let b = c + ext;
    assert(b.subrange(0, 4) =~= c.subrange(0, 4));
    lemma_varint_extends(c.skip(4), ext);
    assert(b.skip(4) =~= c.skip(4) + ext);
    let h = parse_header(c)->Ok_0;
    assert(b.subrange(h.next - h.widths.len(), h.next) =~= c.subrange(
        h.next - h.widths.len(),
        h.next,
    ));
}

proof fn lemma_values_extend<V: Response>(c: Seq<u8>, ext: Seq<u8>, pos: int, n: nat)
    requires
        0 <= pos <= c.len(),
        parse_values::<V>(c, pos, n) is Some,
    ensures
        parse_values::<V>(c + ext, pos, n) == parse_values::<V>(c, pos, n),
        pos <= (parse_values::<V>(c, pos, n)->0).1 <= c.len(),
    decreases n,
{
    if n > 0 {
        lemma_values_extend::<V>(c, ext, pos, (n - 1) as nat);
        let p = (parse_values::<V>(c, pos, (n - 1) as nat)->0).1;
        V::lemma_decoding_extends(c.skip(p), ext);
        assert((c + ext).skip(p) =~= c.skip(p) + ext);
    }
}

proof fn lemma_nblocks_extend(c: Seq<u8>, ext: Seq<u8>, pos: int, n: nat)
    requires
        0 <= pos <= c.len(),
        parse_nblocks(c, pos, n) is Ok,
    ensures
        parse_nblocks(c + ext, pos, n) == parse_nblocks(c, pos, n),
        pos <= (parse_nblocks(c, pos, n)->Ok_0).1 <= c.len(),
        (parse_nblocks(c, pos, n)->Ok_0).0.len() == n,
    decreases n,
{
    if n > 0 {
        lemma_nblocks_extend(c, ext, pos, (n - 1) as nat);
        let p = (parse_nblocks(c, pos, (n - 1) as nat)->Ok_0).1;
        lemma_varint_extends(c.skip(p), ext);
        assert((c + ext).skip(p) =~= c.skip(p) + ext);
    }
}

proof fn lemma_blocks_extend(c: Seq<u8>, ext: Seq<u8>, pos: int, plan: u32, nblocks: Seq<usize>, n: nat)
    requires
        0 <= pos <= c.len(),
        parse_blocks(c, pos, plan, nblocks, n) is Ok,
        n <= popcount(plan),
    ensures
        parse_blocks(c + ext, pos, plan, nblocks, n) == parse_blocks(c, pos, plan, nblocks, n),
        pos <= (parse_blocks(c, pos, plan, nblocks, n)->Ok_0).1 <= c.len(),
    decreases n,
{
    if n > 0 {
        lemma_blocks_extend(c, ext, pos, plan, nblocks, (n - 1) as nat);
        crate::phases::lemma_shift_rises(plan, (n - 1) as nat);
        let p = (parse_blocks(c, pos, plan, nblocks, (n - 1) as nat)->Ok_0).1;
        let q = (parse_blocks(c, pos, plan, nblocks, n)->Ok_0).1;
        assert(nblocks[n - 1] * BLOCKSIZE * phase_width(plan, (n - 1) as nat) >= 0) by (nonlinear_arith)
            requires
                nblocks[n - 1] >= 0,
                BLOCKSIZE >= 0,
                phase_width(plan, (n - 1) as nat) >= 0,
        ;
        assert((c + ext).subrange(p, q) =~= c.subrange(p, q));
    }
}

proof fn lemma_phases_extend<V>(c: Seq<u8>, ext: Seq<u8>, pos: int, t: Seq<(u32, V)>)
    requires
        0 <= pos <= c.len(),
        parse_phases(c, pos, t) is Ok,
    ensures
        parse_phases(c + ext, pos, t) == parse_phases(c, pos, t),
        parse_phases(c, pos, t)->Ok_0.used <= c.len(),
{
    let b = c + ext;
    assert(b.subrange(pos, pos + 16) =~= c.subrange(pos, pos + 16));
    lemma_varint_extends(c.skip(pos + 16), ext);
    assert(b.skip(pos + 16) =~= c.skip(pos + 16) + ext);
    let found = varint_u32_decoding(c.skip(pos + 16))->0;
    let plan = found.0;
    let p2: int = pos + 16 + found.1;
    let p3: int = p2 + salt_len(plan);
    assert(b.subrange(p2, p3) =~= c.subrange(p2, p3));
    lemma_nblocks_extend(c, ext, p3, popcount(plan));
    let nb = parse_nblocks(c, p3, popcount(plan))->Ok_0;
    lemma_blocks_extend(c, ext, nb.1, plan, nb.0, popcount(plan));
}

/// A map that is read is read from the bytes at hand, and is read the same
/// whatever follows them.
pub proof fn lemma_parse_extends<V: Response>(c: Seq<u8>, ext: Seq<u8>)
    requires
        parse::<V>(c) is Ok,
    ensures
        parse::<V>(c + ext) == parse::<V>(c),
        parse::<V>(c)->Ok_0.used <= c.len(),
{
    lemma_header_extends(c, ext);
    let h = parse_header(c)->Ok_0;
    lemma_values_extend::<V>(c, ext, h.next, h.widths.len() + 1);
    let vs = parse_values::<V>(c, h.next, h.widths.len() + 1)->0;
    lemma_phases_extend(c, ext, vs.1, table_of(h.widths, vs.0));
}

/// The hash key of each phase above the lowest is the one that `choose_key`
/// gives for the hash key of the phase below and that phase's salt byte.
pub open spec fn keys_follow<V, F: Fn([u8; 16], u8) -> [u8; 16]>(m: MapView<V>, choose_key: F) -> bool {
    forall|j: int, key: [u8; 16]|
        0 <= j < m.core.len() - 1 && #[trigger] call_ensures(
            choose_key,
            (m.core[j].hash_key, m.salt[j]),
            key,
        ) ==> key == m.core[j + 1].hash_key
}

proof fn lemma_keys_read_back<V, F: Fn([u8; 16], u8) -> [u8; 16]>(
    m: MapView<V>,
    read: MapView<V>,
    p: Parsed<V>,
    choose_key: F,
    k: int,
)
    requires
        encodable(m),
        keys_follow(m, choose_key),
        holds(read, p, choose_key),
        p.plan == m.plan,
        p.salt == m.salt,
        p.hash_key == first_hash_key(m.core),
        0 <= k < m.core.len(),
    ensures
        read.core[k].hash_key == m.core[k].hash_key,
    decreases k,
{
    if k == 0 {
        assert(read.core[0].hash_key@ =~= m.core[0].hash_key@);
        assert(read.core[0].hash_key =~= m.core[0].hash_key);
    } else {
        lemma_keys_read_back(m, read, p, choose_key, k - 1);
        assert(call_ensures(
            choose_key,
            (read.core[k - 1].hash_key, read.salt[k - 1]),
            read.core[k].hash_key,
        ));
    }
}

/// A map that is written and read back is the map that was written, if
/// `choose_key` gives the hash keys of its phases.
pub proof fn law_read_back_is_equal<V: Response, F: Fn([u8; 16], u8) -> [u8; 16]>(
    m: MapView<V>,
    read: MapView<V>,
    choose_key: F,
)
    requires
        encodable(m),
        keys_follow(m, choose_key),
        parse::<V>(encoding(m)) is Ok ==> holds(read, parse::<V>(encoding(m))->Ok_0, choose_key),
    ensures
        parse::<V>(encoding(m)) is Ok,
        parse::<V>(encoding(m))->Ok_0.used == encoding(m).len(),
        read == m,
{
    law_round_trip(m, Seq::<u8>::empty());
    assert(encoding(m) + Seq::<u8>::empty() =~= encoding(m));
    let p = parse::<V>(encoding(m))->Ok_0;
    assert forall|k: int| 0 <= k < m.core.len() implies read.core[k] == m.core[k] by {
        lemma_keys_read_back(m, read, p, choose_key, k);
        assert(read.core[k].nblocks == p.nblocks[k]);
        assert(read.core[k].blocks == p.blocks[k]);
    }
    assert(read.core =~= m.core);
}

/// Bytes that follow a map are left over: the reader stops where the map
/// ends.
pub proof fn law_rest_is_left_over<V: Response>(m: MapView<V>, rest: Seq<u8>)
    requires
        encodable(m),
        rest.len() > 0,
    ensures
        parse::<V>(encoding(m) + rest) is Ok,
        parse::<V>(encoding(m) + rest)->Ok_0.used < (encoding(m) + rest).len(),
{
    law_round_trip(m, rest);
}

/// No cut of the bytes of a map is read as a map.
pub proof fn law_cut_is_refused<V: Response>(m: MapView<V>, k: int)
    requires
        encodable(m),
        0 <= k < encoding(m).len(),
    ensures
        parse::<V>(encoding(m).take(k)) is Err,
{
    let e = encoding(m);
    if parse::<V>(e.take(k)) is Ok {
        lemma_parse_extends::<V>(e.take(k), e.skip(k));
        assert(e.take(k) + e.skip(k) =~= e);
        law_round_trip(m, Seq::<u8>::empty());
        assert(e + Seq::<u8>::empty() =~= e);
    }
}

} // verus!
