//! The compressed map: its response table, its phases, and the query that
//! turns the answers of the phases into a value.

use crate::bits::{high_bit, lemma_high_bit, lemma_popcount_bound, popcount, spec_high_bit};
use crate::blocks::Blocks;
use crate::phases::{
    drop_top, lemma_below_lowest_phase, lemma_drop_top, lemma_locator_phase, lemma_phases_ordered,
    lemma_shift_rises, locator_of, low_mask, phase_end, phase_shift, span, span_mask,
};
use vstd::prelude::*;

verus! {

/// Bytes in one block of a phase's retrieval structure, per bit of its
/// answers.
pub const BLOCKSIZE: usize = 4;

/// The retrieval structure of one phase, as plain data: the hash key it was
/// built under, how many bits it answers with, and its blocks.
#[derive(Clone, Debug, PartialEq, Eq)]
pub struct MapCore<'a> {
    pub hash_key: [u8; 16],
    pub bits_per_value: u8,
    pub nblocks: usize,
    pub blocks: Blocks<'a>,
}

/// What a `MapCore` holds.
pub struct CoreView {
    pub hash_key: [u8; 16],
    pub bits_per_value: u8,
    pub nblocks: usize,
    pub blocks: Seq<u8>,
}

impl<'a> View for MapCore<'a> {
    type V = CoreView;

    open spec fn view(&self) -> CoreView {
        CoreView {
            hash_key: self.hash_key,
            bits_per_value: self.bits_per_value,
            nblocks: self.nblocks,
            blocks: self.blocks@,
        }
    }
}

/// A map from keys to values of type `V` that does not store its keys.
#[derive(Clone, Debug, PartialEq, Eq)]
pub struct CompressedMap<'a, V> {
    plan: u32,
    response_map: Vec<(u32, V)>,
    salt: Vec<u8>,
    core: Vec<MapCore<'a>>,
}

/// What a `CompressedMap` holds.
pub struct MapView<V> {
    /// One set bit at the lowest bit of each phase.
    pub plan: u32,
    /// The lowest locator of each interval with the value that owns it.
    pub responses: Seq<(u32, V)>,
    /// For each phase but the lowest, the number of the attempt that built it.
    pub salt: Seq<u8>,
    /// The retrieval structure of each phase, lowest phase first.
    pub core: Seq<CoreView>,
}

/// A response table begins at locator 0 and rises strictly.
pub open spec fn table_wf<V>(t: Seq<(u32, V)>) -> bool {
    &&& t.len() >= 1
    &&& t[0].0 == 0
    &&& forall|i: int, j: int| 0 <= i < j < t.len() ==> (#[trigger] t[i]).0 < (#[trigger] t[j]).0
}

/// Among the first `n` entries of `t`, the last whose interval begins at or
/// below `x`; entry 0 if there is none.
pub open spec fn slot_below<V>(t: Seq<(u32, V)>, x: u32, n: int) -> int
    decreases n,
{
    if n <= 1 {
        0
    } else if t[n - 1].0 <= x {
        n - 1
    } else {
        slot_below(t, x, n - 1)
    }
}

/// The entry of `t` whose interval holds locator `x`.
pub open spec fn slot_of<V>(t: Seq<(u32, V)>, x: u32) -> int {
    slot_below(t, x, t.len() as int)
}

/// The value that owns locator `x`.
pub open spec fn value_at<V>(t: Seq<(u32, V)>, x: u32) -> V {
    t[slot_of(t, x)].1
}

/// What a range of locators resolves to: the value that owns its lower end,
/// if that value owns all of the range.
pub open spec fn resolved<V>(t: Seq<(u32, V)>, low: u32, high: u32) -> Option<V> {
    let p = slot_of(t, low);
    if p == t.len() - 1 || t[p + 1].0 > high {
        Some(t[p].1)
    } else {
        None
    }
}

/// `answers` lists what `lookup` returns for each of `n` phases.
pub open spec fn answered_by<F: Fn(usize) -> u32>(lookup: F, n: nat, answers: Seq<u32>) -> bool {
    &&& answers.len() == n
    &&& forall|k: usize, r: u32|
        k < n && #[trigger] call_ensures(lookup, (k,), r) ==> r == answers[k as int]
}

/// The slot of `x` is the one entry that begins at or below `x` while the
/// next begins above.
pub proof fn lemma_slot_below<V>(t: Seq<(u32, V)>, x: u32, n: int)
    requires
        table_wf(t),
        1 <= n <= t.len(),
    ensures
        0 <= slot_below(t, x, n) < n,
        t[slot_below(t, x, n)].0 <= x,
        forall|i: int| slot_below(t, x, n) < i < n ==> (#[trigger] t[i]).0 > x,
    decreases n,
{
    if n > 1 && t[n - 1].0 > x {
        lemma_slot_below(t, x, n - 1);
    }
}

/// An entry that begins at or below `x`, with the next beginning above `x`,
/// is the slot of `x`.
pub proof fn lemma_slot_is<V>(t: Seq<(u32, V)>, x: u32, p: int)
    requires
        table_wf(t),
        0 <= p < t.len(),
        t[p].0 <= x,
        p + 1 < t.len() ==> t[p + 1].0 > x,
    ensures
        slot_of(t, x) == p,
{
    lemma_slot_below(t, x, t.len() as int);
    let q = slot_of(t, x);
    if q < p {
        assert(t[p].0 > x);
    } else if q > p {
        assert(t[p + 1].0 <= t[q].0);
    }
}

/// A range that resolves resolves to the value of every locator in it.
pub proof fn lemma_resolved_covers<V>(t: Seq<(u32, V)>, low: u32, high: u32, x: u32)
    requires
        table_wf(t),
        low <= x <= high,
        resolved(t, low, high) is Some,
    ensures
        resolved(t, low, high) == Some(value_at(t, x)),
        slot_of(t, x) == slot_of(t, low),
{
    lemma_slot_below(t, low, t.len() as int);
    lemma_slot_is(t, x, slot_of(t, low));
}

/// A single locator always resolves.
pub proof fn lemma_point_resolves<V>(t: Seq<(u32, V)>, x: u32)
    requires
        table_wf(t),
    ensures
        resolved(t, x, x) == Some(value_at(t, x)),
{
    lemma_slot_below(t, x, t.len() as int);
}

proof fn lemma_known_bits(f: u32, known: u32, lo: u32)
    by (bit_vector)
    requires
        f & known == lo,
    ensures
        lo <= f,
        f <= lo | !known,
        known == 0xffff_ffffu32 ==> lo | !known == lo,
{
}

proof fn lemma_first_probe(f: u32, low: u32, m: u32, pb: u32)
    by (bit_vector)
    requires
        f & low == 0,
        f & m == pb,
    ensures
        f & (low | m) == 0u32 | pb,
        (low | m) & m == m,
{
}

proof fn lemma_next_probe(f: u32, known: u32, lo: u32, h: u32, upper: u32, pb: u32)
    by (bit_vector)
    requires
        h < 32,
        h <= upper <= 32,
        f & known == lo,
        known & (low_mask(32) & !low_mask(upper)) == low_mask(32) & !low_mask(upper),
        f & (low_mask(upper) & !low_mask(h)) == pb,
    ensures
        f & (known | (low_mask(32) & !low_mask(h))) == lo | pb,
        (known | (low_mask(32) & !low_mask(h))) & (low_mask(32) & !low_mask(h)) == low_mask(32)
            & !low_mask(h),
{
}

proof fn lemma_mask_grows(known: u32, low: u32, a: u32, b: u32, h: u32, upper: u32, x: u32)
    by (bit_vector)
    requires
        a <= b <= 32,
        h <= upper <= 32,
        known & low == low,
        known & (low_mask(b) & !low_mask(a)) == low_mask(b) & !low_mask(a),
        known & (low_mask(32) & !low_mask(upper)) == low_mask(32) & !low_mask(upper),
    ensures
        (known | (low_mask(32) & !low_mask(h))) & low == low,
        (known | (low_mask(32) & !low_mask(h))) & (low_mask(b) & !low_mask(a)) == low_mask(b)
            & !low_mask(a),
        (known | (low_mask(32) & !low_mask(h))) & (low_mask(32) & !low_mask(h)) == low_mask(32)
            & !low_mask(h),
        x | !0xffff_ffffu32 == x,
{
}

proof fn lemma_all_known(known: u32, low: u32, s0: u32, a: u32, b: u32, h: u32)
    by (bit_vector)
    requires
        s0 <= a <= b <= 32,
        s0 < 32,
        low == low_mask(s0),
        known & low == low,
        known & (low_mask(b) & !low_mask(a)) == low_mask(b) & !low_mask(a),
        known & (low_mask(32) & !low_mask(h)) == low_mask(32) & !low_mask(h),
    ensures
        h == s0 ==> known == 0xffff_ffffu32,
        a == s0 && h == b ==> known == 0xffff_ffffu32,
{
}

impl<'a, V> View for CompressedMap<'a, V> {
    type V = MapView<V>;

    closed spec fn view(&self) -> MapView<V> {
        MapView {
            plan: self.plan,
            responses: self.response_map@,
            salt: self.salt@,
            core: Seq::new(self.core@.len(), |k: int| self.core@[k]@),
        }
    }
}

impl<V> MapView<V> {
    /// Number of phases.
    pub open spec fn phases(self) -> nat {
        popcount(self.plan)
    }

    /// The invariant of a map: its response table begins at 0 and rises
    /// strictly; it has one retrieval structure for each phase of its plan,
    /// and one salt byte for each phase but the lowest.
    pub open spec fn wf(self) -> bool {
        &&& table_wf(self.responses)
        &&& self.core.len() == self.phases()
        &&& self.salt.len() == if self.phases() >= 1 {
            self.phases() - 1
        } else {
            0
        }
    }
}

impl<'a, V> CompressedMap<'a, V> {
    /// The map owns the blocks of all its phases.
    pub closed spec fn owns(&self) -> bool {
        forall|k: int| 0 <= k < self.core@.len() ==> (#[trigger] self.core@[k]).blocks is Owned
    }

    /// Puts a map together from its parts.
    pub fn from_parts(
        plan: u32,
        response_map: Vec<(u32, V)>,
        salt: Vec<u8>,
        core: Vec<MapCore<'a>>,
    ) -> (m: Self)
        ensures
            m@.plan == plan,
            m@.responses == response_map@,
            m@.salt == salt@,
            m@.core == Seq::new(core@.len(), |k: int| core@[k]@),
            (forall|k: int| 0 <= k < core@.len() ==> (#[trigger] core@[k]).blocks is Owned)
                ==> m.owns(),
    {
        CompressedMap { plan, response_map, salt, core }
    }

    /// The plan word.
    pub fn plan(&self) -> (plan: u32)
        ensures
            plan == self@.plan,
    {
        self.plan
    }

    /// The response table.
    pub fn response_map(&self) -> (t: &Vec<(u32, V)>)
        ensures
            t@ == self@.responses,
    {
        &self.response_map
    }

    /// The salt bytes.
    pub fn salt(&self) -> (salt: &Vec<u8>)
        ensures
            salt@ == self@.salt,
    {
        &self.salt
    }

    /// The retrieval structures of the phases, lowest phase first.
    pub fn cores(&self) -> (core: &Vec<MapCore<'a>>)
        ensures
            core@.len() == self@.core.len(),
            forall|k: int| 0 <= k < core@.len() ==> (#[trigger] core@[k])@ == self@.core[k],
    {
        &self.core
    }

    /// Resolves the range of locators from `low` to `high`: the value that
    /// owns `low`, if it owns all of the range.
    pub fn bsearch(&self, low: u32, high: u32) -> (r: Option<&V>)
        requires
            self@.wf(),
        ensures
            r is Some <==> resolved(self@.responses, low, high) is Some,
            r is Some ==> Some(*r->0) == resolved(self@.responses, low, high),
    {
        let n: usize = self.response_map.len();
        let mut lo: usize = 0;
        let mut hi: usize = n;
        while hi - lo > 1
            invariant
                self@.wf(),
                n == self@.responses.len(),
                0 <= lo < hi <= n,
                self@.responses[lo as int].0 <= low,
                hi < n ==> self@.responses[hi as int].0 > low,
            decreases hi - lo,
        {
            let mid: usize = lo + (hi - lo) / 2;
            if self.response_map[mid].0 <= low {
                lo = mid;
            } else {
                hi = mid;
            }
        }
        proof {
            lemma_slot_is(self@.responses, low, lo as int);
        }
        if lo == n - 1 || self.response_map[lo + 1].0 > high {
            Some(&self.response_map[lo].1)
        } else {
            None
        }
    }

    /// Looks a key up. `lookup(k)` is what the retrieval structure of phase
    /// `k` returns for the key.
    ///
    /// The phases are asked in the order that settles a value soonest (the
    /// second highest phase, then from the highest downwards), and only until
    /// the answers so far leave one value. That value is the one that owns the
    /// locator made up of the answers of all phases.
    pub fn query<F: Fn(usize) -> u32>(&self, lookup: F) -> (v: &V)
        requires
            self@.wf(),
            forall|k: usize| k < self@.phases() ==> call_requires(lookup, (k,)),
        ensures
            exists|i: int| 0 <= i < self@.responses.len() && *v == (#[trigger] self@.responses[i]).1,
            self@.plan == 0 ==> *v == self@.responses[0].1,
            forall|answers: Seq<u32>| #[trigger]
                answered_by(lookup, self@.phases(), answers) ==> *v == value_at(
                    self@.responses,
                    locator_of(self@.plan, answers),
                ),
    {
        let nphases: usize = self.core.len();
        let whole: u32 = self.plan;
        let ghost t = self@.responses;
        let ghost n: nat = popcount(whole);
        proof {
            lemma_popcount_bound(whole);
            lemma_slot_below(t, 0, t.len() as int);
        }
        if whole == 0 {
            proof {
                assert(n == 0);
                assert forall|answers: Seq<u32>| #[trigger]
                    answered_by(lookup, n, answers) implies self@.responses[0].1 == value_at(
                    t,
                    locator_of(whole, answers),
                ) by {
                    lemma_slot_is(t, 0, 0);
                }
            }
            return &self.response_map[0].1;
        }
        proof {
            lemma_below_lowest_phase(whole);
            lemma_high_bit(whole);
            lemma_drop_top(whole);
            lemma_shift_rises(whole, 0);
            lemma_shift_rises(whole, (n - 1) as nat);
        }
        let mut locator: u32 = 0;
        let mut known_mask: u32 = (whole - 1) & !whole;
        let ghost low_bits: u32 = known_mask;
        let ghost s0: u32 = phase_shift(whole, 0);
        let ghost a: u32 = s0;
        let ghost b: u32 = s0;
        proof {
            assert forall|answers: Seq<u32>| #[trigger]
                answered_by(lookup, n, answers) implies locator_of(whole, answers) & known_mask
                == locator by {
                lemma_locator_phase(whole, answers, n, 0);
            }
            assert(known_mask & low_bits == low_bits && known_mask & span(s0, s0) == span(s0, s0)
                && known_mask & span(32, 32) == span(32, 32)) by (bit_vector)
                requires
                    known_mask == low_bits,
                    s0 < 32,
            ;
        }
        if nphases >= 2 {
            let h1: u32 = high_bit(whole);
            let rest: u32 = whole ^ (1u32 << h1);
            proof {
                assert(rest != 0) by {
                    assert(popcount(0u32) == 0);
                }
                lemma_high_bit(rest);
                assert(phase_shift(whole, (n - 1) as nat) == h1);
                assert(phase_shift(whole, (n - 2) as nat) == phase_shift(rest, (n - 2) as nat));
                assert(phase_shift(rest, (n - 2) as nat) == spec_high_bit(rest));
                lemma_shift_rises(whole, (n - 2) as nat);
                if n > 2 {
                    lemma_phases_ordered(whole, 0, (n - 2) as nat);
                }
            }
            let h2: u32 = high_bit(rest);
            let mask: u32 = span_mask(h2, h1);
            let thisphase: u32 = lookup(nphases - 2);
            let bits: u32 = (thisphase << h2) & mask;
            proof {
                a = h2;
                b = h1;
                assert forall|answers: Seq<u32>| #[trigger]
                    answered_by(lookup, n, answers) implies locator_of(whole, answers) & (
                known_mask | mask) == locator | bits by {
                    lemma_locator_phase(whole, answers, n, (n - 2) as nat);
                    assert(answers[nphases - 2] == thisphase);
                    lemma_first_probe(locator_of(whole, answers), known_mask, mask, bits);
                }
                assert((known_mask | mask) & low_bits == low_bits && (known_mask | mask) & mask
                    == mask && (known_mask | mask) & span(32, 32) == span(32, 32)) by (bit_vector)
                    requires
                        known_mask == low_bits,
                ;
            }
            known_mask = known_mask | mask;
            locator = locator | bits;
            match self.bsearch(locator, locator | !known_mask) {
                Some(result) => {
                    proof {
                        assert forall|answers: Seq<u32>| #[trigger]
                            answered_by(lookup, n, answers) implies *result == value_at(
                            t,
                            locator_of(whole, answers),
                        ) by {
                            let f: u32 = locator_of(whole, answers);
                            lemma_known_bits(f, known_mask, locator);
                            lemma_resolved_covers(t, locator, locator | !known_mask, f);
                        }
                        lemma_slot_below(t, locator, t.len() as int);
                    }
                    return result;
                },
                None => {},
            }
        }
        let mut plan: u32 = whole;
        let mut phase: usize = nphases;
        let mut upper: u32 = 32;
        while phase > 0
            invariant
                self@.wf(),
                t == self@.responses,
                whole == self@.plan,
                whole != 0,
                n == popcount(whole),
                n == nphases,
                n <= 32,
                1 <= phase <= nphases,
                nphases == 2 ==> phase == 2,
                popcount(plan) == phase,
                forall|k: nat| k < popcount(plan) ==> phase_shift(plan, k) == phase_shift(whole, k),
                upper == phase_end(whole, (phase - 1) as nat),
                s0 == phase_shift(whole, 0),
                s0 < 32,
                low_bits == low_mask(s0),
                s0 <= a <= b <= 32,
                nphases >= 2 ==> a == phase_shift(whole, (n - 2) as nat) && b == phase_shift(
                    whole,
                    (n - 1) as nat,
                ),
                nphases < 2 ==> a == s0 && b == s0,
                known_mask & low_bits == low_bits,
                known_mask & span(a, b) == span(a, b),
                known_mask & span(upper, 32) == span(upper, 32),
                forall|k: usize| k < n ==> call_requires(lookup, (k,)),
                forall|answers: Seq<u32>| #[trigger]
                    answered_by(lookup, n, answers) ==> locator_of(whole, answers) & known_mask
                        == locator,
            decreases phase,
        {
            phase = phase - 1;
            proof {
                assert(plan != 0) by {
                    assert(popcount(0u32) == 0);
                }
                lemma_high_bit(plan);
                lemma_drop_top(plan);
                assert(phase_shift(plan, phase as nat) == spec_high_bit(plan));
                assert forall|k: nat| k < popcount(drop_top(plan)) implies phase_shift(
                    drop_top(plan),
                    k,
                ) == phase_shift(whole, k) by {
                    assert(phase_shift(plan, k) == phase_shift(drop_top(plan), k));
                }
                lemma_shift_rises(whole, phase as nat);
            }
            let h: u32 = high_bit(plan);
            plan = plan ^ (1u32 << h);
            if phase + 2 != nphases {
                let mask: u32 = span_mask(h, upper);
                let above: u32 = span_mask(h, 32);
                let thisphase: u32 = lookup(phase);
                let bits: u32 = (thisphase << h) & mask;
                proof {
                    assert forall|answers: Seq<u32>| #[trigger]
                        answered_by(lookup, n, answers) implies locator_of(whole, answers) & (
                    known_mask | above) == locator | bits by {
                        lemma_locator_phase(whole, answers, n, phase as nat);
                        assert(answers[phase as int] == thisphase);
                        lemma_next_probe(
                            locator_of(whole, answers),
                            known_mask,
                            locator,
                            h,
                            upper,
                            bits,
                        );
                    }
                    lemma_mask_grows(known_mask, low_bits, a, b, h, upper, locator | bits);
                    lemma_all_known(known_mask | above, low_bits, s0, a, b, h);
                    if phase > 0 {
                        lemma_phases_ordered(whole, 0, phase as nat);
                    }
                }
                known_mask = known_mask | above;
                locator = locator | bits;
                match self.bsearch(locator, locator | !known_mask) {
                    Some(result) => {
                        proof {
                            assert forall|answers: Seq<u32>| #[trigger]
                                answered_by(lookup, n, answers) implies *result == value_at(
                                t,
                                locator_of(whole, answers),
                            ) by {
                                let f: u32 = locator_of(whole, answers);
                                lemma_known_bits(f, known_mask, locator);
                                lemma_resolved_covers(t, locator, locator | !known_mask, f);
                            }
                            lemma_slot_below(t, locator, t.len() as int);
                        }
                        return result;
                    },
                    None => {
                        proof {
                            if known_mask == 0xffff_ffffu32 {
                                lemma_point_resolves(t, locator);
                            }
                        }
                    },
                }
            } else {
                proof {
                    assert(known_mask & span(h, 32) == span(h, 32)) by (bit_vector)
                        requires
                            h <= upper <= 32,
                            h == a,
                            upper == b,
                            known_mask & (low_mask(b) & !low_mask(a)) == low_mask(b) & !low_mask(a),
                            known_mask & (low_mask(32) & !low_mask(upper)) == low_mask(32) & !low_mask(
                                upper,
                            ),
                    ;
                }
            }
            upper = h;
        }
        proof {
            assert(false);
        }
        &self.response_map[0].1
    }

    /// Makes the map own its data: blocks that it borrows are copied.
    pub fn take_ownership<'b>(self) -> (m: CompressedMap<'b, V>)
        ensures
            m@ == self@,
            m.owns(),
    {
        let ghost before: Seq<CoreView> = self@.core;
        let CompressedMap { plan, response_map, salt, core } = self;
        let mut core: Vec<MapCore<'a>> = core;
        let n: usize = core.len();
        let mut back: Vec<MapCore<'b>> = Vec::new();
        let mut left: usize = n;
        while left > 0
            invariant
                left <= n,
                n == before.len(),
                core@.len() == left,
                forall|j: int| 0 <= j < left ==> (#[trigger] core@[j])@ == before[j],
                back@.len() == n - left,
                forall|j: int|
                    0 <= j < n - left ==> (#[trigger] back@[j])@ == before[n - 1 - j]
                        && back@[j].blocks is Owned,
            decreases left,
        {
            left = left - 1;
            let c: MapCore<'a> = core.pop().unwrap();
            back.push(
                MapCore {
                    hash_key: c.hash_key,
                    bits_per_value: c.bits_per_value,
                    nblocks: c.nblocks,
                    blocks: c.blocks.into_owned(),
                },
            );
        }
        let mut owned: Vec<MapCore<'b>> = Vec::new();
        let mut rest: usize = n;
        while rest > 0
            invariant
                rest <= n,
                n == before.len(),
                back@.len() == rest,
                forall|j: int|
                    0 <= j < rest ==> (#[trigger] back@[j])@ == before[n - 1 - j]
                        && back@[j].blocks is Owned,
                owned@.len() == n - rest,
                forall|j: int|
                    0 <= j < n - rest ==> (#[trigger] owned@[j])@ == before[j]
                        && owned@[j].blocks is Owned,
            decreases rest,
        {
            rest = rest - 1;
            let c: MapCore<'b> = back.pop().unwrap();
            owned.push(c);
        }
        let m = CompressedMap { plan, response_map, salt, core: owned };
        proof {
            assert(m@.core =~= before);
        }
        m
    }
}

} // verus!
