//! The phases of a plan: which bits of a locator each phase settles, and how
//! the answers of the phases make up a locator.

use crate::bits::{high_bit, lemma_high_bit, popcount, spec_high_bit};
use vstd::prelude::*;

verus! {

/// The highest set bit of `x`, as a word.
pub open spec fn top_bit(x: u32) -> u32 {
    1u32 << spec_high_bit(x)
}

/// `x` without its highest set bit.
pub open spec fn drop_top(x: u32) -> u32 {
    x ^ top_bit(x)
}

/// Mask of the bits below position `h`.
pub open spec fn low_mask(h: u32) -> u32 {
    if h >= 32 {
        0xffff_ffff
    } else {
        ((1u32 << h) - 1) as u32
    }
}

/// Mask of the bits from position `lo` up to, but not including, `hi`.
pub open spec fn span(lo: u32, hi: u32) -> u32 {
    low_mask(hi) & !low_mask(lo)
}

proof fn lemma_top_facts(x: u32, h: u32)
    by (bit_vector)
    requires
        h < 32,
        x >> h == 1,
    ensures
        x ^ (1u32 << h) < x,
        (x ^ (1u32 << h)) < (1u32 << h),
        x != 0,
        h == 0 ==> x == 1,
        h >= 1 ==> (x / 2) >> ((h - 1) as u32) == 1 && (x ^ (1u32 << h)) / 2 == (x / 2) ^ (1u32 << ((h
            - 1) as u32)) && (x ^ (1u32 << h)) % 2 == x % 2,
        (x ^ (1u32 << h)) != 0 ==> ((x - 1) as u32) & !x == (((x ^ (1u32 << h)) - 1) as u32) & !(x ^ (
        1u32 << h)),
        (x ^ (1u32 << h)) == 0 ==> ((x - 1) as u32) & !x == ((1u32 << h) - 1) as u32,
{
}

proof fn lemma_one_top(x: u32, a: u32, b: u32)
    by (bit_vector)
    requires
        a < 32,
        b < 32,
        x >> a == 1,
    ensures
        x >> b == 1 ==> a == b,
        x < (1u32 << b) ==> a < b,
{
}

/// The highest set bit is the only place `h` with `x >> h == 1`.
pub proof fn lemma_high_bit_is(x: u32, h: u32)
    requires
        h < 32,
        x >> h == 1,
    ensures
        spec_high_bit(x) == h,
{
    lemma_top_facts(x, h);
    lemma_high_bit(x);
    lemma_one_top(x, h, spec_high_bit(x));
}

/// Dropping the highest set bit leaves a smaller word, below that bit, with
/// one set bit less.
pub proof fn lemma_drop_top(x: u32)
    requires
        x != 0,
    ensures
        drop_top(x) < x,
        drop_top(x) < top_bit(x),
        popcount(drop_top(x)) + 1 == popcount(x),
    decreases x,
{
    lemma_high_bit(x);
    let h: u32 = spec_high_bit(x);
    lemma_top_facts(x, h);
    if h >= 1 {
        let y: u32 = x / 2;
        lemma_high_bit_is(y, (h - 1) as u32);
        lemma_drop_top(y);
        let d: u32 = drop_top(x);
        assert(d / 2 == drop_top(y));
        assert(popcount(d) == (d % 2) as nat + popcount(d / 2));
    } else {
        assert(x == 1);
        assert(popcount(x / 2) == 0);
    }
}

/// Position of the lowest bit of phase `k` of `plan`, phases counted from the
/// lowest: the `k`-th set bit of `plan`.
pub open spec fn phase_shift(plan: u32, k: nat) -> u32
    decreases plan,
    via phase_shift_decreases
{
    if plan == 0 {
        0
    } else if k + 1 >= popcount(plan) {
        spec_high_bit(plan)
    } else {
        phase_shift(drop_top(plan), k)
    }
}

#[via_fn]
proof fn phase_shift_decreases(plan: u32, k: nat) {
    if plan != 0 {
        lemma_drop_top(plan);
    }
}

/// Position just above the highest bit of phase `k` of `plan`: where the
/// next phase begins, or 32 for the highest phase.
pub open spec fn phase_end(plan: u32, k: nat) -> u32 {
    if k + 1 >= popcount(plan) {
        32
    } else {
        phase_shift(plan, k + 1)
    }
}

/// Mask of the bits that phase `k` of `plan` settles.
pub open spec fn phase_mask(plan: u32, k: nat) -> u32 {
    span(phase_shift(plan, k), phase_end(plan, k))
}

/// The bits that phase `k` contributes to a locator when it answers
/// `answer`.
pub open spec fn phase_bits(plan: u32, k: nat, answer: u32) -> u32 {
    (answer << phase_shift(plan, k)) & phase_mask(plan, k)
}

/// The locator made up of the answers of the phases below `k`.
pub open spec fn locator_upto(plan: u32, answers: Seq<u32>, k: nat) -> u32
    decreases k,
{
    if k == 0 {
        0
    } else {
        locator_upto(plan, answers, (k - 1) as nat) | phase_bits(
            plan,
            (k - 1) as nat,
            answers[k - 1],
        )
    }
}

/// The locator made up of the answers of all phases of `plan`.
pub open spec fn locator_of(plan: u32, answers: Seq<u32>) -> u32 {
    locator_upto(plan, answers, popcount(plan))
}

/// Phases lie in rising order of bits, within the word.
pub proof fn lemma_shift_rises(plan: u32, k: nat)
    requires
        k < popcount(plan),
    ensures
        phase_shift(plan, k) < phase_end(plan, k) <= 32,
        phase_shift(plan, k) < 32,
    decreases plan,
{
    lemma_high_bit(plan);
    lemma_drop_top(plan);
    let h: u32 = spec_high_bit(plan);
    let d: u32 = drop_top(plan);
    if k + 1 >= popcount(plan) {
        assert(phase_shift(plan, k) == h);
    } else if k + 2 == popcount(plan) {
        assert(popcount(d) == k + 1);
        assert(d != 0) by {
            assert(popcount(0u32) == 0);
        }
        lemma_high_bit(d);
        lemma_one_top(d, spec_high_bit(d), h);
        assert(phase_shift(plan, k) == phase_shift(d, k));
        assert(phase_shift(d, k) == spec_high_bit(d));
        assert(phase_shift(plan, k + 1) == h);
    } else {
        lemma_shift_rises(d, k);
        assert(phase_shift(plan, k) == phase_shift(d, k));
        assert(phase_shift(plan, k + 1) == phase_shift(d, k + 1));
    }
}

/// A lower phase ends where a higher one begins, or below.
pub proof fn lemma_phases_ordered(plan: u32, i: nat, j: nat)
    requires
        i < j < popcount(plan),
    ensures
        phase_end(plan, i) <= phase_shift(plan, j),
    decreases j - i,
{
    if i + 1 < j {
        lemma_phases_ordered(plan, i + 1, j);
        lemma_shift_rises(plan, i + 1);
        lemma_shift_rises(plan, i);
    }
}

proof fn lemma_span_facts(a: u32, b: u32, c: u32, d: u32, g: u32, x: u32, m: u32)
    by (bit_vector)
    requires
        a <= b <= c <= d <= 32,
        low_mask(b) & !low_mask(a) == m,
    ensures
        m & (low_mask(d) & !low_mask(c)) == 0,
        (x & m) & m == x & m,
        (x & m) & (low_mask(d) & !low_mask(c)) == 0,
        (x & (low_mask(d) & !low_mask(c))) & m == 0,
        (x & (low_mask(d) & !low_mask(c))) & low_mask(a) == 0,
        (g & (low_mask(d) & !low_mask(c))) == 0 ==> ((g | (x & m)) & (low_mask(d) & !low_mask(c)))
            == 0,
        (g & m) == 0 ==> ((g | (x & m)) & m) == x & m,
        ((g | (x & (low_mask(d) & !low_mask(c)))) & m) == g & m,
        ((g | (x & (low_mask(d) & !low_mask(c)))) & low_mask(a)) == g & low_mask(a),
        ((g | (x & m)) & low_mask(a)) == g & low_mask(a),
{
}

/// Within the locator made up of the phases below `k`, phase `j` holds its
/// own bits if `j < k` and nothing otherwise; below the lowest phase the
/// locator holds nothing.
pub proof fn lemma_locator_phase(plan: u32, answers: Seq<u32>, k: nat, j: nat)
    requires
        k <= popcount(plan),
        j < popcount(plan),
        answers.len() == popcount(plan),
    ensures
        locator_upto(plan, answers, k) & phase_mask(plan, j) == if j < k {
            phase_bits(plan, j, answers[j as int])
        } else {
            0
        },
        locator_upto(plan, answers, k) & low_mask(phase_shift(plan, 0)) == 0,
    decreases k,
{
    lemma_shift_rises(plan, j);
    lemma_shift_rises(plan, 0);
    if k == 0 {
        let m: u32 = phase_mask(plan, j);
        let l: u32 = low_mask(phase_shift(plan, 0));
        assert(0u32 & m == 0 && 0u32 & l == 0) by (bit_vector);
    } else {
        let p: nat = (k - 1) as nat;
        lemma_locator_phase(plan, answers, p, j);
        lemma_shift_rises(plan, p);
        let g: u32 = locator_upto(plan, answers, p);
        let x: u32 = answers[p as int] << phase_shift(plan, p);
        let sp: u32 = phase_shift(plan, p);
        let ep: u32 = phase_end(plan, p);
        let sj: u32 = phase_shift(plan, j);
        let ej: u32 = phase_end(plan, j);
        let s0: u32 = phase_shift(plan, 0);
        if p > 0 {
            lemma_phases_ordered(plan, 0, p);
        }
        lemma_span_facts(s0, s0, sp, ep, g, x, span(s0, s0));
        if j < p {
            lemma_phases_ordered(plan, j, p);
            lemma_span_facts(sj, ej, sp, ep, g, x, phase_mask(plan, j));
        } else if j == p {
            lemma_span_facts(sj, ej, ej, ej, g, x, phase_mask(plan, j));
        } else {
            lemma_phases_ordered(plan, p, j);
            lemma_span_facts(sp, ep, sj, ej, g, x, phase_mask(plan, p));
        }
    }
}

/// The bits below the lowest set bit of a plan are those below its lowest
/// phase.
pub proof fn lemma_below_lowest_phase(plan: u32)
    requires
        plan != 0,
    ensures
        ((plan - 1) as u32) & !plan == low_mask(phase_shift(plan, 0)),
        popcount(plan) >= 1,
    decreases plan,
{
    lemma_high_bit(plan);
    lemma_drop_top(plan);
    let h: u32 = spec_high_bit(plan);
    lemma_top_facts(plan, h);
    if drop_top(plan) != 0 {
        lemma_below_lowest_phase(drop_top(plan));
    } else {
        assert(popcount(0u32) == 0);
    }
}

proof fn lemma_mask_facts(lo: u32, hi: u32)
    by (bit_vector)
    requires
        lo < 32,
        lo <= hi <= 32,
    ensures
        (1u32 << lo) >= 1,
        hi < 32 ==> (1u32 << hi) >= (1u32 << lo),
        hi < 32 ==> ((1u32 << hi) - (1u32 << lo)) as u32 == low_mask(hi) & !low_mask(lo),
        hi == 32 ==> !(((1u32 << lo) - 1) as u32) == low_mask(hi) & !low_mask(lo),
{
}

/// Mask of the bits from position `lo` up to, but not including, `hi`.
pub fn span_mask(lo: u32, hi: u32) -> (m: u32)
    requires
        lo < 32,
        lo <= hi <= 32,
    ensures
        m == span(lo, hi),
{
    proof {
        lemma_mask_facts(lo, hi);
    }
    if hi < 32 {
        (1u32 << hi) - (1u32 << lo)
    } else {
        !((1u32 << lo) - 1)
    }
}

/// The lowest bit of every phase of `plan`, lowest phase first.
pub fn phase_shifts(plan: u32) -> (shifts: Vec<u32>)
    ensures
        shifts@.len() == popcount(plan),
        forall|k: int| 0 <= k < shifts@.len() ==> #[trigger] shifts@[k] == phase_shift(plan, k as nat),
{
    let mut down: Vec<u32> = Vec::new();
    let mut rest: u32 = plan;
    proof {
        crate::bits::lemma_popcount_bound(plan);
    }
    while rest != 0
        invariant
            popcount(plan) <= 32,
            down@.len() + popcount(rest) == popcount(plan),
            forall|k: nat| k < popcount(rest) ==> phase_shift(rest, k) == phase_shift(plan, k),
            forall|j: int|
                0 <= j < down@.len() ==> #[trigger] down@[j] == phase_shift(
                    plan,
                    (popcount(plan) - 1 - j) as nat,
                ),
        decreases rest,
    {
        proof {
            lemma_high_bit(rest);
            lemma_drop_top(rest);
            assert forall|k: nat| k < popcount(drop_top(rest)) implies phase_shift(drop_top(rest), k)
                == phase_shift(plan, k) by {
                assert(phase_shift(rest, k) == phase_shift(drop_top(rest), k));
            }
            assert(phase_shift(rest, (popcount(rest) - 1) as nat) == spec_high_bit(rest));
        }
        let h: u32 = high_bit(rest);
        down.push(h);
        rest = rest ^ (1u32 << h);
    }
    let n: usize = down.len();
    let mut shifts: Vec<u32> = Vec::new();
    let mut i: usize = 0;
    while i < n
        invariant
            i <= n,
            n == down@.len(),
            n == popcount(plan),
            shifts@.len() == i,
            forall|j: int|
                0 <= j < down@.len() ==> #[trigger] down@[j] == phase_shift(
                    plan,
                    (popcount(plan) - 1 - j) as nat,
                ),
            forall|k: int| 0 <= k < i ==> #[trigger] shifts@[k] == phase_shift(plan, k as nat),
        decreases n - i,
    {
        shifts.push(down[n - 1 - i]);
        i = i + 1;
    }
    shifts
}

} // verus!
