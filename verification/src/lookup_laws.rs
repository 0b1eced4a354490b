//! Why a query finds the value of a key that the map was built for: the
//! phases that took the key up settle enough bits of its locator to place it
//! in the interval of its value, whatever the other phases answer.

use crate::bits::{
    is_power_of_two, lemma_high_bit, lemma_popcount_clear_lowest, lemma_popcount_power_of_two,
    popcount, spec_high_bit,
};
use crate::builder::{prepares, response_table, Prepared, StageView};
use crate::growth::{law_one_odd_width, law_table_rises, lemma_planned_items};
use crate::map::{lemma_slot_is, slot_of, table_wf, value_at};
use crate::order::{canonical_order, Item};
use crate::phases::{
    drop_top, lemma_drop_top, lemma_locator_phase, lemma_phases_ordered, lemma_shift_rises,
    locator_of, low_mask, phase_bits, phase_end, phase_mask, phase_shift, span,
};
use crate::plan::entry_matches;
use crate::stage::{
    first_meeting, interval_width, label_counts, last_meeting, last_odd, plan_masks,
    resolving_phase,
};
use crate::widths::{
    has_id, lemma_prefix_sums, lemma_sum_take, locator_space, plan_bit, plan_word, plannable,
    planned_items, table_start, width_sum,
};
use vstd::prelude::*;
use vstd::relations::sorted_by;
use vstd::std_specs::bits::{axiom_u32_trailing_zeros, u32_trailing_zeros};

verus! {

/// The answers of the phases are those of a key of entry `s` as a build
/// stages it.
///
/// For an entry whose width is a power of two, every phase from the one that
/// settles the entry upwards answers with the bits of the entry's highest
/// locator. For the entry whose width is none, every phase above the highest
/// that meets the width does; that phase itself does if `seen`, which is made
/// of bits of the key's locator, lies below the entry's lowest locator.
pub open spec fn answers_as_built(items: Seq<Item>, s: int, answers: Seq<u32>, seen: u32) -> bool {
    let plan = plan_word(items);
    let masks = plan_masks(plan);
    let w = items[s].width;
    let lo = table_start(items, s) as u32;
    let hi = (table_start(items, s) + w - 1) as u32;
    if is_power_of_two(w) {
        forall|k: nat|
            first_meeting(masks, w, 0) <= k < popcount(plan) ==> #[trigger] phase_bits(
                plan,
                k,
                answers[k as int],
            ) == hi & phase_mask(plan, k)
    } else {
        &&& locator_of(plan, answers) & seen == seen
        &&& forall|k: nat|
            k < popcount(plan) && (k > last_meeting(masks, w, masks.len() as int) || (k
                == last_meeting(masks, w, masks.len() as int) && seen < lo)) ==> #[trigger] phase_bits(
                plan,
                k,
                answers[k as int],
            ) == hi & phase_mask(plan, k)
    }
}

proof fn lemma_bit_facts(a: u32, b: u32, e: u32, x: u32)
    by (bit_vector)
    requires
        a < 32,
        b <= e <= 32,
    ensures
        (1u32 << a) != 0,
        (1u32 << a) & (((1u32 << a) - 1) as u32) == 0,
        e <= a ==> (low_mask(e) & !low_mask(b)) & (1u32 << a) == 0,
        b <= a < e ==> (low_mask(e) & !low_mask(b)) & (1u32 << a) != 0,
        x >> a == 1 && a < b ==> (low_mask(e) & !low_mask(b)) & x == 0,
        x >> a == 1 && b <= a < e ==> (low_mask(e) & !low_mask(b)) & x != 0,
        b <= a ==> (1u32 << a) & (((1u32 << b) - 1) as u32) == 0,
        x != 0 && x & ((x - 1) as u32) == 0 && (x >> a) & 1 == 1 ==> x == 1u32 << a,
        x >> a == 1 && x & (1u32 << b) != 0 && b < 32 && b != a ==> (x ^ (1u32 << a)) & (1u32 << b)
            != 0,
        x >> a == 1 ==> x & (1u32 << a) != 0,
{
}

proof fn lemma_or_holds(acc: u32, bit: u32, other: u32)
    by (bit_vector)
    ensures
        (acc | bit) & bit == bit,
        acc & other == other ==> (acc | bit) & other == other,
{
}

/// A word with a set bit has at least one set bit.
proof fn lemma_popcount_positive(x: u32)
    requires
        x != 0,
    ensures
        popcount(x) >= 1,
{
    lemma_popcount_clear_lowest(x);
}

/// The plan word holds the plan bit of every item.
proof fn lemma_plan_holds_bit(items: Seq<Item>, k: int, upto: int)
    requires
        0 <= k < upto <= items.len(),
    ensures
        plan_word(items.take(upto)) & plan_bit(items[k].width) == plan_bit(items[k].width),
    decreases upto,
{
    lemma_sum_take(items, upto - 1);
    if k == upto - 1 {
        lemma_or_holds(plan_word(items.take(upto - 1)), plan_bit(items[k].width), 0);
    } else {
        lemma_plan_holds_bit(items, k, upto - 1);
        lemma_or_holds(
            plan_word(items.take(upto - 1)),
            plan_bit(items[upto - 1].width),
            plan_bit(items[k].width),
        );
    }
}

/// A set bit of a plan is the lowest bit of one of its phases.
proof fn lemma_bit_is_phase(plan: u32, a: u32) -> (k: nat)
    requires
        a < 32,
        plan & (1u32 << a) != 0,
    ensures
        k < popcount(plan),
        phase_shift(plan, k) == a,
    decreases plan,
{
    assert(plan != 0) by (bit_vector)
        requires
            plan & (1u32 << a) != 0,
    ;
    lemma_high_bit(plan);
    lemma_drop_top(plan);
    let h: u32 = spec_high_bit(plan);
    if a == h {
        (popcount(plan) - 1) as nat
    } else {
        lemma_bit_facts(h, a, 32, plan);
        let k = lemma_bit_is_phase(drop_top(plan), a);
        assert(phase_shift(plan, k) == phase_shift(drop_top(plan), k));
        k
    }
}

proof fn lemma_first_meeting_is(masks: Seq<u32>, w: u32, j: int, r: int)
    requires
        0 <= j <= r < masks.len(),
        forall|k: int| j <= k < r ==> #[trigger] masks[k] & w == 0,
        masks[r] & w != 0,
    ensures
        first_meeting(masks, w, j) == r,
    decreases r - j,
{
    if j < r {
        lemma_first_meeting_is(masks, w, j + 1, r);
    }
}

proof fn lemma_last_meeting_is(masks: Seq<u32>, w: u32, upto: int, r: int)
    requires
        0 <= r < upto <= masks.len(),
        forall|k: int| r < k < upto ==> #[trigger] masks[k] & w == 0,
        masks[r] & w != 0,
    ensures
        last_meeting(masks, w, upto) == r,
    decreases upto - r,
{
    if r < upto - 1 {
        lemma_last_meeting_is(masks, w, upto - 1, r);
    }
}

proof fn lemma_span_joins(f: u32, t: u32, a: u32, e: u32, e2: u32)
    by (bit_vector)
    requires
        a <= e <= e2 <= 32,
        f & (low_mask(e) & !low_mask(a)) == t & (low_mask(e) & !low_mask(a)),
        f & (low_mask(e2) & !low_mask(e)) == t & (low_mask(e2) & !low_mask(e)),
    ensures
        f & (low_mask(e2) & !low_mask(a)) == t & (low_mask(e2) & !low_mask(a)),
{
}

/// Phases that agree with `target` from phase `r` up to phase `k` make the
/// locator agree with it on all their bits.
proof fn lemma_agree_upto(plan: u32, answers: Seq<u32>, target: u32, r: nat, k: nat)
    requires
        r <= k < popcount(plan),
        answers.len() == popcount(plan),
        forall|j: nat|
            r <= j < popcount(plan) ==> #[trigger] phase_bits(plan, j, answers[j as int]) == target
                & phase_mask(plan, j),
    ensures
        locator_of(plan, answers) & span(phase_shift(plan, r), phase_end(plan, k)) == target & span(
            phase_shift(plan, r),
            phase_end(plan, k),
        ),
    decreases k - r,
{
    lemma_locator_phase(plan, answers, popcount(plan), k);
    lemma_shift_rises(plan, k);
    lemma_shift_rises(plan, r);
    assert(phase_bits(plan, k, answers[k as int]) == target & phase_mask(plan, k));
    if r < k {
        lemma_agree_upto(plan, answers, target, r, (k - 1) as nat);
        lemma_phases_ordered(plan, r, k);
        lemma_shift_rises(plan, (k - 1) as nat);
        lemma_span_joins(
            locator_of(plan, answers),
            target,
            phase_shift(plan, r),
            phase_shift(plan, k),
            phase_end(plan, k),
        );
    }
}

proof fn lemma_aligned_sum(lower: u32, x: u32, w: u32)
    by (bit_vector)
    requires
        w != 0,
        w & ((w - 1) as u32) == 0,
        lower + x <= 0xffff_ffff,
    ensures
        lower & ((w - 1) as u32) == 0 && x & ((w - 1) as u32) == 0 ==> ((lower + x) as u32) & ((w
            - 1) as u32) == 0,
        0u32 & ((w - 1) as u32) == 0,
{
}

proof fn lemma_within_interval(f: u32, lower: u32, upper: u32, a: u32)
    by (bit_vector)
    requires
        a < 32,
        lower & (((1u32 << a) - 1) as u32) == 0,
        lower + ((1u32 << a) - 1) == upper,
        f & (low_mask(32) & !low_mask(a)) == upper & (low_mask(32) & !low_mask(a)),
    ensures
        lower <= f <= upper,
{
}

proof fn lemma_above_odd(f: u32, w: u32, lower: u32, h: u32, seen: u32)
    by (bit_vector)
    requires
        h < 32,
        w >> h == 1,
        lower + w == 0x1_0000_0000,
    ensures
        f & (low_mask(32) & !low_mask(h)) == 0xffff_ffffu32 & (low_mask(32) & !low_mask(h)) ==> lower
            <= f,
        f & seen == seen && seen >= lower ==> lower <= f,
{
}

/// In canonical order, the entries before one whose width is a power of two
/// have powers of two as widths that the width divides.
proof fn lemma_earlier_are_multiples(items: Seq<Item>, j: int, s: int)
    requires
        sorted_by(items, canonical_order()),
        0 <= j < s < items.len(),
        is_power_of_two(items[s].width),
        items[j].width >= 1,
    ensures
        is_power_of_two(items[j].width),
        items[j].width & ((items[s].width - 1) as u32) == 0,
{
    let x: u32 = items[j].width;
    let y: u32 = items[s].width;
    assert(canonical_order()(items[j], items[s]));
    lemma_popcount_power_of_two(y);
    lemma_popcount_power_of_two(x);
    lemma_popcount_positive(x);
    axiom_u32_trailing_zeros(x);
    axiom_u32_trailing_zeros(y);
    let a: u32 = u32_trailing_zeros(x);
    let b: u32 = u32_trailing_zeros(y);
    lemma_bit_facts(a, b, 32, x);
    lemma_bit_facts(b, b, 32, y);
}

/// The interval of an entry whose width is a power of two begins at a
/// multiple of the width.
proof fn lemma_aligned(items: Seq<Item>, s: int, j: int)
    requires
        sorted_by(items, canonical_order()),
        0 <= j <= s < items.len(),
        is_power_of_two(items[s].width),
        forall|k: int| 0 <= k < items.len() ==> (#[trigger] items[k]).width >= 1,
        width_sum(items) == locator_space(),
    ensures
        0 <= table_start(items, j) < locator_space(),
        (table_start(items, j) as u32) & ((items[s].width - 1) as u32) == 0,
    decreases j,
{
    lemma_prefix_sums(items, j, items.len() as int);
    lemma_sum_take(items, s);
    if j == 0 {
        lemma_aligned_sum(0, 0, items[s].width);
        assert(items.take(0) =~= Seq::<Item>::empty());
    } else {
        lemma_aligned(items, s, j - 1);
        lemma_earlier_are_multiples(items, j - 1, s);
        lemma_sum_take(items, j - 1);
        lemma_aligned_sum(table_start(items, j - 1) as u32, items[j - 1].width, items[s].width);
    }
}

/// The entries of a plan with the values in place: a table that rises from
/// locator 0.
pub proof fn lemma_response_table<V>(counts: Seq<usize>, values: Seq<V>)
    requires
        counts.len() >= 2,
        plannable(counts),
    ensures
        table_wf(response_table(planned_items(counts), values)),
        response_table(planned_items(counts), values).len() == counts.len(),
{
    let items = planned_items(counts);
    let t = response_table(items, values);
    lemma_planned_items(counts);
    law_table_rises(counts, 0, 1);
    assert forall|i: int, j: int| 0 <= i < j < t.len() implies (#[trigger] t[i]).0 < (
    #[trigger] t[j]).0 by {
        law_table_rises(counts, i, j);
    }
}

/// The phase that settles an entry whose width is a power of two: the one
/// that begins at the width's bit. It is the first phase that meets the
/// width.
pub proof fn lemma_settling_phase(counts: Seq<usize>, s: int) -> (r: nat)
    requires
        counts.len() >= 2,
        plannable(counts),
        0 <= s < counts.len(),
        is_power_of_two(planned_items(counts)[s].width),
    ensures
        r < popcount(plan_word(planned_items(counts))),
        planned_items(counts)[s].width == 1u32 << phase_shift(plan_word(planned_items(counts)), r),
        first_meeting(
            plan_masks(plan_word(planned_items(counts))),
            planned_items(counts)[s].width,
            0,
        ) == r,
{
    let items = planned_items(counts);
    let n = items.len() as int;
    let plan = plan_word(items);
    let masks = plan_masks(plan);
    let w: u32 = items[s].width;
    lemma_planned_items(counts);
    lemma_plan_holds_bit(items, s, n);
    assert(items.take(n) =~= items);
    axiom_u32_trailing_zeros(w);
    let a: u32 = u32_trailing_zeros(w);
    lemma_bit_facts(a, a, 32, w);
    assert(w == 1u32 << a);
    assert(plan & (1u32 << a) != 0) by (bit_vector)
        requires
            plan & w == w,
            w == 1u32 << a,
            a < 32,
    ;
    let r = lemma_bit_is_phase(plan, a);
    lemma_shift_rises(plan, r);
    assert forall|k: int| 0 <= k < r implies #[trigger] masks[k] & w == 0 by {
        lemma_phases_ordered(plan, k as nat, r);
        lemma_shift_rises(plan, k as nat);
        lemma_bit_facts(a, phase_shift(plan, k as nat), phase_end(plan, k as nat), w);
    }
    assert(masks[r as int] & w != 0) by {
        lemma_bit_facts(a, a, phase_end(plan, r), w);
    }
    lemma_first_meeting_is(masks, w, 0, r as int);
    r
}

/// The entry whose width is no power of two is the last, and ends with the
/// locator space. The highest phase that meets its width is the one that
/// begins at the width's highest bit.
pub proof fn lemma_odd_phase(counts: Seq<usize>, s: int) -> (p: nat)
    requires
        counts.len() >= 2,
        plannable(counts),
        0 <= s < counts.len(),
        !is_power_of_two(planned_items(counts)[s].width),
    ensures
        s == counts.len() - 1,
        table_start(planned_items(counts), s) + planned_items(counts)[s].width == locator_space(),
        p < popcount(plan_word(planned_items(counts))),
        phase_shift(plan_word(planned_items(counts)), p) == spec_high_bit(
            planned_items(counts)[s].width,
        ),
        last_meeting(
            plan_masks(plan_word(planned_items(counts))),
            planned_items(counts)[s].width,
            plan_masks(plan_word(planned_items(counts))).len() as int,
        ) == p,
{
    let items = planned_items(counts);
    let n = items.len() as int;
    let plan = plan_word(items);
    let masks = plan_masks(plan);
    let w: u32 = items[s].width;
    lemma_planned_items(counts);
    lemma_sum_take(items, s);
    lemma_plan_holds_bit(items, s, n);
    assert(items.take(n) =~= items);
    assert(s == n - 1) by {
        if s < n - 1 {
            law_one_odd_width(counts);
            assert(canonical_order()(items[s], items[n - 1]));
            lemma_popcount_power_of_two(w);
            lemma_popcount_power_of_two(items[n - 1].width);
            lemma_popcount_positive(w);
        }
    }
    lemma_high_bit(w);
    let h: u32 = spec_high_bit(w);
    lemma_bit_facts(h, h, 32, w);
    let p = lemma_bit_is_phase(plan, h);
    lemma_shift_rises(plan, p);
    assert forall|k: int| p < k < masks.len() implies #[trigger] masks[k] & w == 0 by {
        lemma_phases_ordered(plan, p, k as nat);
        lemma_shift_rises(plan, k as nat);
        lemma_bit_facts(h, phase_shift(plan, k as nat), phase_end(plan, k as nat), w);
    }
    assert(masks[p as int] & w != 0) by {
        lemma_bit_facts(h, h, phase_end(plan, p), w);
    }
    lemma_last_meeting_is(masks, w, masks.len() as int, p as int);
    p
}

/// A query finds the value of every key that the map was built for.
///
/// Let the phases answer for a key of entry `s` as a build stages the key.
/// Then the locator made up of the answers of all phases lies in the interval
/// of entry `s`, so the response table gives the value of that entry,
/// whatever the phases answer that did not take the key up.
pub proof fn law_built_key_is_found<V>(
    counts: Seq<usize>,
    values: Seq<V>,
    s: int,
    answers: Seq<u32>,
    seen: u32,
)
    requires
        counts.len() >= 2,
        plannable(counts),
        0 <= s < counts.len(),
        values.len() == counts.len(),
        answers.len() == popcount(plan_word(planned_items(counts))),
        answers_as_built(planned_items(counts), s, answers, seen),
    ensures
        slot_of(
            response_table(planned_items(counts), values),
            locator_of(plan_word(planned_items(counts)), answers),
        ) == s,
        value_at(
            response_table(planned_items(counts), values),
            locator_of(plan_word(planned_items(counts)), answers),
        ) == values[planned_items(counts)[s].id as int],
{
    let items = planned_items(counts);
    let n = items.len() as int;
    let plan = plan_word(items);
    let masks = plan_masks(plan);
    let t = response_table(items, values);
    let f: u32 = locator_of(plan, answers);
    let w: u32 = items[s].width;
    lemma_planned_items(counts);
    lemma_response_table(counts, values);
    lemma_sum_take(items, s);
    lemma_prefix_sums(items, s, n);
    lemma_prefix_sums(items, s + 1, n);
    lemma_plan_holds_bit(items, s, n);
    assert(items.take(n) =~= items);
    let lower: u32 = table_start(items, s) as u32;
    let upper: u32 = (table_start(items, s) + w - 1) as u32;
    if is_power_of_two(w) {
        let r = lemma_settling_phase(counts, s);
        let a: u32 = phase_shift(plan, r);
        lemma_shift_rises(plan, r);
        lemma_agree_upto(plan, answers, upper, r, (popcount(plan) - 1) as nat);
        lemma_aligned(items, s, s);
        lemma_within_interval(f, lower, upper, a);
        lemma_slot_is(t, f, s);
    } else {
        let p = lemma_odd_phase(counts, s);
        let h: u32 = spec_high_bit(w);
        lemma_high_bit(w);
        lemma_shift_rises(plan, p);
        assert(upper == 0xffff_ffffu32);
        if seen < lower {
            lemma_agree_upto(plan, answers, upper, p, (popcount(plan) - 1) as nat);
        }
        lemma_above_odd(f, w, lower, h, seen);
        lemma_slot_is(t, f, s);
    }
}

/// A build stages every key as the plan of its value calls for: with the
/// highest locator of the value's interval as its target; in the group of
/// the first phase that meets the width, if that is a power of two; and
/// else in the group of the odd entry, for which the build holds the highest
/// phase that meets the width and the lowest locator of the interval.
pub proof fn law_keys_are_staged_as_planned(labels: Seq<usize>, n: nat, p: Prepared, i: int)
    requires
        n >= 2,
        forall|j: int| 0 <= j < labels.len() ==> labels[j] < n,
        plannable(label_counts(labels, n)),
        prepares(labels, n, p),
        0 <= i < labels.len() <= usize::MAX,
    ensures
        ({
            let items = planned_items(label_counts(labels, n));
            let masks = plan_masks(plan_word(items));
            let sv = StageView {
                labels,
                value_index: p.plan.value_index@,
                intervals: p.plan.intervals@,
                resolve: p.assignment.phase_to_resolve@,
                odd_man_out: p.assignment.odd_man_out,
            };
            let s = sv.slot(i);
            let w = items[s].width;
            &&& 0 <= s < n
            &&& items[s].id == labels[i]
            &&& p.plan.plan == plan_word(items)
            &&& sv.entry(i) == (i as usize, (table_start(items, s) + w - 1) as u32)
            &&& is_power_of_two(w) ==> sv.group(i) == first_meeting(masks, w, 0) && 0 <= sv.group(i)
                < popcount(plan_word(items))
            &&& !is_power_of_two(w) ==> sv.group(i) == -1 && p.assignment.phase_omo == last_meeting(
                masks,
                w,
                masks.len() as int,
            ) && p.assignment.lo_omo == table_start(items, s) as u32
        }),
{
    let counts = label_counts(labels, n);
    let items = planned_items(counts);
    let plan = plan_word(items);
    let masks = plan_masks(plan);
    let f = p.plan;
    let a = p.assignment;
    lemma_planned_items(counts);
    crate::bits::lemma_popcount_bound(plan);
    crate::widths::lemma_count_below_sum(counts, 0, n as int);
    crate::widths::lemma_count_sum_take(counts, 0);
    let v = labels[i] as int;
    assert(has_id(items, v));
    let s = choose|k: int| 0 <= k < items.len() && (#[trigger] items[k]).id == v;
    assert(entry_matches(items, f, s));
    let w: u32 = items[s].width;
    lemma_sum_take(items, s);
    lemma_prefix_sums(items, s, n as int);
    lemma_prefix_sums(items, s + 1, n as int);
    assert(items.take(n as int) =~= items);
    assert(interval_width(f.intervals@[s]) == w);
    assert(a.phase_to_resolve@[s] == resolving_phase(masks, interval_width(f.intervals@[s])));
    if is_power_of_two(w) {
        let r = lemma_settling_phase(counts, s);
        lemma_last_odd(f.intervals@, n as int);
    } else {
        let top = lemma_odd_phase(counts, s);
    }
}

/// The last entry whose width is no power of two is such an entry, if there
/// is one.
proof fn lemma_last_odd(intervals: Seq<(usize, u32, u32)>, upto: int)
    requires
        0 <= upto <= intervals.len() <= usize::MAX,
    ensures
        last_odd(intervals, upto) == usize::MAX || (0 <= last_odd(intervals, upto) < upto
            && !is_power_of_two(interval_width(intervals[last_odd(intervals, upto) as int]))),
    decreases upto,
{
    if upto > 0 {
        lemma_last_odd(intervals, upto - 1);
    }
}

} // verus!
