//! How the locator space is shared out among the values of an alphabet: the
//! widths that counts call for, their growth to fill the space, and what
//! holds of the outcome.

use crate::bits::{is_power_of_two, lemma_high_bit, spec_floor_power_of_2, spec_high_bit};
use crate::order::{canonical_order, fit_order, Item};
use vstd::arithmetic::div_mod::{lemma_fundamental_div_mod, lemma_mod_bound};
use vstd::math::min;
use vstd::prelude::*;
use vstd::seq_lib::*;

verus! {

/// Number of locators: `2^32`.
pub open spec fn locator_space() -> int {
    0x1_0000_0000
}

pub open spec fn add_count() -> spec_fn(int, usize) -> int {
    |acc: int, c: usize| acc + c
}

/// Sum of the counts.
pub open spec fn count_sum(counts: Seq<usize>) -> int {
    counts.fold_left(0int, add_count())
}

pub open spec fn add_width() -> spec_fn(int, Item) -> int {
    |acc: int, it: Item| acc + it.width
}

/// Sum of the widths.
pub open spec fn width_sum(items: Seq<Item>) -> int {
    items.fold_left(0int, add_width())
}

pub open spec fn odd_one(it: Item) -> int {
    if is_power_of_two(it.width) {
        0
    } else {
        1
    }
}

pub open spec fn add_odd() -> spec_fn(int, Item) -> int {
    |acc: int, it: Item| acc + odd_one(it)
}

/// Number of widths that are no power of two.
pub open spec fn odd_widths(items: Seq<Item>) -> int {
    items.fold_left(0int, add_odd())
}

/// The bit that a width contributes to the plan: the width itself when it is
/// a power of two, else its highest set bit.
pub open spec fn plan_bit(width: u32) -> u32 {
    if is_power_of_two(width) {
        width
    } else {
        1u32 << spec_high_bit(width)
    }
}

pub open spec fn or_plan_bit() -> spec_fn(u32, Item) -> u32 {
    |acc: u32, it: Item| acc | plan_bit(it.width)
}

/// The plan word of a list of widths: the union of their plan bits.
pub open spec fn plan_word(items: Seq<Item>) -> u32 {
    items.fold_left(0u32, or_plan_bit())
}

/// The width a value is first given: its share `count / total` of the
/// locator space, rounded down to a power of two, and at least 1.
pub open spec fn ideal_width(count: usize, total: int) -> u32 {
    spec_floor_power_of_2(((count * 0x1_0000_0000) / total) as u32)
}

/// The values with their first widths, in the order of their numbers.
pub open spec fn initial_items(counts: Seq<usize>) -> Seq<Item> {
    Seq::new(
        counts.len(),
        |i: int| Item { id: i as usize, width: ideal_width(counts[i], count_sum(counts)), count: counts[i] },
    )
}

/// What the widths leave of the locator space, modulo `2^32`.
pub open spec fn shortfall(items: Seq<Item>) -> int {
    (0x1_0000_0000 - width_sum(items) % 0x1_0000_0000) % 0x1_0000_0000
}

/// What is left of the shortfall `r0` once the first `k` items have grown.
pub open spec fn remaining(items: Seq<Item>, r0: int, k: int) -> int
    decreases k,
{
    if k <= 0 {
        r0
    } else {
        let r = remaining(items, r0, k - 1);
        r - min(r, items[k - 1].width as int)
    }
}

/// Width of item `k` after growth: it takes from what is left as much as its
/// own width, or all of it.
pub open spec fn grown(items: Seq<Item>, r0: int, k: int) -> int {
    items[k].width + min(remaining(items, r0, k), items[k].width as int)
}

/// The items after each in turn has grown into the shortfall `r0`.
pub open spec fn expanded(items: Seq<Item>, r0: int) -> Seq<Item> {
    Seq::new(
        items.len(),
        |k: int| Item { id: items[k].id, width: grown(items, r0, k) as u32, count: items[k].count },
    )
}

/// The values with their final widths, in the order of the response table.
pub open spec fn planned_items(counts: Seq<usize>) -> Seq<Item> {
    let fit = initial_items(counts).sort_by(fit_order());
    expanded(fit, shortfall(fit)).sort_by(canonical_order())
}

/// Lower end of the interval of entry `k`, before reduction modulo `2^32`.
pub open spec fn table_start(items: Seq<Item>, k: int) -> int {
    width_sum(items.take(k))
}

/// Counts from which a plan can be drawn up: when there are two values or
/// more, each has a key, the number of keys fits a machine word, and the first
/// widths do not exceed the locator space.
pub open spec fn plannable(counts: Seq<usize>) -> bool {
    counts.len() >= 2 ==> {
        &&& forall|i: int| 0 <= i < counts.len() ==> #[trigger] counts[i] > 0
        &&& count_sum(counts) <= usize::MAX
        &&& width_sum(initial_items(counts)) <= locator_space()
    }
}

/// Some item has the number `id`.
pub open spec fn has_id(items: Seq<Item>, id: int) -> bool {
    exists|k: int| 0 <= k < items.len() && (#[trigger] items[k]).id == id
}

/// The numbers of the items are `0..n`, each once.
pub open spec fn id_permutation(items: Seq<Item>) -> bool {
    &&& forall|k: int| 0 <= k < items.len() ==> (#[trigger] items[k]).id < items.len()
    &&& forall|i: int, j: int|
        0 <= i < items.len() && 0 <= j < items.len() && i != j ==> (#[trigger] items[i]).id != (
        #[trigger] items[j]).id
    &&& forall|id: int| 0 <= id < items.len() ==> #[trigger] has_id(items, id)
}

pub proof fn lemma_sum_push(s: Seq<Item>, x: Item)
    ensures
        width_sum(s.push(x)) == width_sum(s) + x.width,
        odd_widths(s.push(x)) == odd_widths(s) + odd_one(x),
        plan_word(s.push(x)) == plan_word(s) | plan_bit(x.width),
{
    assert(s.push(x).drop_last() =~= s);
}

pub proof fn lemma_sum_take(s: Seq<Item>, k: int)
    requires
        0 <= k < s.len(),
    ensures
        width_sum(s.take(k + 1)) == width_sum(s.take(k)) + s[k].width,
        odd_widths(s.take(k + 1)) == odd_widths(s.take(k)) + odd_one(s[k]),
        plan_word(s.take(k + 1)) == plan_word(s.take(k)) | plan_bit(s[k].width),
        width_sum(s.take(0)) == 0,
        odd_widths(s.take(0)) == 0,
        plan_word(s.take(0)) == 0,
        s.take(s.len() as int) == s,
{
    assert(s.take(k + 1) =~= s.take(k).push(s[k]));
    lemma_sum_push(s.take(k), s[k]);
    assert(s.take(s.len() as int) =~= s);
}

pub proof fn lemma_count_sum_take(s: Seq<usize>, k: int)
    requires
        0 <= k < s.len(),
    ensures
        count_sum(s.take(k + 1)) == count_sum(s.take(k)) + s[k],
        count_sum(s.take(0)) == 0,
        s.take(s.len() as int) == s,
{
    assert(s.take(k + 1).drop_last() =~= s.take(k));
    assert(s.take(s.len() as int) =~= s);
}

proof fn lemma_or_exchange(v: u32, x: u32, y: u32)
    by (bit_vector)
    ensures
        (v | x) | y == (v | y) | x,
{
}

/// Sums over the items do not depend on their order.
pub proof fn lemma_sums_of_permutation(a: Seq<Item>, b: Seq<Item>)
    requires
        a.to_multiset() == b.to_multiset(),
    ensures
        width_sum(a) == width_sum(b),
        odd_widths(a) == odd_widths(b),
        plan_word(a) == plan_word(b),
{
    assert(commutative_foldl(add_width()));
    lemma_fold_left_permutation(a, b, add_width(), 0int);
    assert(commutative_foldl(add_odd()));
    lemma_fold_left_permutation(a, b, add_odd(), 0int);
    let f = or_plan_bit();
    assert forall|x: Item, y: Item, v: u32| #[trigger] f(f(v, x), y) == f(f(v, y), x) by {
        lemma_or_exchange(v, plan_bit(x.width), plan_bit(y.width));
    }
    lemma_fold_left_permutation(a, b, or_plan_bit(), 0u32);
}

/// With every width at least 1, the prefix sums grow by at least 1 a step.
pub proof fn lemma_prefix_sums(s: Seq<Item>, i: int, j: int)
    requires
        0 <= i <= j <= s.len(),
        forall|k: int| 0 <= k < s.len() ==> (#[trigger] s[k]).width >= 1,
    ensures
        width_sum(s.take(i)) + (j - i) <= width_sum(s.take(j)),
        i < j ==> width_sum(s.take(i)) + s[i].width + (j - i - 1) <= width_sum(s.take(j)),
        0 <= width_sum(s.take(i)),
    decreases j - i,
{
    if i < j {
        lemma_sum_take(s, j - 1);
        lemma_prefix_sums(s, i, j - 1);
    } else {
        lemma_prefix_sums_nonneg(s, i);
    }
}

proof fn lemma_prefix_sums_nonneg(s: Seq<Item>, i: int)
    requires
        0 <= i <= s.len(),
    ensures
        0 <= width_sum(s.take(i)),
    decreases i,
{
    if i > 0 {
        lemma_sum_take(s, i - 1);
        lemma_prefix_sums_nonneg(s, i - 1);
    } else {
        assert(s.take(0) =~= Seq::<Item>::empty());
    }
}

/// One width is less than the sum, when there are two or more.
pub proof fn lemma_width_below_sum(s: Seq<Item>, k: int)
    requires
        0 <= k < s.len(),
        s.len() >= 2,
        forall|j: int| 0 <= j < s.len() ==> (#[trigger] s[j]).width >= 1,
    ensures
        s[k].width + 1 <= width_sum(s),
{
    lemma_sum_take(s, k);
    lemma_prefix_sums(s, 0, k);
    lemma_prefix_sums(s, k + 1, s.len() as int);
    if k > 0 {
        assert(s.take(0) =~= Seq::<Item>::empty());
    }
}

pub proof fn lemma_count_below_sum(s: Seq<usize>, i: int, j: int)
    requires
        0 <= i <= j <= s.len(),
        forall|k: int| 0 <= k < s.len() ==> #[trigger] s[k] > 0,
    ensures
        count_sum(s.take(i)) + (j - i) <= count_sum(s.take(j)),
        i < j ==> count_sum(s.take(i)) + s[i] + (j - i - 1) <= count_sum(s.take(j)),
        0 <= count_sum(s.take(i)),
    decreases j - i, i,
{
    if i < j {
        lemma_count_sum_take(s, j - 1);
        lemma_count_below_sum(s, i, j - 1);
    } else if i > 0 {
        lemma_count_sum_take(s, i - 1);
        lemma_count_below_sum(s, i - 1, i - 1);
    } else {
        assert(s.take(0) =~= Seq::<usize>::empty());
    }
}

/// With two values or more, each with a key, every count is below the total.
pub proof fn lemma_count_below_total(s: Seq<usize>, k: int)
    requires
        0 <= k < s.len(),
        s.len() >= 2,
        forall|j: int| 0 <= j < s.len() ==> #[trigger] s[j] > 0,
    ensures
        0 < s[k] < count_sum(s),
{
    lemma_count_sum_take(s, k);
    lemma_count_below_sum(s, 0, k);
    lemma_count_below_sum(s, k + 1, s.len() as int);
    assert(s.take(0) =~= Seq::<usize>::empty());
}

pub proof fn lemma_share(c: int, total: int)
    requires
        0 < c < total,
    ensures
        0 <= (c * 0x1_0000_0000) / total < 0x1_0000_0000,
        ((c * 0x1_0000_0000) / total) * total <= c * 0x1_0000_0000,
        c * 0x1_0000_0000 < ((c * 0x1_0000_0000) / total + 1) * total,
        total <= 0x1_0000_0000 ==> 1 <= (c * 0x1_0000_0000) / total,
{
    let x = c * 0x1_0000_0000;
    let q = x / total;
    lemma_fundamental_div_mod(x, total);
    lemma_mod_bound(x, total);
    assert(q * total <= x && x < (q + 1) * total) by (nonlinear_arith)
        requires
            x == total * q + x % total,
            0 <= x % total < total,
    ;
    assert(0 <= q < 0x1_0000_0000) by (nonlinear_arith)
        requires
            q * total <= x,
            x < (q + 1) * total,
            x == c * 0x1_0000_0000,
            0 < c < total,
    ;
    if total <= 0x1_0000_0000 {
        assert(1 <= q) by (nonlinear_arith)
            requires
                x < (q + 1) * total,
                x == c * 0x1_0000_0000,
                0 < c,
                0 < total <= 0x1_0000_0000,
        ;
    }
}

/// The first width of a value is a power of two; twice it exceeds the
/// value's share of the space; and it is within the share when there are no
/// more keys than locators.
pub proof fn lemma_ideal_width(c: usize, total: int)
    requires
        0 < c < total,
    ensures
        is_power_of_two(ideal_width(c, total)),
        2 * ideal_width(c, total) * total > c * 0x1_0000_0000,
        total <= 0x1_0000_0000 ==> ideal_width(c, total) * total <= c * 0x1_0000_0000,
{
    lemma_share(c as int, total);
    let q = (c * 0x1_0000_0000) / total;
    let r: u32 = q as u32;
    let w: u32 = ideal_width(c, total);
    if r == 0 {
        assert(is_power_of_two(1u32)) by (bit_vector);
        assert(2 * w * total > c * 0x1_0000_0000) by (nonlinear_arith)
            requires
                w == 1,
                c * 0x1_0000_0000 < (q + 1) * total,
                q == 0,
        ;
    } else {
        lemma_high_bit(r);
        assert(2 * w * total > c * 0x1_0000_0000) by (nonlinear_arith)
            requires
                r - w < w,
                q == r,
                c * 0x1_0000_0000 < (q + 1) * total,
                total > 0,
        ;
        assert(w * total <= c * 0x1_0000_0000) by (nonlinear_arith)
            requires
                w <= r,
                q == r,
                q * total <= c * 0x1_0000_0000,
                total > 0,
        ;
    }
}

proof fn lemma_initial_prefix(counts: Seq<usize>, k: int)
    requires
        counts.len() >= 2,
        forall|i: int| 0 <= i < counts.len() ==> #[trigger] counts[i] > 0,
        0 <= k <= counts.len(),
    ensures
        2 * count_sum(counts) * width_sum(initial_items(counts).take(k)) >= 0x1_0000_0000
            * count_sum(counts.take(k)) + k,
        count_sum(counts) <= 0x1_0000_0000 ==> count_sum(counts) * width_sum(
            initial_items(counts).take(k),
        ) <= 0x1_0000_0000 * count_sum(counts.take(k)),
    decreases k,
{
    let items = initial_items(counts);
    let total = count_sum(counts);
    if k == 0 {
        assert(items.take(0) =~= Seq::<Item>::empty());
        assert(counts.take(0) =~= Seq::<usize>::empty());
        let ws0 = width_sum(items.take(0));
        let cs0 = count_sum(counts.take(0));
        assert(2 * total * ws0 >= 0x1_0000_0000 * cs0 + 0 && total * ws0 <= 0x1_0000_0000 * cs0)
            by (nonlinear_arith)
            requires
                ws0 == 0,
                cs0 == 0,
        ;
    } else {
        lemma_initial_prefix(counts, k - 1);
        lemma_sum_take(items, k - 1);
        lemma_count_sum_take(counts, k - 1);
        lemma_count_below_total(counts, k - 1);
        lemma_ideal_width(counts[k - 1], total);
        let w = items[k - 1].width as int;
        let c = counts[k - 1] as int;
        let ws = width_sum(items.take(k - 1));
        let cs = count_sum(counts.take(k - 1));
        assert(width_sum(items.take(k)) == ws + w);
        assert(count_sum(counts.take(k)) == cs + c);
        assert(2 * total * (ws + w) >= 0x1_0000_0000 * (cs + c) + k) by (nonlinear_arith)
            requires
                2 * total * ws >= 0x1_0000_0000 * cs + (k - 1),
                2 * w * total > c * 0x1_0000_0000,
        ;
        if total <= 0x1_0000_0000 {
            assert(total * (ws + w) <= 0x1_0000_0000 * (cs + c)) by (nonlinear_arith)
                requires
                    total * ws <= 0x1_0000_0000 * cs,
                    w * total <= c * 0x1_0000_0000,
            ;
        }
    }
}

/// The first widths are powers of two whose doubles together exceed the
/// locator space; they fit the space when there are no more keys than
/// locators.
pub proof fn lemma_initial_items(counts: Seq<usize>)
    requires
        counts.len() >= 2,
        forall|i: int| 0 <= i < counts.len() ==> #[trigger] counts[i] > 0,
    ensures
        forall|i: int|
            0 <= i < counts.len() ==> is_power_of_two((#[trigger] initial_items(counts)[i]).width),
        2 * width_sum(initial_items(counts)) > locator_space(),
        count_sum(counts) <= locator_space() ==> width_sum(initial_items(counts))
            <= locator_space(),
{
    let items = initial_items(counts);
    let total = count_sum(counts);
    let n = counts.len() as int;
    assert forall|i: int| 0 <= i < counts.len() implies is_power_of_two(
        (#[trigger] initial_items(counts)[i]).width,
    ) by {
        lemma_count_below_total(counts, i);
        lemma_ideal_width(counts[i], total);
    }
    lemma_initial_prefix(counts, n);
    lemma_count_below_total(counts, 0);
    assert(items.take(n) =~= items);
    assert(counts.take(n) =~= counts);
    let ws = width_sum(items);
    assert(2 * ws > 0x1_0000_0000) by (nonlinear_arith)
        requires
            2 * total * ws >= 0x1_0000_0000 * total + n,
            n >= 2,
            total > 0,
    ;
    if total <= 0x1_0000_0000 {
        assert(ws <= 0x1_0000_0000) by (nonlinear_arith)
            requires
                total * ws <= 0x1_0000_0000 * total,
                total > 0,
        ;
    }
}

} // verus!
