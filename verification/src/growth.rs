//! What holds of the final widths: they fill the locator space, at most one
//! of them is no power of two, and the values keep their numbers.

use crate::bits::is_power_of_two;
use crate::order::{
    canonical_order, fit_order, lemma_canonical_order_total, lemma_fit_order_total, Item,
};
use crate::widths::{
    expanded, grown, has_id, id_permutation, initial_items, lemma_count_below_sum,
    lemma_count_sum_take, lemma_initial_items, lemma_prefix_sums, lemma_sum_take,
    lemma_sums_of_permutation, lemma_width_below_sum, locator_space, odd_widths, plannable,
    planned_items, remaining, shortfall, table_start, width_sum,
};
use vstd::math::min;
use vstd::prelude::*;
use vstd::relations::sorted_by;
use vstd::seq_lib::*;

verus! {

proof fn lemma_power_of_two_growth(w: u32, e: u32)
    by (bit_vector)
    requires
        w != 0,
        w & ((w - 1) as u32) == 0,
        e <= w,
        w + e <= 0xffff_ffff,
    ensures
        e == w ==> ((w + e) as u32) != 0 && ((w + e) as u32) & ((((w + e) as u32) - 1) as u32) == 0,
        0 < e < w ==> ((w + e) as u32) & ((((w + e) as u32) - 1) as u32) != 0,
{
}

/// Item `k` grows to a width within the locator space, which the grown item
/// then has.
pub open spec fn grows_within(items: Seq<Item>, r0: int, k: int) -> bool {
    &&& 1 <= grown(items, r0, k) < locator_space()
    &&& expanded(items, r0)[k].width == grown(items, r0, k)
    &&& is_power_of_two(expanded(items, r0)[k].width) || remaining(items, r0, k + 1) == 0
}

/// State after the first `k` items of `items` have grown into `r0`.
proof fn lemma_growth_prefix(items: Seq<Item>, r0: int, k: int)
    requires
        items.len() >= 2,
        0 <= k <= items.len(),
        0 <= r0,
        forall|j: int| 0 <= j < items.len() ==> is_power_of_two((#[trigger] items[j]).width),
        r0 + width_sum(items) == locator_space(),
    ensures
        0 <= remaining(items, r0, k) <= r0,
        width_sum(expanded(items, r0).take(k)) + remaining(items, r0, k) == width_sum(
            items.take(k),
        ) + r0,
        remaining(items, r0, k) > 0 ==> width_sum(expanded(items, r0).take(k)) == 2 * width_sum(
            items.take(k),
        ) && odd_widths(expanded(items, r0).take(k)) == 0,
        0 <= odd_widths(expanded(items, r0).take(k)) <= 1,
        forall|j: int| 0 <= j < k ==> #[trigger] grows_within(items, r0, j),
    decreases k,
{
    let ex = expanded(items, r0);
    if k == 0 {
        assert(ex.take(0) =~= Seq::<Item>::empty());
        assert(items.take(0) =~= Seq::<Item>::empty());
    } else {
        lemma_growth_prefix(items, r0, k - 1);
        lemma_sum_take(ex, k - 1);
        lemma_sum_take(items, k - 1);
        lemma_width_below_sum(items, k - 1);
        let r = remaining(items, r0, k - 1);
        let w: u32 = items[k - 1].width;
        let e = min(r, w as int);
        assert(grown(items, r0, k - 1) == w + e);
        assert(w + e < locator_space());
        let e32: u32 = e as u32;
        lemma_power_of_two_growth(w, e32);
        assert(ex[k - 1].width == w + e);
        if r > 0 {
            if e == w {
                assert(is_power_of_two(ex[k - 1].width));
            } else {
                assert(!is_power_of_two(ex[k - 1].width));
            }
        } else {
            assert(ex[k - 1].width == w);
        }
        assert(grows_within(items, r0, k - 1));
    }
}

/// Growth uses up the shortfall: the widths then fill the locator space, and
/// at most one of them is no power of two.
pub proof fn lemma_expanded(items: Seq<Item>, r0: int)
    requires
        items.len() >= 2,
        0 <= r0,
        forall|j: int| 0 <= j < items.len() ==> is_power_of_two((#[trigger] items[j]).width),
        r0 + width_sum(items) == locator_space(),
        2 * width_sum(items) > locator_space(),
    ensures
        expanded(items, r0).len() == items.len(),
        remaining(items, r0, items.len() as int) == 0,
        width_sum(expanded(items, r0)) == locator_space(),
        0 <= odd_widths(expanded(items, r0)) <= 1,
        forall|j: int| 0 <= j < items.len() ==> #[trigger] grows_within(items, r0, j),
{
    let n = items.len() as int;
    lemma_growth_prefix(items, r0, n);
    assert(expanded(items, r0).take(n) =~= expanded(items, r0));
    assert(items.take(n) =~= items);
}

/// Once nothing is left of the shortfall, nothing is left later either.
pub proof fn lemma_remaining_stays_zero(items: Seq<Item>, r0: int, i: int, k: int)
    requires
        0 <= i <= k,
        remaining(items, r0, i) == 0,
    ensures
        remaining(items, r0, k) == 0,
    decreases k - i,
{
    if i < k {
        lemma_remaining_stays_zero(items, r0, i, k - 1);
    }
}

/// Two arrangements of the same items hold the same items.
pub proof fn lemma_shared_entry(a: Seq<Item>, b: Seq<Item>, x: Item)
    requires
        a.to_multiset() == b.to_multiset(),
        b.contains(x),
    ensures
        a.contains(x),
{
    to_multiset_contains(a, x);
    to_multiset_contains(b, x);
}

/// A rearrangement keeps what holds of every item.
pub proof fn lemma_permutation_keeps_all(a: Seq<Item>, b: Seq<Item>, p: spec_fn(Item) -> bool)
    requires
        a.to_multiset() == b.to_multiset(),
        forall|i: int| 0 <= i < a.len() ==> #[trigger] p(a[i]),
    ensures
        a.len() == b.len(),
        forall|k: int| 0 <= k < b.len() ==> #[trigger] p(b[k]),
{
    a.to_multiset_ensures();
    b.to_multiset_ensures();
    assert forall|k: int| 0 <= k < b.len() implies #[trigger] p(b[k]) by {
        assert(b.contains(b[k]));
        lemma_shared_entry(a, b, b[k]);
    }
}

/// A rearrangement of items numbered `0..n` is numbered `0..n`.
pub proof fn lemma_permutation_keeps_ids(a: Seq<Item>, b: Seq<Item>)
    requires
        a.to_multiset() == b.to_multiset(),
        id_permutation(a),
    ensures
        a.len() == b.len(),
        id_permutation(b),
{
    a.to_multiset_ensures();
    b.to_multiset_ensures();
    assert(a.no_duplicates());
    a.lemma_multiset_has_no_duplicates();
    b.lemma_multiset_has_no_duplicates_conv();
    assert forall|k: int| 0 <= k < b.len() implies (#[trigger] b[k]).id < b.len() by {
        assert(b.contains(b[k]));
        lemma_shared_entry(a, b, b[k]);
    }
    assert forall|i: int, j: int| 0 <= i < b.len() && 0 <= j < b.len() && i != j implies (
    #[trigger] b[i]).id != (#[trigger] b[j]).id by {
        assert(b.contains(b[i]));
        lemma_shared_entry(a, b, b[i]);
        assert(b.contains(b[j]));
        lemma_shared_entry(a, b, b[j]);
        let p = choose|p: int| 0 <= p < a.len() && a[p] == b[i];
        let q = choose|q: int| 0 <= q < a.len() && a[q] == b[j];
        if b[i].id == b[j].id {
            assert(p == q);
            assert(b[i] == b[j]);
        }
    }
    assert forall|id: int| 0 <= id < b.len() implies #[trigger] has_id(b, id) by {
        assert(has_id(a, id));
        let p = choose|p: int| 0 <= p < a.len() && (#[trigger] a[p]).id == id;
        assert(a.contains(a[p]));
        lemma_shared_entry(b, a, a[p]);
        let k = choose|k: int| 0 <= k < b.len() && b[k] == a[p];
        assert(b[k].id == id);
    }
}

/// An item carries the count of its value.
pub open spec fn counted(counts: Seq<usize>) -> spec_fn(Item) -> bool {
    |it: Item| it.id < counts.len() && it.count == counts[it.id as int]
}

pub open spec fn wide() -> spec_fn(Item) -> bool {
    |it: Item| it.width >= 1
}

pub open spec fn even() -> spec_fn(Item) -> bool {
    |it: Item| is_power_of_two(it.width)
}

/// The values in fit order, before growth.
pub open spec fn fit_items(counts: Seq<usize>) -> Seq<Item> {
    initial_items(counts).sort_by(fit_order())
}

/// What holds of the values in fit order.
pub proof fn lemma_fit_items(counts: Seq<usize>)
    requires
        counts.len() >= 2,
        plannable(counts),
    ensures
        fit_items(counts).len() == counts.len(),
        fit_items(counts).to_multiset() == initial_items(counts).to_multiset(),
        sorted_by(fit_items(counts), fit_order()),
        id_permutation(fit_items(counts)),
        forall|k: int| 0 <= k < counts.len() ==> #[trigger] counted(counts)(fit_items(counts)[k]),
        forall|k: int|
            0 <= k < counts.len() ==> is_power_of_two((#[trigger] fit_items(counts)[k]).width),
        width_sum(fit_items(counts)) == width_sum(initial_items(counts)),
        shortfall(fit_items(counts)) + width_sum(fit_items(counts)) == locator_space(),
        0 <= shortfall(fit_items(counts)),
        2 * width_sum(fit_items(counts)) > locator_space(),
{
    let init = initial_items(counts);
    let fit = fit_items(counts);
    lemma_fit_order_total();
    init.lemma_sort_by_ensures(fit_order());
    lemma_initial_items(counts);
    lemma_count_below_sum(counts, 0, counts.len() as int);
    lemma_count_sum_take(counts, 0);
    assert(id_permutation(init)) by {
        assert forall|id: int| 0 <= id < init.len() implies #[trigger] has_id(init, id) by {
            assert(init[id].id == id);
        }
    }
    lemma_permutation_keeps_ids(init, fit);
    lemma_permutation_keeps_all(init, fit, counted(counts));
    assert forall|i: int| 0 <= i < init.len() implies #[trigger] even()(init[i]) by {}
    lemma_permutation_keeps_all(init, fit, even());
    assert forall|k: int| 0 <= k < counts.len() implies is_power_of_two(
        (#[trigger] fit_items(counts)[k]).width,
    ) by {
        assert(even()(fit[k]));
    }
    lemma_sums_of_permutation(init, fit);
    lemma_width_below_sum(fit, 0);
}

/// The final widths, in the order of the response table: they fill the
/// locator space, each is at least 1, at most one is no power of two, and the
/// values keep their numbers and counts.
pub proof fn lemma_planned_items(counts: Seq<usize>)
    requires
        counts.len() >= 2,
        plannable(counts),
    ensures
        planned_items(counts).len() == counts.len(),
        sorted_by(planned_items(counts), canonical_order()),
        id_permutation(planned_items(counts)),
        forall|k: int|
            0 <= k < counts.len() ==> #[trigger] counted(counts)(planned_items(counts)[k]),
        forall|k: int| 0 <= k < counts.len() ==> (#[trigger] planned_items(counts)[k]).width >= 1,
        width_sum(planned_items(counts)) == locator_space(),
        0 <= odd_widths(planned_items(counts)) <= 1,
{
    let fit = fit_items(counts);
    let r0 = shortfall(fit);
    let ex = expanded(fit, r0);
    let fin = planned_items(counts);
    lemma_fit_items(counts);
    lemma_expanded(fit, r0);
    lemma_canonical_order_total();
    ex.lemma_sort_by_ensures(canonical_order());
    assert(id_permutation(ex)) by {
        assert forall|id: int| 0 <= id < ex.len() implies #[trigger] has_id(ex, id) by {
            assert(has_id(fit, id));
            let k = choose|k: int| 0 <= k < fit.len() && (#[trigger] fit[k]).id == id;
            assert(ex[k].id == id);
        }
        assert forall|k: int| 0 <= k < ex.len() implies (#[trigger] ex[k]).id < ex.len() by {
            assert(fit[k].id < fit.len());
        }
        assert forall|i: int, j: int| 0 <= i < ex.len() && 0 <= j < ex.len() && i != j implies (
        #[trigger] ex[i]).id != (#[trigger] ex[j]).id by {
            assert(fit[i].id != fit[j].id);
        }
    }
    lemma_permutation_keeps_ids(ex, fin);
    assert forall|i: int| 0 <= i < ex.len() implies #[trigger] counted(counts)(ex[i]) by {
        assert(counted(counts)(fit[i]));
    }
    lemma_permutation_keeps_all(ex, fin, counted(counts));
    assert forall|i: int| 0 <= i < ex.len() implies #[trigger] wide()(ex[i]) by {
        assert(grows_within(fit, r0, i));
    }
    lemma_permutation_keeps_all(ex, fin, wide());
    assert forall|k: int| 0 <= k < counts.len() implies (#[trigger] planned_items(counts)[k]).width
        >= 1 by {
        assert(wide()(fin[k]));
    }
    lemma_sums_of_permutation(ex, fin);
}

/// The widths of a plan fill the locator space exactly.
pub proof fn law_widths_fill_space(counts: Seq<usize>)
    requires
        counts.len() >= 2,
        plannable(counts),
    ensures
        width_sum(planned_items(counts)) == locator_space(),
{
    lemma_planned_items(counts);
}

/// At most one width of a plan is not a power of two.
pub proof fn law_one_odd_width(counts: Seq<usize>)
    requires
        counts.len() >= 2,
        plannable(counts),
    ensures
        odd_widths(planned_items(counts)) <= 1,
        forall|i: int, j: int|
            0 <= i < j < counts.len() ==> is_power_of_two((#[trigger] planned_items(counts)[i]).width)
                || is_power_of_two((#[trigger] planned_items(counts)[j]).width),
{
    lemma_planned_items(counts);
    let fin = planned_items(counts);
    assert forall|i: int, j: int| 0 <= i < j < counts.len() implies is_power_of_two(
        (#[trigger] planned_items(counts)[i]).width,
    ) || is_power_of_two((#[trigger] planned_items(counts)[j]).width) by {
        lemma_odd_prefix(fin, 0, i);
        lemma_odd_prefix(fin, i + 1, j);
        lemma_odd_prefix(fin, j + 1, fin.len() as int);
        lemma_sum_take(fin, i);
        lemma_sum_take(fin, j);
    }
}

/// The count of odd widths does not fall along the prefixes.
pub proof fn lemma_odd_prefix(s: Seq<Item>, i: int, j: int)
    requires
        0 <= i <= j <= s.len(),
    ensures
        0 <= odd_widths(s.take(i)) <= odd_widths(s.take(j)),
    decreases j - i, i,
{
    if i < j {
        lemma_sum_take(s, j - 1);
        lemma_odd_prefix(s, i, j - 1);
    } else if i > 0 {
        lemma_sum_take(s, i - 1);
        lemma_odd_prefix(s, i - 1, i - 1);
    } else {
        assert(s.take(0) =~= Seq::<Item>::empty());
    }
}

/// The lower ends of the intervals of a plan rise strictly from 0 and stay
/// within the locator space.
pub proof fn law_table_rises(counts: Seq<usize>, i: int, j: int)
    requires
        counts.len() >= 2,
        plannable(counts),
        0 <= i < j < counts.len(),
    ensures
        table_start(planned_items(counts), 0) == 0,
        0 <= table_start(planned_items(counts), i) < table_start(planned_items(counts), j)
            < locator_space(),
        table_start(planned_items(counts), j) + planned_items(counts)[j].width <= locator_space(),
{
    lemma_planned_items(counts);
    let fin = planned_items(counts);
    lemma_prefix_sums(fin, i, j);
    lemma_prefix_sums(fin, j, fin.len() as int);
    lemma_sum_take(fin, j);
    assert(fin.take(0) =~= Seq::<Item>::empty());
}

} // verus!
