//! The plan formulator: from how often each value occurs to the plan word,
//! the interval of each value and the response table.

use crate::bits::{floor_power_of_2, high_bit};
use crate::growth::{fit_items, grows_within, lemma_expanded, lemma_fit_items, lemma_planned_items};
use crate::order::{
    canonical_less_eq, canonical_order, fit_less_eq, fit_order, lemma_canonical_order_total,
    lemma_fit_order_total, Item,
};
use crate::sort::sort_by;
use crate::widths::{
    count_sum, expanded, id_permutation, initial_items, lemma_count_below_sum,
    lemma_count_below_total, lemma_count_sum_take, lemma_prefix_sums, lemma_share, lemma_sum_take,
    locator_space, plan_word, plannable, planned_items, remaining, shortfall, table_start,
    width_sum,
};
use vstd::prelude::*;

verus! {

/// A plan for an alphabet of values numbered `0..n`.
pub struct Formulation {
    /// One set bit at the lowest bit of each phase.
    pub plan: u32,
    /// For each value, its place in the response table.
    pub value_index: Vec<usize>,
    /// For each place in the response table: how many keys carry the value,
    /// and the lowest and the highest locator of its interval.
    pub intervals: Vec<(usize, u32, u32)>,
    /// The response table: the lowest locator of each interval with the
    /// number of its value, in rising order of locators.
    pub responses: Vec<(u32, usize)>,
}

/// Entry `k` of `out` gives item `k` the interval that starts where the
/// widths before it end.
pub open spec fn entry_matches(items: Seq<Item>, out: Formulation, k: int) -> bool {
    &&& out.responses@[k] == (table_start(items, k) as u32, items[k].id)
    &&& out.intervals@[k] == (
        items[k].count,
        table_start(items, k) as u32,
        (table_start(items, k) + items[k].width - 1) as u32,
    )
    &&& out.value_index@[items[k].id as int] == k
}

/// `out` is the plan that lists `items` in this order.
pub open spec fn describes(items: Seq<Item>, out: Formulation) -> bool {
    &&& out.plan == plan_word(items)
    &&& out.responses@.len() == items.len()
    &&& out.intervals@.len() == items.len()
    &&& out.value_index@.len() == items.len()
    &&& forall|k: int| 0 <= k < items.len() ==> #[trigger] entry_matches(items, out, k)
}

/// Draws up the plan for values that occur `counts[0]`, `counts[1]`, ...
/// times.
///
/// A single value owns the whole locator space and needs no phase. Otherwise
/// the values first get their share of the space rounded down to a power of
/// two, then grow in fit order until the space is used up, and are listed in
/// canonical order.
pub fn formulate_plan(counts: &Vec<usize>) -> (out: Formulation)
    requires
        plannable(counts@),
    ensures
        counts@.len() <= 1 ==> out.plan == 0,
        counts@.len() == 0 ==> out.value_index@.len() == 0 && out.intervals@.len() == 0
            && out.responses@.len() == 0,
        counts@.len() == 1 ==> out.value_index@ == seq![0usize] && out.intervals@ == seq![
            (counts@[0], 0u32, u32::MAX),
        ] && out.responses@ == seq![(0u32, 0usize)],
        counts@.len() >= 2 ==> describes(planned_items(counts@), out),
{
    let n: usize = counts.len();
    let mut responses: Vec<(u32, usize)> = Vec::new();
    let mut value_index: Vec<usize> = Vec::new();
    let mut intervals: Vec<(usize, u32, u32)> = Vec::new();
    if n <= 1 {
        if n == 1 {
            value_index.push(0);
            intervals.push((counts[0], 0, u32::MAX));
            responses.push((0, 0));
        }
        return Formulation { plan: 0, value_index, intervals, responses };
    }
    let mut total: usize = 0;
    let mut i: usize = 0;
    while i < n
        invariant
            i <= n,
            n == counts@.len(),
            n >= 2,
            plannable(counts@),
            total == count_sum(counts@.take(i as int)),
        decreases n - i,
    {
        proof {
            lemma_count_sum_take(counts@, i as int);
            lemma_count_below_sum(counts@, i + 1, n as int);
        }
        total = total + counts[i];
        i = i + 1;
    }
    proof {
        lemma_count_sum_take(counts@, 0);
        lemma_count_below_total(counts@, 0);
    }
    let mut items: Vec<Item> = Vec::new();
    let mut total_width: u32 = 0;
    i = 0;
    while i < n
        invariant
            i <= n,
            n == counts@.len(),
            n >= 2,
            plannable(counts@),
            total == count_sum(counts@),
            items@ == initial_items(counts@).take(i as int),
            total_width == width_sum(items@) % 0x1_0000_0000,
        decreases n - i,
    {
        let count: usize = counts[i];
        proof {
            lemma_count_below_total(counts@, i as int);
            lemma_share(count as int, total as int);
            lemma_sum_take(initial_items(counts@), i as int);
        }
        let ratio: u128 = ((count as u128) * 0x1_0000_0000u128) / (total as u128);
        let width: u32 = floor_power_of_2(ratio as u32);
        items.push(Item { id: i, width, count });
        total_width = total_width.wrapping_add(width);
        i = i + 1;
        proof {
            assert(items@ =~= initial_items(counts@).take(i as int));
        }
    }
    let ghost fit: Seq<Item> = fit_items(counts@);
    let ghost r0: int = shortfall(fit);
    proof {
        lemma_sum_take(initial_items(counts@), 0);
        lemma_fit_order_total();
        lemma_fit_items(counts@);
        lemma_expanded(fit, r0);
    }
    sort_by(&mut items, fit_less_eq, Ghost(fit_order()));
    let mut left: u32 = 0u32.wrapping_sub(total_width);
    i = 0;
    while i < n
        invariant
            i <= n,
            n == fit.len(),
            items@.len() == n,
            left == remaining(fit, r0, i as int),
            forall|k: int| 0 <= k < i ==> items@[k] == #[trigger] expanded(fit, r0)[k],
            forall|k: int| i <= k < n ==> items@[k] == #[trigger] fit[k],
            forall|j: int| 0 <= j < n ==> #[trigger] grows_within(fit, r0, j),
        decreases n - i,
    {
        let it: Item = items[i];
        proof {
            assert(grows_within(fit, r0, i as int));
        }
        let expand: u32 = if left < it.width {
            left
        } else {
            it.width
        };
        left = left - expand;
        items.set(i, Item { id: it.id, width: it.width + expand, count: it.count });
        i = i + 1;
    }
    proof {
        assert(items@ =~= expanded(fit, r0));
        lemma_canonical_order_total();
        lemma_planned_items(counts@);
    }
    sort_by(&mut items, canonical_less_eq, Ghost(canonical_order()));
    let ghost fin: Seq<Item> = planned_items(counts@);
    let mut start: u32 = 0;
    let mut plan: u32 = 0;
    i = 0;
    while i < n
        invariant
            i <= n,
            value_index@.len() == i,
        decreases n - i,
    {
        value_index.push(0);
        i = i + 1;
    }
    i = 0;
    while i < n
        invariant
            i <= n,
            n == fin.len(),
            n >= 2,
            items@ == fin,
            forall|k: int| 0 <= k < n ==> (#[trigger] fin[k]).width >= 1,
            width_sum(fin) == locator_space(),
            start == table_start(fin, i as int) % 0x1_0000_0000,
            plan == plan_word(fin.take(i as int)),
            responses@.len() == i,
            intervals@.len() == i,
            forall|k: int|
                0 <= k < i ==> #[trigger] responses@[k] == (table_start(fin, k) as u32, fin[k].id),
            forall|k: int|
                0 <= k < i ==> #[trigger] intervals@[k] == (
                    fin[k].count,
                    table_start(fin, k) as u32,
                    (table_start(fin, k) + fin[k].width - 1) as u32,
                ),
        decreases n - i,
    {
        let it: Item = items[i];
        let ghost ts: int = table_start(fin, i as int);
        proof {
            lemma_sum_take(fin, i as int);
            lemma_prefix_sums(fin, i as int, n as int);
            lemma_prefix_sums(fin, i as int + 1, n as int);
            assert(fin[i as int].width >= 1);
            assert(0 <= ts && ts + it.width <= 0x1_0000_0000);
            assert(start == ts);
            assert(table_start(fin, i as int + 1) == ts + it.width);
        }
        responses.push((start, it.id));
        intervals.push((it.count, start, start + (it.width - 1)));
        start = start.wrapping_add(it.width);
        if it.width & (it.width - 1) == 0 {
            plan = plan | it.width;
        } else {
            plan = plan | (1u32 << high_bit(it.width));
        }
        i = i + 1;
    }
    i = 0;
    while i < n
        invariant
            i <= n,
            n == fin.len(),
            items@ == fin,
            id_permutation(fin),
            value_index@.len() == n,
            forall|k: int| 0 <= k < i ==> value_index@[(#[trigger] fin[k]).id as int] == k,
        decreases n - i,
    {
        let it: Item = items[i];
        let ghost before: Seq<usize> = value_index@;
        proof {
            assert(fin[i as int].id < n);
        }
        value_index.set(it.id, i);
        proof {
            assert forall|k: int| 0 <= k < i + 1 implies value_index@[(#[trigger] fin[k]).id as int]
                == k by {
                if k < i {
                    assert(fin[k].id != fin[i as int].id);
                    assert(before[fin[k].id as int] == k);
                }
            }
        }
        i = i + 1;
    }
    let out = Formulation { plan, value_index, intervals, responses };
    proof {
        lemma_sum_take(fin, 0);
        assert forall|k: int| 0 <= k < fin.len() implies #[trigger] entry_matches(fin, out, k) by {}
    }
    out
}

} // verus!
