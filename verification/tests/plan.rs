use compressed_map::blocks::Blocks;
use compressed_map::builder::{collect_entries, collect_replay, prepare, stage_keys};
use compressed_map::map::{CompressedMap, MapCore};
use compressed_map::order::{canonical_less_eq, fit_less_eq, Item};
use compressed_map::plan::formulate_plan;
use compressed_map::stage::{assign_phases, can_plan, count_labels, phase_masks, UNRESOLVED};

#[test]
fn no_value_and_one_value_need_no_plan() {
    let none = formulate_plan(&vec![]);
    assert_eq!(none.plan, 0);
    assert!(none.responses.is_empty() && none.intervals.is_empty() && none.value_index.is_empty());
    let one = formulate_plan(&vec![3]);
    assert_eq!(one.plan, 0);
    assert_eq!(one.responses, vec![(0, 0)]);
    assert_eq!(one.intervals, vec![(3, 0, u32::MAX)]);
    assert_eq!(one.value_index, vec![0]);
}

#[test]
fn balanced_values_halve_the_space() {
    let f = formulate_plan(&vec![500, 500]);
    assert_eq!(f.plan, 1 << 31);
    assert_eq!(f.responses, vec![(0, 0), (1 << 31, 1)]);
    assert_eq!(f.intervals, vec![(500, 0, (1 << 31) - 1), (500, 1 << 31, u32::MAX)]);
    assert_eq!(f.value_index, vec![0, 1]);
}

#[test]
fn a_rare_value_gets_a_small_power_of_two() {
    // shares: 999/1000 rounds down to 2^31, 1/1000 to 2^22; the rare value is
    // widest for its keys, doubles to 2^23, and the common one takes the rest
    let f = formulate_plan(&vec![999, 1]);
    assert_eq!(f.plan, (1 << 31) | (1 << 23));
    assert_eq!(f.responses, vec![(0, 1), (1 << 23, 0)]);
    assert_eq!(f.intervals, vec![(1, 0, (1 << 23) - 1), (999, 1 << 23, u32::MAX)]);
    assert_eq!(f.value_index, vec![1, 0]);
}

#[test]
fn counts_five_three_two_leave_one_odd_width() {
    // first widths 2^31, 2^30, 2^29 leave 2^29, which goes to the first value
    let f = formulate_plan(&vec![5, 3, 2]);
    assert_eq!(f.plan, (1 << 31) | (1 << 30) | (1 << 29));
    assert_eq!(f.responses, vec![(0, 1), (1 << 30, 2), ((1 << 30) + (1 << 29), 0)]);
    assert_eq!(
        f.intervals,
        vec![
            (3, 0, (1 << 30) - 1),
            (2, 1 << 30, (1 << 30) + (1 << 29) - 1),
            (5, (1 << 30) + (1 << 29), u32::MAX),
        ]
    );
    assert_eq!(f.value_index, vec![2, 0, 1]);
}

#[test]
fn equal_widths_are_listed_by_number() {
    let f = formulate_plan(&vec![1, 1, 1, 1]);
    assert_eq!(f.plan, 1 << 30);
    assert_eq!(f.responses, vec![(0, 0), (1 << 30, 1), (1 << 31, 2), (3 << 30, 3)]);
}

#[test]
fn widths_fill_the_space_with_at_most_one_odd() {
    let mut seed: u64 = 12345;
    for round in 0..300 {
        let n = 2 + round % 12;
        let mut counts = Vec::new();
        for _ in 0..n {
            seed = seed.wrapping_mul(6364136223846793005).wrapping_add(1442695040888963407);
            counts.push(1 + (seed >> 40) as usize % 100000);
        }
        let f = formulate_plan(&counts);
        let mut total: u64 = 0;
        let mut odd = 0;
        let mut plan = 0u32;
        for (k, (count, lo, hi)) in f.intervals.iter().enumerate() {
            assert_eq!(*lo as u64, total);
            assert_eq!(f.responses[k].0, *lo);
            assert_eq!(*count, counts[f.responses[k].1]);
            assert_eq!(f.value_index[f.responses[k].1], k);
            let width = *hi as u64 - *lo as u64 + 1;
            total += width;
            if width.is_power_of_two() {
                plan |= width as u32;
            } else {
                odd += 1;
                plan |= 1 << (63 - width.leading_zeros());
                assert_eq!(k, n - 1);
            }
        }
        assert_eq!(total, 1 << 32);
        assert!(odd <= 1);
        assert_eq!(f.plan, plan);
    }
}

#[test]
fn the_two_orders() {
    let a = Item { id: 0, width: 1 << 31, count: 5 };
    let b = Item { id: 1, width: 1 << 30, count: 3 };
    let c = Item { id: 2, width: 1 << 29, count: 2 };
    // width per key: a has most, then b, then c
    assert!(fit_less_eq(a, b) && fit_less_eq(b, c) && fit_less_eq(a, c));
    assert!(!fit_less_eq(b, a) && !fit_less_eq(c, b));
    assert!(fit_less_eq(a, a));
    // equal fractions go by width, then count, then number
    let d = Item { id: 3, width: 1 << 30, count: 6 };
    let e = Item { id: 4, width: 1 << 29, count: 3 };
    assert!(fit_less_eq(e, d) && !fit_less_eq(d, e));
    let f = Item { id: 5, width: 1 << 29, count: 3 };
    assert!(fit_less_eq(e, f) && !fit_less_eq(f, e));
    // a value without keys comes last
    let z = Item { id: 6, width: 1, count: 0 };
    assert!(fit_less_eq(a, z) && !fit_less_eq(z, a));
    // canonical: powers of two first, wider first, then by number
    let odd = Item { id: 0, width: (1 << 31) + (1 << 29), count: 5 };
    assert!(canonical_less_eq(b, c) && !canonical_less_eq(c, b));
    assert!(canonical_less_eq(c, odd) && !canonical_less_eq(odd, c));
    assert!(canonical_less_eq(e, f) && !canonical_less_eq(f, e));
}

#[test]
fn labels_are_counted() {
    assert_eq!(count_labels(&vec![2, 0, 2, 2, 1, 0], 4), vec![2, 1, 3, 0]);
    assert_eq!(count_labels(&vec![], 2), vec![0, 0]);
}

#[test]
fn keys_that_can_be_planned_for() {
    assert!(can_plan(&vec![0, 1, 1, 2], 3));
    assert!(can_plan(&vec![0, 0], 1));
    assert!(can_plan(&vec![], 0));
    // a label beyond the values
    assert!(!can_plan(&vec![0, 3], 3));
    // a value without a key
    assert!(!can_plan(&vec![0, 2, 2], 3));
    assert!(!can_plan(&vec![], 1));
}

#[test]
fn entries_find_their_phase() {
    let f = formulate_plan(&vec![5, 3, 2]);
    let masks = phase_masks(f.plan);
    assert_eq!(masks, vec![1 << 29, 1 << 30, 1 << 31]);
    let a = assign_phases(&masks, &f.intervals);
    assert_eq!(a.phase_to_resolve, vec![1, 0, UNRESOLVED]);
    assert_eq!(a.odd_man_out, 2);
    assert_eq!(a.lo_omo, (1 << 30) + (1 << 29));
    assert_eq!(a.phase_omo, 2);
    assert_eq!(a.min_phase_affecting_omo, 0);
    let f = formulate_plan(&vec![1, 1]);
    let a = assign_phases(&phase_masks(f.plan), &f.intervals);
    assert_eq!(a.phase_to_resolve, vec![0, 0]);
    assert_eq!(a.odd_man_out, usize::MAX);
    assert_eq!(a.phase_omo, usize::MAX);
    assert_eq!(a.min_phase_affecting_omo, usize::MAX);
}

#[test]
fn keys_are_staged_by_phase() {
    let labels = vec![0, 1, 2, 0, 1, 2, 0, 0, 1, 0];
    let p = prepare(&labels, 3);
    let hi_1 = (1u32 << 30) - 1;
    let hi_2 = (1u32 << 30) + (1 << 29) - 1;
    assert_eq!(p.staging.omo_offset, 5);
    assert_eq!(p.staging.ends, vec![7, 10, 10]);
    assert_eq!(
        p.staging.entries,
        vec![
            (0, u32::MAX),
            (3, u32::MAX),
            (6, u32::MAX),
            (7, u32::MAX),
            (9, u32::MAX),
            (2, hi_2),
            (5, hi_2),
            (1, hi_1),
            (4, hi_1),
            (8, hi_1),
        ]
    );
    let again = stage_keys(&labels, &p.plan.value_index, &p.plan.intervals, &p.assignment, 3);
    assert_eq!(again.entries, p.staging.entries);
    let lo = (1u32 << 30) + (1 << 29);
    let current = vec![0, lo, lo - 1, u32::MAX, 5];
    // below the highest phase that meets the odd width, its keys stay out
    assert_eq!(collect_entries(&p.staging, &current, 0, 2, lo), vec![(2, hi_2), (5, hi_2)]);
    assert_eq!(collect_entries(&p.staging, &current, 1, 2, lo).len(), 5);
    // in that phase, those take part whose bits lie below the interval
    assert_eq!(
        collect_entries(&p.staging, &current, 2, 2, lo)[..3],
        [(0, u32::MAX), (6, u32::MAX), (9, u32::MAX)]
    );
    // above it, all do
    assert_eq!(collect_entries(&p.staging, &current, 2, 1, lo).len(), 10);
    assert_eq!(collect_replay(&p.staging, 0, &p.assignment), vec![0, 3, 6, 7, 9]);
    assert_eq!(collect_replay(&p.staging, 1, &p.assignment), vec![0, 3, 6, 7, 9]);
    assert_eq!(collect_replay(&p.staging, 2, &p.assignment), Vec::<usize>::new());
}

fn three() -> CompressedMap<'static, u32> {
    CompressedMap::from_parts(
        (1 << 31) | (1 << 30) | (1 << 29),
        vec![(0, 200), (1 << 30, 300), ((1 << 30) + (1 << 29), 100)],
        vec![1, 1],
        vec![
            MapCore { hash_key: [0; 16], bits_per_value: 1, nblocks: 2, blocks: Blocks::Owned(vec![0; 8]) },
            MapCore { hash_key: [0; 16], bits_per_value: 1, nblocks: 2, blocks: Blocks::Owned(vec![0; 8]) },
            MapCore { hash_key: [0; 16], bits_per_value: 1, nblocks: 2, blocks: Blocks::Owned(vec![0; 8]) },
        ],
    )
}

#[test]
fn a_range_resolves_if_one_value_owns_it() {
    let map = three();
    assert_eq!(map.bsearch(0, (1 << 30) - 1), Some(&200));
    assert_eq!(map.bsearch(5, 5), Some(&200));
    assert_eq!(map.bsearch(0, 1 << 30), None);
    assert_eq!(map.bsearch(1 << 30, (1 << 30) + (1 << 29) - 1), Some(&300));
    assert_eq!(map.bsearch((1 << 30) + 7, u32::MAX), None);
    assert_eq!(map.bsearch((1 << 30) + (1 << 29), u32::MAX), Some(&100));
    assert_eq!(map.bsearch(u32::MAX, u32::MAX), Some(&100));
    assert_eq!(map.bsearch(0, u32::MAX), None);
}

#[test]
fn a_query_asks_no_more_phases_than_it_needs() {
    let map = three();
    for locator in [0u32, 1 << 29, 1 << 30, (1 << 30) + (1 << 29), 1 << 31, u32::MAX, 0xdead_beef] {
        let asked = std::cell::RefCell::new(Vec::new());
        let found = *map.query(|phase| {
            asked.borrow_mut().push(phase);
            // garbage above the bit of the phase must not count
            ((locator >> (29 + phase)) & 1) | 0xfffe
        });
        let top = locator >> 29;
        let expected = match top {
            0 | 1 => 200,
            2 => 300,
            _ => 100,
        };
        assert_eq!(found, expected, "locator {:x}", locator);
        let asked = asked.into_inner();
        assert_eq!(asked[0], 1);
        if asked.len() > 1 {
            assert_eq!(asked[1], 2);
        }
        if asked.len() > 2 {
            assert_eq!(asked[2], 0);
        }
        // bit 30 clear and bit 31 clear settles the first value without phase 0
        if top < 2 {
            assert_eq!(asked, vec![1, 2]);
        }
        if top >= 4 {
            assert_eq!(asked, vec![1, 2]);
        }
    }
}
