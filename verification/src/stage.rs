//! What a build prepares before the phases are solved: how often each value
//! occurs, in which phase each value is settled, and the keys in the order
//! in which the phases take them up.

use crate::bits::{is_power_of_two, popcount};
use crate::phases::{lemma_shift_rises, phase_mask, phase_shift, phase_shifts, span_mask};
use crate::widths::{count_sum, lemma_initial_items, plannable};
use vstd::prelude::*;

verus! {

/// Among the first `upto` labels, how many are `v`.
pub open spec fn occurrences(labels: Seq<usize>, v: int, upto: int) -> int
    decreases upto,
{
    if upto <= 0 {
        0
    } else {
        occurrences(labels, v, upto - 1) + if labels[upto - 1] == v {
            1int
        } else {
            0int
        }
    }
}

/// How often each of `n` values occurs among the first `upto` labels.
pub open spec fn counts_upto(labels: Seq<usize>, n: nat, upto: int) -> Seq<usize> {
    Seq::new(n, |v: int| occurrences(labels, v, upto) as usize)
}

/// How often each of `n` values occurs among the labels.
pub open spec fn label_counts(labels: Seq<usize>, n: nat) -> Seq<usize> {
    counts_upto(labels, n, labels.len() as int)
}

proof fn lemma_count_sum_bump(s: Seq<usize>, v: int)
    requires
        0 <= v < s.len(),
        s[v] < usize::MAX,
    ensures
        count_sum(s.update(v, (s[v] + 1) as usize)) == count_sum(s) + 1,
    decreases s.len(),
{
    let t = s.update(v, (s[v] + 1) as usize);
    if v == s.len() - 1 {
        assert(t.drop_last() =~= s.drop_last());
    } else {
        assert(t.drop_last() =~= s.drop_last().update(v, (s[v] + 1) as usize));
        lemma_count_sum_bump(s.drop_last(), v);
    }
}

proof fn lemma_count_sum_zeros(s: Seq<usize>)
    requires
        forall|i: int| 0 <= i < s.len() ==> s[i] == 0,
    ensures
        count_sum(s) == 0,
    decreases s.len(),
{
    if s.len() > 0 {
        lemma_count_sum_zeros(s.drop_last());
    }
}

proof fn lemma_occurrences_bound(labels: Seq<usize>, v: int, upto: int)
    requires
        0 <= upto,
    ensures
        0 <= occurrences(labels, v, upto) <= upto,
    decreases upto,
{
    if upto > 0 {
        lemma_occurrences_bound(labels, v, upto - 1);
    }
}

/// The counts of the labels add up to the number of labels.
pub proof fn lemma_counts_add_up(labels: Seq<usize>, n: nat, upto: int)
    requires
        forall|i: int| 0 <= i < labels.len() ==> labels[i] < n,
        0 <= upto <= labels.len() <= usize::MAX,
    ensures
        count_sum(counts_upto(labels, n, upto)) == upto,
    decreases upto,
{
    if upto == 0 {
        lemma_count_sum_zeros(counts_upto(labels, n, 0));
    } else {
        lemma_counts_add_up(labels, n, upto - 1);
        let before = counts_upto(labels, n, upto - 1);
        let label = labels[upto - 1] as int;
        lemma_occurrences_bound(labels, label, upto - 1);
        assert forall|v: int| 0 <= v < n implies 0 <= #[trigger] occurrences(labels, v, upto)
            <= upto by {
            lemma_occurrences_bound(labels, v, upto);
        }
        assert forall|v: int| 0 <= v < n implies 0 <= #[trigger] occurrences(labels, v, upto - 1)
            <= upto - 1 by {
            lemma_occurrences_bound(labels, v, upto - 1);
        }
        lemma_count_sum_bump(before, label);
        assert(counts_upto(labels, n, upto) =~= before.update(label, (before[label] + 1) as usize));
    }
}

/// Keys can be planned for if each of two or more values has a key and
/// there are no more keys than locators.
pub proof fn lemma_plannable(labels: Seq<usize>, n: nat)
    requires
        forall|i: int| 0 <= i < labels.len() ==> labels[i] < n,
        forall|v: int| 0 <= v < n ==> #[trigger] occurrences(labels, v, labels.len() as int) > 0,
        labels.len() <= 0x1_0000_0000,
        labels.len() <= usize::MAX,
    ensures
        plannable(label_counts(labels, n)),
{
    let counts = label_counts(labels, n);
    if n >= 2 {
        lemma_counts_add_up(labels, n, labels.len() as int);
        assert forall|i: int| 0 <= i < counts.len() implies #[trigger] counts[i] > 0 by {
            lemma_occurrences_bound(labels, i, labels.len() as int);
            assert(occurrences(labels, i, labels.len() as int) > 0);
        }
        lemma_initial_items(counts);
    }
}

/// Counts how often each of the values `0..n` occurs among the labels.
pub fn count_labels(labels: &Vec<usize>, n: usize) -> (counts: Vec<usize>)
    requires
        forall|i: int| 0 <= i < labels@.len() ==> labels@[i] < n,
    ensures
        counts@ == label_counts(labels@, n as nat),
        count_sum(counts@) == labels@.len(),
{
    let mut counts: Vec<usize> = Vec::new();
    let mut v: usize = 0;
    while v < n
        invariant
            v <= n,
            counts@.len() == v,
            forall|i: int| 0 <= i < v ==> counts@[i] == 0,
        decreases n - v,
    {
        counts.push(0);
        v = v + 1;
    }
    proof {
        lemma_count_sum_zeros(counts@);
    }
    let len: usize = labels.len();
    let mut i: usize = 0;
    while i < len
        invariant
            i <= len,
            len == labels@.len(),
            counts@.len() == n,
            forall|j: int| 0 <= j < labels@.len() ==> labels@[j] < n,
            forall|w: int| 0 <= w < n ==> counts@[w] == occurrences(labels@, w, i as int),
            count_sum(counts@) == i,
        decreases len - i,
    {
        let label: usize = labels[i];
        proof {
            lemma_occurrences_bound(labels@, label as int, i as int);
            lemma_count_sum_bump(counts@, label as int);
        }
        let c: usize = counts[label];
        counts.set(label, c + 1);
        i = i + 1;
    }
    proof {
        assert(counts@ =~= label_counts(labels@, n as nat));
    }
    counts
}

/// Every label is one of `n` values, each value has a key, and there are no
/// more keys than locators.
pub open spec fn fits_plan(labels: Seq<usize>, n: nat) -> bool {
    &&& forall|i: int| 0 <= i < labels.len() ==> labels[i] < n
    &&& forall|v: int| 0 <= v < n ==> #[trigger] occurrences(labels, v, labels.len() as int) > 0
    &&& labels.len() <= 0x1_0000_0000
}

/// Tests whether every label is one of `n` values, each value has a key,
/// and there are no more keys than locators. Such keys can be planned for.
pub fn can_plan(labels: &Vec<usize>, n: usize) -> (ok: bool)
    ensures
        ok == fits_plan(labels@, n as nat),
        ok ==> plannable(label_counts(labels@, n as nat)),
{
    let len: usize = labels.len();
    if len as u64 > 0x1_0000_0000u64 {
        return false;
    }
    let mut i: usize = 0;
    while i < len
        invariant
            i <= len,
            len == labels@.len(),
            forall|j: int| 0 <= j < i ==> labels@[j] < n,
        decreases len - i,
    {
        if labels[i] >= n {
            return false;
        }
        i = i + 1;
    }
    let counts: Vec<usize> = count_labels(labels, n);
    let mut v: usize = 0;
    while v < n
        invariant
            v <= n,
            len == labels@.len(),
            counts@ == label_counts(labels@, n as nat),
            forall|w: int| 0 <= w < v ==> #[trigger] occurrences(labels@, w, labels@.len() as int) > 0,
        decreases n - v,
    {
        proof {
            lemma_occurrences_bound(labels@, v as int, labels@.len() as int);
        }
        if counts[v] == 0 {
            proof {
                assert(counts@[v as int] == occurrences(labels@, v as int, labels@.len() as int));
                assert(!(occurrences(labels@, v as int, labels@.len() as int) > 0));
            }
            return false;
        }
        v = v + 1;
    }
    proof {
        lemma_plannable(labels@, n as nat);
    }
    true
}

/// Width of an interval given by its count and its two ends: the number of
/// locators from `lo` to `hi`, modulo `2^32`.
pub open spec fn interval_width(e: (usize, u32, u32)) -> u32 {
    let d = if e.2 >= e.1 {
        e.2 - e.1
    } else {
        e.2 - e.1 + 0x1_0000_0000
    };
    if d + 1 >= 0x1_0000_0000 {
        0
    } else {
        (d + 1) as u32
    }
}

/// The first phase at or above `from` whose mask meets `width`; the number
/// of phases if there is none.
pub open spec fn first_meeting(masks: Seq<u32>, width: u32, from: int) -> int
    decreases masks.len() - from,
{
    if from >= masks.len() {
        masks.len() as int
    } else if masks[from] & width != 0 {
        from
    } else {
        first_meeting(masks, width, from + 1)
    }
}

/// The last phase below `upto` whose mask meets `width`; -1 if there is
/// none.
pub open spec fn last_meeting(masks: Seq<u32>, width: u32, upto: int) -> int
    decreases upto,
{
    if upto <= 0 {
        -1
    } else if masks[upto - 1] & width != 0 {
        upto - 1
    } else {
        last_meeting(masks, width, upto - 1)
    }
}

/// The masks of the phases of `plan`, lowest phase first.
pub open spec fn plan_masks(plan: u32) -> Seq<u32> {
    Seq::new(popcount(plan), |k: int| phase_mask(plan, k as nat))
}

/// The mask of every phase of `plan`, lowest phase first.
pub fn phase_masks(plan: u32) -> (masks: Vec<u32>)
    ensures
        masks@ == plan_masks(plan),
        masks@.len() <= 32,
{
    let shifts: Vec<u32> = phase_shifts(plan);
    let n: usize = shifts.len();
    let mut masks: Vec<u32> = Vec::new();
    let mut k: usize = 0;
    proof {
        crate::bits::lemma_popcount_bound(plan);
    }
    while k < n
        invariant
            k <= n,
            n == popcount(plan),
            shifts@.len() == n,
            forall|j: int| 0 <= j < n ==> #[trigger] shifts@[j] == phase_shift(plan, j as nat),
            masks@.len() == k,
            forall|j: int| 0 <= j < k ==> #[trigger] masks@[j] == phase_mask(plan, j as nat),
        decreases n - k,
    {
        proof {
            lemma_shift_rises(plan, k as nat);
        }
        let end: u32 = if k + 1 < n {
            shifts[k + 1]
        } else {
            32
        };
        masks.push(span_mask(shifts[k], end));
        k = k + 1;
    }
    proof {
        assert(masks@ =~= plan_masks(plan));
    }
    masks
}

/// Marks a value that no single phase settles.
pub const UNRESOLVED: u8 = 255;

/// In which phase each entry of the response table is settled, and what is
/// known of the one entry whose width is no power of two.
pub struct Assignment {
    /// For each entry of the response table the phase that settles it, or
    /// `UNRESOLVED`.
    pub phase_to_resolve: Vec<u8>,
    /// The entry whose width is no power of two; `usize::MAX` if none.
    pub odd_man_out: usize,
    /// The lowest locator of that entry.
    pub lo_omo: u32,
    /// The highest phase whose bits meet its width; `usize::MAX` if none.
    pub phase_omo: usize,
    /// The lowest phase whose bits meet its width; `usize::MAX` if none.
    pub min_phase_affecting_omo: usize,
}

/// The phase that settles an entry of width `width`: for a power of two the
/// first phase that meets it, else `UNRESOLVED`.
pub open spec fn resolving_phase(masks: Seq<u32>, width: u32) -> u8 {
    if is_power_of_two(width) && first_meeting(masks, width, 0) < masks.len() {
        first_meeting(masks, width, 0) as u8
    } else {
        UNRESOLVED
    }
}

/// The last entry among the first `upto` whose width is no power of two;
/// `usize::MAX` if none.
pub open spec fn last_odd(intervals: Seq<(usize, u32, u32)>, upto: int) -> usize
    decreases upto,
{
    if upto <= 0 {
        usize::MAX
    } else if !is_power_of_two(interval_width(intervals[upto - 1])) {
        (upto - 1) as usize
    } else {
        last_odd(intervals, upto - 1)
    }
}

/// `a` says of the intervals what the masks of the phases imply.
pub open spec fn assigns(masks: Seq<u32>, intervals: Seq<(usize, u32, u32)>, a: Assignment) -> bool {
    &&& a.phase_to_resolve@.len() == intervals.len()
    &&& forall|s: int|
        0 <= s < intervals.len() ==> #[trigger] a.phase_to_resolve@[s] == resolving_phase(
            masks,
            interval_width(intervals[s]),
        )
    &&& a.odd_man_out == last_odd(intervals, intervals.len() as int)
    &&& a.odd_man_out != usize::MAX ==> {
        let w = interval_width(intervals[a.odd_man_out as int]);
        &&& a.odd_man_out < intervals.len()
        &&& a.lo_omo == intervals[a.odd_man_out as int].1
        &&& a.phase_omo == if last_meeting(masks, w, masks.len() as int) >= 0 {
            last_meeting(masks, w, masks.len() as int) as usize
        } else {
            usize::MAX
        }
        &&& a.min_phase_affecting_omo == if first_meeting(masks, w, 0) < masks.len() {
            first_meeting(masks, w, 0) as usize
        } else {
            usize::MAX
        }
    }
    &&& a.odd_man_out == usize::MAX ==> a.phase_omo == usize::MAX && a.min_phase_affecting_omo
        == usize::MAX
}

/// Finds for every entry of the response table the phase that settles it.
pub fn assign_phases(masks: &Vec<u32>, intervals: &Vec<(usize, u32, u32)>) -> (a: Assignment)
    requires
        masks@.len() <= 32,
    ensures
        assigns(masks@, intervals@, a),
{
    let nphases: usize = masks.len();
    let n: usize = intervals.len();
    let mut phase_to_resolve: Vec<u8> = Vec::new();
    let mut odd_man_out: usize = usize::MAX;
    let mut lo_omo: u32 = 0;
    let mut phase_omo: usize = usize::MAX;
    let mut min_phase_affecting_omo: usize = usize::MAX;
    let mut i: usize = 0;
    while i < n
        invariant
            i <= n,
            n == intervals@.len(),
            nphases == masks@.len(),
            nphases <= 32,
            phase_to_resolve@.len() == i,
            forall|s: int|
                0 <= s < i ==> #[trigger] phase_to_resolve@[s] == resolving_phase(
                    masks@,
                    interval_width(intervals@[s]),
                ),
            odd_man_out == last_odd(intervals@, i as int),
            odd_man_out != usize::MAX ==> {
                let w = interval_width(intervals@[odd_man_out as int]);
                &&& odd_man_out < i
                &&& lo_omo == intervals@[odd_man_out as int].1
                &&& phase_omo == if last_meeting(masks@, w, masks@.len() as int) >= 0 {
                    last_meeting(masks@, w, masks@.len() as int) as usize
                } else {
                    usize::MAX
                }
                &&& min_phase_affecting_omo == if first_meeting(masks@, w, 0) < masks@.len() {
                    first_meeting(masks@, w, 0) as usize
                } else {
                    usize::MAX
                }
            },
            odd_man_out == usize::MAX ==> phase_omo == usize::MAX && min_phase_affecting_omo
                == usize::MAX,
        decreases n - i,
    {
        let (_c, lo, hi) = intervals[i];
        let width: u32 = hi.wrapping_sub(lo).wrapping_add(1);
        assert(width == interval_width(intervals@[i as int]));
        let is_power: bool = width != 0 && width & (width - 1) == 0;
        let mut first: usize = nphases;
        let mut last: usize = usize::MAX;
        let mut phase: usize = 0;
        while phase < nphases
            invariant
                phase <= nphases,
                nphases == masks@.len(),
                nphases <= 32,
                first <= nphases,
                first < nphases ==> first == first_meeting(masks@, width, 0),
                first == nphases ==> first_meeting(masks@, width, 0) == first_meeting(
                    masks@,
                    width,
                    phase as int,
                ),
                last == if last_meeting(masks@, width, phase as int) >= 0 {
                    last_meeting(masks@, width, phase as int) as usize
                } else {
                    usize::MAX
                },
            decreases nphases - phase,
        {
            if masks[phase] & width != 0 {
                if first == nphases {
                    first = phase;
                }
                last = phase;
            }
            phase = phase + 1;
        }
        if is_power {
            if first < nphases {
                phase_to_resolve.push(first as u8);
            } else {
                phase_to_resolve.push(UNRESOLVED);
            }
        } else {
            odd_man_out = i;
            lo_omo = lo;
            phase_omo = last;
            min_phase_affecting_omo = if first < nphases {
                first
            } else {
                usize::MAX
            };
            phase_to_resolve.push(UNRESOLVED);
        }
        i = i + 1;
    }
    Assignment { phase_to_resolve, odd_man_out, lo_omo, phase_omo, min_phase_affecting_omo }
}

} // verus!
