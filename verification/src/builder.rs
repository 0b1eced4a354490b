//! Building a map: the plan is drawn up, the keys are staged, and the phases
//! are solved one after the other by a solver that the caller supplies.

use crate::bits::{lemma_popcount_bound, popcount};
use crate::growth::{law_table_rises, lemma_planned_items};
use crate::map::{table_wf, CompressedMap, MapCore};
use crate::phases::{lemma_shift_rises, phase_shift, phase_shifts};
use crate::plan::{describes, entry_matches, formulate_plan, Formulation};
use crate::stage::{
    assign_phases, assigns, count_labels, label_counts, phase_masks, plan_masks, Assignment,
};
use crate::widths::{plan_word, plannable, planned_items, table_start};
use vstd::prelude::*;

verus! {

/// What a build is told: the budget of attempts, the attempts used so far,
/// the hash key to start from, and how many threads a solver may use. A
/// build sets `bits_per_value` and `shift` itself for each phase.
pub struct BuildOptions {
    pub max_tries: usize,
    pub try_num: usize,
    pub key_gen: Option<[u8; 16]>,
    pub max_threads: usize,
    pub bits_per_value: Option<u8>,
    pub shift: u8,
}

impl Default for BuildOptions {
    fn default() -> (o: Self)
        ensures
            o.max_tries == 256,
            o.try_num == 0,
            o.key_gen is None,
            o.max_threads == 0,
            o.bits_per_value is None,
            o.shift == 0,
    {
        BuildOptions {
            max_tries: 256,
            try_num: 0,
            key_gen: None,
            max_threads: 0,
            bits_per_value: None,
            shift: 0,
        }
    }
}

/// One phase as handed to the solver. The solver is to build a retrieval
/// structure that returns, for each key of `entries`, the bits of its target
/// locator that lie in this phase: `options.bits_per_value` bits from bit
/// `options.shift` upwards. It then looks up each key of `replay`.
pub struct PhaseTask {
    pub options: BuildOptions,
    /// Number of a key, and the locator that the key is to end up at.
    pub entries: Vec<(usize, u32)>,
    /// Numbers of the keys to look up in the structure once it is built.
    pub replay: Vec<usize>,
}

/// What the solver hands back: the retrieval structure, the number of the
/// attempt that built it, and what it returns for the keys of `replay`.
pub struct PhaseSolution {
    pub core: MapCore<'static>,
    pub try_num: u8,
    pub replayed: Vec<u32>,
}

/// What the staging of the keys goes by.
pub struct StageView {
    /// For each key the number of its value.
    pub labels: Seq<usize>,
    /// For each value its entry of the response table.
    pub value_index: Seq<usize>,
    /// For each entry its count and the ends of its interval.
    pub intervals: Seq<(usize, u32, u32)>,
    /// For each entry the phase that settles it.
    pub resolve: Seq<u8>,
    /// The entry whose width is no power of two.
    pub odd_man_out: usize,
}

impl StageView {
    /// Entry of the response table that key `i` belongs to.
    pub open spec fn slot(self, i: int) -> int {
        self.value_index[self.labels[i] as int] as int
    }

    /// Group that key `i` is staged in: -1 for the odd entry, else the phase
    /// that settles its value.
    pub open spec fn group(self, i: int) -> int {
        if self.slot(i) == self.odd_man_out {
            -1
        } else {
            self.resolve[self.slot(i)] as int
        }
    }

    /// Key `i` with the locator it is to end up at: the highest of its
    /// interval.
    pub open spec fn entry(self, i: int) -> (usize, u32) {
        (i as usize, self.intervals[self.slot(i)].2)
    }

    /// The keys of group `g` among the first `upto` keys, in their order.
    pub open spec fn group_keys(self, g: int, upto: int) -> Seq<(usize, u32)>
        decreases upto,
    {
        if upto <= 0 {
            Seq::empty()
        } else if self.group(upto - 1) == g {
            self.group_keys(g, upto - 1).push(self.entry(upto - 1))
        } else {
            self.group_keys(g, upto - 1)
        }
    }

    /// The staged keys of the groups below `g`: the keys of the odd entry,
    /// then those settled in phase 0, in phase 1, and so on.
    pub open spec fn staged(self, g: int) -> Seq<(usize, u32)>
        decreases g + 1,
    {
        if g <= -1 {
            Seq::empty()
        } else {
            self.staged(g - 1) + self.group_keys(g - 1, self.labels.len() as int)
        }
    }

    pub open spec fn wf(self) -> bool {
        &&& self.resolve.len() == self.intervals.len()
        &&& forall|i: int|
            0 <= i < self.labels.len() ==> (#[trigger] self.labels[i]) < self.value_index.len()
        &&& forall|v: int|
            0 <= v < self.value_index.len() ==> (#[trigger] self.value_index[v])
                < self.intervals.len()
    }
}

/// The staged keys, the number of keys of the odd entry among them, and for
/// each phase where the keys settled in it end.
pub struct Staging {
    pub entries: Vec<(usize, u32)>,
    pub omo_offset: usize,
    pub ends: Vec<usize>,
}

/// `st` stages the keys of `sv` for `nphases` phases.
pub open spec fn stages(sv: StageView, nphases: nat, st: Staging) -> bool {
    &&& st.entries@ == sv.staged(nphases as int)
    &&& st.omo_offset == sv.staged(0).len()
    &&& st.ends@.len() == nphases
    &&& forall|k: int| 0 <= k < nphases ==> (#[trigger] st.ends@[k]) == sv.staged(k + 1).len()
    &&& forall|k: int|
        0 <= k < nphases ==> st.omo_offset <= (#[trigger] st.ends@[k]) <= st.entries@.len()
    &&& forall|j: int|
        0 <= j < st.entries@.len() ==> (#[trigger] st.entries@[j]).0 < sv.labels.len()
}

proof fn lemma_staged_grows(sv: StageView, g: int, h: int)
    requires
        -1 <= g <= h,
    ensures
        sv.staged(g).len() <= sv.staged(h).len(),
        sv.staged(g) == sv.staged(h).take(sv.staged(g).len() as int),
    decreases h - g,
{
    if g < h {
        lemma_staged_grows(sv, g, h - 1);
        assert(sv.staged(g) =~= sv.staged(h).take(sv.staged(g).len() as int));
    } else {
        assert(sv.staged(g) =~= sv.staged(h).take(sv.staged(g).len() as int));
    }
}

/// Stages the keys: first those of the odd entry, then those settled in
/// phase 0, in phase 1, and so on, each group in the order of the keys.
pub fn stage_keys(
    labels: &Vec<usize>,
    value_index: &Vec<usize>,
    intervals: &Vec<(usize, u32, u32)>,
    a: &Assignment,
    nphases: usize,
) -> (st: Staging)
    requires
        nphases <= 32,
        (StageView {
            labels: labels@,
            value_index: value_index@,
            intervals: intervals@,
            resolve: a.phase_to_resolve@,
            odd_man_out: a.odd_man_out,
        }).wf(),
    ensures
        stages(
            StageView {
                labels: labels@,
                value_index: value_index@,
                intervals: intervals@,
                resolve: a.phase_to_resolve@,
                odd_man_out: a.odd_man_out,
            },
            nphases as nat,
            st,
        ),
{
    let ghost sv = StageView {
        labels: labels@,
        value_index: value_index@,
        intervals: intervals@,
        resolve: a.phase_to_resolve@,
        odd_man_out: a.odd_man_out,
    };
    let len: usize = labels.len();
    let mut entries: Vec<(usize, u32)> = Vec::new();
    let mut ends: Vec<usize> = Vec::new();
    let mut omo_offset: usize = 0;
    let mut g: usize = 0;
    while g <= nphases
        invariant
            g <= nphases + 1,
            nphases <= 32,
            len == labels@.len(),
            sv.wf(),
            sv.labels == labels@,
            sv.value_index == value_index@,
            sv.intervals == intervals@,
            sv.resolve == a.phase_to_resolve@,
            sv.odd_man_out == a.odd_man_out,
            entries@ == sv.staged(g as int - 1),
            g >= 1 ==> omo_offset == sv.staged(0).len(),
            ends@.len() == if g >= 1 {
                g - 1
            } else {
                0
            },
            forall|k: int| 0 <= k < ends@.len() ==> (#[trigger] ends@[k]) == sv.staged(k + 1).len(),
            forall|j: int| 0 <= j < entries@.len() ==> (#[trigger] entries@[j]).0 < len,
        decreases nphases + 1 - g,
    {
        let ghost before: Seq<(usize, u32)> = entries@;
        let mut i: usize = 0;
        while i < len
            invariant
                i <= len,
                g <= nphases,
                nphases <= 32,
                len == labels@.len(),
                sv.wf(),
                sv.labels == labels@,
                sv.value_index == value_index@,
                sv.intervals == intervals@,
                sv.resolve == a.phase_to_resolve@,
                sv.odd_man_out == a.odd_man_out,
                entries@ == before + sv.group_keys(g as int - 1, i as int),
                forall|j: int| 0 <= j < entries@.len() ==> (#[trigger] entries@[j]).0 < len,
            decreases len - i,
        {
            let slot: usize = value_index[labels[i]];
            let in_group: bool = if g == 0 {
                slot == a.odd_man_out
            } else {
                slot != a.odd_man_out && a.phase_to_resolve[slot] as usize == g - 1
            };
            if in_group {
                entries.push((i, intervals[slot].2));
            }
            i = i + 1;
            proof {
                assert(entries@ =~= before + sv.group_keys(g as int - 1, i as int));
            }
        }
        if g == 0 {
            omo_offset = entries.len();
            proof {
                assert(sv.staged(-1) =~= Seq::<(usize, u32)>::empty());
            }
        } else {
            ends.push(entries.len());
        }
        g = g + 1;
    }
    let st = Staging { entries, omo_offset, ends };
    proof {
        assert forall|k: int| 0 <= k < nphases implies st.omo_offset <= (#[trigger] st.ends@[k])
            <= st.entries@.len() by {
            lemma_staged_grows(sv, 0, k + 1);
            lemma_staged_grows(sv, k + 1, nphases as int);
        }
    }
    st
}

/// The keys of the odd entry that phase `phase` takes up: all of them above
/// the highest phase that meets the entry's width; in that phase those whose
/// bits so far lie below the entry's lowest locator; none below it.
pub open spec fn odd_entries(
    entries: Seq<(usize, u32)>,
    current: Seq<u32>,
    phase: usize,
    phase_omo: usize,
    lo_omo: u32,
    upto: int,
) -> Seq<(usize, u32)>
    decreases upto,
{
    if upto <= 0 {
        Seq::empty()
    } else {
        let before = odd_entries(entries, current, phase, phase_omo, lo_omo, upto - 1);
        if phase > phase_omo || (phase == phase_omo && current[upto - 1] < lo_omo) {
            before.push(entries[upto - 1])
        } else {
            before
        }
    }
}

/// The keys that phase `phase` takes up, with their target locators: those
/// of the odd entry that take part, then all keys settled in this phase or
/// a lower one.
pub open spec fn phase_entries(
    st: Staging,
    current: Seq<u32>,
    phase: usize,
    phase_omo: usize,
    lo_omo: u32,
) -> Seq<(usize, u32)> {
    odd_entries(st.entries@, current, phase, phase_omo, lo_omo, st.omo_offset as int)
        + st.entries@.subrange(st.omo_offset as int, st.ends@[phase as int] as int)
}

/// The keys to look up once phase `phase` is built: those of the odd entry,
/// from the lowest phase that meets its width up to, but not including, the
/// highest.
pub open spec fn replay_keys(st: Staging, phase: usize, a: Assignment) -> Seq<usize> {
    if a.min_phase_affecting_omo <= phase < a.phase_omo {
        Seq::new(st.omo_offset as nat, |j: int| st.entries@[j].0)
    } else {
        Seq::empty()
    }
}

/// Lists the keys that phase `phase` takes up.
pub fn collect_entries(st: &Staging, current: &Vec<u32>, phase: usize, phase_omo: usize, lo_omo: u32) -> (r:
    Vec<(usize, u32)>)
    requires
        phase < st.ends@.len(),
        st.omo_offset <= st.ends@[phase as int] <= st.entries@.len(),
        current@.len() == st.omo_offset,
    ensures
        r@ == phase_entries(*st, current@, phase, phase_omo, lo_omo),
{
    let mut r: Vec<(usize, u32)> = Vec::new();
    let mut j: usize = 0;
    while j < st.omo_offset
        invariant
            j <= st.omo_offset,
            st.omo_offset <= st.entries@.len(),
            current@.len() == st.omo_offset,
            r@ == odd_entries(st.entries@, current@, phase, phase_omo, lo_omo, j as int),
        decreases st.omo_offset - j,
    {
        if phase > phase_omo || (phase == phase_omo && current[j] < lo_omo) {
            r.push(st.entries[j]);
        }
        j = j + 1;
    }
    let end: usize = st.ends[phase];
    let ghost head: Seq<(usize, u32)> = r@;
    while j < end
        invariant
            st.omo_offset <= j <= end,
            end <= st.entries@.len(),
            r@ == head + st.entries@.subrange(st.omo_offset as int, j as int),
        decreases end - j,
    {
        r.push(st.entries[j]);
        j = j + 1;
        proof {
            assert(r@ =~= head + st.entries@.subrange(st.omo_offset as int, j as int));
        }
    }
    r
}

/// Lists the keys to look up once phase `phase` is built.
pub fn collect_replay(st: &Staging, phase: usize, a: &Assignment) -> (r: Vec<usize>)
    requires
        st.omo_offset <= st.entries@.len(),
    ensures
        r@ == replay_keys(*st, phase, *a),
{
    let mut r: Vec<usize> = Vec::new();
    if a.min_phase_affecting_omo <= phase && phase < a.phase_omo {
        let mut j: usize = 0;
        while j < st.omo_offset
            invariant
                j <= st.omo_offset,
                st.omo_offset <= st.entries@.len(),
                r@.len() == j,
                forall|i: int| 0 <= i < j ==> r@[i] == st.entries@[i].0,
            decreases st.omo_offset - j,
        {
            r.push(st.entries[j].0);
            j = j + 1;
        }
    }
    proof {
        assert(r@ =~= replay_keys(*st, phase, *a));
    }
    r
}

/// The options of phase `phase`: what is left of the budget, at most 255
/// attempts; the hash key of the phase below, or the caller's for phase 0;
/// and the bits that the phase settles.
pub open spec fn phase_options(
    options: BuildOptions,
    tries: usize,
    parent_key: Option<[u8; 16]>,
    shift: u32,
    end: u32,
) -> BuildOptions {
    BuildOptions {
        max_tries: if options.max_tries - tries > 255 {
            255
        } else if options.max_tries >= tries {
            (options.max_tries - tries) as usize
        } else {
            0
        },
        try_num: 0,
        key_gen: parent_key,
        max_threads: options.max_threads,
        bits_per_value: Some((end - shift) as u8),
        shift: shift as u8,
    }
}

/// Puts the options of a phase together.
pub fn make_phase_options(
    options: &BuildOptions,
    tries: usize,
    parent_key: Option<[u8; 16]>,
    shift: u32,
    end: u32,
) -> (o: BuildOptions)
    requires
        shift < end <= 32,
    ensures
        o == phase_options(*options, tries, parent_key, shift, end),
{
    let left: usize = if options.max_tries >= tries {
        options.max_tries - tries
    } else {
        0
    };
    BuildOptions {
        max_tries: if left > 255 {
            255
        } else {
            left
        },
        try_num: 0,
        key_gen: parent_key,
        max_threads: options.max_threads,
        bits_per_value: Some((end - shift) as u8),
        shift: shift as u8,
    }
}

/// The bits of the odd entry's keys after a phase has been replayed: each
/// takes in, at the phase's place, what the phase returned for it.
pub open spec fn absorbed(current: Seq<u32>, replayed: Seq<u32>, shift: u32, mask: u32) -> Seq<u32> {
    Seq::new(current.len(), |j: int| current[j] | ((replayed[j] << shift) & mask))
}

/// Takes what a phase returned for the keys of the odd entry into their
/// bits so far.
pub fn absorb_replay(current: &mut Vec<u32>, replayed: &Vec<u32>, shift: u32, mask: u32)
    requires
        shift < 32,
        replayed@.len() == old(current)@.len(),
    ensures
        final(current)@ == absorbed(old(current)@, replayed@, shift, mask),
{
    let n: usize = current.len();
    let mut j: usize = 0;
    while j < n
        invariant
            j <= n,
            shift < 32,
            n == current@.len(),
            n == replayed@.len(),
            n == old(current)@.len(),
            forall|i: int|
                0 <= i < j ==> current@[i] == old(current)@[i] | ((replayed@[i] << shift) & mask),
            forall|i: int| j <= i < n ==> current@[i] == old(current)@[i],
        decreases n - j,
    {
        let c: u32 = current[j];
        current.set(j, c | ((replayed[j] << shift) & mask));
        j = j + 1;
    }
    proof {
        assert(current@ =~= absorbed(old(current)@, replayed@, shift, mask));
    }
}

/// The response table of a plan with the values in place of their numbers.
pub open spec fn response_table<V>(items: Seq<crate::order::Item>, values: Seq<V>) -> Seq<(u32, V)> {
    Seq::new(items.len(), |k: int| (table_start(items, k) as u32, values[items[k].id as int]))
}

/// Moves the values into the order of the response table.
pub fn arrange_responses<V>(values: Vec<V>, f: &Formulation) -> (table: Vec<(u32, V)>)
    requires
        values@.len() == f.responses@.len(),
        f.value_index@.len() == values@.len(),
        forall|v: int| 0 <= v < values@.len() ==> (#[trigger] f.value_index@[v]) < values@.len(),
        forall|v: int|
            0 <= v < values@.len() ==> (#[trigger] f.responses@[f.value_index@[v] as int]).1 == v,
        forall|k: int|
            0 <= k < values@.len() ==> f.value_index@[(#[trigger] f.responses@[k]).1 as int] == k
                && f.responses@[k].1 < values@.len(),
    ensures
        table@.len() == values@.len(),
        forall|k: int|
            0 <= k < table@.len() ==> #[trigger] table@[k] == (
                f.responses@[k].0,
                values@[f.responses@[k].1 as int],
            ),
{
    let n: usize = values.len();
    let mut values: Vec<V> = values;
    let ghost all: Seq<V> = values@;
    let mut slots: Vec<Option<(u32, V)>> = Vec::new();
    let mut k: usize = 0;
    while k < n
        invariant
            k <= n,
            slots@.len() == k,
            forall|j: int| 0 <= j < k ==> slots@[j] is None,
        decreases n - k,
    {
        slots.push(None);
        k = k + 1;
    }
    let mut v: usize = n;
    while v > 0
        invariant
            v <= n,
            n == all.len(),
            n == f.responses@.len(),
            f.value_index@.len() == n,
            values@ == all.take(v as int),
            slots@.len() == n,
            forall|w: int| 0 <= w < n ==> (#[trigger] f.value_index@[w]) < n,
            forall|w: int| 0 <= w < n ==> (#[trigger] f.responses@[f.value_index@[w] as int]).1 == w,
            forall|j: int|
                0 <= j < n ==> f.value_index@[(#[trigger] f.responses@[j]).1 as int] == j
                    && f.responses@[j].1 < n,
            forall|j: int|
                0 <= j < n ==> #[trigger] slots@[j] == if f.responses@[j].1 >= v {
                    Some((f.responses@[j].0, all[f.responses@[j].1 as int]))
                } else {
                    None::<(u32, V)>
                },
        decreases v,
    {
        v = v - 1;
        let value: V = values.pop().unwrap();
        let slot: usize = f.value_index[v];
        let lower: u32 = f.responses[slot].0;
        proof {
            assert(f.responses@[f.value_index@[v as int] as int].1 == v);
            assert(value == all[v as int]);
            assert(values@ =~= all.take(v as int));
        }
        slots.set(slot, Some((lower, value)));
    }
    let mut back: Vec<(u32, V)> = Vec::new();
    let mut left: usize = n;
    while left > 0
        invariant
            left <= n,
            n == all.len(),
            n == f.responses@.len(),
            slots@.len() == left,
            back@.len() == n - left,
            forall|j: int|
                0 <= j < left ==> #[trigger] slots@[j] == Some(
                    (f.responses@[j].0, all[f.responses@[j].1 as int]),
                ),
            forall|j: int|
                0 <= j < n - left ==> #[trigger] back@[j] == (
                    f.responses@[n - 1 - j].0,
                    all[f.responses@[n - 1 - j].1 as int],
                ),
        decreases left,
    {
        left = left - 1;
        let taken: Option<(u32, V)> = slots.pop().unwrap();
        back.push(taken.unwrap());
    }
    let mut table: Vec<(u32, V)> = Vec::new();
    let mut rest: usize = n;
    while rest > 0
        invariant
            rest <= n,
            n == all.len(),
            n == f.responses@.len(),
            back@.len() == rest,
            table@.len() == n - rest,
            forall|j: int|
                0 <= j < rest ==> #[trigger] back@[j] == (
                    f.responses@[n - 1 - j].0,
                    all[f.responses@[n - 1 - j].1 as int],
                ),
            forall|j: int|
                0 <= j < n - rest ==> #[trigger] table@[j] == (
                    f.responses@[j].0,
                    all[f.responses@[j].1 as int],
                ),
        decreases rest,
    {
        rest = rest - 1;
        let entry: (u32, V) = back.pop().unwrap();
        table.push(entry);
    }
    table
}

/// What a build prepares before the phases are solved.
pub struct Prepared {
    /// The plan of the values.
    pub plan: Formulation,
    /// For each phase, the mask of its bits.
    pub masks: Vec<u32>,
    /// For each phase, the position of its lowest bit.
    pub shifts: Vec<u32>,
    /// For each entry of the response table, the phase that settles it.
    pub assignment: Assignment,
    /// The keys in the order in which the phases take them up.
    pub staging: Staging,
}

impl Prepared {
    /// Position just above the bits of phase `k`.
    pub open spec fn end(self, k: int) -> u32 {
        if k + 1 < self.shifts@.len() {
            self.shifts@[k + 1]
        } else {
            32
        }
    }

    /// The keys of the odd entry start with no bits seen.
    pub open spec fn blank(self) -> Seq<u32> {
        Seq::new(self.staging.omo_offset as nat, |j: int| 0u32)
    }
}

/// `p` is what a build prepares for keys with these labels among `n`
/// values.
pub open spec fn prepares(labels: Seq<usize>, n: nat, p: Prepared) -> bool {
    &&& describes(planned_items(label_counts(labels, n)), p.plan)
    &&& p.masks@ == plan_masks(p.plan.plan)
    &&& p.shifts@.len() == popcount(p.plan.plan)
    &&& forall|k: int|
        0 <= k < p.shifts@.len() ==> #[trigger] p.shifts@[k] == phase_shift(p.plan.plan, k as nat)
    &&& assigns(p.masks@, p.plan.intervals@, p.assignment)
    &&& stages(
        StageView {
            labels,
            value_index: p.plan.value_index@,
            intervals: p.plan.intervals@,
            resolve: p.assignment.phase_to_resolve@,
            odd_man_out: p.assignment.odd_man_out,
        },
        popcount(p.plan.plan),
        p.staging,
    )
}

/// Draws up the plan for keys with these labels among `n` values, finds the
/// phase of each value, and stages the keys.
pub fn prepare(labels: &Vec<usize>, n: usize) -> (p: Prepared)
    requires
        n >= 2,
        forall|i: int| 0 <= i < labels@.len() ==> labels@[i] < n,
        plannable(label_counts(labels@, n as nat)),
    ensures
        prepares(labels@, n as nat, p),
{
    let counts: Vec<usize> = count_labels(labels, n);
    let ghost items = planned_items(counts@);
    let f: Formulation = formulate_plan(&counts);
    proof {
        lemma_planned_items(counts@);
        assert forall|v: int| 0 <= v < n implies (#[trigger] f.value_index@[v]) < n by {
            assert(crate::widths::has_id(items, v));
            let k = choose|k: int| 0 <= k < items.len() && (#[trigger] items[k]).id == v;
            assert(entry_matches(items, f, k));
        }
    }
    let masks: Vec<u32> = phase_masks(f.plan);
    let shifts: Vec<u32> = phase_shifts(f.plan);
    let nphases: usize = masks.len();
    let a: Assignment = assign_phases(&masks, &f.intervals);
    let st: Staging = stage_keys(labels, &f.value_index, &f.intervals, &a, nphases);
    Prepared { plan: f, masks, shifts, assignment: a, staging: st }
}

/// One phase of a build: the attempts used before it, the hash key it starts
/// from, the bits seen so far of the keys of the odd entry, what the solver
/// was asked and what it answered.
pub struct PhaseRecord {
    pub tries: usize,
    pub parent_key: Option<[u8; 16]>,
    pub current: Seq<u32>,
    pub task: PhaseTask,
    pub solution: PhaseSolution,
}

impl PhaseRecord {
    /// The attempts used once the phase is solved.
    pub open spec fn tries_after(self) -> usize {
        if self.tries + self.solution.try_num > usize::MAX {
            usize::MAX
        } else {
            (self.tries + self.solution.try_num) as usize
        }
    }

    /// The bits seen of the keys of the odd entry once the phase is solved.
    pub open spec fn current_after(self, shift: u32, mask: u32) -> Seq<u32> {
        if self.task.replay@.len() > 0 {
            absorbed(self.current, self.solution.replayed@, shift, mask)
        } else {
            self.current
        }
    }
}

/// The solver was asked for phase `k` what the plan calls for, and gave the
/// answer on record.
pub open spec fn asked<F: Fn(PhaseTask) -> Option<PhaseSolution>>(
    p: Prepared,
    options: BuildOptions,
    solve: F,
    k: int,
    rec: PhaseRecord,
) -> bool {
    &&& rec.task.options == phase_options(options, rec.tries, rec.parent_key, p.shifts@[k], p.end(k))
    &&& rec.task.entries@ == phase_entries(
        p.staging,
        rec.current,
        k as usize,
        p.assignment.phase_omo,
        p.assignment.lo_omo,
    )
    &&& rec.task.replay@ == replay_keys(p.staging, k as usize, p.assignment)
    &&& call_ensures(solve, (rec.task,), Some(rec.solution))
    &&& rec.task.replay@.len() > 0 ==> rec.solution.replayed@.len() == rec.current.len()
}

/// Phase `k` went on from where the phase below it ended.
pub open spec fn went_on(p: Prepared, k: int, before: PhaseRecord, rec: PhaseRecord) -> bool {
    &&& rec.tries == before.tries_after()
    &&& rec.parent_key == Some(before.solution.core.hash_key)
    &&& rec.current == before.current_after(p.shifts@[k - 1], p.masks@[k - 1])
}

/// The records are those of a build that solved its first phases with
/// `solve`: the lowest phase started from the caller's options, and each
/// phase went on from the one below.
pub open spec fn runs<F: Fn(PhaseTask) -> Option<PhaseSolution>>(
    p: Prepared,
    options: BuildOptions,
    solve: F,
    trace: Seq<PhaseRecord>,
) -> bool {
    &&& trace.len() <= p.shifts@.len()
    &&& trace.len() >= 1 ==> trace[0].tries == options.try_num && trace[0].parent_key
        == options.key_gen && trace[0].current == p.blank()
    &&& forall|k: int| 0 <= k < trace.len() ==> #[trigger] asked(p, options, solve, k, trace[k])
    &&& forall|k: int| 1 <= k < trace.len() ==> #[trigger] went_on(p, k, trace[k - 1], trace[k])
}

/// The retrieval structures and attempt numbers are those on record.
pub open spec fn recorded(trace: Seq<PhaseRecord>, salt: Seq<u8>, core: Seq<MapCore<'static>>) -> bool {
    &&& salt.len() == trace.len()
    &&& core.len() == trace.len()
    &&& forall|k: int|
        0 <= k < trace.len() ==> #[trigger] core[k] == trace[k].solution.core && salt[k]
            == trace[k].solution.try_num
}

/// The salt that a map keeps: the attempt number of every phase but the
/// lowest.
pub open spec fn kept_salt(salt: Seq<u8>) -> Seq<u8> {
    Seq::new(
        (if salt.len() >= 1 {
            salt.len() - 1
        } else {
            0
        }) as nat,
        |i: int| salt[i + 1],
    )
}

/// The attempts used after the phases on record.
pub open spec fn tries_used(options: BuildOptions, trace: Seq<PhaseRecord>) -> usize {
    if trace.len() == 0 {
        options.try_num
    } else {
        trace.last().tries_after()
    }
}

/// The solver never fails, and answers for every key it is to look up.
pub open spec fn always_solves<F: Fn(PhaseTask) -> Option<PhaseSolution>>(solve: F) -> bool {
    forall|t: PhaseTask, r: Option<PhaseSolution>| #[trigger]
        call_ensures(solve, (t,), r) ==> r is Some && r->0.replayed@.len() == t.replay@.len()
}

/// Solves the phases in turn, lowest first. Returns the attempt number and
/// the retrieval structure of each phase, or nothing if the solver fails for
/// a phase or does not answer for every key it was to look up.
pub fn solve_phases<F: Fn(PhaseTask) -> Option<PhaseSolution>>(
    p: &Prepared,
    options: &mut BuildOptions,
    solve: F,
) -> (r: Option<(Vec<u8>, Vec<MapCore<'static>>)>)
    requires
        p.shifts@.len() == popcount(p.plan.plan),
        p.masks@.len() == p.shifts@.len(),
        forall|k: int|
            0 <= k < p.shifts@.len() ==> #[trigger] p.shifts@[k] == phase_shift(p.plan.plan, k as nat),
        p.staging.ends@.len() == p.shifts@.len(),
        forall|k: int|
            0 <= k < p.shifts@.len() ==> p.staging.omo_offset <= (#[trigger] p.staging.ends@[k])
                <= p.staging.entries@.len(),
        forall|t: PhaseTask| call_requires(solve, (t,)),
    ensures
        match r {
            Some((salt, core)) => exists|trace: Seq<PhaseRecord>|
                trace.len() == p.shifts@.len() && #[trigger] runs(*p, *old(options), solve, trace)
                    && recorded(trace, salt@, core@) && *final(options) == (BuildOptions {
                    try_num: tries_used(*old(options), trace),
                    ..*old(options)
                }),
            None => *final(options) == *old(options),
        },
        always_solves(solve) ==> r is Some,
{
    let ghost plan: u32 = p.plan.plan;
    let nphases: usize = p.shifts.len();
    let mut salt: Vec<u8> = Vec::new();
    let mut core: Vec<MapCore<'static>> = Vec::new();
    let mut tries: usize = options.try_num;
    let mut current: Vec<u32> = Vec::new();
    let mut j: usize = 0;
    while j < p.staging.omo_offset
        invariant
            j <= p.staging.omo_offset,
            current@.len() == j,
            forall|i: int| 0 <= i < j ==> current@[i] == 0,
        decreases p.staging.omo_offset - j,
    {
        current.push(0);
        j = j + 1;
    }
    proof {
        lemma_popcount_bound(plan);
        assert(current@ =~= p.blank());
    }
    let ghost mut trace: Seq<PhaseRecord> = Seq::empty();
    let mut phase: usize = 0;
    while phase < nphases
        invariant
            phase <= nphases,
            nphases == popcount(plan),
            nphases <= 32,
            plan == p.plan.plan,
            p.shifts@.len() == nphases,
            p.masks@.len() == nphases,
            forall|k: int|
                0 <= k < nphases ==> #[trigger] p.shifts@[k] == phase_shift(plan, k as nat),
            p.staging.ends@.len() == nphases,
            forall|k: int|
                0 <= k < nphases ==> p.staging.omo_offset <= (#[trigger] p.staging.ends@[k])
                    <= p.staging.entries@.len(),
            current@.len() == p.staging.omo_offset,
            *options == *old(options),
            forall|t: PhaseTask| call_requires(solve, (t,)),
            trace.len() == phase,
            runs(*p, *old(options), solve, trace),
            recorded(trace, salt@, core@),
            tries == tries_used(*old(options), trace),
            phase == 0 ==> current@ == p.blank(),
            phase >= 1 ==> current@ == trace[phase - 1].current_after(
                p.shifts@[phase - 1],
                p.masks@[phase - 1],
            ),
        decreases nphases - phase,
    {
        proof {
            lemma_shift_rises(plan, phase as nat);
        }
        let shift: u32 = p.shifts[phase];
        let end: u32 = if phase + 1 < nphases {
            p.shifts[phase + 1]
        } else {
            32
        };
        let parent_key: Option<[u8; 16]> = if phase == 0 {
            options.key_gen
        } else {
            Some(core[phase - 1].hash_key)
        };
        let task = PhaseTask {
            options: make_phase_options(options, tries, parent_key, shift, end),
            entries: collect_entries(
                &p.staging,
                &current,
                phase,
                p.assignment.phase_omo,
                p.assignment.lo_omo,
            ),
            replay: collect_replay(&p.staging, phase, &p.assignment),
        };
        let replays: bool = task.replay.len() > 0;
        let ghost asked_task: PhaseTask = task;
        let ghost before: Seq<u32> = current@;
        let ghost tries_before: usize = tries;
        match solve(task) {
            None => {
                proof {
                    assert(call_ensures(solve, (asked_task,), None::<PhaseSolution>));
                }
                return None;
            },
            Some(solution) => {
                let ghost rec = PhaseRecord {
                    tries: tries_before,
                    parent_key,
                    current: before,
                    task: asked_task,
                    solution,
                };
                tries = tries.saturating_add(solution.try_num as usize);
                salt.push(solution.try_num);
                if replays {
                    if solution.replayed.len() != current.len() {
                        return None;
                    }
                    absorb_replay(&mut current, &solution.replayed, shift, p.masks[phase]);
                }
                core.push(solution.core);
                proof {
                    let longer = trace.push(rec);
                    assert(asked(*p, *old(options), solve, phase as int, rec));
                    assert forall|k: int| 0 <= k < longer.len() implies #[trigger] asked(
                        *p,
                        *old(options),
                        solve,
                        k,
                        longer[k],
                    ) by {
                        if k < phase {
                            assert(asked(*p, *old(options), solve, k, trace[k]));
                        }
                    }
                    assert forall|k: int| 1 <= k < longer.len() implies #[trigger] went_on(
                        *p,
                        k,
                        longer[k - 1],
                        longer[k],
                    ) by {
                        if k < phase {
                            assert(went_on(*p, k, trace[k - 1], trace[k]));
                        }
                    }
                    trace = longer;
                }
            },
        }
        phase = phase + 1;
    }
    options.try_num = tries;
    Some((salt, core))
}

impl<V> CompressedMap<'static, V> {
    /// The map of a single value: no phase, and the whole locator space for
    /// the value.
    pub fn single(values: Vec<V>) -> (m: Self)
        requires
            values@.len() == 1,
        ensures
            m@.wf(),
            m@.plan == 0,
            m@.responses == seq![(0u32, values@[0])],
            m@.salt.len() == 0,
            m@.core.len() == 0,
    {
        let mut values: Vec<V> = values;
        let ghost all: Seq<V> = values@;
        let only: V = values.pop().unwrap();
        let mut table: Vec<(u32, V)> = Vec::new();
        table.push((0, only));
        let m = CompressedMap::from_parts(0, table, Vec::new(), Vec::new());
        proof {
            assert(popcount(0u32) == 0);
            assert(m@.responses =~= seq![(0u32, all[0])]);
        }
        m
    }

    /// Builds a map for keys numbered `0..labels.len()`, where key `i` has
    /// the value `values[labels[i]]`.
    ///
    /// `solve` is asked to build the retrieval structure of each phase in
    /// turn, lowest phase first. If it fails for a phase, so does the build.
    /// There is no map for no keys. A single value needs no phase, and
    /// `solve` is not asked.
    pub fn build<F: Fn(PhaseTask) -> Option<PhaseSolution>>(
        values: Vec<V>,
        labels: &Vec<usize>,
        options: &mut BuildOptions,
        solve: F,
    ) -> (r: Option<Self>)
        requires
            forall|i: int| 0 <= i < labels@.len() ==> labels@[i] < values@.len(),
            plannable(label_counts(labels@, values@.len())),
            forall|t: PhaseTask| call_requires(solve, (t,)),
        ensures
            labels@.len() == 0 ==> r is None,
            labels@.len() > 0 && always_solves(solve) ==> r is Some,
            r is None ==> *final(options) == *old(options),
            r matches Some(m) ==> m@.wf(),
            labels@.len() > 0 && values@.len() == 1 ==> (r matches Some(m) && m@.plan == 0
                && m@.responses == seq![(0u32, values@[0])] && m@.salt.len() == 0 && m@.core.len()
                == 0) && *final(options) == *old(options),
            values@.len() >= 2 ==> (r matches Some(m) ==> m@.plan == plan_word(
                planned_items(label_counts(labels@, values@.len())),
            ) && m@.responses == response_table(
                planned_items(label_counts(labels@, values@.len())),
                values@,
            ) && exists|p: Prepared, trace: Seq<PhaseRecord>, salt: Seq<u8>, core: Seq<MapCore<'static>>|
                prepares(labels@, values@.len(), p) && trace.len() == m@.phases() && #[trigger] runs(
                    p,
                    *old(options),
                    solve,
                    trace,
                ) && #[trigger] recorded(trace, salt, core) && m@.salt == kept_salt(salt) && m@.core
                    == Seq::new(core.len(), |k: int| core[k]@) && *final(options) == (BuildOptions {
                    try_num: tries_used(*old(options), trace),
                    ..*old(options)
                })),
    {
        let n: usize = values.len();
        if labels.len() == 0 {
            return None;
        }
        let ghost all: Seq<V> = values@;
        if n == 1 {
            return Some(Self::single(values));
        }
        assert(labels@[0] < n);
        let ghost counts = label_counts(labels@, n as nat);
        let ghost items = planned_items(counts);
        let p: Prepared = prepare(labels, n);
        proof {
            lemma_planned_items(counts);
            assert forall|v: int| 0 <= v < n implies (#[trigger] p.plan.value_index@[v]) < n
                && p.plan.responses@[p.plan.value_index@[v] as int].1 == v by {
                assert(crate::widths::has_id(items, v));
                let k = choose|k: int| 0 <= k < items.len() && (#[trigger] items[k]).id == v;
                assert(entry_matches(items, p.plan, k));
            }
            assert forall|k: int| 0 <= k < n implies p.plan.value_index@[(
            #[trigger] p.plan.responses@[k]).1 as int] == k && p.plan.responses@[k].1 < n by {
                assert(entry_matches(items, p.plan, k));
                assert(items[k].id < n);
            }
        }
        let (salt, core) = match solve_phases(&p, options, solve) {
            None => {
                return None;
            },
            Some(found) => found,
        };
        let nphases: usize = salt.len();
        let mut kept: Vec<u8> = Vec::new();
        let mut k: usize = 1;
        while k < nphases
            invariant
                1 <= k,
                nphases == salt@.len(),
                k <= nphases || k == 1,
                kept@.len() == k - 1,
                forall|i: int| 0 <= i < k - 1 ==> kept@[i] == salt@[i + 1],
            decreases nphases - k,
        {
            kept.push(salt[k]);
            k = k + 1;
        }
        let table: Vec<(u32, V)> = arrange_responses(values, &p.plan);
        proof {
            assert(table@ =~= response_table(items, all)) by {
                assert forall|k: int| 0 <= k < n implies #[trigger] table@[k] == response_table(
                    items,
                    all,
                )[k] by {
                    assert(entry_matches(items, p.plan, k));
                }
            }
            assert(table_wf(table@)) by {
                assert(entry_matches(items, p.plan, 0));
                law_table_rises(counts, 0, 1);
                assert forall|i: int, j: int| 0 <= i < j < table@.len() implies (
                #[trigger] table@[i]).0 < (#[trigger] table@[j]).0 by {
                    law_table_rises(counts, i, j);
                }
            }
            assert(kept@ =~= kept_salt(salt@));
        }
        let ghost core_seq: Seq<MapCore<'static>> = core@;
        let m = CompressedMap::from_parts(p.plan.plan, table, kept, core);
        proof {
            let trace = choose|trace: Seq<PhaseRecord>|
                trace.len() == p.shifts@.len() && #[trigger] runs(p, *old(options), solve, trace)
                    && recorded(trace, salt@, core_seq) && *options == (BuildOptions {
                    try_num: tries_used(*old(options), trace),
                    ..*old(options)
                });
            assert(runs(p, *old(options), solve, trace) && recorded(trace, salt@, core_seq));
        }
        Some(m)
    }
}

} // verus!
