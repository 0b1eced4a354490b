//! Which keys a phase takes up: every key whose value is settled in that
//! phase or a lower one, and the keys of the odd entry as their bits call
//! for.

use crate::builder::{odd_entries, phase_entries, stages, StageView, Staging};
use vstd::prelude::*;

verus! {

/// A key is among the keys of its group.
proof fn lemma_key_in_group(sv: StageView, i: int, upto: int) -> (j: int)
    requires
        0 <= i < upto <= sv.labels.len(),
    ensures
        0 <= j < sv.group_keys(sv.group(i), upto).len(),
        sv.group_keys(sv.group(i), upto)[j] == sv.entry(i),
    decreases upto,
{
    let g = sv.group(i);
    if i == upto - 1 {
        sv.group_keys(g, upto - 1).len() as int
    } else {
        let j = lemma_key_in_group(sv, i, upto - 1);
        j
    }
}

/// The staged keys of the groups below `h` begin with those of the groups
/// below `g`, for `g <= h`.
proof fn lemma_staged_prefix(sv: StageView, g: int, h: int)
    requires
        -1 <= g <= h,
    ensures
        sv.staged(g).len() <= sv.staged(h).len(),
        forall|j: int| 0 <= j < sv.staged(g).len() ==> sv.staged(h)[j] == sv.staged(g)[j],
    decreases h - g,
{
    if g < h {
        lemma_staged_prefix(sv, g, h - 1);
    }
}

/// A key settled in phase `g` is staged behind the keys of the odd entry
/// and before the end of phase `g`.
proof fn lemma_key_is_staged(sv: StageView, i: int) -> (j: int)
    requires
        0 <= i < sv.labels.len(),
        -1 <= sv.group(i),
    ensures
        sv.staged(sv.group(i)).len() <= j < sv.staged(sv.group(i) + 1).len(),
        sv.staged(sv.group(i) + 1)[j] == sv.entry(i),
{
    let g = sv.group(i);
    let at = lemma_key_in_group(sv, i, sv.labels.len() as int);
    sv.staged(g).len() + at
}

/// An entry of the odd group that takes part is among the odd entries.
proof fn lemma_odd_entry_taken(
    entries: Seq<(usize, u32)>,
    current: Seq<u32>,
    phase: usize,
    phase_omo: usize,
    lo_omo: u32,
    upto: int,
    j: int,
)
    requires
        0 <= j < upto <= entries.len(),
        phase > phase_omo || (phase == phase_omo && current[j] < lo_omo),
    ensures
        odd_entries(entries, current, phase, phase_omo, lo_omo, upto).contains(entries[j]),
    decreases upto,
{
    let all = odd_entries(entries, current, phase, phase_omo, lo_omo, upto);
    let before = odd_entries(entries, current, phase, phase_omo, lo_omo, upto - 1);
    if j == upto - 1 {
        assert(all == before.push(entries[j]));
        assert(all[before.len() as int] == entries[j]);
    } else {
        lemma_odd_entry_taken(entries, current, phase, phase_omo, lo_omo, upto - 1, j);
        let at = choose|at: int| 0 <= at < before.len() && before[at] == entries[j];
        assert(all[at] == entries[j]);
    }
}

/// A phase takes up every key whose value is settled in it or in a lower
/// phase. A key of the odd entry is staged among the first keys; a phase
/// above the highest that meets the odd width takes it up, and that phase
/// itself does if the key's bits so far lie below the entry's lowest
/// locator.
pub proof fn law_staged_keys_take_part(
    sv: StageView,
    nphases: nat,
    st: Staging,
    i: int,
    k: usize,
    current: Seq<u32>,
    phase_omo: usize,
    lo_omo: u32,
)
    requires
        stages(sv, nphases, st),
        0 <= i < sv.labels.len(),
        k < nphases,
        current.len() == st.omo_offset,
    ensures
        0 <= sv.group(i) <= k ==> phase_entries(st, current, k, phase_omo, lo_omo).contains(
            sv.entry(i),
        ),
        sv.group(i) == -1 ==> exists|j: int|
            0 <= j < st.omo_offset && #[trigger] st.entries@[j] == sv.entry(i) && ((k > phase_omo || (k
                == phase_omo && current[j] < lo_omo)) ==> phase_entries(
                st,
                current,
                k,
                phase_omo,
                lo_omo,
            ).contains(sv.entry(i))),
{
    let g = sv.group(i);
    let all = phase_entries(st, current, k, phase_omo, lo_omo);
    let odd = odd_entries(st.entries@, current, k, phase_omo, lo_omo, st.omo_offset as int);
    let rest = st.entries@.subrange(st.omo_offset as int, st.ends@[k as int] as int);
    assert(st.ends@[k as int] == sv.staged(k + 1).len());
    if 0 <= g <= k {
        let j = lemma_key_is_staged(sv, i);
        lemma_staged_prefix(sv, 0, g);
        lemma_staged_prefix(sv, g + 1, k + 1);
        lemma_staged_prefix(sv, g + 1, nphases as int);
        lemma_staged_prefix(sv, k + 1, nphases as int);
        assert(rest[j - st.omo_offset] == sv.entry(i));
        assert(all[odd.len() + j - st.omo_offset] == sv.entry(i));
    }
    if g == -1 {
        let j = lemma_key_is_staged(sv, i);
        lemma_staged_prefix(sv, 0, nphases as int);
        assert(st.entries@[j] == sv.entry(i));
        if k > phase_omo || (k == phase_omo && current[j] < lo_omo) {
            lemma_odd_entry_taken(
                st.entries@,
                current,
                k,
                phase_omo,
                lo_omo,
                st.omo_offset as int,
                j,
            );
            let at = choose|at: int| 0 <= at < odd.len() && odd[at] == st.entries@[j];
            assert(all[at] == sv.entry(i));
        }
    }
}

} // verus!
