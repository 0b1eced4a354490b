//! In-place sorting of a vector by a total order given as a comparison
//! function.

use vstd::prelude::*;
use vstd::relations::*;
use vstd::seq_lib::*;

verus! {

/// Exchanging two entries of a sequence keeps its multiset of entries.
pub proof fn lemma_swap_keeps_multiset<T>(s: Seq<T>, i: int, j: int)
    requires
        0 <= i < s.len(),
        0 <= j < s.len(),
    ensures
        s.update(i, s[j]).update(j, s[i]).to_multiset() == s.to_multiset(),
{
    broadcast use vstd::multiset::group_multiset_axioms;

    let t = s.update(i, s[j]);
    to_multiset_update(s, i, s[j]);
    to_multiset_update(t, j, s[i]);
    s.to_multiset_ensures();
    assert(s.to_multiset().count(s[i]) > 0) by {
        assert(s.contains(s[i]));
    }
    assert(s.to_multiset().count(s[j]) > 0) by {
        assert(s.contains(s[j]));
    }
    assert(t.update(j, s[i]).to_multiset() =~= s.to_multiset());
}

/// A sequence with the entries of `s` that is in order is `s` sorted.
pub proof fn lemma_sorted_is_sort_by<T>(s: Seq<T>, r: Seq<T>, leq: spec_fn(T, T) -> bool)
    requires
        total_ordering(leq),
        sorted_by(r, leq),
        r.to_multiset() == s.to_multiset(),
    ensures
        r == s.sort_by(leq),
{
    s.lemma_sort_by_ensures(leq);
    lemma_sorted_unique(r, s.sort_by(leq), leq);
}

/// Sorts `v` by the total order `leq`, which `less_eq` decides.
pub fn sort_by<T: Copy, F: Fn(T, T) -> bool>(
    v: &mut Vec<T>,
    less_eq: F,
    Ghost(leq): Ghost<spec_fn(T, T) -> bool>,
)
    requires
        total_ordering(leq),
        forall|a: T, b: T| call_requires(less_eq, (a, b)),
        forall|a: T, b: T, r: bool| call_ensures(less_eq, (a, b), r) ==> r == leq(a, b),
    ensures
        final(v)@ == old(v)@.sort_by(leq),
        final(v)@.to_multiset() == old(v)@.to_multiset(),
        final(v)@.len() == old(v)@.len(),
        sorted_by(final(v)@, leq),
{
    let n: usize = v.len();
    let mut i: usize = 0;
    while i < n
        invariant
            v@.len() == n,
            i <= n,
            v@.to_multiset() == old(v)@.to_multiset(),
            forall|a: int, b: int| 0 <= a < b < i ==> #[trigger] leq(v@[a], v@[b]),
            total_ordering(leq),
            forall|a: T, b: T| call_requires(less_eq, (a, b)),
            forall|a: T, b: T, r: bool| call_ensures(less_eq, (a, b), r) ==> r == leq(a, b),
        decreases n - i,
    {
        let mut j: usize = i;
        while j > 0
            invariant
                v@.len() == n,
                j <= i < n,
                v@.to_multiset() == old(v)@.to_multiset(),
                forall|a: int, b: int|
                    0 <= a < b <= i && a != j && b != j ==> #[trigger] leq(v@[a], v@[b]),
                forall|b: int| j < b <= i ==> #[trigger] leq(v@[j as int], v@[b]),
                total_ordering(leq),
                forall|a: T, b: T| call_requires(less_eq, (a, b)),
                forall|a: T, b: T, r: bool| call_ensures(less_eq, (a, b), r) ==> r == leq(a, b),
            ensures
                j == 0 || leq(v@[j - 1], v@[j as int]),
            decreases j,
        {
            let lower: T = v[j - 1];
            let upper: T = v[j];
            if less_eq(lower, upper) {
                break ;
            }
            proof {
                lemma_swap_keeps_multiset(v@, j - 1, j as int);
                assert(leq(upper, lower));
            }
            v.set(j - 1, upper);
            v.set(j, lower);
            j = j - 1;
        }
        proof {
            assert forall|a: int, b: int| 0 <= a < b < i + 1 implies #[trigger] leq(
                v@[a],
                v@[b],
            ) by {
                if a == j {
                } else if b == j {
                    if a != j - 1 {
                        assert(leq(v@[a], v@[j - 1]));
                        assert(leq(v@[j - 1], v@[j as int]));
                    }
                } else {
                }
            }
        }
        i = i + 1;
    }
    proof {
        assert(sorted_by(v@, leq));
        lemma_sorted_is_sort_by(old(v)@, v@, leq);
        old(v)@.to_multiset_ensures();
        v@.to_multiset_ensures();
    }
}

} // verus!
