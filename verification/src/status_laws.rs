//! Laws of the status structure, stated over the sequences of handles
//! that its operations take and leave.

use vstd::prelude::*;
use crate::status::{
    ascending, inserted_at, inserted_into, is_slot, removed_at, removed_by, sorts_after,
    strictly_ascending,
};
use crate::sweep::{crosses_left_of, crossing_defined, lemma_crossing_transitive, Segment};

verus! {

/// In an ascending sequence a handle has at most one slot.
pub proof fn lemma_slot_unique(
    s: Seq<usize>,
    p: int,
    q: int,
    element: usize,
    segments: Seq<Segment>,
    h: int,
)
    requires
        ascending(s, segments, h),
        is_slot(s, p, element, segments, h),
        is_slot(s, q, element, segments, h),
    ensures
        p == q,
{
    if p != q {
        let (lo, hi) = if p < q {
            (p, q)
        } else {
            (q, p)
        };
        // s[lo] sorts after `element`, s[hi - 1] does not
        assert(sorts_after(s[lo], element, segments, h));
        assert(!sorts_after(s[hi - 1], element, segments, h));
        let a = segments[s[lo] as int];
        let b = segments[s[hi - 1] as int];
        let e = segments[element as int];
        assert(lo < hi - 1);
        assert(!crosses_left_of(b, a, h));
        assert(crosses_left_of(e, a, h));
        if s[hi - 1] != element {
            lemma_crossing_transitive(a, b, e, h);
        }
    }
}

/// Putting a handle with a defined crossing into its slot keeps an
/// ascending sequence ascending.
pub proof fn lemma_insert_keeps_ascending(
    s: Seq<usize>,
    p: int,
    element: usize,
    segments: Seq<Segment>,
    h: int,
)
    requires
        ascending(s, segments, h),
        crossing_defined(segments[element as int]),
        is_slot(s, p, element, segments, h),
    ensures
        ascending(s.insert(p, element), segments, h),
{
    let t = s.insert(p, element);
    let e = segments[element as int];
    assert forall|i: int| 0 <= i < t.len() implies crossing_defined(
        #[trigger] segments[t[i] as int],
    ) by {
        if i < p {
            assert(t[i] == s[i]);
        } else if i > p {
            assert(t[i] == s[i - 1]);
        }
    }
    // everything before the slot is left of or level with `element`
    assert forall|i: int| 0 <= i < p implies !crosses_left_of(e, #[trigger] segments[s[i] as int], h) by {
        let last = segments[s[p - 1] as int];
        assert(!sorts_after(s[p - 1], element, segments, h));
        if i < p - 1 {
            lemma_crossing_transitive(segments[s[i] as int], last, e, h);
        }
    }
    // everything from the slot on is right of `element`
    assert forall|j: int| p <= j < s.len() implies !crosses_left_of(#[trigger] segments[s[j] as int], e, h) by {
        let first = segments[s[p] as int];
        assert(sorts_after(s[p], element, segments, h));
        if j > p {
            lemma_crossing_transitive(e, first, segments[s[j] as int], h);
        }
    }
    assert forall|i: int, j: int| 0 <= i < j < t.len() implies !crosses_left_of(
        #[trigger] segments[t[j] as int],
        #[trigger] segments[t[i] as int],
        h,
    ) by {
        if j < p {
            assert(t[i] == s[i] && t[j] == s[j]);
        } else if j == p {
            assert(t[i] == s[i] && t[j] == element);
        } else if i < p {
            assert(t[i] == s[i] && t[j] == s[j - 1]);
        } else if i == p {
            assert(t[i] == element && t[j] == s[j - 1]);
        } else {
            assert(t[i] == s[i - 1] && t[j] == s[j - 1]);
        }
    }
}

/// Taking an entry out keeps an ascending sequence ascending.
pub proof fn lemma_remove_keeps_ascending(s: Seq<usize>, k: int, segments: Seq<Segment>, h: int)
    requires
        ascending(s, segments, h),
        0 <= k < s.len(),
    ensures
        ascending(s.remove(k), segments, h),
{
    let t = s.remove(k);
    assert forall|i: int| 0 <= i < t.len() implies crossing_defined(
        #[trigger] segments[t[i] as int],
    ) by {
        if i < k {
            assert(t[i] == s[i]);
        } else {
            assert(t[i] == s[i + 1]);
        }
    }
    assert forall|i: int, j: int| 0 <= i < j < t.len() implies !crosses_left_of(
        #[trigger] segments[t[j] as int],
        #[trigger] segments[t[i] as int],
        h,
    ) by {
        let oi = if i < k { i } else { i + 1 };
        let oj = if j < k { j } else { j + 1 };
        assert(t[i] == s[oi] && t[j] == s[oj]);
    }
}

/// A strictly ascending sequence is ascending.
pub proof fn lemma_strict_is_ascending(s: Seq<usize>, segments: Seq<Segment>, h: int)
    requires
        strictly_ascending(s, segments, h),
    ensures
        ascending(s, segments, h),
{
}

/// In a strictly ascending sequence the only slot of a stored handle is
/// the one right behind it.
pub proof fn lemma_slot_of_member(
    s: Seq<usize>,
    k: int,
    p: int,
    segments: Seq<Segment>,
    h: int,
)
    requires
        strictly_ascending(s, segments, h),
        0 <= k < s.len(),
        is_slot(s, p, s[k], segments, h),
    ensures
        p == k + 1,
{
    let element = s[k];
    if k + 1 < s.len() {
        assert(crosses_left_of(segments[s[k] as int], segments[s[k + 1] as int], h));
        assert(s[k + 1] != s[k]);
    }
    assert(is_slot(s, k + 1, element, segments, h));
    lemma_slot_unique(s, p, k + 1, element, segments, h);
}

/// The first `k` entries of `xs` include `x`.
pub open spec fn among(xs: Seq<usize>, k: int, x: usize) -> bool {
    exists|j: int| 0 <= j < k && j < xs.len() && #[trigger] xs[j] == x
}

/// Every listed handle names a segment with a defined crossing, and no
/// two of the crossings coincide at the sweep height `h`.
pub open spec fn crossings_differ(handles: Seq<usize>, segments: Seq<Segment>, h: int) -> bool {
    &&& forall|i: int|
        0 <= i < handles.len() ==> crossing_defined(#[trigger] segments[handles[i] as int])
    &&& forall|i: int, j: int|
        0 <= i < handles.len() && 0 <= j < handles.len() && i != j ==> crosses_left_of(
            #[trigger] segments[handles[i] as int],
            #[trigger] segments[handles[j] as int],
            h,
        ) || crosses_left_of(segments[handles[j] as int], segments[handles[i] as int], h)
}

/// `states` records a run of `inserted.len()` insertions into an empty
/// list followed by as many removals: each state follows from the one
/// before by the operation's own contract.
pub open spec fn round_trip(
    states: Seq<Seq<usize>>,
    found: Seq<bool>,
    inserted: Seq<usize>,
    removed: Seq<usize>,
    segments: Seq<Segment>,
    h: int,
) -> bool {
    let n = inserted.len() as int;
    &&& removed.len() == n
    &&& found.len() == n
    &&& states.len() == 2 * n + 1
    &&& states[0] == Seq::<usize>::empty()
    &&& forall|k: int|
        0 <= k < n ==> #[trigger] inserted_into(states[k], inserted[k], states[k + 1], segments, h)
    &&& forall|k: int|
        0 <= k < n ==> #[trigger] removed_by(
            states[n + k],
            removed[k],
            states[n + k + 1],
            found[k],
            segments,
            h,
        )
}

/// A strictly ascending sequence holds no handle twice.
pub proof fn lemma_strict_no_duplicates(s: Seq<usize>, segments: Seq<Segment>, h: int)
    requires
        strictly_ascending(s, segments, h),
    ensures
        s.no_duplicates(),
{
    assert forall|i: int, j: int| 0 <= i < s.len() && 0 <= j < s.len() && i != j implies s[i]
        != s[j] by {
        if i < j {
            assert(crosses_left_of(segments[s[i] as int], segments[s[j] as int], h));
        } else {
            assert(crosses_left_of(segments[s[j] as int], segments[s[i] as int], h));
        }
    }
}

/// Putting a handle into its slot keeps a strictly ascending sequence
/// strictly ascending, if its crossing differs from all that are there.
pub proof fn lemma_insert_keeps_strict(
    s: Seq<usize>,
    p: int,
    element: usize,
    segments: Seq<Segment>,
    h: int,
)
    requires
        strictly_ascending(s, segments, h),
        crossing_defined(segments[element as int]),
        is_slot(s, p, element, segments, h),
        forall|i: int|
            0 <= i < s.len() ==> crosses_left_of(
                #[trigger] segments[s[i] as int],
                segments[element as int],
                h,
            ) || crosses_left_of(segments[element as int], segments[s[i] as int], h),
    ensures
        strictly_ascending(s.insert(p, element), segments, h),
{
    let t = s.insert(p, element);
    let e = segments[element as int];
    lemma_strict_is_ascending(s, segments, h);
    lemma_insert_keeps_ascending(s, p, element, segments, h);
    assert forall|i: int, j: int| 0 <= i < j < t.len() implies crosses_left_of(
        #[trigger] segments[t[i] as int],
        #[trigger] segments[t[j] as int],
        h,
    ) by {
        assert(!crosses_left_of(segments[t[j] as int], segments[t[i] as int], h));
        if j < p {
            assert(t[i] == s[i] && t[j] == s[j]);
        } else if j == p {
            assert(t[i] == s[i] && t[j] == element);
        } else if i < p {
            assert(t[i] == s[i] && t[j] == s[j - 1]);
        } else if i == p {
            assert(t[i] == element && t[j] == s[j - 1]);
        } else {
            assert(t[i] == s[i - 1] && t[j] == s[j - 1]);
        }
    }
}

/// Taking an entry out keeps a strictly ascending sequence strictly
/// ascending.
pub proof fn lemma_remove_keeps_strict(s: Seq<usize>, k: int, segments: Seq<Segment>, h: int)
    requires
        strictly_ascending(s, segments, h),
        0 <= k < s.len(),
    ensures
        strictly_ascending(s.remove(k), segments, h),
{
    let t = s.remove(k);
    assert forall|i: int| 0 <= i < t.len() implies crossing_defined(
        #[trigger] segments[t[i] as int],
    ) by {
        if i < k {
            assert(t[i] == s[i]);
        } else {
            assert(t[i] == s[i + 1]);
        }
    }
    assert forall|i: int, j: int| 0 <= i < j < t.len() implies crosses_left_of(
        #[trigger] segments[t[i] as int],
        #[trigger] segments[t[j] as int],
        h,
    ) by {
        let oi = if i < k { i } else { i + 1 };
        let oj = if j < k { j } else { j + 1 };
        assert(t[i] == s[oi] && t[j] == s[oj]);
    }
}

/// After the first `k` insertions the list holds exactly the first `k`
/// handles, strictly ascending.
proof fn lemma_fill(
    states: Seq<Seq<usize>>,
    found: Seq<bool>,
    inserted: Seq<usize>,
    removed: Seq<usize>,
    segments: Seq<Segment>,
    h: int,
    k: int,
)
    requires
        round_trip(states, found, inserted, removed, segments, h),
        crossings_differ(inserted, segments, h),
        0 <= k <= inserted.len(),
    ensures
        strictly_ascending(states[k], segments, h),
        states[k].len() == k,
        forall|x: usize| #[trigger] states[k].contains(x) <==> among(inserted, k, x),
    decreases k,
{
    if k == 0 {
        assert forall|x: usize| #[trigger] states[0].contains(x) <==> among(inserted, 0, x) by {}
    } else {
        lemma_fill(states, found, inserted, removed, segments, h, k - 1);
        let s = states[k - 1];
        let e = inserted[k - 1];
        let km = k - 1;
        assert(inserted_into(states[km], inserted[km], states[km + 1], segments, h));
        let p = choose|p: int| #[trigger] inserted_at(s, p, e, states[k], segments, h);
        assert forall|i: int| 0 <= i < s.len() implies crosses_left_of(
            #[trigger] segments[s[i] as int],
            segments[e as int],
            h,
        ) || crosses_left_of(segments[e as int], segments[s[i] as int], h) by {
            assert(s.contains(s[i]));
            assert(among(inserted, k - 1, s[i]));
            let j = choose|j: int| 0 <= j < k - 1 && j < inserted.len() && #[trigger] inserted[j] == s[i];
            assert(segments[inserted[j] as int] == segments[s[i] as int]);
            assert(segments[inserted[k - 1] as int] == segments[e as int]);
        }
        lemma_insert_keeps_strict(s, p, e, segments, h);
        let t = states[k];
        assert forall|x: usize| #[trigger] t.contains(x) <==> among(inserted, k, x) by {
            if t.contains(x) {
                let i = choose|i: int| 0 <= i < t.len() && t[i] == x;
                if i < p {
                    assert(s[i] == x);
                    assert(s.contains(x));
                    assert(among(inserted, k - 1, x));
                    let j = choose|j: int| 0 <= j < k - 1 && j < inserted.len() && #[trigger] inserted[j] == x;
                    assert(inserted[j] == x);
                } else if i == p {
                    assert(inserted[k - 1] == x);
                } else {
                    assert(s[i - 1] == x);
                    assert(s.contains(x));
                    assert(among(inserted, k - 1, x));
                    let j = choose|j: int| 0 <= j < k - 1 && j < inserted.len() && #[trigger] inserted[j] == x;
                    assert(inserted[j] == x);
                }
            }
            if among(inserted, k, x) {
                let j = choose|j: int| 0 <= j < k && j < inserted.len() && #[trigger] inserted[j] == x;
                if j == k - 1 {
                    assert(t[p] == x);
                } else {
                    assert(inserted[j] == x);
                    assert(among(inserted, k - 1, x));
                    assert(s.contains(x));
                    let i = choose|i: int| 0 <= i < s.len() && s[i] == x;
                    if i < p {
                        assert(t[i] == x);
                    } else {
                        assert(t[i + 1] == x);
                    }
                }
            }
        }
    }
}

/// After the first `k` removals the list holds exactly the inserted
/// handles that were not removed yet, and every removal so far found its
/// handle.
proof fn lemma_drain(
    states: Seq<Seq<usize>>,
    found: Seq<bool>,
    inserted: Seq<usize>,
    removed: Seq<usize>,
    segments: Seq<Segment>,
    h: int,
    k: int,
)
    requires
        round_trip(states, found, inserted, removed, segments, h),
        crossings_differ(inserted, segments, h),
        removed.no_duplicates(),
        forall|x: usize| #[trigger] removed.contains(x) <==> inserted.contains(x),
        0 <= k <= inserted.len(),
    ensures
        strictly_ascending(states[inserted.len() + k], segments, h),
        states[inserted.len() + k].len() == inserted.len() - k,
        forall|x: usize| #[trigger]
            states[inserted.len() + k].contains(x) <==> inserted.contains(x) && !among(
                removed,
                k,
                x,
            ),
        forall|j: int| 0 <= j < k ==> #[trigger] found[j],
    decreases k,
{
    let n = inserted.len() as int;
    if k == 0 {
        lemma_fill(states, found, inserted, removed, segments, h, n);
        assert forall|x: usize| #[trigger]
            states[n].contains(x) <==> inserted.contains(x) && !among(removed, 0, x) by {
            if among(inserted, n, x) {
                let j = choose|j: int| 0 <= j < n && j < inserted.len() && #[trigger] inserted[j] == x;
                assert(inserted[j] == x);
            }
            if inserted.contains(x) {
                let j = choose|j: int| 0 <= j < inserted.len() && inserted[j] == x;
                assert(inserted[j] == x);
            }
        }
    } else {
        lemma_drain(states, found, inserted, removed, segments, h, k - 1);
        let km = k - 1;
        let s = states[n + km];
        let t = states[n + km + 1];
        let r = removed[km];
        assert(removed_by(states[n + km], removed[km], states[n + km + 1], found[km], segments, h));
        let p = choose|p: int| #[trigger] removed_at(s, p, r, t, found[k - 1], segments, h);
        assert(removed_at(s, p, r, t, found[k - 1], segments, h));
        // `r` is still there
        assert(removed.contains(r));
        assert(inserted.contains(r));
        if among(removed, k - 1, r) {
            let j = choose|j: int| 0 <= j < k - 1 && j < removed.len() && #[trigger] removed[j] == r;
            assert(removed[j] == removed[k - 1]);
        }
        assert(s.contains(r));
        let i = choose|i: int| 0 <= i < s.len() && s[i] == r;
        lemma_slot_of_member(s, i, p, segments, h);
        assert(found[k - 1]);
        assert(t == s.remove(i));
        lemma_remove_keeps_strict(s, i, segments, h);
        lemma_strict_no_duplicates(s, segments, h);
        assert forall|x: usize| #[trigger]
            t.contains(x) <==> inserted.contains(x) && !among(removed, k, x) by {
            if t.contains(x) {
                let m = choose|m: int| 0 <= m < t.len() && t[m] == x;
                let om = if m < i { m } else { m + 1 };
                assert(s[om] == x);
                assert(s.contains(x));
                assert(x != r);
                if among(removed, k, x) {
                    let j = choose|j: int| 0 <= j < k && j < removed.len() && #[trigger] removed[j] == x;
                    assert(removed[j] == x);
                    assert(among(removed, k - 1, x));
                }
            }
            if inserted.contains(x) && !among(removed, k, x) {
                if among(removed, k - 1, x) {
                    let j = choose|j: int| 0 <= j < k - 1 && j < removed.len() && #[trigger] removed[j] == x;
                    assert(removed[j] == x);
                }
                assert(s.contains(x));
                assert(removed[k - 1] == r);
                assert(x != r);
                let m = choose|m: int| 0 <= m < s.len() && s[m] == x;
                if m < i {
                    assert(t[m] == x);
                } else {
                    assert(t[m - 1] == x);
                }
            }
        }
        assert forall|j: int| 0 <= j < k implies #[trigger] found[j] by {}
    }
}

/// Inserting handles whose crossings differ pairwise into an empty list
/// and then removing each of them once, in any order, finds every handle
/// and leaves the list empty.
pub proof fn lemma_round_trip_empties(
    states: Seq<Seq<usize>>,
    found: Seq<bool>,
    inserted: Seq<usize>,
    removed: Seq<usize>,
    segments: Seq<Segment>,
    h: int,
)
    requires
        round_trip(states, found, inserted, removed, segments, h),
        crossings_differ(inserted, segments, h),
        removed.no_duplicates(),
        forall|x: usize| #[trigger] removed.contains(x) <==> inserted.contains(x),
    ensures
        states[states.len() - 1] == Seq::<usize>::empty(),
        forall|k: int| 0 <= k < found.len() ==> #[trigger] found[k],
{
    let n = inserted.len() as int;
    lemma_drain(states, found, inserted, removed, segments, h, n);
    assert(states[2 * n].len() == 0);
    assert(states[2 * n] =~= Seq::<usize>::empty());
}

} // verus!
