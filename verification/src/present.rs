//! Sequences of optional results and what is present in them.

use vstd::prelude::*;

verus! {

/// The values that are present among the first `k` entries, in their
/// order.
pub open spec fn present<T>(entries: Seq<Option<T>>, k: int) -> Seq<T>
    decreases k,
{
    if k <= 0 {
        Seq::empty()
    } else {
        match entries[k - 1] {
            None => present(entries, k - 1),
            Some(value) => present(entries, k - 1).push(value),
        }
    }
}

/// What is present among the first `k` entries does not depend on the
/// later ones.
pub proof fn lemma_present_frame<T>(a: Seq<Option<T>>, b: Seq<Option<T>>, k: int)
    requires
        0 <= k <= a.len() <= b.len(),
        forall|j: int| 0 <= j < k ==> a[j] == b[j],
    ensures
        present(a, k) == present(b, k),
    decreases k,
{
    if k > 0 {
        lemma_present_frame(a, b, k - 1);
    }
}

/// What holds of every value among the entries holds of everything that
/// is present.
pub proof fn lemma_present_all<T>(entries: Seq<Option<T>>, k: int, holds: spec_fn(T) -> bool)
    requires
        0 <= k <= entries.len(),
        forall|j: int| 0 <= j < k && (#[trigger] entries[j]) is Some ==> holds(entries[j]->0),
    ensures
        forall|i: int| 0 <= i < present(entries, k).len() ==> holds(#[trigger] present(entries, k)[i]),
    decreases k,
{
    if k > 0 {
        lemma_present_all(entries, k - 1, holds);
        let before = present(entries, k - 1);
        let now = present(entries, k);
        assert forall|i: int| 0 <= i < now.len() implies holds(#[trigger] now[i]) by {
            if i < before.len() {
                assert(now[i] == before[i]);
            } else {
                assert(entries[k - 1] is Some);
                assert(now[i] == entries[k - 1]->0);
            }
        }
    }
}

} // verus!
