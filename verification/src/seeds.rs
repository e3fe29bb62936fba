//! Seed points and the queue that hands them out by priority.

use vstd::prelude::*;
use vstd::multiset::Multiset;
use vstd::seq_lib::{to_multiset_build, to_multiset_insert};
use crate::point::Point;

verus! {

/// Field magnitude, in ten-thousandths, at or below which a position
/// counts as degenerate.
pub const DEGENERATE_NORM: u32 = 1;

/// A position at which a trace may start.
#[derive(Clone, Copy, Debug, PartialEq, Eq, Structural)]
pub struct SeedPoint {
    pub seed: Point,
    /// Rank of the seed: a seed with a larger priority is served first.
    pub priority: i64,
    pub follow_major_eigenvectors: bool,
}

/// Where the first seeds of a plan come from.
pub enum TraceSeeds {
    /// This many points, spread over the grid at random.
    Random(u32),
    /// These seeds.
    Specific(Vec<SeedPoint>),
}

/// Whether a field magnitude, in ten-thousandths, counts as degenerate.
pub open spec fn is_degenerate(norm: u32) -> bool {
    norm <= DEGENERATE_NORM
}

/// Whether a field magnitude, in ten-thousandths, is too small for a
/// trace to go on.
pub open spec fn has_vanished(norm: u32) -> bool {
    norm < DEGENERATE_NORM
}

/// Decides whether a field magnitude counts as degenerate.
pub fn field_is_degenerate(norm: u32) -> (b: bool)
    ensures
        b == is_degenerate(norm),
{
    norm <= DEGENERATE_NORM
}

/// Decides whether a field magnitude is too small for a trace to go on.
pub fn field_has_vanished(norm: u32) -> (b: bool)
    ensures
        b == has_vanished(norm),
{
    norm < DEGENERATE_NORM
}

/// The priorities do not decrease along `s`.
pub open spec fn rising(s: Seq<SeedPoint>) -> bool {
    forall|a: int, b: int| 0 <= a < b < s.len() ==> s[a].priority <= s[b].priority
}

/// The priorities do not increase along `s`.
pub open spec fn falling(s: Seq<SeedPoint>) -> bool {
    forall|a: int, b: int| 0 <= a < b < s.len() ==> s[a].priority >= s[b].priority
}

/// No seed of `m` has a higher priority than `top`.
pub open spec fn is_highest(m: Multiset<SeedPoint>, top: SeedPoint) -> bool {
    &&& m.count(top) > 0
    &&& forall|other: SeedPoint| m.count(other) > 0 ==> other.priority <= top.priority
}

/// An empty sequence holds nothing.
proof fn lemma_nothing_in_empty(s: Seq<SeedPoint>)
    requires
        s.len() == 0,
    ensures
        s.to_multiset() == Multiset::<SeedPoint>::empty(),
{
    vstd::seq_lib::to_multiset_len(s);
    vstd::multiset::lemma_multiset_empty_len(s.to_multiset());
    assert(s.to_multiset() =~= Multiset::<SeedPoint>::empty());
}

/// A queue of seeds that hands out a seed of the highest priority first.
pub struct SeedQueue {
    seeds: Vec<SeedPoint>,
}

impl View for SeedQueue {
    type V = Multiset<SeedPoint>;

    /// The seeds in the queue.
    closed spec fn view(&self) -> Multiset<SeedPoint> {
        self.seeds@.to_multiset()
    }
}

impl SeedQueue {
    /// The seeds are kept in the order of their priority.
    pub closed spec fn wf(&self) -> bool {
        rising(self.seeds@)
    }

    /// An empty queue.
    pub fn new() -> (queue: SeedQueue)
        ensures
            queue.wf(),
            queue@ == Multiset::<SeedPoint>::empty(),
    {
        let queue = SeedQueue { seeds: Vec::new() };
        proof {
            lemma_nothing_in_empty(queue.seeds@);
        }
        queue
    }

    /// Number of seeds in the queue.
    pub fn len(&self) -> (n: usize)
        ensures
            n == self@.len(),
    {
        proof {
            vstd::seq_lib::to_multiset_len(self.seeds@);
        }
        self.seeds.len()
    }

    /// Puts a seed into the queue.
    pub fn push(&mut self, seed: SeedPoint)
        requires
            old(self).wf(),
        ensures
            final(self).wf(),
            final(self)@ == old(self)@.insert(seed),
    {
        let mut pos: usize = 0;
        while pos < self.seeds.len() && self.seeds[pos].priority <= seed.priority
            invariant
                pos <= self.seeds@.len(),
                forall|k: int| 0 <= k < pos ==> self.seeds@[k].priority <= seed.priority,
            decreases self.seeds@.len() - pos,
        {
            pos = pos + 1;
        }
        let ghost before = self.seeds@;
        self.seeds.insert(pos, seed);
        proof {
            let after = self.seeds@;
            to_multiset_insert(before, pos as int, seed);
            assert forall|a: int, b: int| 0 <= a < b < after.len() implies after[a].priority
                <= after[b].priority by {
                if b < pos {
                    assert(after[a] == before[a] && after[b] == before[b]);
                } else if b == pos {
                    assert(after[a] == before[a]);
                } else if a < pos {
                    assert(after[a] == before[a] && after[b] == before[b - 1]);
                } else if a == pos {
                    assert(after[b] == before[b - 1]);
                    if b - 1 > pos {
                        assert(before[pos as int].priority <= before[b - 1].priority);
                    }
                } else {
                    assert(after[a] == before[a - 1] && after[b] == before[b - 1]);
                }
            }
        }
    }

    /// Takes a seed of the highest priority out of the queue, or returns
    /// `None` if the queue is empty.
    pub fn pop(&mut self) -> (top: Option<SeedPoint>)
        requires
            old(self).wf(),
        ensures
            final(self).wf(),
            match top {
                None => old(self)@.len() == 0 && final(self)@ == old(self)@,
                Some(seed) => is_highest(old(self)@, seed) && final(self)@ == old(self)@.remove(
                    seed,
                ),
            },
    {
        let ghost before = self.seeds@;
        proof {
            vstd::seq_lib::to_multiset_len(before);
        }
        let top = self.seeds.pop();
        proof {
            match top {
                None => {},
                Some(seed) => {
                    let last = before.len() - 1;
                    assert(self.seeds@ =~= before.remove(last));
                    vstd::seq_lib::to_multiset_remove(before, last);
                    assert forall|other: SeedPoint| before.to_multiset().count(other) > 0 implies
                        other.priority <= seed.priority by {
                        vstd::seq_lib::to_multiset_contains(before, other);
                        let k = choose|k: int| 0 <= k < before.len() && before[k] == other;
                        assert(before[k].priority <= before[last].priority);
                    }
                    vstd::seq_lib::to_multiset_contains(before, seed);
                    assert(before[last] == seed);
                    assert(before.contains(seed));
                },
            }
        }
        top
    }

    /// Puts every seed of `seeds` into the queue.
    pub fn extend(&mut self, seeds: &Vec<SeedPoint>)
        requires
            old(self).wf(),
        ensures
            final(self).wf(),
            final(self)@ == old(self)@.add(seeds@.to_multiset()),
    {
        let mut i: usize = 0;
        proof {
            lemma_nothing_in_empty(seeds@.take(0));
            assert(old(self)@.add(Multiset::<SeedPoint>::empty()) =~= old(self)@);
        }
        while i < seeds.len()
            invariant
                i <= seeds@.len(),
                self.wf(),
                self@ == old(self)@.add(seeds@.take(i as int).to_multiset()),
            decreases seeds@.len() - i,
        {
            proof {
                assert(seeds@.take(i + 1) =~= seeds@.take(i as int).push(seeds@[i as int]));
                to_multiset_build(seeds@.take(i as int), seeds@[i as int]);
                assert(old(self)@.add(seeds@.take(i as int).to_multiset()).insert(seeds@[i as int])
                    =~= old(self)@.add(seeds@.take(i as int).to_multiset().insert(seeds@[i as int])));
            }
            self.push(seeds[i]);
            i = i + 1;
        }
        proof {
            assert(seeds@.take(seeds@.len() as int) =~= seeds@);
        }
    }

    /// A queue of the given seeds.
    pub fn from_vec(seeds: &Vec<SeedPoint>) -> (queue: SeedQueue)
        ensures
            queue.wf(),
            queue@ == seeds@.to_multiset(),
    {
        let mut queue = SeedQueue::new();
        queue.extend(seeds);
        proof {
            assert(Multiset::<SeedPoint>::empty().add(seeds@.to_multiset()) =~= seeds@.to_multiset());
        }
        queue
    }
}

/// The seeds of the queue in the order in which it would hand them out:
/// from the highest priority down.
pub fn heap_to_vec(heap: &SeedQueue) -> (res: Vec<SeedPoint>)
    requires
        heap.wf(),
    ensures
        res@.to_multiset() == heap@,
        falling(res@),
{
    let mut res: Vec<SeedPoint> = Vec::new();
    let n = heap.seeds.len();
    let mut i: usize = n;
    while i > 0
        invariant
            i <= n,
            n == heap.seeds@.len(),
            res@.len() == n - i,
            forall|k: int| 0 <= k < res@.len() ==> #[trigger] res@[k] == heap.seeds@[n - 1 - k],
        decreases i,
    {
        i = i - 1;
        res.push(heap.seeds[i]);
    }
    proof {
        assert(res@ =~= heap.seeds@.reverse());
        heap.seeds@.lemma_reverse_to_multiset();
        assert forall|a: int, b: int| 0 <= a < b < res@.len() implies res@[a].priority
            >= res@[b].priority by {
            assert(heap.seeds@[n - 1 - b].priority <= heap.seeds@[n - 1 - a].priority);
        }
    }
    res
}

/// The seeds among the first `k` points: a point becomes a seed of its
/// priority, following the major eigenvectors, unless the field at it is
/// degenerate.
pub open spec fn prioritized(
    points: Seq<Point>,
    norms: Seq<u32>,
    priorities: Seq<i64>,
    k: int,
) -> Multiset<SeedPoint>
    decreases k,
{
    if k <= 0 {
        Multiset::empty()
    } else if is_degenerate(norms[k - 1]) {
        prioritized(points, norms, priorities, k - 1)
    } else {
        prioritized(points, norms, priorities, k - 1).insert(
            SeedPoint {
                seed: points[k - 1],
                priority: priorities[k - 1],
                follow_major_eigenvectors: true,
            },
        )
    }
}

/// Queues the points at which the field is not degenerate, each with
/// its priority. `field_norms[i]` is the field magnitude at point `i`
/// and `priorities[i]` is its rank.
pub fn prioritize_points(
    points: &Vec<Point>,
    field_norms: &Vec<u32>,
    priorities: &Vec<i64>,
) -> (queue: SeedQueue)
    requires
        field_norms@.len() == points@.len(),
        priorities@.len() == points@.len(),
    ensures
        queue.wf(),
        queue@ == prioritized(points@, field_norms@, priorities@, points@.len() as int),
{
    let mut queue = SeedQueue::new();
    let mut i: usize = 0;
    while i < points.len()
        invariant
            i <= points@.len(),
            field_norms@.len() == points@.len(),
            priorities@.len() == points@.len(),
            queue.wf(),
            queue@ == prioritized(points@, field_norms@, priorities@, i as int),
        decreases points@.len() - i,
    {
        if !field_is_degenerate(field_norms[i]) {
            queue.push(
                SeedPoint {
                    seed: points[i],
                    priority: priorities[i],
                    follow_major_eigenvectors: true,
                },
            );
        }
        i = i + 1;
    }
    queue
}

} // verus!
