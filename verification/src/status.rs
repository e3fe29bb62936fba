//! The status structure of a sweep: a randomized skip list of segment
//! handles whose order is recomputed at the sweep height given to each
//! operation.
//!
//! Nodes live in an arena and refer to each other by slot number. Slot 0
//! is the `Start` sentinel and slot 1 the `End` sentinel; both stand on
//! every level.

use vstd::prelude::*;
use crate::chance::{random_below, random_flag, thread_generator};
use crate::status_laws::{
    lemma_insert_keeps_ascending, lemma_remove_keeps_ascending, lemma_slot_of_member,
};
use crate::sweep::{crosses_left, crosses_left_of, crossing_defined, Segment, SweepOrder};

verus! {

/// What a node of the list stands for.
#[derive(Clone, Copy, Debug, PartialEq, Eq, Structural)]
pub enum NodeType {
    Start,
    Value(usize),
    End,
}

/// The order of two entries at sweep height `h`. `Start` sorts before and
/// `End` after everything. Two values with the same handle are equal; two
/// different handles compare by crossing, and a tie or an undefined
/// crossing counts as `Less`.
pub open spec fn order_at(a: NodeType, b: NodeType, segments: Seq<Segment>, h: int) -> SweepOrder {
    match a {
        NodeType::Start => SweepOrder::Less,
        NodeType::End => SweepOrder::Greater,
        NodeType::Value(lhs) => match b {
            NodeType::Start => SweepOrder::Greater,
            NodeType::End => SweepOrder::Less,
            NodeType::Value(rhs) => if lhs == rhs {
                SweepOrder::Equal
            } else if crosses_left_of(segments[rhs as int], segments[lhs as int], h) {
                SweepOrder::Greater
            } else {
                SweepOrder::Less
            },
        },
    }
}

/// The handle `x` sorts strictly after `element` at sweep height `h`.
pub open spec fn sorts_after(x: usize, element: usize, segments: Seq<Segment>, h: int) -> bool {
    order_at(NodeType::Value(x), NodeType::Value(element), segments, h) == SweepOrder::Greater
}

/// Position `p` of `s` is a place for `element`: what stands before it
/// does not sort after `element`, and what stands at it does.
pub open spec fn is_slot(
    s: Seq<usize>,
    p: int,
    element: usize,
    segments: Seq<Segment>,
    h: int,
) -> bool {
    &&& 0 <= p <= s.len()
    &&& p > 0 ==> !sorts_after(s[p - 1], element, segments, h)
    &&& p < s.len() ==> sorts_after(s[p], element, segments, h)
}

/// The handles before and at position `p`, where there are any.
pub open spec fn neighbors(s: Seq<usize>, p: int) -> (Option<usize>, Option<usize>) {
    (
        if 0 < p <= s.len() {
            Some(s[p - 1])
        } else {
            None
        },
        if 0 <= p < s.len() {
            Some(s[p])
        } else {
            None
        },
    )
}

/// Every handle of `s` names a segment with a defined crossing, and the
/// crossings do not decrease along `s`.
pub open spec fn ascending(s: Seq<usize>, segments: Seq<Segment>, h: int) -> bool {
    &&& forall|i: int| 0 <= i < s.len() ==> crossing_defined(#[trigger] segments[s[i] as int])
    &&& forall|i: int, j: int|
        0 <= i < j < s.len() ==> !crosses_left_of(
            #[trigger] segments[s[j] as int],
            #[trigger] segments[s[i] as int],
            h,
        )
}

/// Like `ascending`, with crossings that strictly increase along `s`.
pub open spec fn strictly_ascending(s: Seq<usize>, segments: Seq<Segment>, h: int) -> bool {
    &&& forall|i: int| 0 <= i < s.len() ==> crossing_defined(#[trigger] segments[s[i] as int])
    &&& forall|i: int, j: int|
        0 <= i < j < s.len() ==> crosses_left_of(
            #[trigger] segments[s[i] as int],
            #[trigger] segments[s[j] as int],
            h,
        )
}

/// `after` is `before` with `element` put into its slot `p`.
pub open spec fn inserted_at(
    before: Seq<usize>,
    p: int,
    element: usize,
    after: Seq<usize>,
    segments: Seq<Segment>,
    h: int,
) -> bool {
    is_slot(before, p, element, segments, h) && after == before.insert(p, element)
}

/// `after` is `before` with `element` put into one of its slots.
pub open spec fn inserted_into(
    before: Seq<usize>,
    element: usize,
    after: Seq<usize>,
    segments: Seq<Segment>,
    h: int,
) -> bool {
    exists|p: int| #[trigger] inserted_at(before, p, element, after, segments, h)
}

/// `after` is what removing `element` leaves of `before`, where `p` is a
/// slot of `element`: the entry before the slot goes if it is `element`,
/// and nothing goes otherwise.
pub open spec fn removed_at(
    before: Seq<usize>,
    p: int,
    element: usize,
    after: Seq<usize>,
    found: bool,
    segments: Seq<Segment>,
    h: int,
) -> bool {
    &&& is_slot(before, p, element, segments, h)
    &&& found == (p > 0 && before[p - 1] == element)
    &&& after == if found {
        before.remove(p - 1)
    } else {
        before
    }
}

/// `after` and `found` are what removing `element` makes of `before`.
pub open spec fn removed_by(
    before: Seq<usize>,
    element: usize,
    after: Seq<usize>,
    found: bool,
    segments: Seq<Segment>,
    h: int,
) -> bool {
    exists|p: int| #[trigger] removed_at(before, p, element, after, found, segments, h)
}

/// `after` is `before` without one occurrence of `element`.
pub open spec fn removed_from(before: Seq<usize>, element: usize, after: Seq<usize>) -> bool {
    exists|q: int| 0 <= q < before.len() && before[q] == element && after == #[trigger] before.remove(q)
}

/// Every handle of `s` indexes into a collection of `bound` segments.
pub open spec fn handles_below(s: Seq<usize>, bound: int) -> bool {
    forall|i: int| 0 <= i < s.len() ==> #[trigger] s[i] < bound
}

impl NodeType {
    /// The handle of a value node, zero for a sentinel.
    pub open spec fn element(self) -> usize {
        match self {
            NodeType::Value(v) => v,
            _ => 0,
        }
    }

    /// Compares two entries at the sweep height `height`.
    pub fn compare(&self, other: &NodeType, segments: &[Segment], height: i32) -> (order:
        SweepOrder)
        requires
            (*self is Value && *other is Value && self.element() != other.element()) ==> {
                &&& self.element() < segments@.len()
                &&& other.element() < segments@.len()
            },
        ensures
            order == order_at(*self, *other, segments@, height as int),
    {
        match self {
            NodeType::Start => SweepOrder::Less,
            NodeType::End => SweepOrder::Greater,
            NodeType::Value(lhs) => match other {
                NodeType::Start => SweepOrder::Greater,
                NodeType::End => SweepOrder::Less,
                NodeType::Value(rhs) => {
                    if *lhs == *rhs {
                        SweepOrder::Equal
                    } else if crosses_left(&segments[*rhs], &segments[*lhs], height) {
                        SweepOrder::Greater
                    } else {
                        SweepOrder::Less
                    }
                },
            },
        }
    }
}

struct Node {
    node_type: NodeType,
    next_ptrs: Vec<usize>,
    prev_ptrs: Vec<usize>,
}

/// The node at chain position `i` and its successor point at each other
/// on level `l`.
spec fn linked(nodes: Seq<Node>, c: Seq<int>, l: int, i: int) -> bool {
    &&& l < nodes[c[i]].next_ptrs@.len()
    &&& nodes[c[i]].next_ptrs@[l] == c[i + 1]
    &&& l < nodes[c[i + 1]].prev_ptrs@.len()
    &&& nodes[c[i + 1]].prev_ptrs@[l] == c[i]
}

/// `c` lists the slots met on level `l` from `Start` to `End`.
spec fn chain_ok(nodes: Seq<Node>, c: Seq<int>, l: int) -> bool {
    &&& c.len() >= 2
    &&& c[0] == 0
    &&& c[c.len() - 1] == 1
    &&& forall|i: int| 0 <= i < c.len() ==> 0 <= #[trigger] c[i] < nodes.len()
    &&& c.no_duplicates()
    &&& forall|i: int| 0 <= i < c.len() - 1 ==> #[trigger] linked(nodes, c, l, i)
}

spec fn arena_ok(nodes: Seq<Node>, height: int) -> bool {
    &&& 2 <= nodes.len() <= usize::MAX
    &&& height >= 1
    &&& nodes[0].node_type == NodeType::Start
    &&& nodes[1].node_type == NodeType::End
    &&& nodes[0].next_ptrs@.len() == height
    &&& nodes[0].prev_ptrs@.len() == 0
    &&& nodes[1].prev_ptrs@.len() == height
    &&& nodes[1].next_ptrs@.len() == 0
    &&& forall|n: int|
        2 <= n < nodes.len() ==> {
            &&& (#[trigger] nodes[n]).node_type is Value
            &&& nodes[n].next_ptrs@.len() == nodes[n].prev_ptrs@.len()
            &&& nodes[n].next_ptrs@.len() <= height
        }
}

spec fn free_ok(nodes: Seq<Node>, free: Seq<usize>) -> bool {
    &&& free.no_duplicates()
    &&& forall|k: int|
        0 <= k < free.len() ==> {
            &&& 2 <= #[trigger] free[k] < nodes.len()
            &&& nodes[free[k] as int].next_ptrs@.len() == 0
        }
}

/// The handles on a chain, sentinels left out.
spec fn chain_view(nodes: Seq<Node>, c: Seq<int>) -> Seq<usize> {
    Seq::new((c.len() - 2) as nat, |i: int| nodes[c[i + 1]].node_type.element())
}

/// Node `b` keeps whatever links node `a` has on level `l`.
spec fn keeps_links(a: Node, b: Node, l: int) -> bool {
    &&& l < a.next_ptrs@.len() ==> l < b.next_ptrs@.len() && b.next_ptrs@[l] == a.next_ptrs@[l]
    &&& l < a.prev_ptrs@.len() ==> l < b.prev_ptrs@.len() && b.prev_ptrs@[l] == a.prev_ptrs@[l]
}

proof fn lemma_chain_frame(before: Seq<Node>, after: Seq<Node>, c: Seq<int>, l: int)
    requires
        chain_ok(before, c, l),
        before.len() <= after.len(),
        forall|i: int| 0 <= i < c.len() ==> keeps_links(before[#[trigger] c[i]], after[c[i]], l),
    ensures
        chain_ok(after, c, l),
{
    assert forall|i: int| 0 <= i < c.len() - 1 implies #[trigger] linked(after, c, l, i) by {
        assert(linked(before, c, l, i));
        assert(keeps_links(before[c[i]], after[c[i]], l));
        assert(keeps_links(before[c[i + 1]], after[c[i + 1]], l));
    }
}

proof fn lemma_view_frame(before: Seq<Node>, after: Seq<Node>, c: Seq<int>)
    requires
        c.len() >= 2,
        forall|i: int|
            0 <= i < c.len() ==> 0 <= #[trigger] c[i] < before.len() && c[i] < after.len()
                && after[c[i]].node_type == before[c[i]].node_type,
    ensures
        chain_view(after, c) == chain_view(before, c),
{
    assert forall|i: int| 0 <= i < c.len() - 2 implies chain_view(after, c)[i] == chain_view(
        before,
        c,
    )[i] by {
        assert(after[c[i + 1]].node_type == before[c[i + 1]].node_type);
    }
    assert(chain_view(after, c) =~= chain_view(before, c));
}

proof fn lemma_view_insert(
    before: Seq<Node>,
    after: Seq<Node>,
    c: Seq<int>,
    pos: int,
    idx: int,
    element: usize,
)
    requires
        c.len() >= 2,
        0 <= pos < c.len() - 1,
        forall|i: int|
            0 <= i < c.len() ==> 0 <= #[trigger] c[i] < before.len() && c[i] < after.len()
                && after[c[i]].node_type == before[c[i]].node_type,
        0 <= idx < after.len(),
        after[idx].node_type == NodeType::Value(element),
    ensures
        chain_view(after, c.insert(pos + 1, idx)) == chain_view(before, c).insert(pos, element),
{
    let grown = c.insert(pos + 1, idx);
    let lhs = chain_view(after, grown);
    let rhs = chain_view(before, c).insert(pos, element);
    assert(lhs.len() == rhs.len());
    assert forall|i: int| 0 <= i < lhs.len() implies lhs[i] == rhs[i] by {
        if i < pos {
            assert(grown[i + 1] == c[i + 1]);
            assert(after[c[i + 1]].node_type == before[c[i + 1]].node_type);
        } else if i == pos {
            assert(grown[i + 1] == idx);
        } else {
            assert(grown[i + 1] == c[i]);
            assert(after[c[i]].node_type == before[c[i]].node_type);
        }
    }
    assert(lhs =~= rhs);
}

proof fn lemma_view_remove(before: Seq<Node>, after: Seq<Node>, c: Seq<int>, pos: int)
    requires
        c.len() >= 3,
        0 < pos < c.len() - 1,
        forall|i: int|
            0 <= i < c.len() ==> 0 <= #[trigger] c[i] < before.len() && c[i] < after.len()
                && (i != pos ==> after[c[i]].node_type == before[c[i]].node_type),
    ensures
        chain_view(after, c.remove(pos)) == chain_view(before, c).remove(pos - 1),
{
    let shrunk = c.remove(pos);
    let lhs = chain_view(after, shrunk);
    let rhs = chain_view(before, c).remove(pos - 1);
    assert(lhs.len() == rhs.len());
    assert forall|i: int| 0 <= i < lhs.len() implies lhs[i] == rhs[i] by {
        if i + 1 < pos {
            assert(shrunk[i + 1] == c[i + 1]);
            assert(after[c[i + 1]].node_type == before[c[i + 1]].node_type);
        } else {
            assert(shrunk[i + 1] == c[i + 2]);
            assert(after[c[i + 2]].node_type == before[c[i + 2]].node_type);
        }
    }
    assert(lhs =~= rhs);
}

/// The arena, the chains of its levels and the vacant slots fit
/// together: every chain is linked, a slot stands on exactly the levels
/// of its tower, and vacant slots stand on none.
spec fn structure(nodes: Seq<Node>, chains: Seq<Seq<int>>, free: Seq<usize>) -> bool {
    &&& arena_ok(nodes, chains.len() as int)
    &&& forall|l: int| 0 <= l < chains.len() ==> chain_ok(nodes, #[trigger] chains[l], l)
    &&& forall|n: int, l: int|
        2 <= n < nodes.len() && 0 <= l < nodes[n].next_ptrs@.len() ==> #[trigger] chains[l].contains(
            n,
        )
    &&& free_ok(nodes, free)
}

/// `after` is `before` with the slot `idx` linked in on level `l`
/// between `pred` and `succ`.
spec fn spliced_in(
    before: Seq<Node>,
    after: Seq<Node>,
    l: int,
    pred: int,
    idx: int,
    succ: int,
) -> bool {
    &&& after.len() == before.len()
    &&& forall|n: int|
        0 <= n < before.len() ==> (#[trigger] after[n]).node_type == before[n].node_type
    &&& forall|n: int|
        0 <= n < before.len() && n != pred && n != succ && n != idx ==> #[trigger] after[n]
            == before[n]
    &&& after[pred].next_ptrs@ == before[pred].next_ptrs@.update(l, idx as usize)
    &&& after[pred].prev_ptrs@ == before[pred].prev_ptrs@
    &&& after[succ].prev_ptrs@ == before[succ].prev_ptrs@.update(l, idx as usize)
    &&& after[succ].next_ptrs@ == before[succ].next_ptrs@
    &&& after[idx].next_ptrs@ == before[idx].next_ptrs@.push(succ as usize)
    &&& after[idx].prev_ptrs@ == before[idx].prev_ptrs@.push(pred as usize)
}

/// `after` is `before` with the slot `idx` taken out of its topmost
/// level `l`, where it stood between `pred` and `succ`.
spec fn spliced_out(
    before: Seq<Node>,
    after: Seq<Node>,
    l: int,
    pred: int,
    idx: int,
    succ: int,
) -> bool {
    &&& after.len() == before.len()
    &&& forall|n: int|
        0 <= n < before.len() ==> (#[trigger] after[n]).node_type == before[n].node_type
    &&& forall|n: int|
        0 <= n < before.len() && n != pred && n != succ && n != idx ==> #[trigger] after[n]
            == before[n]
    &&& after[pred].next_ptrs@ == before[pred].next_ptrs@.update(l, succ as usize)
    &&& after[pred].prev_ptrs@ == before[pred].prev_ptrs@
    &&& after[succ].prev_ptrs@ == before[succ].prev_ptrs@.update(l, pred as usize)
    &&& after[succ].next_ptrs@ == before[succ].next_ptrs@
    &&& after[idx].next_ptrs@ == before[idx].next_ptrs@.drop_last()
    &&& after[idx].prev_ptrs@ == before[idx].prev_ptrs@.drop_last()
}

/// The slot `idx`, whose tower ends below level `l`, stands on no chain
/// of level `l`.
proof fn lemma_off_chain(nodes: Seq<Node>, c: Seq<int>, l: int, idx: int)
    requires
        chain_ok(nodes, c, l),
        2 <= idx < nodes.len(),
        nodes[idx].next_ptrs@.len() <= l,
    ensures
        !c.contains(idx),
{
    assert forall|i: int| 0 <= i < c.len() implies c[i] != idx by {
        if i < c.len() - 1 {
            assert(linked(nodes, c, l, i));
        }
    }
}

proof fn lemma_link_chain(
    before: Seq<Node>,
    after: Seq<Node>,
    c: Seq<int>,
    l: int,
    pos: int,
    idx: int,
)
    requires
        chain_ok(before, c, l),
        before.len() <= usize::MAX,
        0 <= pos < c.len() - 1,
        2 <= idx < before.len(),
        before[idx].next_ptrs@.len() == l,
        before[idx].prev_ptrs@.len() == l,
        spliced_in(before, after, l, c[pos], idx, c[pos + 1]),
    ensures
        chain_ok(after, c.insert(pos + 1, idx), l),
{
    let grown = c.insert(pos + 1, idx);
    let pred = c[pos];
    let succ = c[pos + 1];
    lemma_off_chain(before, c, l, idx);
    assert(linked(before, c, l, pos));
    assert forall|i: int| 0 <= i < grown.len() implies 0 <= #[trigger] grown[i] < after.len() by {
        if i <= pos {
            assert(grown[i] == c[i]);
        } else if i > pos + 1 {
            assert(grown[i] == c[i - 1]);
        }
    }
    assert forall|i: int, j: int| 0 <= i < j < grown.len() implies grown[i] != grown[j] by {
        let oi = if i <= pos { i } else { i - 1 };
        let oj = if j <= pos { j } else { j - 1 };
        if i != pos + 1 && j != pos + 1 {
            assert(grown[i] == c[oi]);
            assert(grown[j] == c[oj]);
        } else if i == pos + 1 {
            assert(grown[j] == c[oj]);
            assert(c.contains(c[oj]));
        } else {
            assert(grown[i] == c[oi]);
            assert(c.contains(c[oi]));
        }
    }
    assert forall|i: int| 0 <= i < grown.len() - 1 implies #[trigger] linked(after, grown, l, i) by {
        if i < pos {
            assert(linked(before, c, l, i));
            assert(grown[i] == c[i] && grown[i + 1] == c[i + 1]);
            assert(c[i] != pred && c[i] != succ);
            assert(c.contains(c[i]) && c.contains(c[i + 1]));
            assert(c[i + 1] != succ);
        } else if i == pos {
            assert(grown[i] == pred && grown[i + 1] == idx);
        } else if i == pos + 1 {
            assert(grown[i] == idx && grown[i + 1] == succ);
        } else {
            assert(linked(before, c, l, i - 1));
            assert(grown[i] == c[i - 1] && grown[i + 1] == c[i]);
            assert(c[i] != pred && c[i] != succ);
            assert(c.contains(c[i]) && c.contains(c[i - 1]));
            assert(c[i - 1] != pred);
        }
    }
}

proof fn lemma_unlink_chain(before: Seq<Node>, after: Seq<Node>, c: Seq<int>, l: int, pos: int)
    requires
        chain_ok(before, c, l),
        before.len() <= usize::MAX,
        0 <= l,
        0 < pos < c.len() - 1,
        spliced_out(before, after, l, c[pos - 1], c[pos], c[pos + 1]),
    ensures
        chain_ok(after, c.remove(pos), l),
{
    let shrunk = c.remove(pos);
    let pred = c[pos - 1];
    let succ = c[pos + 1];
    let idx = c[pos];
    assert forall|i: int| 0 <= i < shrunk.len() implies 0 <= #[trigger] shrunk[i] < after.len() by {
        if i < pos {
            assert(shrunk[i] == c[i]);
        } else {
            assert(shrunk[i] == c[i + 1]);
        }
    }
    assert forall|i: int, j: int| 0 <= i < j < shrunk.len() implies shrunk[i] != shrunk[j] by {
        let oi = if i < pos { i } else { i + 1 };
        let oj = if j < pos { j } else { j + 1 };
        assert(shrunk[i] == c[oi]);
        assert(shrunk[j] == c[oj]);
    }
    assert forall|i: int| 0 <= i < shrunk.len() - 1 implies #[trigger] linked(after, shrunk, l, i) by {
        if i < pos - 1 {
            assert(linked(before, c, l, i));
            assert(shrunk[i] == c[i] && shrunk[i + 1] == c[i + 1]);
            assert(c[i] != pred && c[i] != succ && c[i] != idx);
            assert(c[i + 1] != succ && c[i + 1] != idx);
            assert(after[c[i]] == before[c[i]]);
            if c[i + 1] != pred {
                assert(after[c[i + 1]] == before[c[i + 1]]);
            }
        } else if i == pos - 1 {
            assert(shrunk[i] == pred && shrunk[i + 1] == succ);
            assert(linked(before, c, l, pos - 1));
            assert(linked(before, c, l, pos));
        } else {
            assert(linked(before, c, l, i + 1));
            assert(shrunk[i] == c[i + 1] && shrunk[i + 1] == c[i + 2]);
            assert(c[i + 2] != pred && c[i + 2] != succ && c[i + 2] != idx);
            assert(c[i + 1] != pred && c[i + 1] != idx);
            assert(after[c[i + 2]] == before[c[i + 2]]);
            if c[i + 1] != succ {
                assert(after[c[i + 1]] == before[c[i + 1]]);
            }
        }
    }
}

/// Linking or unlinking on level `l` leaves the links of all other
/// levels as they are.
proof fn lemma_other_level(
    before: Seq<Node>,
    after: Seq<Node>,
    d: Seq<int>,
    m: int,
    l: int,
    pred: int,
    idx: int,
    succ: int,
)
    requires
        chain_ok(before, d, m),
        before.len() <= usize::MAX,
        m != l,
        0 <= m,
        0 <= l,
        0 <= pred < before.len(),
        0 <= succ < before.len(),
        2 <= idx < before.len(),
        pred != idx && succ != idx && pred != succ,
        l < before[pred].next_ptrs@.len(),
        l < before[succ].prev_ptrs@.len(),
        spliced_in(before, after, l, pred, idx, succ) && before[idx].next_ptrs@.len() == l
            && before[idx].prev_ptrs@.len() == l || spliced_out(before, after, l, pred, idx, succ)
            && before[idx].next_ptrs@.len() == l + 1 && before[idx].prev_ptrs@.len() == l + 1,
    ensures
        chain_ok(after, d, m),
{
    assert forall|i: int| 0 <= i < d.len() implies keeps_links(before[#[trigger] d[i]], after[d[i]], m) by {
        let n = d[i];
        if n == idx {
            if i < d.len() - 1 {
                assert(linked(before, d, m, i));
            }
        }
    }
    lemma_chain_frame(before, after, d, m);
}

proof fn lemma_link(
    before: Seq<Node>,
    after: Seq<Node>,
    chains: Seq<Seq<int>>,
    free: Seq<usize>,
    l: int,
    pos: int,
    idx: int,
)
    requires
        structure(before, chains, free),
        0 <= l < chains.len(),
        0 <= pos < chains[l].len() - 1,
        2 <= idx < before.len(),
        before[idx].next_ptrs@.len() == l,
        !free.contains(idx as usize),
        spliced_in(before, after, l, chains[l][pos], idx, chains[l][pos + 1]),
    ensures
        structure(after, chains.update(l, chains[l].insert(pos + 1, idx)), free),
{
    let c = chains[l];
    let grown = c.insert(pos + 1, idx);
    let now = chains.update(l, grown);
    let pred = c[pos];
    let succ = c[pos + 1];
    assert(chain_ok(before, c, l));
    assert(linked(before, c, l, pos));
    lemma_off_chain(before, c, l, idx);
    assert(c.contains(pred) && c.contains(succ));
    assert forall|m: int| 0 <= m < now.len() implies chain_ok(after, #[trigger] now[m], m) by {
        if m == l {
            lemma_link_chain(before, after, c, l, pos, idx);
        } else {
            assert(chain_ok(before, chains[m], m));
            lemma_other_level(before, after, chains[m], m, l, pred, idx, succ);
        }
    }
    assert forall|n: int, m: int|
        2 <= n < after.len() && 0 <= m < after[n].next_ptrs@.len() implies #[trigger] now[m].contains(
        n,
    ) by {
        if m == l {
            if n == idx {
                assert(grown[pos + 1] == n);
            } else {
                assert(chains[m].contains(n));
                let i = choose|i: int| 0 <= i < c.len() && c[i] == n;
                if i <= pos {
                    assert(grown[i] == n);
                } else {
                    assert(grown[i + 1] == n);
                }
            }
        } else {
            assert(chains[m].contains(n));
        }
    }
    assert forall|k: int| 0 <= k < free.len() implies {
        &&& 2 <= #[trigger] free[k] < after.len()
        &&& after[free[k] as int].next_ptrs@.len() == 0
    } by {
        assert(free[k] != idx);
        assert(free.contains(free[k]));
        if free[k] == pred || free[k] == succ {
            assert(before[free[k] as int].next_ptrs@.len() == 0);
        }
    }
    assert(arena_ok(after, now.len() as int)) by {
        assert forall|n: int| 2 <= n < after.len() implies {
            &&& (#[trigger] after[n]).node_type is Value
            &&& after[n].next_ptrs@.len() == after[n].prev_ptrs@.len()
            &&& after[n].next_ptrs@.len() <= now.len()
        } by {
            assert(before[n].node_type is Value);
        }
    }
}

proof fn lemma_unlink(
    before: Seq<Node>,
    after: Seq<Node>,
    chains: Seq<Seq<int>>,
    free: Seq<usize>,
    l: int,
    pos: int,
)
    requires
        structure(before, chains, free),
        0 <= l < chains.len(),
        0 < pos < chains[l].len() - 1,
        before[chains[l][pos]].next_ptrs@.len() == l + 1,
        spliced_out(before, after, l, chains[l][pos - 1], chains[l][pos], chains[l][pos + 1]),
    ensures
        structure(after, chains.update(l, chains[l].remove(pos)), free),
{
    let c = chains[l];
    let shrunk = c.remove(pos);
    let now = chains.update(l, shrunk);
    let pred = c[pos - 1];
    let succ = c[pos + 1];
    let idx = c[pos];
    assert(chain_ok(before, c, l));
    assert(linked(before, c, l, pos - 1));
    assert(linked(before, c, l, pos));
    assert(idx != c[0] && idx != c[c.len() - 1]);
    assert forall|m: int| 0 <= m < now.len() implies chain_ok(after, #[trigger] now[m], m) by {
        if m == l {
            lemma_unlink_chain(before, after, c, l, pos);
        } else {
            assert(chain_ok(before, chains[m], m));
            lemma_other_level(before, after, chains[m], m, l, pred, idx, succ);
        }
    }
    assert forall|n: int, m: int|
        2 <= n < after.len() && 0 <= m < after[n].next_ptrs@.len() implies #[trigger] now[m].contains(
        n,
    ) by {
        assert(chains[m].contains(n));
        if m == l {
            let i = choose|i: int| 0 <= i < c.len() && c[i] == n;
            if i < pos {
                assert(shrunk[i] == n);
            } else {
                assert(shrunk[i - 1] == n);
            }
        }
    }
    assert forall|k: int| 0 <= k < free.len() implies {
        &&& 2 <= #[trigger] free[k] < after.len()
        &&& after[free[k] as int].next_ptrs@.len() == 0
    } by {
        assert(free.contains(free[k]));
        assert(before[free[k] as int].next_ptrs@.len() == 0);
    }
    assert(arena_ok(after, now.len() as int)) by {
        assert forall|n: int| 2 <= n < after.len() implies {
            &&& (#[trigger] after[n]).node_type is Value
            &&& after[n].next_ptrs@.len() == after[n].prev_ptrs@.len()
            &&& after[n].next_ptrs@.len() <= now.len()
        } by {
            assert(before[n].node_type is Value);
        }
    }
}

/// An ordered set of segment handles kept as a skip list.
pub struct SkipList {
    nodes: Vec<Node>,
    free: Vec<usize>,
    rng: rand::rngs::ThreadRng,
    chains: Ghost<Seq<Seq<int>>>,
}

impl View for SkipList {
    type V = Seq<usize>;

    /// The stored handles in list order: what stands on the bottom level.
    open spec fn view(&self) -> Seq<usize> {
        self.level_view(0)
    }
}

impl SkipList {
    /// Number of levels of the list.
    pub closed spec fn levels(&self) -> nat {
        self.chains@.len()
    }

    /// The handles that stand on `level`, in list order.
    pub closed spec fn level_view(&self, level: int) -> Seq<usize> {
        chain_view(self.nodes@, self.chains@[level])
    }

    /// Every level is ascending at the sweep height `h`.
    pub open spec fn ordered_at(&self, segments: Seq<Segment>, h: int) -> bool {
        forall|l: int|
            0 <= l < self.levels() ==> ascending(#[trigger] self.level_view(l), segments, h)
    }

    /// `after` is what inserting `element` with a tower of `level`
    /// levels makes of the levels of `self`: the element goes into one of
    /// its slots on each of the first `level` levels, the levels above
    /// stay as they are, and a tower that reaches the top opens a level
    /// of its own if `grow` is set.
    pub open spec fn raised_to(
        &self,
        after: &SkipList,
        element: usize,
        segments: Seq<Segment>,
        h: int,
        level: int,
        grow: bool,
    ) -> bool {
        &&& 1 <= level <= self.levels()
        &&& after.levels() == self.levels() + if level == self.levels() && grow {
            1nat
        } else {
            0nat
        }
        &&& forall|l: int|
            0 <= l < level ==> #[trigger] inserted_into(
                self.level_view(l),
                element,
                after.level_view(l),
                segments,
                h,
            )
        &&& forall|l: int|
            level <= l < self.levels() ==> #[trigger] after.level_view(l) == self.level_view(l)
        &&& level == self.levels() && grow ==> after.level_view(level) == seq![element]
    }

    spec fn structure_ok(&self) -> bool {
        structure(self.nodes@, self.chains@, self.free@)
    }

    /// The representation invariant.
    pub closed spec fn wf(&self) -> bool {
        &&& self.structure_ok()
        &&& self.chains@[0].len() + self.free@.len() == self.nodes@.len()
    }

    /// An empty list of one level.
    pub fn new() -> (list: SkipList)
        ensures
            list.wf(),
            list@ == Seq::<usize>::empty(),
            list.levels() == 1,
    {
        let mut nodes: Vec<Node> = Vec::new();
        let mut start_next: Vec<usize> = Vec::new();
        start_next.push(1);
        let mut end_prev: Vec<usize> = Vec::new();
        end_prev.push(0);
        nodes.push(
            Node { node_type: NodeType::Start, next_ptrs: start_next, prev_ptrs: Vec::new() },
        );
        nodes.push(Node { node_type: NodeType::End, next_ptrs: Vec::new(), prev_ptrs: end_prev });
        let ghost bottom: Seq<Seq<int>> = seq![seq![0int, 1int]];
        let list = SkipList {
            nodes,
            free: Vec::new(),
            rng: thread_generator(),
            chains: Ghost(bottom),
        };
        proof {
            let c = list.chains@[0];
            assert(linked(list.nodes@, c, 0, 0));
            assert(chain_ok(list.nodes@, c, 0));
            assert(list@ =~= Seq::<usize>::empty());
        }
        list
    }

    /// Number of levels of the list.
    pub fn height(&self) -> (h: usize)
        requires
            self.wf(),
        ensures
            h == self.levels(),
            h >= 1,
    {
        self.nodes[0].next_ptrs.len()
    }

    /// Takes a vacant slot, or a new one, for a node that carries
    /// `element` and stands on no level yet.
    fn allocate(&mut self, element: usize) -> (idx: usize)
        requires
            old(self).structure_ok(),
        ensures
            final(self).structure_ok(),
            final(self).chains@ == old(self).chains@,
            2 <= idx < final(self).nodes@.len(),
            final(self).nodes@[idx as int].node_type == NodeType::Value(element),
            final(self).nodes@[idx as int].next_ptrs@.len() == 0,
            !final(self).free@.contains(idx),
            final(self).nodes@.len() - final(self).free@.len() == old(self).nodes@.len() - old(
                self,
            ).free@.len() + 1,
            final(self).nodes@.len() >= old(self).nodes@.len(),
            forall|n: int|
                0 <= n < old(self).nodes@.len() && n != idx ==> final(self).nodes@[n] == old(
                    self,
                ).nodes@[n],
            forall|n: int|
                0 <= n < old(self).nodes@.len() && old(self).nodes@[n].next_ptrs@.len() > 0 ==> n
                    != idx,
    {
        let ghost before = self.nodes@;
        let ghost free_before = self.free@;
        let idx = if self.free.len() > 0 {
            let idx = self.free.pop().unwrap();
            proof {
                assert(free_before[free_before.len() - 1] == idx);
                assert(self.free@ =~= free_before.drop_last());
                assert forall|k: int| 0 <= k < self.free@.len() implies self.free@[k] != idx by {
                    assert(free_before[k] == self.free@[k]);
                }
            }
            self.nodes[idx].node_type = NodeType::Value(element);
            idx
        } else {
            let idx = self.nodes.len();
            self.nodes.push(
                Node {
                    node_type: NodeType::Value(element),
                    next_ptrs: Vec::new(),
                    prev_ptrs: Vec::new(),
                },
            );
            let slots = self.nodes.len();
            assert(slots == idx + 1);
            idx
        };
        proof {
            let after = self.nodes@;
            assert forall|l: int| 0 <= l < self.chains@.len() implies chain_ok(
                after,
                #[trigger] self.chains@[l],
                l,
            ) by {
                let c = self.chains@[l];
                assert(chain_ok(before, c, l));
                assert forall|i: int| 0 <= i < c.len() implies keeps_links(
                    before[#[trigger] c[i]],
                    after[c[i]],
                    l,
                ) by {}
                lemma_chain_frame(before, after, c, l);
            }
            assert forall|n: int, l: int|
                2 <= n < after.len() && 0 <= l < after[n].next_ptrs@.len() implies #[trigger] self.chains@[l].contains(
                n,
            ) by {
                assert(n != idx);
                assert(before[n].next_ptrs@.len() == after[n].next_ptrs@.len());
            }
            assert forall|k: int| 0 <= k < self.free@.len() implies {
                &&& 2 <= #[trigger] self.free@[k] < after.len()
                &&& after[self.free@[k] as int].next_ptrs@.len() == 0
            } by {
                assert(free_before[k] == self.free@[k]);
            }
        }
        idx
    }

    /// Links the slot `idx`, which so far stands on the levels below
    /// `level`, into `level` right behind `pred`.
    fn link_level(&mut self, idx: usize, pred: usize, level: usize, Ghost(pos): Ghost<int>)
        requires
            old(self).structure_ok(),
            level < old(self).chains@.len(),
            2 <= idx < old(self).nodes@.len(),
            old(self).nodes@[idx as int].next_ptrs@.len() == level,
            !old(self).free@.contains(idx),
            0 <= pos < old(self).chains@[level as int].len() - 1,
            old(self).chains@[level as int][pos] == pred,
        ensures
            final(self).structure_ok(),
            final(self).chains@ == old(self).chains@.update(
                level as int,
                old(self).chains@[level as int].insert(pos + 1, idx as int),
            ),
            final(self).free@ == old(self).free@,
            final(self).nodes@.len() == old(self).nodes@.len(),
            final(self).nodes@[idx as int].next_ptrs@.len() == level + 1,
            forall|n: int|
                0 <= n < old(self).nodes@.len() ==> (#[trigger] final(self).nodes@[n]).node_type
                    == old(self).nodes@[n].node_type,
    {
        let ghost before = self.nodes@;
        let ghost chains_before = self.chains@;
        let ghost c = self.chains@[level as int];
        proof {
            assert(chain_ok(before, c, level as int));
            assert(linked(before, c, level as int, pos));
            lemma_off_chain(before, c, level as int, idx as int);
            assert(c.contains(c[pos]) && c.contains(c[pos + 1]));
        }
        let succ = self.nodes[pred].next_ptrs[level];
        self.nodes[pred].next_ptrs[level] = idx;
        self.nodes[succ].prev_ptrs[level] = idx;
        self.nodes[idx].next_ptrs.push(succ);
        self.nodes[idx].prev_ptrs.push(pred);
        proof {
            self.chains@ = chains_before.update(level as int, c.insert(pos + 1, idx as int));
            assert(spliced_in(before, self.nodes@, level as int, pred as int, idx as int, succ as int));
            lemma_link(before, self.nodes@, chains_before, self.free@, level as int, pos, idx as int);
        }
    }

    /// Opens a new top level that holds only the slot `idx`, which
    /// stands on every level below.
    fn raise(&mut self, idx: usize)
        requires
            old(self).structure_ok(),
            2 <= idx < old(self).nodes@.len(),
            old(self).nodes@[idx as int].next_ptrs@.len() == old(self).chains@.len(),
            !old(self).free@.contains(idx),
        ensures
            final(self).structure_ok(),
            final(self).chains@ == old(self).chains@.push(seq![0int, idx as int, 1int]),
            final(self).free@ == old(self).free@,
            final(self).nodes@.len() == old(self).nodes@.len(),
            forall|n: int|
                0 <= n < old(self).nodes@.len() ==> (#[trigger] final(self).nodes@[n]).node_type
                    == old(self).nodes@[n].node_type,
    {
        let ghost before = self.nodes@;
        let ghost chains_before = self.chains@;
        let ghost top = self.chains@.len() as int;
        self.nodes[0].next_ptrs.push(idx);
        self.nodes[1].prev_ptrs.push(idx);
        self.nodes[idx].next_ptrs.push(1);
        self.nodes[idx].prev_ptrs.push(0);
        proof {
            let lone = seq![0int, idx as int, 1int];
            self.chains@ = chains_before.push(lone);
            let after = self.nodes@;
            assert forall|l: int| 0 <= l < self.chains@.len() implies chain_ok(
                after,
                #[trigger] self.chains@[l],
                l,
            ) by {
                if l < top {
                    let d = chains_before[l];
                    assert(self.chains@[l] == d);
                    assert(chain_ok(before, d, l));
                    assert forall|i: int| 0 <= i < d.len() implies keeps_links(
                        before[#[trigger] d[i]],
                        after[d[i]],
                        l,
                    ) by {}
                    lemma_chain_frame(before, after, d, l);
                } else {
                    assert(self.chains@[l] == lone);
                    assert(linked(after, lone, l, 0));
                    assert(linked(after, lone, l, 1));
                }
            }
            assert forall|n: int, l: int|
                2 <= n < after.len() && 0 <= l < after[n].next_ptrs@.len() implies #[trigger] self.chains@[l].contains(
                n,
            ) by {
                if l < top {
                    assert(chains_before[l].contains(n));
                } else {
                    assert(n == idx);
                    assert(lone[1] == n);
                }
            }
            assert forall|k: int| 0 <= k < self.free@.len() implies {
                &&& 2 <= #[trigger] self.free@[k] < after.len()
                &&& after[self.free@[k] as int].next_ptrs@.len() == 0
            } by {
                assert(self.free@[k] != idx);
            }
        }
    }

    /// The slots on level `l` keep their handles when only the slot
    /// `idx`, which stands on no level, is given a new one.
    proof fn lemma_members_keep_handles(&self, after: Seq<Node>, l: int, idx: int)
        requires
            self.structure_ok(),
            0 <= l < self.chains@.len(),
            self.nodes@.len() <= after.len(),
            2 <= idx,
            idx < self.nodes@.len() ==> self.nodes@[idx].next_ptrs@.len() == 0,
            forall|n: int|
                0 <= n < self.nodes@.len() && n != idx ==> (#[trigger] after[n]).node_type
                    == self.nodes@[n].node_type,
        ensures
            forall|i: int|
                0 <= i < self.chains@[l].len() ==> 0 <= #[trigger] self.chains@[l][i]
                    < self.nodes@.len() && self.chains@[l][i] < after.len()
                    && after[self.chains@[l][i]].node_type
                    == self.nodes@[self.chains@[l][i]].node_type,
    {
        let c = self.chains@[l];
        assert(chain_ok(self.nodes@, c, l));
        assert forall|i: int| 0 <= i < c.len() implies 0 <= #[trigger] c[i] < self.nodes@.len()
            && c[i] < after.len() && after[c[i]].node_type == self.nodes@[c[i]].node_type by {
            if i < c.len() - 1 {
                assert(linked(self.nodes@, c, l, i));
            }
            assert(c[i] != idx);
        }
    }

    proof fn lemma_located_slot(
        &self,
        l: int,
        pred: usize,
        pos: int,
        element: usize,
        segments: Seq<Segment>,
        h: int,
    )
        requires
            self.structure_ok(),
            0 <= l < self.chains@.len(),
            self.located(l, pred, pos, element, segments, h),
        ensures
            is_slot(self.level_view(l), pos, element, segments, h),
            neighbors(self.level_view(l), pos) == (
                match self.nodes@[pred as int].node_type {
                    NodeType::Value(v) => Some(v),
                    _ => None::<usize>,
                },
                match self.nodes@[self.chains@[l][pos + 1]].node_type {
                    NodeType::Value(v) => Some(v),
                    _ => None::<usize>,
                },
            ),
    {
        let c = self.chains@[l];
        assert(chain_ok(self.nodes@, c, l));
        let s = self.level_view(l);
        if pos > 0 {
            assert(c[pos] != c[0]);
            assert(s[pos - 1] == self.nodes@[c[pos]].node_type.element());
        }
        if pos < s.len() {
            assert(c[pos + 1] != c[0]);
            assert(c[pos + 1] != c[c.len() - 1]);
            assert(s[pos] == self.nodes@[c[pos + 1]].node_type.element());
        }
    }

    /// Puts `element` into the list with a tower of `level` levels, and
    /// opens a new top level for it if `grow` is set and the tower already
    /// reaches the top.
    ///
    /// `element` lands in a slot of the bottom level: behind an entry that
    /// does not sort after it and before one that does. The result holds
    /// the handles on either side of it.
    pub fn insert_with_draw(
        &mut self,
        element: usize,
        segments: &[Segment],
        height: i32,
        level: usize,
        grow: bool,
    ) -> (r: (Option<usize>, Option<usize>))
        requires
            old(self).wf(),
            element < segments@.len(),
            handles_below(old(self)@, segments@.len() as int),
            1 <= level <= old(self).levels(),
        ensures
            final(self).wf(),
            exists|p: int|
                #[trigger] inserted_at(old(self)@, p, element, final(self)@, segments@, height as int)
                    && r == neighbors(old(self)@, p),
            old(self).raised_to(
                final(self),
                element,
                segments@,
                height as int,
                level as int,
                grow,
            ),
            old(self).ordered_at(segments@, height as int) && crossing_defined(
                segments@[element as int],
            ) ==> final(self).ordered_at(segments@, height as int),
    {
        proof {
            self.lemma_live_below(segments@.len() as int);
        }
        let ghost before = *self;
        let (preds, Ghost(positions)) = self.traverse_level(element, segments, height);
        let top = self.nodes[0].next_ptrs.len();
        proof {
            assert(before.located(0, preds@[0], positions[0], element, segments@, height as int));
            before.lemma_located_slot(0, preds@[0], positions[0], element, segments@, height as int);
            assert(chain_ok(self.nodes@, self.chains@[0], 0));
            assert(linked(self.nodes@, self.chains@[0], 0, positions[0]));
        }
        let prev_neighbor = match self.nodes[preds[0]].node_type {
            NodeType::Value(v) => Some(v),
            _ => None,
        };
        let succ = self.nodes[preds[0]].next_ptrs[0];
        let next_neighbor = match self.nodes[succ].node_type {
            NodeType::Value(v) => Some(v),
            _ => None,
        };
        let idx = self.allocate(element);
        let ghost mid = *self;
        let mut l: usize = 0;
        while l < level
            invariant
                self.structure_ok(),
                before.structure_ok(),
                mid.chains@ == before.chains@,
                l <= level <= top,
                top == before.chains@.len(),
                self.chains@.len() == top,
                preds@.len() == top,
                positions.len() == top,
                forall|j: int|
                    0 <= j < top ==> #[trigger] before.located(
                        j,
                        preds@[j],
                        positions[j],
                        element,
                        segments@,
                        height as int,
                    ),
                forall|j: int|
                    0 <= j < l ==> #[trigger] self.chains@[j] == before.chains@[j].insert(
                        positions[j] + 1,
                        idx as int,
                    ),
                forall|j: int| l <= j < top ==> #[trigger] self.chains@[j] == before.chains@[j],
                2 <= idx < self.nodes@.len(),
                self.nodes@.len() == mid.nodes@.len(),
                forall|n: int|
                    0 <= n < mid.nodes@.len() ==> (#[trigger] self.nodes@[n]).node_type
                        == mid.nodes@[n].node_type,
                self.nodes@[idx as int].next_ptrs@.len() == l,
                self.free@ == mid.free@,
                !self.free@.contains(idx),
                before.chains@[0].len() + 1 + self.free@.len() == self.nodes@.len(),
            decreases level - l,
        {
            proof {
                assert(before.located(
                    l as int,
                    preds@[l as int],
                    positions[l as int],
                    element,
                    segments@,
                    height as int,
                ));
                assert(self.chains@[l as int] == before.chains@[l as int]);
            }
            let ghost chains_now = self.chains@;
            self.link_level(idx, preds[l], l, Ghost(positions[l as int]));
            proof {
                assert forall|j: int| 0 <= j < l + 1 implies #[trigger] self.chains@[j]
                    == before.chains@[j].insert(positions[j] + 1, idx as int) by {
                    if j < l {
                        assert(chains_now[j] == before.chains@[j].insert(
                            positions[j] + 1,
                            idx as int,
                        ));
                    }
                }
                assert forall|j: int| l + 1 <= j < top implies #[trigger] self.chains@[j]
                    == before.chains@[j] by {
                    assert(chains_now[j] == before.chains@[j]);
                }
            }
            l = l + 1;
        }
        let grown = level == top && grow;
        if grown {
            self.raise(idx);
        }
        proof {
            assert forall|j: int| 0 <= j < level implies (#[trigger] inserted_into(
                before.level_view(j),
                element,
                self.level_view(j),
                segments@,
                height as int,
            ) && inserted_at(
                before.level_view(j),
                positions[j],
                element,
                self.level_view(j),
                segments@,
                height as int,
            )) by {
                assert(before.located(j, preds@[j], positions[j], element, segments@, height as int));
                before.lemma_located_slot(j, preds@[j], positions[j], element, segments@, height as int);
                let c = before.chains@[j];
                assert(self.chains@[j] == c.insert(positions[j] + 1, idx as int));
                before.lemma_members_keep_handles(self.nodes@, j, idx as int);
                lemma_view_insert(before.nodes@, self.nodes@, c, positions[j], idx as int, element);
                assert(inserted_at(
                    before.level_view(j),
                    positions[j],
                    element,
                    self.level_view(j),
                    segments@,
                    height as int,
                ));
            }
            assert(inserted_into(before.level_view(0), element, self.level_view(0), segments@, height as int));
            assert(inserted_at(before@, positions[0], element, self@, segments@, height as int));
            assert forall|j: int| level <= j < top implies self.level_view(j) == before.level_view(
                j,
            ) by {
                let c = before.chains@[j];
                assert(self.chains@[j] == c);
                before.lemma_members_keep_handles(self.nodes@, j, idx as int);
                lemma_view_frame(before.nodes@, self.nodes@, c);
            }
            if grown {
                assert(self.level_view(level as int) =~= seq![element]);
            }
            if before.ordered_at(segments@, height as int) && crossing_defined(
                segments@[element as int],
            ) {
                assert forall|j: int| 0 <= j < self.levels() implies ascending(
                    #[trigger] self.level_view(j),
                    segments@,
                    height as int,
                ) by {
                    if j < level {
                        assert(inserted_into(
                            before.level_view(j),
                            element,
                            self.level_view(j),
                            segments@,
                            height as int,
                        ));
                        assert(inserted_at(
                            before.level_view(j),
                            positions[j],
                            element,
                            self.level_view(j),
                            segments@,
                            height as int,
                        ));
                        lemma_insert_keeps_ascending(
                            before.level_view(j),
                            positions[j],
                            element,
                            segments@,
                            height as int,
                        );
                    } else if j < top {
                        assert(self.level_view(j) == before.level_view(j));
                    }
                }
            }
            assert(self.chains@[0].len() == before.chains@[0].len() + 1);
        }
        (prev_neighbor, next_neighbor)
    }

    /// Puts `element` into the list at the sweep height `height`, with a
    /// tower height drawn at random from `1..=levels`; a tower that
    /// reaches the top may, on a coin flip, open one more level.
    pub fn insert(&mut self, element: usize, segments: &[Segment], height: i32) -> (r: (
        Option<usize>,
        Option<usize>,
    ))
        requires
            old(self).wf(),
            element < segments@.len(),
            handles_below(old(self)@, segments@.len() as int),
        ensures
            final(self).wf(),
            exists|p: int|
                #[trigger] inserted_at(old(self)@, p, element, final(self)@, segments@, height as int)
                    && r == neighbors(old(self)@, p),
            old(self).levels() <= final(self).levels() <= old(self).levels() + 1,
            exists|level: int, grow: bool| #[trigger]
                old(self).raised_to(final(self), element, segments@, height as int, level, grow),
            old(self).ordered_at(segments@, height as int) && crossing_defined(
                segments@[element as int],
            ) ==> final(self).ordered_at(segments@, height as int),
    {
        let ghost before = *self;
        let top = self.height();
        let level = 1 + random_below(&mut self.rng, top);
        let grow = random_flag(&mut self.rng);
        let ghost drawn = *self;
        proof {
            assert forall|l: int| 0 <= l < self.levels() implies #[trigger] self.level_view(l)
                == before.level_view(l) by {}
        }
        let r = self.insert_with_draw(element, segments, height, level, grow);
        proof {
            assert(drawn.raised_to(self, element, segments@, height as int, level as int, grow));
            assert(drawn.levels() == before.levels());
            assert forall|l: int| 0 <= l < level implies #[trigger] inserted_into(
                before.level_view(l),
                element,
                self.level_view(l),
                segments@,
                height as int,
            ) by {
                assert(drawn.level_view(l) == before.level_view(l));
                assert(inserted_into(
                    drawn.level_view(l),
                    element,
                    self.level_view(l),
                    segments@,
                    height as int,
                ));
            }
            assert forall|l: int| level <= l < before.levels() implies #[trigger] self.level_view(l)
                == before.level_view(l) by {
                assert(drawn.level_view(l) == before.level_view(l));
            }
            assert(before.raised_to(self, element, segments@, height as int, level as int, grow));
        }
        r
    }

    /// Takes the slot `idx` out of its topmost level, `level`.
    fn unlink_level(&mut self, idx: usize, level: usize) -> (pos: Ghost<int>)
        requires
            old(self).structure_ok(),
            2 <= idx < old(self).nodes@.len(),
            old(self).nodes@[idx as int].next_ptrs@.len() == level + 1,
        ensures
            final(self).structure_ok(),
            0 < pos@ < old(self).chains@[level as int].len() - 1,
            old(self).chains@[level as int][pos@] == idx,
            final(self).chains@ == old(self).chains@.update(
                level as int,
                old(self).chains@[level as int].remove(pos@),
            ),
            final(self).free@ == old(self).free@,
            final(self).nodes@.len() == old(self).nodes@.len(),
            final(self).nodes@[idx as int].next_ptrs@.len() == level,
            forall|n: int|
                0 <= n < old(self).nodes@.len() ==> (#[trigger] final(self).nodes@[n]).node_type
                    == old(self).nodes@[n].node_type,
    {
        let ghost before = self.nodes@;
        let ghost chains_before = self.chains@;
        let ghost c = self.chains@[level as int];
        let ghost pos: int = 0;
        proof {
            assert(chain_ok(before, c, level as int));
            assert(c.contains(idx as int));
            pos = choose|i: int| 0 <= i < c.len() && c[i] == idx;
            assert(linked(before, c, level as int, pos - 1));
            assert(linked(before, c, level as int, pos));
        }
        let pred = self.nodes[idx].prev_ptrs[level];
        let succ = self.nodes[idx].next_ptrs[level];
        self.nodes[pred].next_ptrs[level] = succ;
        self.nodes[succ].prev_ptrs[level] = pred;
        self.nodes[idx].next_ptrs.pop();
        self.nodes[idx].prev_ptrs.pop();
        proof {
            self.chains@ = chains_before.update(level as int, c.remove(pos));
            assert(spliced_out(before, self.nodes@, level as int, pred as int, idx as int, succ as int));
            lemma_unlink(before, self.nodes@, chains_before, self.free@, level as int, pos);
        }
        Ghost(pos)
    }

    /// Takes `element` out of the list at the sweep height `height` and
    /// says whether it was found.
    ///
    /// The search ends at a slot of `element`; the entry before that slot
    /// is removed if it is `element`, and nothing is removed otherwise.
    pub fn remove(&mut self, element: usize, segments: &[Segment], height: i32) -> (found: bool)
        requires
            old(self).wf(),
            element < segments@.len(),
            handles_below(old(self)@, segments@.len() as int),
        ensures
            final(self).wf(),
            removed_by(old(self)@, element, final(self)@, found, segments@, height as int),
            final(self).levels() == old(self).levels(),
            !found ==> forall|l: int|
                0 <= l < old(self).levels() ==> final(self).level_view(l) == old(self).level_view(
                    l,
                ),
            found ==> forall|l: int|
                0 <= l < old(self).levels() ==> final(self).level_view(l) == old(self).level_view(l)
                    || #[trigger] removed_from(
                    old(self).level_view(l),
                    element,
                    final(self).level_view(l),
                ),
            old(self).ordered_at(segments@, height as int) ==> final(self).ordered_at(
                segments@,
                height as int,
            ),
            strictly_ascending(old(self)@, segments@, height as int) ==> found == old(
                self,
            )@.contains(element),
    {
        proof {
            self.lemma_live_below(segments@.len() as int);
        }
        let ghost before = *self;
        let (preds, Ghost(positions)) = self.traverse_level(element, segments, height);
        let target = preds[0];
        proof {
            assert(before.located(0, preds@[0], positions[0], element, segments@, height as int));
            before.lemma_located_slot(0, preds@[0], positions[0], element, segments@, height as int);
            assert(chain_ok(self.nodes@, self.chains@[0], 0));
        }
        let ghost p = positions[0];
        let hit = match self.nodes[target].node_type {
            NodeType::Value(v) => v == element,
            _ => false,
        };
        proof {
            if strictly_ascending(before@, segments@, height as int) {
                if before@.contains(element) {
                    let k = choose|k: int| 0 <= k < before@.len() && before@[k] == element;
                    lemma_slot_of_member(before@, k, p, segments@, height as int);
                }
            }
        }
        if !hit {
            proof {
                assert(removed_at(before@, p, element, self@, false, segments@, height as int));
            }
            return false;
        }
        proof {
            assert(target != 0 && target != 1);
            assert(self.chains@[0][p] != self.chains@[0][0]);
            assert(linked(self.nodes@, self.chains@[0], 0, p));
        }
        let mut level = self.nodes[target].next_ptrs.len();
        let ghost tower = level as int;
        let ghost mut ats: Seq<int> = Seq::new(tower as nat, |j: int| 0int);
        while level > 0
            invariant
                ats.len() == tower,
                forall|j: int|
                    level <= j < tower ==> {
                        &&& 0 < #[trigger] ats[j] < before.chains@[j].len() - 1
                        &&& before.chains@[j][ats[j]] == target
                        &&& self.chains@[j] == before.chains@[j].remove(ats[j])
                    },
                forall|j: int|
                    tower <= j < before.chains@.len() ==> #[trigger] self.chains@[j]
                        == before.chains@[j],
                self.structure_ok(),
                before.structure_ok(),
                2 <= target < self.nodes@.len(),
                self.nodes@.len() == before.nodes@.len(),
                self.chains@.len() == before.chains@.len(),
                self.nodes@[target as int].next_ptrs@.len() == level,
                0 < p < before.chains@[0].len() - 1,
                before.chains@[0][p] == target,
                tower >= 1,
                level <= tower <= before.chains@.len(),
                forall|j: int| 0 <= j < level ==> #[trigger] self.chains@[j] == before.chains@[j],
                level == 0 ==> self.chains@[0] == before.chains@[0].remove(p),
                self.free@ == before.free@,
                forall|n: int|
                    0 <= n < before.nodes@.len() ==> (#[trigger] self.nodes@[n]).node_type
                        == before.nodes@[n].node_type,
            decreases level,
        {
            level = level - 1;
            let ghost chains_now = self.chains@;
            let Ghost(at) = self.unlink_level(target, level);
            proof {
                assert(chains_now[level as int] == before.chains@[level as int]);
                if level == 0 {
                    assert(chain_ok(before.nodes@, before.chains@[0], 0));
                    assert(at == p);
                }
                assert forall|j: int| 0 <= j < level implies #[trigger] self.chains@[j]
                    == before.chains@[j] by {
                    assert(chains_now[j] == before.chains@[j]);
                }
                ats = ats.update(level as int, at);
                assert forall|j: int| level <= j < tower implies {
                    &&& 0 < #[trigger] ats[j] < before.chains@[j].len() - 1
                    &&& before.chains@[j][ats[j]] == target
                    &&& self.chains@[j] == before.chains@[j].remove(ats[j])
                } by {
                    if j > level {
                        assert(chains_now[j] == before.chains@[j].remove(ats[j]));
                    }
                }
                assert forall|j: int| tower <= j < before.chains@.len() implies #[trigger] self.chains@[j]
                    == before.chains@[j] by {
                    assert(chains_now[j] == before.chains@[j]);
                }
            }
        }
        proof {
            assert forall|k: int| 0 <= k < self.free@.len() implies self.free@[k] != target by {
                assert(before.nodes@[before.free@[k] as int].next_ptrs@.len() == 0);
            }
        }
        let ghost free_before = self.free@;
        self.free.push(target);
        proof {
            assert forall|i: int, j: int| 0 <= i < j < self.free@.len() implies self.free@[i]
                != self.free@[j] by {
                if j < free_before.len() {
                    assert(free_before[i] != free_before[j]);
                }
            }
            let c = before.chains@[0];
            assert forall|i: int|
                0 <= i < c.len() implies 0 <= #[trigger] c[i] < before.nodes@.len() && c[i]
                < self.nodes@.len() && (i != p ==> self.nodes@[c[i]].node_type
                == before.nodes@[c[i]].node_type) by {}
            lemma_view_remove(before.nodes@, self.nodes@, c, p);
            assert(before@[p - 1] == before.nodes@[c[p]].node_type.element());
            assert(removed_at(before@, p, element, self@, true, segments@, height as int));
            assert forall|l: int| 0 <= l < before.levels() implies self.level_view(l)
                == before.level_view(l) || #[trigger] removed_from(
                before.level_view(l),
                element,
                self.level_view(l),
            ) by {
                let d = before.chains@[l];
                assert(chain_ok(before.nodes@, d, l));
                if l < tower {
                    assert forall|i: int|
                        0 <= i < d.len() implies 0 <= #[trigger] d[i] < before.nodes@.len() && d[i]
                        < self.nodes@.len() && (i != ats[l] ==> self.nodes@[d[i]].node_type
                        == before.nodes@[d[i]].node_type) by {}
                    lemma_view_remove(before.nodes@, self.nodes@, d, ats[l]);
                    let q = ats[l] - 1;
                    assert(before.level_view(l)[q] == before.nodes@[d[ats[l]]].node_type.element());
                    assert(self.level_view(l) == before.level_view(l).remove(q));

                } else {
                    assert(self.chains@[l] == d);
                    assert forall|i: int|
                        0 <= i < d.len() implies 0 <= #[trigger] d[i] < before.nodes@.len() && d[i]
                        < self.nodes@.len() && self.nodes@[d[i]].node_type
                        == before.nodes@[d[i]].node_type by {}
                    lemma_view_frame(before.nodes@, self.nodes@, d);
                }
            }
            if before.ordered_at(segments@, height as int) {
                assert forall|l: int| 0 <= l < self.levels() implies ascending(
                    #[trigger] self.level_view(l),
                    segments@,
                    height as int,
                ) by {
                    assert(ascending(before.level_view(l), segments@, height as int));
                    if self.level_view(l) != before.level_view(l) {
                        assert(removed_from(before.level_view(l), element, self.level_view(l)));
                        let q = choose|q: int|
                            0 <= q < before.level_view(l).len() && before.level_view(l)[q]
                                == element && self.level_view(l) == #[trigger] before.level_view(
                                l,
                            ).remove(q);
                        lemma_remove_keeps_ascending(
                            before.level_view(l),
                            q,
                            segments@,
                            height as int,
                        );
                    }
                }
            }
        }
        true
    }

    /// The entries met on `level` from `Start` on: both sentinels around
    /// the handles of the level, or `Start` alone above the top level.
    pub open spec fn walk(&self, level: int) -> Seq<NodeType> {
        if 0 <= level < self.levels() {
            seq![NodeType::Start] + self.level_view(level).map_values(|v: usize| NodeType::Value(v))
                + seq![NodeType::End]
        } else {
            seq![NodeType::Start]
        }
    }

    /// A cursor over the entries on `level`, starting at `Start`.
    pub fn iter(&self, level: usize) -> (it: Iter<'_>)
        requires
            self.wf(),
        ensures
            it.inv(),
            it.remaining() == self.walk(level as int),
    {
        let it = Iter { list: self, next: Some(0), level, pos: Ghost(0) };
        proof {
            if level < self.chains@.len() {
                let c = self.chains@[level as int];
                assert(chain_ok(self.nodes@, c, level as int));
                it.lemma_remaining_is_walk();
            } else {
                assert(it.remaining() =~= self.walk(level as int));
            }
        }
        it
    }

    /// The stored handles in list order.
    pub fn to_vec(&self) -> (v: Vec<usize>)
        requires
            self.wf(),
        ensures
            v@ == self@,
    {
        let mut out: Vec<usize> = Vec::new();
        let mut cur: usize = 0;
        let ghost mut pos: int = 0;
        proof {
            assert(chain_ok(self.nodes@, self.chains@[0], 0));
        }
        loop
            invariant
                self.structure_ok(),
                chain_ok(self.nodes@, self.chains@[0], 0),
                0 <= pos < self.chains@[0].len() - 1,
                self.chains@[0][pos] == cur,
                out@.len() == pos,
                forall|i: int| 0 <= i < pos ==> out@[i] == self@[i],
            ensures
                out@.len() == self@.len(),
                forall|i: int| 0 <= i < out@.len() ==> out@[i] == self@[i],
            decreases self.chains@[0].len() - pos,
        {
            proof {
                assert(linked(self.nodes@, self.chains@[0], 0, pos));
            }
            let next = self.nodes[cur].next_ptrs[0];
            match self.nodes[next].node_type {
                NodeType::Value(v) => {
                    out.push(v);
                },
                _ => {
                    proof {
                        let c = self.chains@[0];
                        assert(c[pos + 1] != c[0]);
                        if pos + 1 < c.len() - 1 {
                            assert(c[pos + 1] != c[c.len() - 1]);
                        }
                    }
                    break;
                },
            }
            cur = next;
            proof {
                let c = self.chains@[0];
                assert(self@[pos] == self.nodes@[c[pos + 1]].node_type.element());
                pos = pos + 1;
            }
        }
        assert(out@ =~= self@);
        out
    }

    /// Every handle that stands on a level stands on the bottom level
    /// too: the levels above hold a choice of the stored handles.
    pub proof fn lemma_level_within_view(&self, level: int, i: int)
        requires
            self.wf(),
            0 <= level < self.levels(),
            0 <= i < self.level_view(level).len(),
        ensures
            self@.contains(self.level_view(level)[i]),
    {
        let c = self.chains@[level];
        let bottom = self.chains@[0];
        assert(chain_ok(self.nodes@, c, level));
        assert(chain_ok(self.nodes@, bottom, 0));
        let n = c[i + 1];
        assert(c[i + 1] != c[0]);
        assert(c[i + 1] != c[c.len() - 1]);
        assert(linked(self.nodes@, c, level, i + 1));
        assert(bottom.contains(n));
        let j = choose|j: int| 0 <= j < bottom.len() && bottom[j] == n;
        assert(self@[j - 1] == self.nodes@[bottom[j]].node_type.element());
    }

    /// Every linked node carries a handle below `bound`.
    spec fn live_below(&self, bound: int) -> bool {
        forall|n: int|
            2 <= n < self.nodes@.len() && self.nodes@[n].next_ptrs@.len() > 0 ==> (
            #[trigger] self.nodes@[n]).node_type.element() < bound
    }

    proof fn lemma_live_below(&self, bound: int)
        requires
            self.structure_ok(),
            handles_below(self@, bound),
        ensures
            self.live_below(bound),
    {
        let c = self.chains@[0];
        assert(chain_ok(self.nodes@, c, 0));
        assert forall|n: int|
            2 <= n < self.nodes@.len() && self.nodes@[n].next_ptrs@.len() > 0 implies (
        #[trigger] self.nodes@[n]).node_type.element() < bound by {
            assert(self.chains@[0].contains(n));
            let i = choose|i: int| 0 <= i < c.len() && c[i] == n;
            assert(self@[i - 1] == self.nodes@[c[i]].node_type.element());
        }
    }

    /// On level `l` the slot `pred` stands at chain position `pos`, does
    /// not sort after `element`, and its successor does.
    spec fn located(
        &self,
        l: int,
        pred: usize,
        pos: int,
        element: usize,
        segments: Seq<Segment>,
        h: int,
    ) -> bool {
        let c = self.chains@[l];
        &&& 0 <= pos < c.len() - 1
        &&& c[pos] == pred
        &&& order_at(self.nodes@[c[pos]].node_type, NodeType::Value(element), segments, h)
            != SweepOrder::Greater
        &&& order_at(self.nodes@[c[pos + 1]].node_type, NodeType::Value(element), segments, h)
            == SweepOrder::Greater
    }

    /// Walks from the top level down and returns, for every level, the
    /// last slot that does not sort after `element`.
    fn traverse_level(&self, element: usize, segments: &[Segment], height: i32) -> (r: (
        Vec<usize>,
        Ghost<Seq<int>>,
    ))
        requires
            self.structure_ok(),
            element < segments@.len(),
            self.live_below(segments@.len() as int),
        ensures
            r.0@.len() == self.chains@.len(),
            r.1@.len() == self.chains@.len(),
            forall|l: int|
                0 <= l < self.chains@.len() ==> #[trigger] self.located(
                    l,
                    r.0@[l],
                    r.1@[l],
                    element,
                    segments@,
                    height as int,
                ),
    {
        let top = self.nodes[0].next_ptrs.len();
        let mut preds: Vec<usize> = Vec::new();
        let mut k: usize = 0;
        while k < top
            invariant
                k <= top,
                preds@.len() == k,
            decreases top - k,
        {
            preds.push(0);
            k = k + 1;
        }
        let ghost mut positions: Seq<int> = Seq::new(top as nat, |i: int| 0int);
        let mut level: usize = top;
        let mut cur: usize = 0;
        let ghost mut pos: int = 0;
        let target = NodeType::Value(element);
        proof {
            assert(chain_ok(self.nodes@, self.chains@[top - 1], top - 1));
        }
        while level > 0
            invariant
                self.structure_ok(),
                element < segments@.len(),
                self.live_below(segments@.len() as int),
                target == NodeType::Value(element),
                top == self.chains@.len(),
                level <= top,
                preds@.len() == top,
                positions.len() == top,
                forall|l: int|
                    level <= l < top ==> #[trigger] self.located(
                        l,
                        preds@[l],
                        positions[l],
                        element,
                        segments@,
                        height as int,
                    ),
                level > 0 ==> {
                    &&& 0 <= pos < self.chains@[level - 1].len() - 1
                    &&& self.chains@[level - 1][pos] == cur
                    &&& order_at(self.nodes@[cur as int].node_type, target, segments@, height as int)
                        != SweepOrder::Greater
                },
            decreases level,
        {
            level = level - 1;
            proof {
                assert(chain_ok(self.nodes@, self.chains@[level as int], level as int));
            }
            loop
                invariant
                    self.structure_ok(),
                    element < segments@.len(),
                    self.live_below(segments@.len() as int),
                    target == NodeType::Value(element),
                    level < self.chains@.len(),
                    chain_ok(self.nodes@, self.chains@[level as int], level as int),
                    0 <= pos < self.chains@[level as int].len() - 1,
                    self.chains@[level as int][pos] == cur,
                    order_at(self.nodes@[cur as int].node_type, target, segments@, height as int)
                        != SweepOrder::Greater,
                ensures
                    order_at(
                        self.nodes@[self.chains@[level as int][pos + 1]].node_type,
                        target,
                        segments@,
                        height as int,
                    ) == SweepOrder::Greater,
                decreases self.chains@[level as int].len() - pos,
            {
                proof {
                    assert(linked(self.nodes@, self.chains@[level as int], level as int, pos));
                }
                let next = self.nodes[cur].next_ptrs[level];
                let order = self.nodes[next].node_type.compare(&target, segments, height);
                let stop = match order {
                    SweepOrder::Greater => true,
                    _ => false,
                };
                if stop {
                    break;
                }
                cur = next;
                proof {
                    pos = pos + 1;
                }
            }
            preds[level] = cur;
            proof {
                positions = positions.update(level as int, pos);
                assert(self.located(
                    level as int,
                    preds@[level as int],
                    positions[level as int],
                    element,
                    segments@,
                    height as int,
                ));
                if level > 0 {
                    let below = self.chains@[level - 1];
                    assert(chain_ok(self.nodes@, below, level - 1));
                    assert(linked(self.nodes@, self.chains@[level as int], level as int, pos));
                    if cur == 0 {
                        pos = 0;
                    } else {
                        assert(below.contains(cur as int));
                        pos = choose|i: int| 0 <= i < below.len() && below[i] == cur;
                    }
                }
            }
        }
        (preds, Ghost(positions))
    }

    /// Number of stored handles.
    pub fn len(&self) -> (n: usize)
        requires
            self.wf(),
        ensures
            n == self@.len(),
    {
        self.nodes.len() - 2 - self.free.len()
    }
}

/// A cursor over one level of a `SkipList`.
pub struct Iter<'a> {
    list: &'a SkipList,
    next: Option<usize>,
    level: usize,
    pos: Ghost<int>,
}

impl<'a> Iter<'a> {
    /// The cursor stands on a slot of its level.
    pub closed spec fn inv(&self) -> bool {
        &&& self.list.structure_ok()
        &&& match self.next {
            None => true,
            Some(n) => if self.level < self.list.chains@.len() {
                let c = self.list.chains@[self.level as int];
                0 <= self.pos@ < c.len() && c[self.pos@] == n
            } else {
                n == 0
            },
        }
    }

    /// The entries that the cursor has yet to hand out.
    pub closed spec fn remaining(&self) -> Seq<NodeType> {
        match self.next {
            None => Seq::empty(),
            Some(n) => if self.level < self.list.chains@.len() {
                let c = self.list.chains@[self.level as int];
                Seq::new(
                    (c.len() - self.pos@) as nat,
                    |i: int| self.list.nodes@[c[self.pos@ + i]].node_type,
                )
            } else {
                seq![self.list.nodes@[n as int].node_type]
            },
        }
    }

    proof fn lemma_remaining_is_walk(&self)
        requires
            self.list.structure_ok(),
            self.level < self.list.chains@.len(),
            self.next == Some(0usize),
            self.pos@ == 0,
        ensures
            self.remaining() == self.list.walk(self.level as int),
    {
        let c = self.list.chains@[self.level as int];
        let nodes = self.list.nodes@;
        assert(chain_ok(nodes, c, self.level as int));
        let w = self.list.walk(self.level as int);
        let r = self.remaining();
        assert(r.len() == w.len());
        assert forall|i: int| 0 <= i < r.len() implies r[i] == w[i] by {
            if 0 < i < c.len() - 1 {
                assert(c[i] != c[0]);
                assert(c[i] != c[c.len() - 1]);
                assert(nodes[c[i]].node_type is Value);
                assert(self.list.level_view(self.level as int)[i - 1]
                    == nodes[c[i]].node_type.element());
            }
        }
        assert(r =~= w);
    }

    /// Hands out the entry under the cursor and moves one step on, or
    /// returns `None` once `End` has been handed out.
    pub fn next(&mut self) -> (item: Option<NodeType>)
        requires
            old(self).inv(),
        ensures
            final(self).inv(),
            match item {
                Some(t) => old(self).remaining().len() > 0 && t == old(self).remaining()[0]
                    && final(self).remaining() == old(self).remaining().skip(1),
                None => old(self).remaining().len() == 0 && final(self).remaining().len() == 0,
            },
    {
        let ghost before = *self;
        let cursor = self.next;
        match cursor {
            None => None,
            Some(n) => {
                let list = self.list;
                proof {
                    if self.level < list.chains@.len() {
                        let c = list.chains@[self.level as int];
                        assert(chain_ok(list.nodes@, c, self.level as int));
                        if self.pos@ < c.len() - 1 {
                            assert(linked(list.nodes@, c, self.level as int, self.pos@));
                        } else {
                            assert(n == 1);
                        }
                    }
                }
                let node = &list.nodes[n];
                let item = node.node_type;
                if self.level < node.next_ptrs.len() {
                    self.next = Some(node.next_ptrs[self.level]);
                    proof {
                        self.pos@ = self.pos@ + 1;
                    }
                } else {
                    self.next = None;
                }
                proof {
                    assert(self.remaining() =~= before.remaining().skip(1));
                }
                Some(item)
            },
        }
    }
}

} // verus!
