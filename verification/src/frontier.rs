//! The search frontier: a priority queue that hands out the most promising
//! node first. It is a binary heap laid out in a vector.
use crate::position::MapPosition;
use vstd::multiset::Multiset;
use vstd::prelude::*;

verus! {

/// A cell waiting to be expanded, with the cost of the route that led to it
/// and the priority under which it was queued.
#[derive(Clone, Copy, Debug, PartialEq, Eq, Structural)]
pub struct Node {
    pub position: MapPosition,
    pub cost: u128,
    pub priority: u128,
}

impl Node {
    /// The order in which nodes leave the frontier: lower priority first,
    /// and among equal priorities lower cost first.
    pub open spec fn precedes(self, other: Node) -> bool {
        self.priority < other.priority || (self.priority == other.priority && self.cost
            <= other.cost)
    }

    /// Whether `self` leaves the frontier no later than `other`.
    pub fn comes_before(&self, other: &Node) -> (first: bool)
        ensures
            first == self.precedes(*other),
    {
        self.priority < other.priority || (self.priority == other.priority && self.cost
            <= other.cost)
    }
}

/// Index of the parent of heap slot `i`.
spec fn parent(i: int) -> int {
    (i - 1) / 2
}

/// Every slot but the root holds a node that its parent precedes.
spec fn heap_ordered(s: Seq<Node>) -> bool {
    forall|i: int| 1 <= i < s.len() ==> s[parent(i)].precedes(#[trigger] s[i])
}

/// The heap order holds everywhere but between slot `i` and its parent, and
/// the parent of `i` precedes the children of `i`.
spec fn ordered_above(s: Seq<Node>, i: int) -> bool {
    &&& forall|j: int| 1 <= j < s.len() && j != i ==> s[parent(j)].precedes(#[trigger] s[j])
    &&& i > 0 ==> forall|c: int|
        1 <= c < s.len() && parent(c) == i ==> s[parent(i)].precedes(#[trigger] s[c])
}

/// The heap order holds everywhere but between slot `i` and its children,
/// and the parent of `i` precedes the children of `i`.
spec fn ordered_below(s: Seq<Node>, i: int) -> bool {
    &&& forall|j: int|
        1 <= j < s.len() && parent(j) != i ==> s[parent(j)].precedes(#[trigger] s[j])
    &&& i > 0 ==> forall|c: int|
        1 <= c < s.len() && parent(c) == i ==> s[parent(i)].precedes(#[trigger] s[c])
}

/// In an ordered heap the root precedes every node.
proof fn lemma_root_precedes(s: Seq<Node>, i: int)
    requires
        heap_ordered(s),
        0 <= i < s.len(),
    ensures
        s[0].precedes(s[i]),
    decreases i,
{
    if i > 0 {
        lemma_root_precedes(s, parent(i));
        assert(s[parent(i)].precedes(s[i]));
    }
}

/// Replacing one element of a sequence replaces it in the multiset.
proof fn lemma_update_multiset(s: Seq<Node>, i: int, node: Node)
    requires
        0 <= i < s.len(),
    ensures
        s.update(i, node).to_multiset() == s.to_multiset().remove(s[i]).insert(node),
{
    broadcast use vstd::seq_lib::group_to_multiset_ensures;

    assert(s.update(i, node) =~= s.remove(i).insert(i, node));
    vstd::seq_lib::to_multiset_remove(s, i);
    vstd::seq_lib::to_multiset_insert(s.remove(i), i, node);
}

/// Exchanging two elements of a sequence keeps its multiset.
proof fn lemma_swap_multiset(s: Seq<Node>, i: int, j: int)
    requires
        0 <= i < s.len(),
        0 <= j < s.len(),
    ensures
        s.update(i, s[j]).update(j, s[i]).to_multiset() == s.to_multiset(),
{
    broadcast use vstd::seq_lib::group_to_multiset_ensures;

    let mid = s.update(i, s[j]);
    lemma_update_multiset(s, i, s[j]);
    lemma_update_multiset(mid, j, s[i]);
    assert(s.contains(s[i]));
    assert(s.contains(s[j]));
    assert(s.update(i, s[j]).update(j, s[i]).to_multiset() =~= s.to_multiset());
}

/// Exchanges the nodes in slots `i` and `j`.
fn swap_nodes(heap: &mut Vec<Node>, i: usize, j: usize)
    requires
        i < old(heap).len(),
        j < old(heap).len(),
    ensures
        final(heap)@ == old(heap)@.update(i as int, old(heap)@[j as int]).update(
            j as int,
            old(heap)@[i as int],
        ),
        final(heap)@.to_multiset() == old(heap)@.to_multiset(),
{
    let a: Node = heap[i];
    let b: Node = heap[j];
    heap.set(i, b);
    heap.set(j, a);
    proof {
        lemma_swap_multiset(old(heap)@, i as int, j as int);
    }
}

/// Moves the node in slot `start` towards the root until its parent
/// precedes it.
fn sift_up(heap: &mut Vec<Node>, start: usize)
    requires
        start < old(heap).len(),
        ordered_above(old(heap)@, start as int),
    ensures
        heap_ordered(final(heap)@),
        final(heap)@.to_multiset() == old(heap)@.to_multiset(),
{
    let mut i: usize = start;
    loop
        invariant_except_break
            i < heap.len(),
            ordered_above(heap@, i as int),
        invariant
            heap@.to_multiset() == old(heap)@.to_multiset(),
        ensures
            heap_ordered(heap@),
        decreases i,
    {
        if i == 0 {
            break ;
        }
        let up: usize = (i - 1) / 2;
        if heap[up].comes_before(&heap[i]) {
            break ;
        }
        swap_nodes(heap, up, i);
        i = up;
    }
}

/// Moves the node in slot `start` away from the root until it precedes its
/// children.
fn sift_down(heap: &mut Vec<Node>, start: usize)
    requires
        start < old(heap).len(),
        ordered_below(old(heap)@, start as int),
    ensures
        heap_ordered(final(heap)@),
        final(heap)@.to_multiset() == old(heap)@.to_multiset(),
{
    let len: usize = heap.len();
    let mut i: usize = start;
    loop
        invariant_except_break
            i < heap.len(),
            ordered_below(heap@, i as int),
        invariant
            heap.len() == len,
            heap@.to_multiset() == old(heap)@.to_multiset(),
        ensures
            heap_ordered(heap@),
        decreases len - i,
    {
        if i >= len / 2 {
            break ;
        }
        let left: usize = 2 * i + 1;
        let right: usize = left + 1;
        let least: usize = if right < len && heap[right].comes_before(&heap[left]) {
            right
        } else {
            left
        };
        if heap[i].comes_before(&heap[least]) {
            break ;
        }
        swap_nodes(heap, i, least);
        i = least;
    }
}

/// Adds `node` to an ordered heap.
fn heap_insert(heap: &mut Vec<Node>, node: Node)
    requires
        heap_ordered(old(heap)@),
    ensures
        heap_ordered(final(heap)@),
        final(heap)@.to_multiset() == old(heap)@.to_multiset().insert(node),
{
    broadcast use vstd::seq_lib::group_to_multiset_ensures;

    heap.push(node);
    let last: usize = heap.len() - 1;
    sift_up(heap, last);
}

/// Takes the root out of an ordered heap.
fn heap_extract(heap: &mut Vec<Node>) -> (least: Option<Node>)
    requires
        heap_ordered(old(heap)@),
    ensures
        heap_ordered(final(heap)@),
        match least {
            Some(node) => {
                &&& old(heap)@.to_multiset().contains(node)
                &&& final(heap)@.to_multiset() == old(heap)@.to_multiset().remove(node)
                &&& forall|other: Node| #[trigger]
                    old(heap)@.to_multiset().contains(other) ==> node.precedes(other)
            },
            None => old(heap)@.len() == 0 && final(heap)@ == old(heap)@,
        },
{
    broadcast use vstd::seq_lib::group_to_multiset_ensures;

    if heap.len() == 0 {
        return None;
    }
    let top: Node = heap[0];
    proof {
        let s = heap@;
        assert(s.contains(top));
        assert forall|other: Node| #[trigger] s.to_multiset().contains(other) implies top.precedes(
            other,
        ) by {
            assert(s.contains(other));
            let i = choose|i: int| 0 <= i < s.len() && s[i] == other;
            lemma_root_precedes(s, i);
        }
    }
    let last: usize = heap.len() - 1;
    swap_nodes(heap, 0, last);
    let ghost swapped = heap@;
    heap.pop();
    proof {
        assert(heap@ =~= swapped.remove(last as int));
        vstd::seq_lib::to_multiset_remove(swapped, last as int);
    }
    if heap.len() > 0 {
        sift_down(heap, 0);
    }
    Some(top)
}

/// The nodes that wait to be expanded. Its view is the multiset of those
/// nodes; they leave in the order of [`Node::precedes`].
pub struct Frontier {
    heap: Vec<Node>,
}

impl View for Frontier {
    type V = Multiset<Node>;

    closed spec fn view(&self) -> Multiset<Node> {
        self.heap@.to_multiset()
    }
}

impl Frontier {
    /// The vector is laid out as a heap. Every frontier that this module
    /// hands out is well formed.
    pub closed spec fn wf(self) -> bool {
        heap_ordered(self.heap@)
    }

    /// An empty frontier.
    pub fn new() -> (frontier: Self)
        ensures
            frontier.wf(),
            frontier@ == Multiset::<Node>::empty(),
    {
        broadcast use vstd::seq_lib::group_to_multiset_ensures;

        let frontier = Frontier { heap: Vec::new() };
        assert(frontier@ =~= Multiset::<Node>::empty());
        frontier
    }

    /// The number of waiting nodes.
    pub fn len(&self) -> (count: usize)
        ensures
            count == self@.len(),
    {
        broadcast use vstd::seq_lib::group_to_multiset_ensures;

        self.heap.len()
    }

    /// Whether no node is waiting.
    pub fn is_empty(&self) -> (empty: bool)
        ensures
            empty == (self@.len() == 0),
    {
        broadcast use vstd::seq_lib::group_to_multiset_ensures;

        self.heap.len() == 0
    }

    /// Queues `node`.
    pub fn push(&mut self, node: Node)
        requires
            old(self).wf(),
        ensures
            final(self).wf(),
            final(self)@ == old(self)@.insert(node),
    {
        heap_insert(&mut self.heap, node);
    }

    /// Takes out a node that precedes every waiting node, or returns `None`
    /// and changes nothing if none is waiting.
    pub fn pop(&mut self) -> (least: Option<Node>)
        requires
            old(self).wf(),
        ensures
            final(self).wf(),
            match least {
                Some(node) => {
                    &&& old(self)@.contains(node)
                    &&& final(self)@ == old(self)@.remove(node)
                    &&& forall|other: Node| #[trigger]
                        old(self)@.contains(other) ==> node.precedes(other)
                },
                None => old(self)@.len() == 0 && final(self)@ == old(self)@,
            },
    {
        broadcast use vstd::seq_lib::group_to_multiset_ensures;

        heap_extract(&mut self.heap)
    }
}

} // verus!
