//! The tables of the route search as the proofs see them, and what holds
//! of them while the search runs.
//!
//! The search keeps two tables keyed by cell: the best cost found so far and
//! the cell from which that cost was reached. Between two steps the search
//! is *steady*: every known cell is either settled (all its neighbours are
//! known at no more than the cost of going there over it) or still has a
//! node waiting in the frontier. From that, when the goal leaves the
//! frontier first, no route can undercut its best cost; and when the
//! frontier runs empty, every cell that a route leads to is known.
use crate::frontier::Node;
use crate::position::{manhattan, MapPosition};
use crate::tiles::TileIndex;
use vstd::multiset::Multiset;
use vstd::prelude::*;

verus! {

/// The highest cost that entering one cell can have.
pub(crate) const COST_CAP: u128 = 0xffff_ffff;

/// A table keyed by cell keys, read as a table keyed by cells.
pub(crate) open spec fn by_cell<V>(table: Map<u128, V>) -> Map<MapPosition, V> {
    Map::new(
        |p: MapPosition| table.contains_key(p.spec_key()),
        |p: MapPosition| table[p.spec_key()],
    )
}

/// Storing under a cell's key stores under the cell.
pub(crate) proof fn lemma_by_cell_insert<V>(table: Map<u128, V>, p: MapPosition, value: V)
    ensures
        by_cell(table.insert(p.spec_key(), value)) == by_cell(table).insert(p, value),
{
    assert forall|q: MapPosition| (q.spec_key() == p.spec_key()) == (q == p) by {
        q.lemma_key_injective(p);
    }
    assert(by_cell(table.insert(p.spec_key(), value)) =~= by_cell(table).insert(p, value));
}

/// Nothing is stored in an empty table.
pub(crate) proof fn lemma_by_cell_empty<V>()
    ensures
        by_cell(Map::<u128, V>::empty()) == Map::<MapPosition, V>::empty(),
{
    assert(by_cell(Map::<u128, V>::empty()) =~= Map::<MapPosition, V>::empty());
}

/// The state of a search, as the proofs see it.
pub(crate) struct Tables {
    /// The nodes that wait in the frontier.
    pub(crate) waiting: Multiset<Node>,
    /// For each known cell but the start, the cell it was reached from.
    pub(crate) preds: Map<MapPosition, Option<MapPosition>>,
    /// For each known cell, the best cost found so far.
    pub(crate) costs: Map<MapPosition, u128>,
    /// The known cells in the order in which they were found.
    pub(crate) order: Seq<MapPosition>,
    /// The keys of the cells of the index that are not known yet.
    pub(crate) unseen: Set<u128>,
}

impl Tables {
    /// The best cost found so far for `p`.
    pub(crate) open spec fn cost(self, p: MapPosition) -> nat {
        self.costs[p] as nat
    }

    /// The predecessor recorded for `p` is a known cell one move before `p`,
    /// and `p` costs at least what the predecessor costs plus entering `p`.
    pub(crate) open spec fn linked_at(self, index: TileIndex, p: MapPosition) -> bool {
        match self.preds[p] {
            Some(q) => {
                &&& self.costs.contains_key(q)
                &&& index.bounds().step(q, p)
                &&& index.passable(p)
                &&& self.cost(q) + index.cost_of(p) <= self.cost(p)
            },
            None => false,
        }
    }

    /// The two tables agree: they know the same cells, the start costs
    /// nothing and has no predecessor, and every other known cell is linked
    /// to one.
    pub(crate) open spec fn linked(self, index: TileIndex, start: MapPosition) -> bool {
        &&& self.preds.dom() == self.costs.dom()
        &&& self.costs.contains_key(start)
        &&& self.cost(start) == 0
        &&& self.preds[start] is None
        &&& forall|p: MapPosition| #[trigger]
            self.costs.contains_key(p) && p != start ==> self.linked_at(index, p)
    }

    /// Every waiting node stands on a known cell, and one that stands on the
    /// goal was queued with a priority no lower than the goal's best cost.
    pub(crate) open spec fn frontier_sound(self, goal: MapPosition) -> bool {
        forall|node: Node| #[trigger]
            self.waiting.contains(node) ==> self.costs.contains_key(node.position) && (
            node.position == goal ==> self.cost(goal) <= node.priority)
    }

    /// Some waiting node stands on `p` with a priority of at most the best
    /// cost of `p` plus its distance to the goal.
    pub(crate) open spec fn queued(self, goal: MapPosition, p: MapPosition) -> bool {
        exists|node: Node| #[trigger]
            self.waiting.contains(node) && node.position == p && node.priority <= self.cost(p)
                + manhattan(p, goal)
    }

    /// The cell `q` is known at no more than the cost of going there over
    /// `p`.
    pub(crate) open spec fn relaxed(
        self,
        index: TileIndex,
        p: MapPosition,
        q: MapPosition,
    ) -> bool {
        self.costs.contains_key(q) && self.cost(q) <= self.cost(p) + index.cost_of(q)
    }

    /// Every cell that can be entered from `p` is relaxed over `p`.
    pub(crate) open spec fn settled(self, index: TileIndex, p: MapPosition) -> bool {
        forall|q: MapPosition|
            index.bounds().step(p, q) && index.passable(q) ==> #[trigger] self.relaxed(index, p, q)
    }

    /// Every known cell but `open` is either settled or still queued.
    pub(crate) open spec fn resolved(
        self,
        index: TileIndex,
        goal: MapPosition,
        open: Option<MapPosition>,
    ) -> bool {
        forall|p: MapPosition| #[trigger]
            self.costs.contains_key(p) && Some(p) != open ==> self.queued(goal, p) || self.settled(
                index,
                p,
            )
    }

    /// `order` lists the known cells, and the cell found as the `i`-th costs
    /// at most `i` times the cap.
    pub(crate) open spec fn discovered(self) -> bool {
        &&& forall|i: int|
            0 <= i < self.order.len() ==> self.costs.contains_key(#[trigger] self.order[i])
                && self.cost(self.order[i]) <= i * COST_CAP
        &&& forall|p: MapPosition| #[trigger] self.costs.contains_key(p) ==> self.order.contains(p)
    }

    /// `unseen` holds the key of every cell that can be entered and is not
    /// yet known, and there are not more cells in all than a table can hold.
    pub(crate) open spec fn pending(self, index: TileIndex) -> bool {
        &&& self.unseen.finite()
        &&& self.order.len() + self.unseen.len() <= usize::MAX + 1
        &&& forall|p: MapPosition| #[trigger]
            index.passable(p) && !self.costs.contains_key(p) ==> self.unseen.contains(p.spec_key())
    }

    /// What holds of the tables at every point of the search.
    pub(crate) open spec fn sound(
        self,
        index: TileIndex,
        start: MapPosition,
        goal: MapPosition,
    ) -> bool {
        &&& index.wf()
        &&& self.linked(index, start)
        &&& self.frontier_sound(goal)
        &&& self.discovered()
        &&& self.pending(index)
    }

    /// What holds between two steps of the search: the tables are sound and
    /// every known cell is settled or queued.
    #[verifier::opaque]
    pub(crate) open spec fn steady(
        self,
        index: TileIndex,
        start: MapPosition,
        goal: MapPosition,
    ) -> bool {
        &&& self.sound(index, start, goal)
        &&& self.resolved(index, goal, None)
    }

    /// What holds while the cell `open` is expanded: the tables are sound,
    /// every other known cell is settled or queued, and the cells of `done`
    /// have been relaxed over `open`.
    #[verifier::opaque]
    pub(crate) open spec fn expanding(
        self,
        index: TileIndex,
        start: MapPosition,
        goal: MapPosition,
        open: MapPosition,
        done: Seq<MapPosition>,
    ) -> bool {
        &&& self.sound(index, start, goal)
        &&& self.resolved(index, goal, Some(open))
        &&& self.costs.contains_key(open)
        &&& forall|j: int|
            0 <= j < done.len() && index.passable(done[j]) ==> #[trigger] self.relaxed(
                index,
                open,
                done[j],
            )
    }

    /// Sum of the best costs of the first `n` cells found.
    pub(crate) open spec fn cost_sum(self, n: nat) -> nat
        decreases n,
    {
        if n == 0 || n > self.order.len() {
            0
        } else {
            self.cost_sum((n - 1) as nat) + self.cost(self.order[n - 1])
        }
    }

    /// How far the search is from its end: the triple of these three goes
    /// down with every step.
    pub(crate) open spec fn effort(self) -> (nat, nat, nat) {
        (self.unseen.len(), self.cost_sum(self.order.len()), self.waiting.len())
    }

    /// Whether the search is nearer to its end than it was at `before`.
    pub(crate) open spec fn nearer_than(self, before: (nat, nat, nat)) -> bool {
        let now = self.effort();
        now.0 < before.0 || (now.0 == before.0 && (now.1 < before.1 || (now.1 == before.1 && now.2
            < before.2)))
    }

    /// The tables of a search that has just begun.
    pub(crate) open spec fn initial(index: TileIndex, start: MapPosition, first: Node) -> Tables {
        Tables {
            waiting: Multiset::empty().insert(first),
            preds: Map::empty().insert(start, None),
            costs: Map::empty().insert(start, 0u128),
            order: seq![start],
            unseen: index.keys(),
        }
    }

    /// The tables once `node` has left the frontier.
    pub(crate) open spec fn without(self, node: Node) -> Tables {
        Tables { waiting: self.waiting.remove(node), ..self }
    }

    /// The tables once the cell of `node` has been relaxed over `open`: the
    /// cell is known at the node's cost with `open` as its predecessor, and
    /// the node waits in the frontier.
    pub(crate) open spec fn relax(self, open: MapPosition, node: Node) -> Tables {
        let fresh = !self.costs.contains_key(node.position);
        Tables {
            waiting: self.waiting.insert(node),
            preds: self.preds.insert(node.position, Some(open)),
            costs: self.costs.insert(node.position, node.cost),
            order: if fresh {
                self.order.push(node.position)
            } else {
                self.order
            },
            unseen: if fresh {
                self.unseen.remove(node.position.spec_key())
            } else {
                self.unseen
            },
        }
    }

    /// Lowering the cost of one cell does not raise the sum.
    pub(crate) proof fn lemma_cost_sum_le(self, lower: Tables, p: MapPosition, n: nat)
        requires
            self.costs.contains_key(p),
            lower.order == self.order,
            lower.costs.contains_key(p),
            lower.costs == self.costs.insert(p, lower.costs[p]),
            lower.costs[p] <= self.costs[p],
        ensures
            lower.cost_sum(n) <= self.cost_sum(n),
        decreases n,
    {
        if n > 0 && n <= self.order.len() {
            self.lemma_cost_sum_le(lower, p, (n - 1) as nat);
        }
    }

    /// Lowering the cost of a cell among the first `n` found lowers the sum.
    pub(crate) proof fn lemma_cost_sum_lt(self, lower: Tables, p: MapPosition, n: nat, i: int)
        requires
            self.costs.contains_key(p),
            lower.order == self.order,
            lower.costs.contains_key(p),
            lower.costs == self.costs.insert(p, lower.costs[p]),
            lower.costs[p] < self.costs[p],
            0 <= i < n <= self.order.len(),
            self.order[i] == p,
        ensures
            lower.cost_sum(n) < self.cost_sum(n),
        decreases n,
    {
        if i == n - 1 {
            self.lemma_cost_sum_le(lower, p, (n - 1) as nat);
        } else {
            self.lemma_cost_sum_lt(lower, p, (n - 1) as nat, i);
        }
    }

    /// One more cell found leaves the sum over the cells before it as it
    /// was.
    pub(crate) proof fn lemma_cost_sum_same(self, other: Tables, n: nat)
        requires
            n <= self.order.len() <= other.order.len(),
            forall|i: int| 0 <= i < n ==> other.order[i] == self.order[i],
            forall|i: int| 0 <= i < n ==> other.costs[self.order[i]] == self.costs[self.order[i]],
        ensures
            other.cost_sum(n) == self.cost_sum(n),
        decreases n,
    {
        if n > 0 {
            self.lemma_cost_sum_same(other, (n - 1) as nat);
        }
    }

    /// Follows a walk from its cell `i` on, through cells that are settled,
    /// until it ends or meets a cell that is still queued. Returns
    /// `(true, _, _)` if the end of the walk is known at no more than the
    /// walk's cost, and otherwise `(false, j, node)` with a waiting node on
    /// cell `j` of the walk.
    pub(crate) proof fn lemma_follow_walk(
        self,
        index: TileIndex,
        goal: MapPosition,
        cells: Seq<MapPosition>,
        i: int,
    ) -> (found: (bool, int, Node))
        requires
            index.is_walk(cells),
            self.resolved(index, goal, None),
            0 <= i < cells.len(),
            self.costs.contains_key(cells[i]),
            self.cost(cells[i]) <= index.route_cost(cells.take(i + 1)),
        ensures
            found.0 ==> self.costs.contains_key(cells.last()) && self.cost(cells.last())
                <= index.route_cost(cells),
            !found.0 ==> {
                &&& i <= found.1 < cells.len()
                &&& self.waiting.contains(found.2)
                &&& found.2.position == cells[found.1]
                &&& self.costs.contains_key(cells[found.1])
                &&& found.2.priority <= self.cost(cells[found.1]) + manhattan(cells[found.1], goal)
                &&& self.cost(cells[found.1]) <= index.route_cost(cells.take(found.1 + 1))
            },
        decreases cells.len() - i,
    {
        let p = cells[i];
        if self.queued(goal, p) {
            let node = choose|node: Node| #[trigger]
                self.waiting.contains(node) && node.position == p && node.priority <= self.cost(p)
                    + manhattan(p, goal);
            (false, i, node)
        } else if i == cells.len() - 1 {
            assert(cells.take(i + 1) =~= cells);
            (true, i, arbitrary())
        } else {
            let q = cells[i + 1];
            assert(self.settled(index, p));
            assert(index.bounds().step(p, q) && index.passable(q));
            assert(self.relaxed(index, p, q));
            index.lemma_cost_prefix_step(cells, i + 1);
            self.lemma_follow_walk(index, goal, cells, i + 1)
        }
    }

    /// The search starts steady: the start is known at no cost and waits in
    /// the frontier, and every other cell is unseen.
    pub(crate) proof fn lemma_start(
        index: TileIndex,
        start: MapPosition,
        goal: MapPosition,
        first: Node,
    )
        requires
            index.wf(),
            first == (Node { position: start, cost: 0, priority: 0 }),
        ensures
            Self::initial(index, start, first).steady(index, start, goal),
    {
        reveal(Tables::steady);
        index.lemma_keys();
        let t = Self::initial(index, start, first);
        assert(t.preds.dom() =~= t.costs.dom());
        assert(t.order[0] == start);
        assert(t.waiting.contains(first));
        assert(t.queued(goal, start));
        assert forall|p: MapPosition| #[trigger]
            index.passable(p) && !t.costs.contains_key(p) implies t.unseen.contains(
            p.spec_key(),
        ) by {
            assert(index@.contains_key(p));
        }
    }

    /// Taking a node out of a steady frontier opens its cell for expansion
    /// and brings the search nearer to its end.
    pub(crate) proof fn lemma_open(
        self,
        index: TileIndex,
        start: MapPosition,
        goal: MapPosition,
        least: Node,
    )
        requires
            self.steady(index, start, goal),
            self.waiting.contains(least),
        ensures
            self.costs.contains_key(least.position),
            self.without(least).expanding(index, start, goal, least.position, Seq::empty()),
            self.without(least).nearer_than(self.effort()),
    {
        reveal(Tables::steady);
        reveal(Tables::expanding);
        let rest = self.without(least);
        assert forall|node: Node| #[trigger]
            rest.waiting.contains(node) implies rest.costs.contains_key(node.position) && (
        node.position == goal ==> rest.cost(goal) <= node.priority) by {
            assert(self.waiting.contains(node));
        }
        assert forall|p: MapPosition| #[trigger]
            rest.costs.contains_key(p) && Some(p) != Some(least.position) implies rest.queued(
            goal,
            p,
        ) || rest.settled(index, p) by {
            if self.queued(goal, p) {
                let held = choose|held: Node| #[trigger]
                    self.waiting.contains(held) && held.position == p && held.priority
                        <= self.cost(p) + manhattan(p, goal);
                assert(rest.waiting.contains(held));
            } else {
                assert(self.settled(index, p));
                assert forall|q: MapPosition|
                    index.bounds().step(p, q) && index.passable(q) implies #[trigger] rest.relaxed(
                    index,
                    p,
                    q,
                ) by {
                    assert(self.relaxed(index, p, q));
                }
            }
        }
        self.lemma_cost_sum_same(rest, self.order.len());
    }

    /// When the node that leaves a steady frontier stands on the goal, the
    /// goal's best cost is the least that any route to it can have.
    pub(crate) proof fn lemma_done_at_goal(
        self,
        index: TileIndex,
        start: MapPosition,
        goal: MapPosition,
        least: Node,
    )
        requires
            self.steady(index, start, goal),
            self.waiting.contains(least),
            least.position == goal,
            forall|other: Node| #[trigger] self.waiting.contains(other) ==> least.precedes(other),
        ensures
            index.wf(),
            self.linked(index, start),
            self.costs.contains_key(goal),
            index.no_route_below(start, goal, self.cost(goal)),
    {
        reveal(Tables::steady);
        assert forall|cells: Seq<MapPosition>| #[trigger]
            index.is_route(cells, start, goal) implies self.cost(goal) <= index.route_cost(
            cells,
        ) by {
            assert(index.route_cost(cells.take(1)) == 0);
            let found = self.lemma_follow_walk(index, goal, cells, 0);
            if !found.0 {
                index.lemma_distance_admissible(cells, found.1);
                assert(least.precedes(found.2));
            }
        }
    }

    /// When a steady frontier is empty, the goal is known if and only if a
    /// route leads to it, and then at the least cost that a route can have.
    pub(crate) proof fn lemma_done_exhausted(
        self,
        index: TileIndex,
        start: MapPosition,
        goal: MapPosition,
    )
        requires
            self.steady(index, start, goal),
            self.waiting.len() == 0,
        ensures
            index.wf(),
            self.linked(index, start),
            self.costs.contains_key(goal) ==> index.no_route_below(start, goal, self.cost(goal)),
            !self.costs.contains_key(goal) ==> !index.reachable(start, goal),
    {
        reveal(Tables::steady);
        assert forall|cells: Seq<MapPosition>| #[trigger]
            index.is_route(cells, start, goal) implies self.costs.contains_key(goal) && self.cost(
            goal,
        ) <= index.route_cost(cells) by {
            assert(index.route_cost(cells.take(1)) == 0);
            let found = self.lemma_follow_walk(index, goal, cells, 0);
            if !found.0 {
                assert(self.waiting.count(found.2) > 0);
            }
        }
    }

    /// The open cell costs less than what would overflow the cost
    /// arithmetic.
    pub(crate) proof fn lemma_cost_room(
        self,
        index: TileIndex,
        start: MapPosition,
        goal: MapPosition,
        open: MapPosition,
        done: Seq<MapPosition>,
    )
        requires
            self.expanding(index, start, goal, open, done),
        ensures
            self.costs.contains_key(open),
            self.costs[open] <= 0xffff_ffff_ffff_ffff * 0xffff_ffff,
    {
        reveal(Tables::expanding);
        assert(self.order.contains(open));
        let i = choose|i: int| 0 <= i < self.order.len() && self.order[i] == open;
        assert(self.cost(self.order[i]) <= i * COST_CAP);
        assert(i * COST_CAP <= 0xffff_ffff_ffff_ffff * 0xffff_ffff) by (nonlinear_arith)
            requires
                0 <= i <= 0xffff_ffff_ffff_ffff,
                COST_CAP == 0xffff_ffff,
        ;
    }

    /// Relaxing keeps the tables linked.
    pub(crate) proof fn lemma_relax_linked(
        self,
        index: TileIndex,
        start: MapPosition,
        open: MapPosition,
        node: Node,
    )
        requires
            self.linked(index, start),
            self.costs.contains_key(open),
            index.bounds().step(open, node.position),
            index.passable(node.position),
            node.cost == self.cost(open) + index.cost_of(node.position),
            !self.costs.contains_key(node.position) || node.cost < self.costs[node.position],
        ensures
            node.position != open,
            node.position != start,
            self.relax(open, node).linked(index, start),
    {
        let after = self.relax(open, node);
        assert(after.preds.dom() =~= after.costs.dom());
        assert forall|p: MapPosition| #[trigger]
            after.costs.contains_key(p) && p != start implies after.linked_at(index, p) by {
            if p != node.position {
                assert(self.costs.contains_key(p));
                assert(self.linked_at(index, p));
            }
        }
    }

    /// Relaxing keeps what holds of the frontier and of the known cells
    /// other than the open one.
    pub(crate) proof fn lemma_relax_resolved(
        self,
        index: TileIndex,
        goal: MapPosition,
        open: MapPosition,
        node: Node,
    )
        requires
            self.frontier_sound(goal),
            self.resolved(index, goal, Some(open)),
            self.costs.contains_key(open),
            node.position != open,
            !self.costs.contains_key(node.position) || node.cost < self.costs[node.position],
            node.priority == node.cost + manhattan(node.position, goal),
        ensures
            self.relax(open, node).frontier_sound(goal),
            self.relax(open, node).resolved(index, goal, Some(open)),
            forall|q: MapPosition| #[trigger]
                self.relaxed(index, open, q) ==> self.relax(open, node).relaxed(index, open, q),
    {
        let after = self.relax(open, node);
        assert forall|other: Node| #[trigger]
            after.waiting.contains(other) implies after.costs.contains_key(other.position) && (
        other.position == goal ==> after.cost(goal) <= other.priority) by {
            if other != node {
                assert(self.waiting.contains(other));
            }
        }
        assert forall|p: MapPosition| #[trigger]
            after.costs.contains_key(p) && Some(p) != Some(open) implies after.queued(goal, p)
            || after.settled(index, p) by {
            if p == node.position {
                assert(after.waiting.contains(node));
            } else {
                assert(self.costs.contains_key(p));
                if self.queued(goal, p) {
                    let held = choose|held: Node| #[trigger]
                        self.waiting.contains(held) && held.position == p && held.priority
                            <= self.cost(p) + manhattan(p, goal);
                    assert(after.waiting.contains(held));
                } else {
                    assert(self.settled(index, p));
                    assert forall|q: MapPosition|
                        index.bounds().step(p, q) && index.passable(
                            q,
                        ) implies #[trigger] after.relaxed(index, p, q) by {
                        assert(self.relaxed(index, p, q));
                    }
                }
            }
        }
    }

    /// Relaxing keeps the bookkeeping of found and unseen cells, and takes
    /// the search nearer to its end.
    pub(crate) proof fn lemma_relax_progress(self, index: TileIndex, open: MapPosition, node: Node)
        requires
            index.wf(),
            self.discovered(),
            self.pending(index),
            self.costs.contains_key(open),
            index.passable(node.position),
            node.cost == self.cost(open) + index.cost_of(node.position),
            !self.costs.contains_key(node.position) || node.cost < self.costs[node.position],
        ensures
            self.relax(open, node).discovered(),
            self.relax(open, node).pending(index),
            self.relax(open, node).effort().0 < self.effort().0 || (self.relax(
                open,
                node,
            ).effort().0 == self.effort().0 && self.relax(open, node).effort().1
                < self.effort().1),
    {
        let n = node.position;
        let after = self.relax(open, node);
        assert(index@.contains_key(n));
        assert(index.cost_of(n) <= COST_CAP);
        assert(self.order.contains(open));
        let at = choose|i: int| 0 <= i < self.order.len() && self.order[i] == open;
        assert(self.cost(self.order[at]) <= at * COST_CAP);
        if self.costs.contains_key(n) {
            assert(self.order.contains(n));
            let i = choose|i: int| 0 <= i < self.order.len() && self.order[i] == n;
            self.lemma_cost_sum_lt(after, n, self.order.len(), i);
            assert forall|i: int| 0 <= i < after.order.len() implies after.costs.contains_key(
                #[trigger] after.order[i],
            ) && after.cost(after.order[i]) <= i * COST_CAP by {
                assert(self.costs.contains_key(self.order[i]));
            }
            assert forall|p: MapPosition| #[trigger]
                after.costs.contains_key(p) implies after.order.contains(p) by {
                assert(self.costs.contains_key(p));
            }
        } else {
            assert(self.unseen.contains(n.spec_key()));
            assert forall|i: int| 0 <= i < after.order.len() implies after.costs.contains_key(
                #[trigger] after.order[i],
            ) && after.cost(after.order[i]) <= i * COST_CAP by {
                if i < self.order.len() {
                    assert(after.order[i] == self.order[i]);
                    assert(self.costs.contains_key(self.order[i]));
                }
            }
            assert forall|p: MapPosition| #[trigger]
                after.costs.contains_key(p) implies after.order.contains(p) by {
                if p == n {
                    assert(after.order[self.order.len() as int] == n);
                } else {
                    assert(self.costs.contains_key(p));
                    let i = choose|i: int| 0 <= i < self.order.len() && self.order[i] == p;
                    assert(after.order[i] == p);
                }
            }
            assert forall|p: MapPosition| #[trigger]
                index.passable(p) && !after.costs.contains_key(p) implies after.unseen.contains(
                p.spec_key(),
            ) by {
                p.lemma_key_injective(n);
            }
        }
    }

    /// Relaxing the cell of `node` over the open cell: the expansion goes on
    /// with that cell done, the cost of the open cell is as it was, and the
    /// search is nearer to its end.
    pub(crate) proof fn lemma_relax(
        self,
        index: TileIndex,
        start: MapPosition,
        goal: MapPosition,
        open: MapPosition,
        done: Seq<MapPosition>,
        node: Node,
        before: (nat, nat, nat),
    )
        requires
            self.expanding(index, start, goal, open, done),
            self.nearer_than(before),
            index.bounds().step(open, node.position),
            index.passable(node.position),
            node.cost == self.cost(open) + index.cost_of(node.position),
            node.priority == node.cost + manhattan(node.position, goal),
            !self.costs.contains_key(node.position) || node.cost < self.costs[node.position],
        ensures
            self.relax(open, node).expanding(index, start, goal, open, done.push(node.position)),
            self.relax(open, node).costs[open] == self.costs[open],
            self.relax(open, node).nearer_than(before),
    {
        reveal(Tables::expanding);
        let after = self.relax(open, node);
        let more = done.push(node.position);
        self.lemma_relax_linked(index, start, open, node);
        self.lemma_relax_resolved(index, goal, open, node);
        self.lemma_relax_progress(index, open, node);
        assert(after.relaxed(index, open, node.position));
        assert forall|j: int|
            0 <= j < more.len() && index.passable(more[j]) implies #[trigger] after.relaxed(
            index,
            open,
            more[j],
        ) by {
            if j < done.len() {
                assert(more[j] == done[j]);
                assert(self.relaxed(index, open, done[j]));
            }
        }
    }

    /// A cell that cannot be entered, or that is already known at no more
    /// than the cost of going there over the open cell, is done as it
    /// stands.
    pub(crate) proof fn lemma_keep(
        self,
        index: TileIndex,
        start: MapPosition,
        goal: MapPosition,
        open: MapPosition,
        done: Seq<MapPosition>,
        n: MapPosition,
    )
        requires
            self.expanding(index, start, goal, open, done),
            index.passable(n) ==> self.relaxed(index, open, n),
        ensures
            self.expanding(index, start, goal, open, done.push(n)),
    {
        reveal(Tables::expanding);
        let more = done.push(n);
        assert forall|j: int|
            0 <= j < more.len() && index.passable(more[j]) implies #[trigger] self.relaxed(
            index,
            open,
            more[j],
        ) by {
            if j < done.len() {
                assert(more[j] == done[j]);
            }
        }
    }

    /// Once every neighbour of the open cell is done, the cell is settled
    /// and the search is steady again.
    pub(crate) proof fn lemma_close(
        self,
        index: TileIndex,
        start: MapPosition,
        goal: MapPosition,
        open: MapPosition,
        done: Seq<MapPosition>,
    )
        requires
            self.expanding(index, start, goal, open, done),
            done == index.bounds().neighbor_seq(open),
        ensures
            self.steady(index, start, goal),
    {
        reveal(Tables::expanding);
        reveal(Tables::steady);
        assert forall|q: MapPosition|
            index.bounds().step(open, q) && index.passable(q) implies #[trigger] self.relaxed(
            index,
            open,
            q,
        ) by {
            index.bounds().lemma_neighbor_seq_is_step(open, q);
            let j = choose|j: int| 0 <= j < done.len() && done[j] == q;
            assert(self.relaxed(index, open, done[j]));
        }
        assert(self.settled(index, open));
    }

    /// What the tables say of one cell: it has an entry in both or in
    /// neither; the start is known and has no predecessor; every other known
    /// cell has one.
    pub(crate) proof fn lemma_link_shape(self, index: TileIndex, start: MapPosition, p: MapPosition)
        requires
            self.linked(index, start),
        ensures
            self.preds.contains_key(p) == self.costs.contains_key(p),
            self.costs.contains_key(start),
            self.preds[start] is None,
            self.costs.contains_key(p) && p != start ==> self.preds[p] is Some,
    {
        assert(self.preds.dom().contains(p) == self.costs.dom().contains(p));
        if self.costs.contains_key(p) && p != start {
            assert(self.linked_at(index, p));
        }
    }

    /// One step back along the predecessors: the predecessor of the first
    /// cell of `tail` is known at a lower cost, and put in front of `tail`
    /// it gives a longer walk that still fits under the goal's best cost.
    pub(crate) proof fn lemma_step_back(
        self,
        index: TileIndex,
        start: MapPosition,
        goal: MapPosition,
        tail: Seq<MapPosition>,
        prev: MapPosition,
    )
        requires
            index.wf(),
            self.linked(index, start),
            index.is_walk(tail),
            tail.last() == goal,
            self.costs.contains_key(tail[0]),
            self.costs.contains_key(goal),
            self.preds[tail[0]] == Some(prev),
            index.route_cost(tail) + self.cost(tail[0]) <= self.cost(goal),
        ensures
            tail[0] != start,
            self.costs.contains_key(prev),
            self.cost(prev) < self.cost(tail[0]),
            index.is_walk(seq![prev] + tail),
            (seq![prev] + tail).last() == goal,
            index.route_cost(seq![prev] + tail) + self.cost(prev) <= self.cost(goal),
    {
        let current = tail[0];
        let longer = seq![prev] + tail;
        assert(self.linked_at(index, current));
        assert(index@.contains_key(current));
        index.lemma_cost_prepend(prev, tail);
        assert forall|k: int| 1 <= k < longer.len() implies index.bounds().step(
            longer[k - 1],
            #[trigger] longer[k],
        ) && index.passable(longer[k]) by {
            assert(longer[k] == tail[k - 1]);
            if k > 1 {
                assert(longer[k - 1] == tail[k - 2]);
            }
        }
        assert(longer.last() == tail.last());
    }
}

} // verus!
