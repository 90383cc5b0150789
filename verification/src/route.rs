//! What a route is, what it costs, and when one is cheapest.
use crate::position::{lemma_manhattan_step, manhattan, MapPosition};
use crate::tiles::{TileIndex, MIN_WALK_COST};
use vstd::prelude::*;

verus! {

impl TileIndex {
    /// Cost of entering `p` as a number: zero where `p` cannot be entered.
    pub open spec fn cost_of(self, p: MapPosition) -> nat {
        match self.entry_cost(p) {
            Some(cost) => cost as nat,
            None => 0,
        }
    }

    /// Whether `cells` is a walk: it is not empty, each cell after the first
    /// is one move from the cell before it, and each cell after the first
    /// can be entered. Nothing is asked of the first cell, on which the
    /// walker already stands.
    pub open spec fn is_walk(self, cells: Seq<MapPosition>) -> bool {
        &&& cells.len() >= 1
        &&& forall|i: int|
            1 <= i < cells.len() ==> self.bounds().step(cells[i - 1], #[trigger] cells[i])
                && self.passable(cells[i])
    }

    /// Total cost of a walk: the sum of the entry costs of its cells after
    /// the first.
    pub open spec fn route_cost(self, cells: Seq<MapPosition>) -> nat
        decreases cells.len(),
    {
        if cells.len() <= 1 {
            0
        } else {
            self.route_cost(cells.drop_last()) + self.cost_of(cells.last())
        }
    }

    /// Whether `cells` is a route from `start` to `goal`: a walk that begins
    /// on `start` and ends on `goal`.
    pub open spec fn is_route(
        self,
        cells: Seq<MapPosition>,
        start: MapPosition,
        goal: MapPosition,
    ) -> bool {
        self.is_walk(cells) && cells[0] == start && cells.last() == goal
    }

    /// Whether some route leads from `start` to `goal`.
    pub open spec fn reachable(self, start: MapPosition, goal: MapPosition) -> bool {
        exists|cells: Seq<MapPosition>| self.is_route(cells, start, goal)
    }

    /// Whether no route from `start` to `goal` costs less than `bound`.
    pub open spec fn no_route_below(
        self,
        start: MapPosition,
        goal: MapPosition,
        bound: nat,
    ) -> bool {
        forall|cells: Seq<MapPosition>| #[trigger]
            self.is_route(cells, start, goal) ==> bound <= self.route_cost(cells)
    }

    /// Whether `cells` is a cheapest route from `start` to `goal`: a route
    /// that no other route undercuts.
    pub open spec fn is_cheapest(
        self,
        cells: Seq<MapPosition>,
        start: MapPosition,
        goal: MapPosition,
    ) -> bool {
        self.is_route(cells, start, goal) && self.no_route_below(
            start,
            goal,
            self.route_cost(cells),
        )
    }

    /// The first `n` cells of a walk are a walk.
    pub proof fn lemma_walk_prefix(self, cells: Seq<MapPosition>, n: int)
        requires
            self.is_walk(cells),
            1 <= n <= cells.len(),
        ensures
            self.is_walk(cells.take(n)),
    {
        let head = cells.take(n);
        assert forall|i: int| 1 <= i < head.len() implies self.bounds().step(
            head[i - 1],
            #[trigger] head[i],
        ) && self.passable(head[i]) by {
            assert(head[i] == cells[i]);
            assert(head[i - 1] == cells[i - 1]);
        }
    }

    /// One more cell adds its entry cost.
    pub proof fn lemma_cost_prefix_step(self, cells: Seq<MapPosition>, i: int)
        requires
            1 <= i < cells.len(),
        ensures
            self.route_cost(cells.take(i + 1)) == self.route_cost(cells.take(i)) + self.cost_of(
                cells[i],
            ),
    {
        assert(cells.take(i + 1).drop_last() =~= cells.take(i));
    }

    /// A cell put in front of a walk adds the entry cost of the walk's old
    /// first cell.
    pub proof fn lemma_cost_prepend(self, first: MapPosition, cells: Seq<MapPosition>)
        requires
            cells.len() >= 1,
        ensures
            self.route_cost(seq![first] + cells) == self.cost_of(cells[0]) + self.route_cost(cells),
        decreases cells.len(),
    {
        let whole = seq![first] + cells;
        assert(whole.last() == cells.last());
        assert(self.route_cost(whole) == self.route_cost(whole.drop_last()) + self.cost_of(
            whole.last(),
        ));
        if cells.len() == 1 {
            assert(whole.drop_last() =~= seq![first]);
            assert(self.route_cost(seq![first]) == 0);
            assert(self.route_cost(cells) == 0);
        } else {
            assert(whole.drop_last() =~= seq![first] + cells.drop_last());
            self.lemma_cost_prepend(first, cells.drop_last());
            assert(cells.drop_last()[0] == cells[0]);
        }
    }

    /// Entering a cell of a walk costs at least [`MIN_WALK_COST`].
    pub proof fn lemma_walk_cell_cost(self, cells: Seq<MapPosition>, i: int)
        requires
            self.wf(),
            self.is_walk(cells),
            1 <= i < cells.len(),
        ensures
            self.cost_of(cells[i]) >= MIN_WALK_COST,
            self.cost_of(cells[i]) <= u32::MAX,
    {
        assert(self.passable(cells[i]));
        assert(self@.contains_key(cells[i]));
    }

    /// The Manhattan distance never overestimates what is left of a walk:
    /// the cost of the walk up to its cell `i`, plus the distance from that
    /// cell to the walk's end, is at most the cost of the whole walk.
    pub proof fn lemma_distance_admissible(self, cells: Seq<MapPosition>, i: int)
        requires
            self.wf(),
            self.is_walk(cells),
            0 <= i < cells.len(),
        ensures
            self.route_cost(cells.take(i + 1)) + manhattan(cells[i], cells.last())
                <= self.route_cost(cells),
        decreases cells.len() - i,
    {
        if i == cells.len() - 1 {
            assert(cells.take(i + 1) =~= cells);
        } else {
            self.lemma_distance_admissible(cells, i + 1);
            self.lemma_cost_prefix_step(cells, i + 1);
            self.lemma_walk_cell_cost(cells, i + 1);
            assert(self.bounds().step(cells[i], cells[i + 1]));
            lemma_manhattan_step(cells[i], cells[i + 1], cells.last());
        }
    }

    /// A walk costs at least as much as it has moves.
    pub proof fn lemma_cost_at_least_moves(self, cells: Seq<MapPosition>)
        requires
            self.wf(),
            self.is_walk(cells),
        ensures
            self.route_cost(cells) >= cells.len() - 1,
        decreases cells.len(),
    {
        if cells.len() > 1 {
            self.lemma_walk_prefix(cells, cells.len() - 1);
            assert(cells.take(cells.len() - 1) =~= cells.drop_last());
            self.lemma_cost_at_least_moves(cells.drop_last());
            self.lemma_walk_cell_cost(cells, cells.len() - 1);
        }
    }
}

} // verus!
