//! Laws that relate the tile index, routes and the search.
use crate::position::MapPosition;
use crate::tiles::{merged, merged_blocked, merged_present, Tile, TileIndex};
use vstd::prelude::*;

verus! {

/// A cell that cannot be entered is the goal of no route but the one that
/// starts on it: a goal that is blocked, that the index does not hold, or
/// that has no cost cannot be reached from any other cell.
pub proof fn lemma_closed_goal_unreachable(index: TileIndex, start: MapPosition, goal: MapPosition)
    requires
        start != goal,
        !index.passable(goal),
    ensures
        !index.reachable(start, goal),
{
    assert forall|cells: Seq<MapPosition>| !index.is_route(cells, start, goal) by {
        if index.is_route(cells, start, goal) {
            assert(cells.len() > 1);
            assert(index.passable(cells[cells.len() - 1]));
        }
    }
}

/// A walk that starts inside a region which no move leaves stays inside it.
pub proof fn lemma_walk_stays_inside(
    index: TileIndex,
    region: Set<MapPosition>,
    cells: Seq<MapPosition>,
    i: int,
)
    requires
        index.is_walk(cells),
        region.contains(cells[0]),
        forall|a: MapPosition, b: MapPosition|
            region.contains(a) && #[trigger] index.bounds().step(a, b) && index.passable(b)
                ==> region.contains(b),
        0 <= i < cells.len(),
    ensures
        region.contains(cells[i]),
    decreases i,
{
    if i > 0 {
        lemma_walk_stays_inside(index, region, cells, i - 1);
        assert(index.bounds().step(cells[i - 1], cells[i]) && index.passable(cells[i]));
    }
}

/// A goal behind a wall cannot be reached: if the start lies in a region
/// that no move into a cell that can be entered leaves, and the goal lies
/// outside it, then no route leads from the start to the goal.
pub proof fn lemma_walled_off_unreachable(
    index: TileIndex,
    start: MapPosition,
    goal: MapPosition,
    region: Set<MapPosition>,
)
    requires
        region.contains(start),
        !region.contains(goal),
        forall|a: MapPosition, b: MapPosition|
            region.contains(a) && #[trigger] index.bounds().step(a, b) && index.passable(b)
                ==> region.contains(b),
    ensures
        !index.reachable(start, goal),
{
    assert forall|cells: Seq<MapPosition>| !index.is_route(cells, start, goal) by {
        if index.is_route(cells, start, goal) {
            lemma_walk_stays_inside(index, region, cells, cells.len() - 1);
        }
    }
}

/// A cheapest route from a cell to itself is that one cell.
pub proof fn lemma_trivial_route(index: TileIndex, cells: Seq<MapPosition>, p: MapPosition)
    requires
        index.wf(),
        index.is_cheapest(cells, p, p),
    ensures
        cells == seq![p],
{
    let stay = seq![p];
    assert(index.is_route(stay, p, p));
    assert(index.route_cost(stay) == 0);
    index.lemma_cost_at_least_moves(cells);
    assert(cells =~= stay);
}

/// The cost of a cheapest route is determined by the index and the two
/// ends: two cheapest routes between the same cells cost the same, whatever
/// cells they pass.
pub proof fn lemma_cheapest_cost_unique(
    index: TileIndex,
    first: Seq<MapPosition>,
    second: Seq<MapPosition>,
    start: MapPosition,
    goal: MapPosition,
)
    requires
        index.is_cheapest(first, start, goal),
        index.is_cheapest(second, start, goal),
    ensures
        index.route_cost(first) == index.route_cost(second),
{
}

/// Blocking is sticky: a cell on which some tile blocks has a blocked
/// record, wherever that tile stands among the tiles and whatever the other
/// tiles on the cell say.
pub proof fn lemma_blocking_is_sticky(tiles: Seq<Tile>, i: int)
    requires
        0 <= i < tiles.len(),
        tiles[i].blocked,
    ensures
        merged(tiles).contains_key(tiles[i].position),
        merged(tiles)[tiles[i].position].blocked,
{
    let p = tiles[i].position;
    assert(merged_present(tiles, p));
    assert(merged_blocked(tiles, p));
}

/// Which cells hold a tile, and which of them are blocked, does not depend
/// on the order of the tiles: two sequences of the same tiles agree on both.
pub proof fn lemma_blocking_ignores_order(first: Seq<Tile>, second: Seq<Tile>, p: MapPosition)
    requires
        first.to_multiset() == second.to_multiset(),
    ensures
        merged_present(first, p) == merged_present(second, p),
        merged_blocked(first, p) == merged_blocked(second, p),
{
    lemma_blocking_carries_over(first, second, p);
    lemma_blocking_carries_over(second, first, p);
}

/// What is merged at `p` from `first` is merged there from every sequence
/// that holds the tiles of `first`.
proof fn lemma_blocking_carries_over(first: Seq<Tile>, second: Seq<Tile>, p: MapPosition)
    requires
        first.to_multiset() == second.to_multiset(),
    ensures
        merged_present(first, p) ==> merged_present(second, p),
        merged_blocked(first, p) ==> merged_blocked(second, p),
{
    broadcast use vstd::seq_lib::group_to_multiset_ensures;

    if merged_present(first, p) {
        let i = choose|i: int| 0 <= i < first.len() && (#[trigger] first[i]).position == p;
        assert(first.contains(first[i]));
        assert(second.to_multiset().count(first[i]) > 0);
        assert(second.contains(first[i]));
        let j = choose|j: int| 0 <= j < second.len() && second[j] == first[i];
        assert(second[j].position == p);
    }
    if merged_blocked(first, p) {
        let i = choose|i: int|
            0 <= i < first.len() && (#[trigger] first[i]).position == p && first[i].blocked;
        assert(first.contains(first[i]));
        assert(second.to_multiset().count(first[i]) > 0);
        assert(second.contains(first[i]));
        let j = choose|j: int| 0 <= j < second.len() && second[j] == first[i];
        assert(second[j].position == p && second[j].blocked);
    }
}

/// A blocked cell is never entered: in an index built from `tiles`, no
/// walk, and so no route that the search returns, passes after its first
/// cell over a cell on which some tile blocks.
pub proof fn lemma_blocked_never_entered(
    index: TileIndex,
    tiles: Seq<Tile>,
    i: int,
    cells: Seq<MapPosition>,
    k: int,
)
    requires
        index@ == merged(tiles),
        0 <= i < tiles.len(),
        tiles[i].blocked,
        index.is_walk(cells),
        1 <= k < cells.len(),
    ensures
        cells[k] != tiles[i].position,
{
    lemma_blocking_is_sticky(tiles, i);
    assert(index.passable(cells[k]));
}

} // verus!
