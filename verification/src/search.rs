//! The route search: a uniform-cost search over the tile index whose
//! frontier is ordered by cost so far plus Manhattan distance to the goal.
use crate::frontier::{Frontier, Node};
use crate::position::{manhattan_distance, neighbors, MapPosition, MapSize};
use crate::tiles::{get_walkable_cost, TileIndex};
use std::collections::HashMap;
use vstd::prelude::*;

mod tables;

use tables::{by_cell, lemma_by_cell_empty, lemma_by_cell_insert, Tables};

verus! {

/// The cells of `cells` in the opposite order.
fn reversed(cells: &Vec<MapPosition>) -> (turned: Vec<MapPosition>)
    ensures
        turned@ == cells@.reverse(),
{
    let mut turned: Vec<MapPosition> = Vec::new();
    let mut i: usize = cells.len();
    while i > 0
        invariant
            i <= cells.len(),
            turned.len() == cells.len() - i,
            forall|k: int| 0 <= k < turned.len() ==> turned@[k] == cells@[cells.len() - 1 - k],
        decreases i,
    {
        i -= 1;
        turned.push(cells[i]);
    }
    assert(turned@ =~= cells@.reverse());
    turned
}

/// Walks the predecessors back from `goal`. Returns the cells from the
/// start to `goal` if the walk ends on the start, and `None` otherwise.
fn reconstruct(
    index: &TileIndex,
    start: MapPosition,
    goal: MapPosition,
    came_from: &HashMap<u128, Option<MapPosition>>,
    Ghost(tables): Ghost<Tables>,
) -> (route: Option<Vec<MapPosition>>)
    requires
        index.wf(),
        tables.preds == by_cell(came_from@),
        tables.linked(*index, start),
    ensures
        route is Some <==> tables.costs.contains_key(goal),
        route matches Some(cells) ==> index.is_route(cells@, start, goal) && index.route_cost(
            cells@,
        ) <= tables.cost(goal),
        start == goal ==> (route matches Some(cells) && cells@ == seq![start]),
{
    let mut path: Vec<MapPosition> = Vec::new();
    let mut current: MapPosition = goal;
    let ghost mut tail: Seq<MapPosition> = seq![goal];
    proof {
        assert(index.route_cost(tail) == 0);
    }
    loop
        invariant
            index.wf(),
            tables.preds == by_cell(came_from@),
            tables.linked(*index, start),
            tail.len() == path.len() + 1,
            tail[0] == current,
            tail.last() == goal,
            forall|k: int| 0 <= k < path.len() ==> path@[k] == tail[tail.len() - 1 - k],
            index.is_walk(tail),
            tables.costs.contains_key(goal) ==> tables.costs.contains_key(current)
                && index.route_cost(tail) + tables.cost(current) <= tables.cost(goal),
            !tables.costs.contains_key(goal) ==> current == goal,
            start == goal ==> path.len() == 0 && current == goal,
        ensures
            tables.preds.contains_key(current) ==> tables.preds[current] is None,
        decreases
                (if tables.costs.contains_key(current) {
                    tables.cost(current) + 1
                } else {
                    0
                }),
    {
        let link: Option<MapPosition> = match came_from.get(&current.key()) {
            Some(entry) => *entry,
            None => None,
        };
        if link.is_none() {
            break ;
        }
        let prev: MapPosition = link.unwrap();
        proof {
            assert(tables.preds.contains_key(current));
            tables.lemma_link_shape(*index, start, current);
            tables.lemma_step_back(*index, start, goal, tail, prev);
            let longer = seq![prev] + tail;
            assert forall|k: int| 0 <= k < path.len() implies path@[k] == longer[longer.len() - 1
                - k] by {
                assert(longer[longer.len() - 1 - k] == tail[tail.len() - 1 - k]);
            }
            assert(longer[longer.len() - 1 - path.len()] == current);
            tail = longer;
        }
        path.push(current);
        current = prev;
    }

    proof {
        tables.lemma_link_shape(*index, start, current);
    }
    if current == start {
        path.push(start);
        let route = reversed(&path);
        proof {
            assert(route@ =~= tail);
            if start == goal {
                assert(route@ =~= seq![start]);
            }
        }
        Some(route)
    } else {
        None
    }
}

/// Searches `index` for a cheapest route from `start` to `goal`.
///
/// A route is a chain of cells, each one move (left, right, up or down, and
/// staying on the map) from the one before; every cell after the first must
/// be held by the index, not be blocked, and have a cost. The cost of a route
/// is the sum of the costs of its cells after the first.
///
/// Returns such a route of least cost, `start` first and `goal` last, if one
/// exists, and `None` if there is none. Where `start` and `goal` are the same
/// cell the route is that one cell, whatever the index holds there.
///
/// Nothing is asked of `start`: it may be blocked, hold no tile, or lie
/// beside the map, and a route leads on from it wherever one move takes it
/// onto a cell of the map that can be entered. Every cell after it lies on
/// the map.
pub fn find_path(index: &TileIndex, start: MapPosition, goal: MapPosition) -> (route: Option<
    Vec<MapPosition>,
>)
    ensures
        route is Some <==> index.reachable(start, goal),
        route matches Some(cells) ==> cells@.len() >= 1 && cells@[0] == start && cells@.last()
            == goal,
        route matches Some(cells) ==> index.is_cheapest(cells@, start, goal),
        start == goal ==> (route matches Some(cells) && cells@ == seq![start]),
{
    proof {
        use_type_invariant(index);
    }
    let size: MapSize = index.size();
    let mut frontier = Frontier::new();
    let mut came_from: HashMap<u128, Option<MapPosition>> = HashMap::new();
    let mut cost_so_far: HashMap<u128, u128> = HashMap::new();
    let first = Node { position: start, cost: 0, priority: 0 };

    frontier.push(first);
    came_from.insert(start.key(), None);
    cost_so_far.insert(start.key(), 0);

    let ghost mut tables = Tables::initial(*index, start, first);
    proof {
        lemma_by_cell_empty::<Option<MapPosition>>();
        lemma_by_cell_empty::<u128>();
        lemma_by_cell_insert(Map::<u128, Option<MapPosition>>::empty(), start, None);
        lemma_by_cell_insert(Map::<u128, u128>::empty(), start, 0u128);
        Tables::lemma_start(*index, start, goal, first);
    }

    loop
        invariant_except_break
            tables.steady(*index, start, goal),
            tables.waiting == frontier@,
        invariant
            frontier.wf(),
            size == index.bounds(),
            tables.preds == by_cell(came_from@),
            tables.costs == by_cell(cost_so_far@),
        ensures
            index.wf(),
            tables.linked(*index, start),
            tables.costs.contains_key(goal) ==> index.no_route_below(
                start,
                goal,
                tables.cost(goal),
            ),
            !tables.costs.contains_key(goal) ==> !index.reachable(start, goal),
        decreases tables.effort().0, tables.effort().1, tables.effort().2,
    {
        let ghost before = tables.effort();
        let popped = frontier.pop();
        if popped.is_none() {
            proof {
                tables.lemma_done_exhausted(*index, start, goal);
            }
            break ;
        }
        let least: Node = popped.unwrap();
        let position: MapPosition = least.position;
        if position == goal {
            proof {
                tables.lemma_done_at_goal(*index, start, goal, least);
            }
            break ;
        }
        proof {
            tables.lemma_open(*index, start, goal, least);
            tables = tables.without(least);
        }
        let base: u128 = *cost_so_far.get(&position.key()).unwrap();
        let nbrs = neighbors(size, position);
        let mut i: usize = 0;
        proof {
            assert(nbrs@.take(0) =~= Seq::empty());
        }
        while i < nbrs.len()
            invariant
                frontier.wf(),
                size == index.bounds(),
                nbrs@ == size.neighbor_seq(position),
                i <= nbrs.len(),
                tables.waiting == frontier@,
                tables.preds == by_cell(came_from@),
                tables.costs == by_cell(cost_so_far@),
                tables.expanding(*index, start, goal, position, nbrs@.take(i as int)),
                tables.costs.contains_key(position),
                base == tables.costs[position],
                tables.nearer_than(before),
            decreases nbrs.len() - i,
        {
            let neighbor: MapPosition = nbrs[i];
            let ghost done = nbrs@.take(i as int);
            proof {
                size.lemma_neighbor_seq_is_step(position, neighbor);
                assert(nbrs@.contains(neighbor));
                assert(nbrs@.take(i + 1) =~= done.push(neighbor));
                tables.lemma_cost_room(*index, start, goal, position, done);
            }
            match get_walkable_cost(&neighbor, index) {
                Some(walkable_cost) => {
                    let new_cost: u128 = base + walkable_cost as u128;
                    let improves: bool = match cost_so_far.get(&neighbor.key()) {
                        Some(known) => new_cost < *known,
                        None => true,
                    };
                    if improves {
                        let priority: u128 = new_cost + manhattan_distance(neighbor, goal);
                        let node = Node { position: neighbor, cost: new_cost, priority };
                        proof {
                            tables.lemma_relax(*index, start, goal, position, done, node, before);
                            lemma_by_cell_insert(cost_so_far@, neighbor, new_cost);
                            lemma_by_cell_insert(came_from@, neighbor, Some(position));
                            tables = tables.relax(position, node);
                        }
                        cost_so_far.insert(neighbor.key(), new_cost);
                        frontier.push(node);
                        came_from.insert(neighbor.key(), Some(position));
                    } else {
                        proof {
                            tables.lemma_keep(*index, start, goal, position, done, neighbor);
                        }
                    }
                },
                None => {
                    proof {
                        tables.lemma_keep(*index, start, goal, position, done, neighbor);
                    }
                },
            }
            i += 1;
        }
        proof {
            assert(nbrs@.take(i as int) =~= nbrs@);
            tables.lemma_close(*index, start, goal, position, nbrs@);
        }
    }

    let found = reconstruct(index, start, goal, &came_from, Ghost(tables));
    proof {
        if found is Some {
            let cells = found->Some_0;
            assert(index.is_route(cells@, start, goal));
            assert forall|other: Seq<MapPosition>| #[trigger]
                index.is_route(other, start, goal) implies index.route_cost(cells@)
                <= index.route_cost(other) by {
                assert(tables.cost(goal) <= index.route_cost(other));
            }
        }
    }
    found
}

} // verus!
