use duds::{build_tile_lookup, find_path, get_walkable_cost, MapPosition, MapSize, Tile, TileIndex};

fn at(x: usize, y: usize) -> MapPosition {
    MapPosition { x, y }
}

fn floor(x: usize, y: usize, cost: u32) -> Tile {
    Tile { position: at(x, y), blocked: false, walk_cost: Some(cost) }
}

fn wall(x: usize, y: usize) -> Tile {
    Tile { position: at(x, y), blocked: true, walk_cost: None }
}

/// A map of the given rows. A digit is a floor tile of that cost, `#` a
/// floor tile with a wall on it, and a blank a cell without any tile.
fn grid(rows: &[&str]) -> TileIndex {
    let height = rows.len();
    let width = rows.iter().map(|row| row.len()).max().unwrap_or(0);
    let mut tiles = Vec::new();
    for (y, row) in rows.iter().enumerate() {
        for (x, cell) in row.chars().enumerate() {
            match cell {
                '#' => {
                    tiles.push(floor(x, y, 1));
                    tiles.push(wall(x, y));
                }
                ' ' => {}
                digit => tiles.push(floor(x, y, digit.to_digit(10).unwrap())),
            }
        }
    }
    build_tile_lookup(MapSize { width, height }, &tiles)
}

/// Total cost of a route: the entry costs of its cells after the first.
/// Panics if a cell of the route cannot be entered or two cells in a row do
/// not share an edge.
fn cost_of(index: &TileIndex, route: &[MapPosition]) -> u128 {
    let mut total = 0u128;
    for pair in route.windows(2) {
        let dx = pair[0].x.abs_diff(pair[1].x);
        let dy = pair[0].y.abs_diff(pair[1].y);
        assert_eq!(dx + dy, 1, "cells of a route share an edge");
        let size = index.size();
        assert!(pair[1].x < size.width && pair[1].y < size.height);
        total += get_walkable_cost(&pair[1], index).expect("route cell can be entered") as u128;
    }
    total
}

/// Least cost of any route from `start` to `goal`, found by trying every
/// route that visits no cell twice.
fn cheapest_by_exhaustion(
    index: &TileIndex,
    start: MapPosition,
    goal: MapPosition,
) -> Option<u128> {
    let size = index.size();
    let mut visited = vec![vec![false; size.height]; size.width];
    let mut best = None;
    if start.x < size.width && start.y < size.height {
        visited[start.x][start.y] = true;
    }
    explore(index, start, goal, 0, &mut visited, &mut best);
    best
}

fn explore(
    index: &TileIndex,
    here: MapPosition,
    goal: MapPosition,
    spent: u128,
    visited: &mut Vec<Vec<bool>>,
    best: &mut Option<u128>,
) {
    if here == goal {
        if best.map_or(true, |b| spent < b) {
            *best = Some(spent);
        }
        return;
    }
    let size = index.size();
    let mut next = Vec::new();
    if here.x > 0 {
        next.push(at(here.x - 1, here.y));
    }
    next.push(at(here.x + 1, here.y));
    if here.y > 0 {
        next.push(at(here.x, here.y - 1));
    }
    next.push(at(here.x, here.y + 1));
    for cell in next {
        if cell.x >= size.width || cell.y >= size.height || visited[cell.x][cell.y] {
            continue;
        }
        if let Some(cost) = get_walkable_cost(&cell, index) {
            visited[cell.x][cell.y] = true;
            explore(index, cell, goal, spent + cost as u128, visited, best);
            visited[cell.x][cell.y] = false;
        }
    }
}

#[test]
fn blocked_corridor_has_no_route() {
    let tiles = vec![floor(0, 0, 1), floor(1, 0, 1), wall(1, 0), floor(2, 0, 1)];
    let index = build_tile_lookup(MapSize { width: 3, height: 1 }, &tiles);
    assert_eq!(find_path(&index, at(0, 0), at(2, 0)), None);
}

#[test]
fn blocked_corridor_without_floor_under_the_wall_has_no_route() {
    let tiles = vec![floor(0, 0, 1), wall(1, 0), floor(2, 0, 1)];
    let index = build_tile_lookup(MapSize { width: 3, height: 1 }, &tiles);
    assert_eq!(find_path(&index, at(0, 0), at(2, 0)), None);
}

#[test]
fn open_corridor_is_walked_straight() {
    let tiles = vec![floor(0, 0, 1), floor(1, 0, 1), floor(2, 0, 1)];
    let index = build_tile_lookup(MapSize { width: 3, height: 1 }, &tiles);
    let route = find_path(&index, at(0, 0), at(2, 0)).unwrap();
    assert_eq!(route, vec![at(0, 0), at(1, 0), at(2, 0)]);
    assert_eq!(cost_of(&index, &route), 2);
}

#[test]
fn start_equal_to_goal_gives_a_single_cell() {
    let index = grid(&["111", "111"]);
    assert_eq!(find_path(&index, at(1, 1), at(1, 1)), Some(vec![at(1, 1)]));
}

#[test]
fn start_equal_to_goal_on_a_blocked_cell_gives_a_single_cell() {
    let index = grid(&["1#1"]);
    assert_eq!(find_path(&index, at(1, 0), at(1, 0)), Some(vec![at(1, 0)]));
}

#[test]
fn start_equal_to_goal_off_the_index_gives_a_single_cell() {
    let index = grid(&["111"]);
    assert_eq!(find_path(&index, at(7, 9), at(7, 9)), Some(vec![at(7, 9)]));
    let empty = build_tile_lookup(MapSize { width: 0, height: 0 }, &Vec::new());
    assert_eq!(find_path(&empty, at(0, 0), at(0, 0)), Some(vec![at(0, 0)]));
}

#[test]
fn blocked_goal_is_unreachable() {
    let index = grid(&["111", "11#"]);
    assert_eq!(find_path(&index, at(0, 0), at(2, 1)), None);
}

#[test]
fn goal_without_a_tile_is_unreachable() {
    let index = grid(&["111", "11 "]);
    assert_eq!(find_path(&index, at(0, 0), at(2, 1)), None);
}

#[test]
fn goal_without_a_cost_is_unreachable() {
    let mut tiles = vec![floor(0, 0, 1), floor(1, 0, 1)];
    tiles.push(Tile { position: at(2, 0), blocked: false, walk_cost: None });
    let index = build_tile_lookup(MapSize { width: 3, height: 1 }, &tiles);
    assert_eq!(find_path(&index, at(0, 0), at(2, 0)), None);
}

#[test]
fn goal_behind_a_wall_is_unreachable() {
    let index = grid(&["11#11", "11#11", "11#11"]);
    assert_eq!(find_path(&index, at(0, 1), at(4, 1)), None);
    assert_eq!(find_path(&index, at(4, 1), at(0, 1)), None);
}

#[test]
fn goal_behind_a_gap_is_unreachable() {
    let index = grid(&["11 11", "11 11"]);
    assert_eq!(find_path(&index, at(0, 0), at(4, 0)), None);
}

#[test]
fn goal_beyond_the_bounds_is_unreachable() {
    let tiles = vec![floor(0, 0, 1), floor(1, 0, 1), floor(2, 0, 1)];
    let index = build_tile_lookup(MapSize { width: 2, height: 1 }, &tiles);
    assert_eq!(find_path(&index, at(0, 0), at(2, 0)), None);
    assert_eq!(find_path(&index, at(0, 0), at(1, 0)), Some(vec![at(0, 0), at(1, 0)]));
}

#[test]
fn empty_index_has_no_route_between_two_cells() {
    let index = build_tile_lookup(MapSize { width: 4, height: 4 }, &Vec::new());
    assert_eq!(find_path(&index, at(0, 0), at(1, 0)), None);
}

#[test]
fn start_may_stand_on_a_blocked_cell() {
    let index = grid(&["#11"]);
    assert_eq!(find_path(&index, at(0, 0), at(2, 0)), Some(vec![at(0, 0), at(1, 0), at(2, 0)]));
}

#[test]
fn start_may_stand_off_the_index() {
    let index = grid(&[" 11"]);
    assert_eq!(find_path(&index, at(0, 0), at(2, 0)), Some(vec![at(0, 0), at(1, 0), at(2, 0)]));
}

#[test]
fn start_beside_the_map_may_step_onto_it() {
    let tiles = vec![floor(0, 0, 1), floor(1, 0, 1), floor(2, 0, 1), floor(3, 0, 1)];
    let index = build_tile_lookup(MapSize { width: 3, height: 1 }, &tiles);
    assert_eq!(find_path(&index, at(3, 0), at(2, 0)), Some(vec![at(3, 0), at(2, 0)]));
    assert_eq!(
        find_path(&index, at(3, 0), at(0, 0)),
        Some(vec![at(3, 0), at(2, 0), at(1, 0), at(0, 0)])
    );
    // no move leads back off the map, nor onto it from further away
    assert_eq!(find_path(&index, at(2, 0), at(3, 0)), None);
    assert_eq!(find_path(&index, at(4, 0), at(2, 0)), None);
}

#[test]
fn route_goes_around_a_wall() {
    let index = grid(&["1#1", "1#1", "111"]);
    let route = find_path(&index, at(0, 0), at(2, 0)).unwrap();
    assert_eq!(
        route,
        vec![at(0, 0), at(0, 1), at(0, 2), at(1, 2), at(2, 2), at(2, 1), at(2, 0)]
    );
    assert_eq!(cost_of(&index, &route), 6);
}

#[test]
fn cheaper_detour_beats_the_short_way() {
    let index = grid(&["191", "111"]);
    let route = find_path(&index, at(0, 0), at(2, 0)).unwrap();
    assert_eq!(route, vec![at(0, 0), at(0, 1), at(1, 1), at(2, 1), at(2, 0)]);
    assert_eq!(cost_of(&index, &route), 4);
}

#[test]
fn short_way_beats_a_dearer_detour() {
    let index = grid(&["131", "111"]);
    let route = find_path(&index, at(0, 0), at(2, 0)).unwrap();
    assert_eq!(route, vec![at(0, 0), at(1, 0), at(2, 0)]);
    assert_eq!(cost_of(&index, &route), 4);
}

#[test]
fn cost_of_the_start_cell_is_not_counted() {
    let index = grid(&["912"]);
    let route = find_path(&index, at(0, 0), at(2, 0)).unwrap();
    assert_eq!(cost_of(&index, &route), 3);
}

#[test]
fn zero_cost_tiles_count_as_one() {
    let index = grid(&["000", "0#0", "000"]);
    let route = find_path(&index, at(0, 0), at(2, 2)).unwrap();
    assert_eq!(route.len(), 5);
    assert_eq!(cost_of(&index, &route), 4);
}

#[test]
fn route_starts_and_ends_where_asked() {
    let index = grid(&["11111", "1###1", "11111", "1#1#1", "11111"]);
    for sx in 0..5 {
        for sy in 0..5 {
            for gx in 0..5 {
                for gy in 0..5 {
                    let known = cheapest_by_exhaustion(&index, at(sx, sy), at(gx, gy));
                    let route = find_path(&index, at(sx, sy), at(gx, gy));
                    assert_eq!(route.is_some(), known.is_some());
                    if let Some(route) = route {
                        assert_eq!(route[0], at(sx, sy));
                        assert_eq!(route[route.len() - 1], at(gx, gy));
                    }
                }
            }
        }
    }
}

#[test]
fn route_cost_is_the_least_on_weighted_grids() {
    let maps: [[&str; 5]; 4] = [
        ["13521", "24#13", "11971", "5#111", "12341"],
        ["11111", "19991", "19191", "19991", "11111"],
        ["1#111", "1#1#1", "1#1#1", "1#1#1", "111#1"],
        ["12345", "6789#", "1 2 3", "45678", "9#123"],
    ];
    for rows in maps.iter() {
        let index = grid(rows);
        for (sx, sy) in [(0, 0), (2, 2), (4, 0), (0, 4)] {
            for gx in 0..5 {
                for gy in 0..5 {
                    let known = cheapest_by_exhaustion(&index, at(sx, sy), at(gx, gy));
                    let route = find_path(&index, at(sx, sy), at(gx, gy));
                    assert_eq!(route.as_ref().map(|r| cost_of(&index, r)), known);
                }
            }
        }
    }
}

#[test]
fn route_cost_is_the_least_on_generated_grids() {
    let mut seed: u64 = 2024;
    for _ in 0..12 {
        let mut tiles = Vec::new();
        for x in 0..5 {
            for y in 0..5 {
                seed = seed.wrapping_mul(6364136223846793005).wrapping_add(1442695040888963407);
                let roll = (seed >> 33) % 10;
                if roll < 8 {
                    tiles.push(floor(x, y, (roll as u32) % 4));
                } else if roll == 8 {
                    tiles.push(floor(x, y, 1));
                    tiles.push(wall(x, y));
                }
            }
        }
        let index = build_tile_lookup(MapSize { width: 5, height: 5 }, &tiles);
        for gx in 0..5 {
            for gy in 0..5 {
                let known = cheapest_by_exhaustion(&index, at(0, 0), at(gx, gy));
                let route = find_path(&index, at(0, 0), at(gx, gy));
                assert_eq!(route.as_ref().map(|r| cost_of(&index, r)), known);
            }
        }
    }
}

#[test]
fn blocked_cell_is_never_entered_in_either_merge_order() {
    let wall_first = vec![
        floor(0, 0, 1), wall(1, 0), floor(1, 0, 3), floor(2, 0, 1),
        floor(0, 1, 1), floor(1, 1, 1), floor(2, 1, 1),
    ];
    let wall_last = vec![
        floor(0, 0, 1), floor(1, 0, 3), wall(1, 0), floor(2, 0, 1),
        floor(0, 1, 1), floor(1, 1, 1), floor(2, 1, 1),
    ];
    for tiles in [wall_first, wall_last] {
        let index = build_tile_lookup(MapSize { width: 3, height: 2 }, &tiles);
        assert!(index.get(at(1, 0)).unwrap().blocked);
        let route = find_path(&index, at(0, 0), at(2, 0)).unwrap();
        assert!(!route.contains(&at(1, 0)));
        assert_eq!(route, vec![at(0, 0), at(0, 1), at(1, 1), at(2, 1), at(2, 0)]);
        assert_eq!(find_path(&index, at(0, 0), at(1, 0)), None);
    }
}

#[test]
fn route_stays_inside_the_bounds() {
    // the only way round the wall leaves the map
    let tiles = vec![
        floor(0, 0, 1), floor(1, 0, 1), wall(1, 0), floor(2, 0, 1),
        floor(0, 1, 1), floor(1, 1, 1), floor(2, 1, 1),
    ];
    let narrow = build_tile_lookup(MapSize { width: 3, height: 1 }, &tiles);
    assert_eq!(find_path(&narrow, at(0, 0), at(2, 0)), None);
    let wide = build_tile_lookup(MapSize { width: 3, height: 2 }, &tiles);
    assert!(find_path(&wide, at(0, 0), at(2, 0)).is_some());
}

#[test]
fn largest_costs_do_not_overflow() {
    let tiles = vec![
        floor(0, 0, u32::MAX), floor(1, 0, u32::MAX), floor(2, 0, u32::MAX), floor(3, 0, u32::MAX),
    ];
    let index = build_tile_lookup(MapSize { width: 4, height: 1 }, &tiles);
    let route = find_path(&index, at(0, 0), at(3, 0)).unwrap();
    assert_eq!(route, vec![at(0, 0), at(1, 0), at(2, 0), at(3, 0)]);
    assert_eq!(cost_of(&index, &route), 3 * (u32::MAX as u128));
}

#[test]
fn full_size_map_is_crossed() {
    let mut tiles = Vec::new();
    for x in 0..32 {
        for y in 0..32 {
            tiles.push(floor(x, y, 1));
        }
    }
    let index = build_tile_lookup(MapSize { width: 32, height: 32 }, &tiles);
    let route = find_path(&index, at(0, 0), at(31, 31)).unwrap();
    assert_eq!(route.len(), 63);
    assert_eq!(cost_of(&index, &route), 62);
}

#[test]
fn search_is_repeatable() {
    let index = grid(&["1111", "1211", "1121", "1111"]);
    let first = find_path(&index, at(0, 0), at(3, 3));
    let second = find_path(&index, at(0, 0), at(3, 3));
    assert_eq!(first, second);
    assert_eq!(cost_of(&index, &first.unwrap()), 6);
}
