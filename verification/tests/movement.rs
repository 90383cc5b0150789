use duds::{
    build_tile_lookup, move_along_path, MapPosition, MapSize, Moving, Step, Target, Tile,
    NANOS_PER_SECOND,
};

fn at(x: usize, y: usize) -> MapPosition {
    MapPosition { x, y }
}

fn floor(x: usize, y: usize, cost: u32) -> Tile {
    Tile { position: at(x, y), blocked: false, walk_cost: Some(cost) }
}

fn corridor(length: usize) -> duds::TileIndex {
    let tiles: Vec<Tile> = (0..length).map(|x| floor(x, 0, 1)).collect();
    build_tile_lookup(MapSize { width: length, height: 1 }, &tiles)
}

const HALF_SECOND: u64 = NANOS_PER_SECOND / 2;

/// A countdown of the given step time that has run out: a move is due.
fn due(step_nanos: u64) -> Moving {
    Moving { step_nanos, remaining_nanos: 0 }
}

#[test]
fn default_moving_is_half_a_tile_per_second_with_a_full_step_to_wait() {
    assert_eq!(
        Moving::default(),
        Moving { step_nanos: 2_000_000_000, remaining_nanos: 2_000_000_000 }
    );
    assert_eq!(Moving::default(), Moving::with_speed(500));
}

#[test]
fn fresh_agent_waits_a_full_step_before_its_first_move() {
    let mut position = at(0, 0);
    let mut target = Target { path: Some(vec![at(0, 0), at(1, 0)]), position: Some(at(1, 0)) };
    let mut moving = Moving::with_speed(2000);
    assert_eq!(move_along_path(1, &mut position, &mut target, &mut moving), Step::Waiting);
    assert_eq!(position, at(0, 0));
    let step = move_along_path(HALF_SECOND - 2, &mut position, &mut target, &mut moving);
    assert_eq!(step, Step::Waiting);
    assert_eq!(position, at(0, 0));
    assert_eq!(moving.remaining_nanos, 1);
    assert_eq!(move_along_path(1, &mut position, &mut target, &mut moving), Step::Advanced);
    assert_eq!(position, at(1, 0));
}

#[test]
fn default_agent_waits_two_seconds_before_its_first_move() {
    let mut position = at(0, 0);
    let mut target = Target { path: Some(vec![at(0, 0), at(1, 0)]), position: Some(at(1, 0)) };
    let mut moving = Moving::default();
    let step = move_along_path(2 * NANOS_PER_SECOND - 1, &mut position, &mut target, &mut moving);
    assert_eq!(step, Step::Waiting);
    assert_eq!(position, at(0, 0));
    assert_eq!(move_along_path(1, &mut position, &mut target, &mut moving), Step::Advanced);
    assert_eq!(position, at(1, 0));
    assert_eq!(moving, Moving::default());
}

#[test]
fn step_time_is_a_second_over_the_speed() {
    assert_eq!(Moving::with_speed(2000).step_nanos, 500_000_000);
    assert_eq!(Moving::with_speed(500).step_nanos, 2_000_000_000);
    assert_eq!(Moving::with_speed(1000).step_nanos, 1_000_000_000);
    assert_eq!(Moving::with_speed(3000).step_nanos, 333_333_333);
    assert_eq!(Moving::with_speed(1).step_nanos, 1_000_000_000_000);
    assert_eq!(Moving::with_speed(u32::MAX).step_nanos, 232);
    assert_eq!(Moving::with_speed(2000).remaining_nanos, 500_000_000);
    assert_eq!(Moving::with_speed(3000).remaining_nanos, 333_333_333);
    assert_eq!(Moving::with_speed(1).remaining_nanos, 1_000_000_000_000);
}

#[test]
fn countdown_stops_at_zero() {
    let mut moving = Moving { step_nanos: 100, remaining_nanos: 70 };
    assert!(!moving.tick(30));
    assert_eq!(moving.remaining_nanos, 40);
    assert!(!moving.tick(0));
    assert_eq!(moving.remaining_nanos, 40);
    assert!(moving.tick(90));
    assert_eq!(moving.remaining_nanos, 0);
    assert!(moving.tick(u64::MAX));
    assert_eq!(moving.remaining_nanos, 0);
    assert_eq!(moving.step_nanos, 100);
}

#[test]
fn countdown_runs_out_exactly() {
    let mut moving = Moving { step_nanos: 100, remaining_nanos: 70 };
    assert!(moving.tick(70));
    assert_eq!(moving.remaining_nanos, 0);
}

#[test]
fn rearm_starts_a_full_step() {
    let mut moving = Moving { step_nanos: 100, remaining_nanos: 7 };
    moving.rearm();
    assert_eq!(moving, Moving { step_nanos: 100, remaining_nanos: 100 });
}

#[test]
fn agent_walks_three_waypoints_in_one_and_a_half_seconds() {
    let route = vec![at(0, 0), at(1, 0), at(2, 0), at(3, 0)];
    let mut position = at(0, 0);
    let mut target = Target { path: Some(route), position: Some(at(3, 0)) };
    let mut moving = Moving::with_speed(2000);

    let tick = NANOS_PER_SECOND / 10;
    let mut clock: u64 = 0;
    let mut arrivals = Vec::new();
    while clock < 3 * HALF_SECOND {
        let step = move_along_path(tick, &mut position, &mut target, &mut moving);
        clock += tick;
        if clock % HALF_SECOND == 0 {
            assert_eq!(step, Step::Advanced);
            arrivals.push((clock, position));
        } else {
            assert_eq!(step, Step::Waiting);
        }
    }
    assert_eq!(
        arrivals,
        vec![
            (500_000_000, at(1, 0)),
            (1_000_000_000, at(2, 0)),
            (1_500_000_000, at(3, 0)),
        ]
    );
    assert_eq!(clock, 1_500_000_000);
    assert_eq!(position, at(3, 0));
    assert_eq!(target.path, Some(vec![at(3, 0)]));

    // the route is given up when the countdown next runs out
    for _ in 0..4 {
        assert_eq!(move_along_path(tick, &mut position, &mut target, &mut moving), Step::Waiting);
        assert!(target.path.is_some());
    }
    assert_eq!(move_along_path(tick, &mut position, &mut target, &mut moving), Step::Arrived);
    assert_eq!(target.path, None);
    assert_eq!(position, at(3, 0));
    assert_eq!(target.position, Some(at(3, 0)));
}

#[test]
fn agent_with_a_move_due_steps_at_once_and_drops_the_route_after_one_and_a_half_seconds() {
    let route = vec![at(0, 0), at(1, 0), at(2, 0), at(3, 0)];
    let mut position = at(0, 0);
    let mut target = Target { path: Some(route), position: Some(at(3, 0)) };
    let mut moving = due(HALF_SECOND);

    assert_eq!(move_along_path(0, &mut position, &mut target, &mut moving), Step::Advanced);
    assert_eq!(position, at(1, 0));
    assert_eq!(moving.remaining_nanos, HALF_SECOND);

    let step = move_along_path(HALF_SECOND, &mut position, &mut target, &mut moving);
    assert_eq!(step, Step::Advanced);
    assert_eq!(position, at(2, 0));
    let step = move_along_path(HALF_SECOND, &mut position, &mut target, &mut moving);
    assert_eq!(step, Step::Advanced);
    assert_eq!(position, at(3, 0));
    assert_eq!(target.path, Some(vec![at(3, 0)]));
    let step = move_along_path(HALF_SECOND, &mut position, &mut target, &mut moving);
    assert_eq!(step, Step::Arrived);
    assert_eq!(target.path, None);
    assert_eq!(position, at(3, 0));
}

#[test]
fn nothing_moves_while_the_countdown_runs() {
    let mut position = at(0, 0);
    let mut target = Target { path: Some(vec![at(0, 0), at(1, 0)]), position: Some(at(1, 0)) };
    let mut moving = Moving { step_nanos: 1000, remaining_nanos: 1000 };
    assert_eq!(move_along_path(999, &mut position, &mut target, &mut moving), Step::Waiting);
    assert_eq!(position, at(0, 0));
    assert_eq!(target.path, Some(vec![at(0, 0), at(1, 0)]));
    assert_eq!(moving, Moving { step_nanos: 1000, remaining_nanos: 1 });
    assert_eq!(move_along_path(1, &mut position, &mut target, &mut moving), Step::Advanced);
    assert_eq!(position, at(1, 0));
    assert_eq!(target.path, Some(vec![at(1, 0)]));
    assert_eq!(moving, Moving { step_nanos: 1000, remaining_nanos: 1000 });
}

#[test]
fn long_tick_moves_one_waypoint_only() {
    let mut position = at(0, 0);
    let mut target =
        Target { path: Some(vec![at(0, 0), at(1, 0), at(2, 0)]), position: Some(at(2, 0)) };
    let mut moving = Moving { step_nanos: 10, remaining_nanos: 10 };
    assert_eq!(move_along_path(1_000, &mut position, &mut target, &mut moving), Step::Advanced);
    assert_eq!(position, at(1, 0));
    assert_eq!(moving.remaining_nanos, 10);
}

#[test]
fn single_cell_route_is_dropped_without_moving() {
    let mut position = at(4, 4);
    let mut target = Target { path: Some(vec![at(4, 4)]), position: Some(at(4, 4)) };
    let mut moving = due(NANOS_PER_SECOND);
    assert_eq!(move_along_path(1, &mut position, &mut target, &mut moving), Step::Arrived);
    assert_eq!(position, at(4, 4));
    assert_eq!(target.path, None);
    assert_eq!(moving.remaining_nanos, 0);
}

#[test]
fn empty_route_is_dropped_without_moving() {
    let mut position = at(4, 4);
    let mut target = Target { path: Some(Vec::new()), position: None };
    let mut moving = due(NANOS_PER_SECOND);
    assert_eq!(move_along_path(1, &mut position, &mut target, &mut moving), Step::Arrived);
    assert_eq!(position, at(4, 4));
    assert_eq!(target.path, None);
}

#[test]
fn agent_without_a_route_idles() {
    let mut position = at(4, 4);
    let mut target = Target::new();
    let mut moving = due(NANOS_PER_SECOND);
    assert_eq!(move_along_path(5, &mut position, &mut target, &mut moving), Step::Idle);
    assert_eq!(position, at(4, 4));
    assert_eq!(target.path, None);
    assert_eq!(target.position, None);
    assert_eq!(moving, Moving { step_nanos: NANOS_PER_SECOND, remaining_nanos: 0 });
}

#[test]
fn new_target_asks_for_nothing() {
    let target = Target::new();
    assert_eq!(target.path, None);
    assert_eq!(target.position, None);
    assert!(!target.needs_search());
}

#[test]
fn search_is_due_when_a_goal_has_no_route() {
    let target = Target { path: None, position: Some(at(2, 0)) };
    assert!(target.needs_search());
}

#[test]
fn search_is_due_when_the_route_ends_elsewhere() {
    let target = Target { path: Some(vec![at(0, 0), at(1, 0)]), position: Some(at(2, 0)) };
    assert!(target.needs_search());
    let target = Target { path: Some(Vec::new()), position: Some(at(2, 0)) };
    assert!(target.needs_search());
}

#[test]
fn search_is_not_due_when_the_route_ends_on_the_goal() {
    let route = vec![at(0, 0), at(1, 0), at(2, 0)];
    let target = Target { path: Some(route), position: Some(at(2, 0)) };
    assert!(!target.needs_search());
}

#[test]
fn search_is_not_due_without_a_goal() {
    let target = Target { path: Some(vec![at(0, 0), at(1, 0)]), position: None };
    assert!(!target.needs_search());
}

#[test]
fn replan_finds_a_route_to_a_new_goal() {
    let index = corridor(4);
    let mut target = Target { path: None, position: Some(at(3, 0)) };
    target.replan(&index, at(0, 0));
    assert_eq!(target.path, Some(vec![at(0, 0), at(1, 0), at(2, 0), at(3, 0)]));
    assert_eq!(target.position, Some(at(3, 0)));
}

#[test]
fn replan_starts_from_the_current_cell() {
    let index = corridor(5);
    let mut position = at(0, 0);
    let mut target = Target { path: None, position: Some(at(2, 0)) };
    let mut moving = due(NANOS_PER_SECOND);
    target.replan(&index, position);
    assert_eq!(move_along_path(0, &mut position, &mut target, &mut moving), Step::Advanced);
    assert_eq!(position, at(1, 0));

    target.position = Some(at(4, 0));
    target.replan(&index, position);
    assert_eq!(target.path, Some(vec![at(1, 0), at(2, 0), at(3, 0), at(4, 0)]));
    assert_eq!(moving.remaining_nanos, NANOS_PER_SECOND);
}

#[test]
fn replan_clears_the_route_when_the_goal_is_out_of_reach() {
    let index = corridor(3);
    let mut target = Target { path: Some(vec![at(0, 0), at(1, 0)]), position: Some(at(9, 0)) };
    target.replan(&index, at(0, 0));
    assert_eq!(target.path, None);
    assert_eq!(target.position, Some(at(9, 0)));
}

#[test]
fn replan_keeps_a_route_that_ends_on_the_goal() {
    let index = corridor(4);
    // longer than a fresh search would give: it is left as it is
    let held = vec![at(0, 0), at(1, 0), at(0, 0), at(1, 0), at(2, 0)];
    let mut target = Target { path: Some(held.clone()), position: Some(at(2, 0)) };
    target.replan(&index, at(0, 0));
    assert_eq!(target.path, Some(held));
}

#[test]
fn replan_does_nothing_without_a_goal() {
    let index = corridor(4);
    let mut target = Target { path: Some(vec![at(0, 0), at(1, 0)]), position: None };
    target.replan(&index, at(0, 0));
    assert_eq!(target.path, Some(vec![at(0, 0), at(1, 0)]));
    assert_eq!(target.position, None);
}

#[test]
fn replan_to_the_own_cell_gives_a_single_cell() {
    let index = corridor(4);
    let mut position = at(2, 0);
    let mut target = Target { path: None, position: Some(at(2, 0)) };
    let mut moving = due(NANOS_PER_SECOND);
    target.replan(&index, position);
    assert_eq!(target.path, Some(vec![at(2, 0)]));
    assert_eq!(move_along_path(1, &mut position, &mut target, &mut moving), Step::Arrived);
    assert_eq!(position, at(2, 0));
    assert_eq!(target.path, None);
}
