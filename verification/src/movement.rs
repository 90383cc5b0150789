//! Following a route: what an agent is heading for, and the countdown that
//! moves it along one waypoint at a time.
use crate::position::MapPosition;
use crate::search::find_path;
use crate::tiles::TileIndex;
use vstd::prelude::*;

verus! {

/// Nanoseconds in one second.
pub const NANOS_PER_SECOND: u64 = 1_000_000_000;

/// What an agent is heading for.
#[derive(Clone, Debug, PartialEq, Eq)]
pub struct Target {
    /// The route being followed: the agent's own cell first, the goal last.
    /// `None` when there is nothing to follow.
    pub path: Option<Vec<MapPosition>>,
    /// The cell that the agent was asked to go to, if any.
    pub position: Option<MapPosition>,
}

impl Target {
    /// The route as a sequence of cells.
    pub open spec fn route(self) -> Option<Seq<MapPosition>> {
        match self.path {
            Some(cells) => Some(cells@),
            None => None,
        }
    }

    /// Whether a search is due: a goal is set, and the route does not end on
    /// it or there is no route.
    pub open spec fn wants_search(self) -> bool {
        match self.position {
            Some(goal) => match self.route() {
                Some(cells) => cells.len() == 0 || cells.last() != goal,
                None => true,
            },
            None => false,
        }
    }

    /// A target with no goal and no route.
    pub fn new() -> (target: Self)
        ensures
            target.position is None,
            target.route() is None,
    {
        Target { path: None, position: None }
    }

    /// Computes [`Target::wants_search`].
    pub fn needs_search(&self) -> (due: bool)
        ensures
            due == self.wants_search(),
    {
        match self.position {
            Some(goal) => match &self.path {
                Some(cells) => {
                    let count: usize = cells.len();
                    count == 0 || cells[count - 1] != goal
                },
                None => true,
            },
            None => false,
        }
    }

    /// Brings the route up to date for an agent that stands on `start`.
    ///
    /// Where no search is due nothing changes. Otherwise the route is
    /// replaced by a cheapest route from `start` to the goal, or cleared if no
    /// route leads there. The goal itself is never changed.
    pub fn replan(&mut self, index: &TileIndex, start: MapPosition)
        ensures
            final(self).position == old(self).position,
            !old(self).wants_search() ==> final(self).route() == old(self).route(),
            old(self).wants_search() ==> (final(self).route() is Some <==> index.reachable(
                start,
                old(self).position->Some_0,
            )),
            old(self).wants_search() ==> (final(self).route() matches Some(cells)
                ==> index.is_cheapest(cells, start, old(self).position->Some_0)),
            old(self).wants_search() && old(self).position == Some(start) ==> final(self).route()
                == Some(seq![start]),
    {
        if self.needs_search() {
            let goal: MapPosition = self.position.unwrap();
            self.path = find_path(index, start, goal);
        }
    }
}

/// How an agent moves: the time that one move takes, and the time left
/// until the next move. A fresh one has its countdown started: the first
/// move comes one full step time after it was made.
#[derive(Clone, Copy, Debug, PartialEq, Eq, Structural)]
pub struct Moving {
    /// Time for one move in nanoseconds: a second divided by the speed in
    /// tiles per second.
    pub step_nanos: u64,
    /// Time left until the next move is due, in nanoseconds.
    pub remaining_nanos: u64,
}

impl Default for Moving {
    /// Half a tile per second, with the countdown started: the first move
    /// is due after the two seconds that one move takes.
    fn default() -> (moving: Self)
        ensures
            moving == (Moving { step_nanos: 2_000_000_000, remaining_nanos: 2_000_000_000 }),
            moving.step_nanos == Moving::step_time(500),
            moving.armed(),
    {
        Moving { step_nanos: 2 * NANOS_PER_SECOND, remaining_nanos: 2 * NANOS_PER_SECOND }
    }
}

impl Moving {
    /// Time for one move at a speed given in thousandths of a tile per
    /// second, in nanoseconds, rounded down.
    pub open spec fn step_time(milli_tiles_per_second: u32) -> int
        recommends
            milli_tiles_per_second > 0,
    {
        1000 * NANOS_PER_SECOND / milli_tiles_per_second as int
    }

    /// What is left of a countdown of `remaining` after `elapsed` has
    /// passed: it stops at zero.
    pub open spec fn left_after(remaining: u64, elapsed: u64) -> u64 {
        if elapsed >= remaining {
            0
        } else {
            (remaining - elapsed) as u64
        }
    }

    /// Whether the countdown has just been started: a full step time is
    /// left until the next move.
    pub open spec fn armed(self) -> bool {
        self.remaining_nanos == self.step_nanos
    }

    /// An agent that moves at a speed given in thousandths of a tile per
    /// second, with the countdown started: its first move is due after the
    /// time that one move takes.
    pub fn with_speed(milli_tiles_per_second: u32) -> (moving: Self)
        requires
            milli_tiles_per_second > 0,
        ensures
            moving.step_nanos == Self::step_time(milli_tiles_per_second),
            moving.remaining_nanos == moving.step_nanos,
            moving.armed(),
    {
        let step_nanos: u64 = 1000 * NANOS_PER_SECOND / milli_tiles_per_second as u64;
        Moving { step_nanos, remaining_nanos: step_nanos }
    }

    /// Starts the countdown anew: the next move is due after the time for
    /// one move.
    pub fn rearm(&mut self)
        ensures
            final(self).step_nanos == old(self).step_nanos,
            final(self).remaining_nanos == old(self).step_nanos,
            final(self).armed(),
    {
        self.remaining_nanos = self.step_nanos;
    }

    /// Lets `elapsed_nanos` pass. Returns whether the countdown has run out.
    pub fn tick(&mut self, elapsed_nanos: u64) -> (finished: bool)
        ensures
            final(self).step_nanos == old(self).step_nanos,
            final(self).remaining_nanos == Self::left_after(
                old(self).remaining_nanos,
                elapsed_nanos,
            ),
            finished == (final(self).remaining_nanos == 0),
    {
        if elapsed_nanos >= self.remaining_nanos {
            self.remaining_nanos = 0;
        } else {
            self.remaining_nanos = self.remaining_nanos - elapsed_nanos;
        }
        self.remaining_nanos == 0
    }
}

/// What one tick did to an agent.
#[derive(Clone, Copy, Debug, PartialEq, Eq, Structural)]
pub enum Step {
    /// The countdown has not run out yet: nothing moved.
    Waiting,
    /// The agent moved on to the next waypoint and the countdown started
    /// anew.
    Advanced,
    /// The route held nothing beyond the agent's own cell: it was cleared.
    Arrived,
    /// The countdown has run out and there is no route to follow.
    Idle,
}

/// What a tick does, given what is left of the countdown after it and the
/// route before it.
pub open spec fn step_of(left: u64, route: Option<Seq<MapPosition>>) -> Step {
    if left > 0 {
        Step::Waiting
    } else {
        match route {
            Some(cells) => if cells.len() > 1 {
                Step::Advanced
            } else {
                Step::Arrived
            },
            None => Step::Idle,
        }
    }
}

/// An agent as the rules of movement see it: where it stands, the route it
/// follows, and its countdown.
pub struct Agent {
    /// The cell on which the agent stands.
    pub cell: MapPosition,
    /// The route being followed, the agent's own cell first.
    pub route: Option<Seq<MapPosition>>,
    /// Time for one move, in nanoseconds.
    pub step_nanos: u64,
    /// Time left until the next move is due, in nanoseconds.
    pub remaining_nanos: u64,
}

impl Agent {
    /// The agent that the three parts make up.
    pub open spec fn of(cell: MapPosition, target: Target, moving: Moving) -> Agent {
        Agent {
            cell,
            route: target.route(),
            step_nanos: moving.step_nanos,
            remaining_nanos: moving.remaining_nanos,
        }
    }

    /// The agent after `elapsed` nanoseconds have passed in one tick.
    ///
    /// The countdown goes down by the elapsed time and stops at zero. While
    /// it is above zero nothing else changes. When it has run out and the
    /// route holds a waypoint beyond the agent's own cell, the agent's cell
    /// leaves the route, the agent stands on the next waypoint and the
    /// countdown starts anew. When it has run out and the route holds no such
    /// waypoint, there is no route any more.
    pub open spec fn tick(self, elapsed: u64) -> Agent {
        let left = Moving::left_after(self.remaining_nanos, elapsed);
        match step_of(left, self.route) {
            Step::Waiting => Agent { remaining_nanos: left, ..self },
            Step::Advanced => Agent {
                cell: self.route->Some_0[1],
                route: Some(self.route->Some_0.drop_first()),
                remaining_nanos: self.step_nanos,
                ..self
            },
            Step::Arrived => Agent { route: None, remaining_nanos: 0, ..self },
            Step::Idle => Agent { route: None, remaining_nanos: 0, ..self },
        }
    }

    /// The agent after `count` ticks of `elapsed` nanoseconds each.
    pub open spec fn ticks(self, elapsed: u64, count: nat) -> Agent
        decreases count,
    {
        if count == 0 {
            self
        } else {
            self.ticks(elapsed, (count - 1) as nat).tick(elapsed)
        }
    }

    /// Ticks add up: `first + then` ticks are `first` ticks and then `then`
    /// more.
    pub proof fn lemma_ticks_add(self, elapsed: u64, first: nat, then: nat)
        ensures
            self.ticks(elapsed, first + then) == self.ticks(elapsed, first).ticks(elapsed, then),
        decreases then,
    {
        if then > 0 {
            self.lemma_ticks_add(elapsed, first, (then - 1) as nat);
            assert(first + then - 1 == first + (then - 1));
        }
    }

    /// While the countdown has more left than the ticks take away, the agent
    /// waits: only the countdown changes.
    pub proof fn lemma_waits(self, elapsed: u64, count: nat)
        requires
            count * elapsed < self.remaining_nanos,
        ensures
            self.ticks(elapsed, count) == (Agent {
                remaining_nanos: (self.remaining_nanos - count * elapsed) as u64,
                ..self
            }),
        decreases count,
    {
        if count == 0 {
            assert(count * elapsed == 0) by (nonlinear_arith)
                requires
                    count == 0,
            ;
        } else {
            let before = (count - 1) as nat;
            assert(before * elapsed == count * elapsed - elapsed) by (nonlinear_arith)
                requires
                    before == count - 1,
            ;
            self.lemma_waits(elapsed, before);
            let earlier = self.ticks(elapsed, before);
            assert(Moving::left_after(earlier.remaining_nanos, elapsed) == self.remaining_nanos
                - count * elapsed);
        }
    }

    /// One move takes exactly the time for one move: an agent whose
    /// countdown stands at `parts` ticks of `elapsed` nanoseconds, and whose
    /// route leads on, has after `parts` ticks moved to the next waypoint and
    /// started its countdown anew.
    pub proof fn lemma_one_move(self, elapsed: u64, parts: nat)
        requires
            parts >= 1,
            elapsed >= 1,
            self.remaining_nanos == parts * elapsed,
            self.route matches Some(cells) && cells.len() > 1,
        ensures
            self.ticks(elapsed, parts) == (Agent {
                cell: self.route->Some_0[1],
                route: Some(self.route->Some_0.drop_first()),
                remaining_nanos: self.step_nanos,
                ..self
            }),
    {
        let before = (parts - 1) as nat;
        assert(before * elapsed == parts * elapsed - elapsed) by (nonlinear_arith)
            requires
                before == parts - 1,
        ;
        self.lemma_waits(elapsed, before);
    }

    /// The cadence of movement. An agent whose countdown has just been
    /// started, whose time for one move is `parts` ticks of `elapsed`
    /// nanoseconds, and whose route holds `moves` waypoints beyond the cell
    /// it stands on or more, stands after `moves * parts` ticks on waypoint
    /// `moves` of its route, with the route cut down to what lies ahead and
    /// the countdown started anew: it moves one waypoint at each multiple of
    /// the time for one move, neither sooner nor later.
    pub proof fn lemma_cadence(self, elapsed: u64, parts: nat, moves: nat)
        requires
            parts >= 1,
            elapsed >= 1,
            self.step_nanos == parts * elapsed,
            self.remaining_nanos == self.step_nanos,
            self.route matches Some(cells) && moves < cells.len() && cells[0] == self.cell,
        ensures
            self.ticks(elapsed, moves * parts) == (Agent {
                cell: self.route->Some_0[moves as int],
                route: Some(self.route->Some_0.skip(moves as int)),
                ..self
            }),
        decreases moves,
    {
        let cells = self.route->Some_0;
        if moves == 0 {
            assert(0 * parts == 0) by (nonlinear_arith);
            assert(cells.skip(0) =~= cells);
        } else {
            let done = (moves - 1) as nat;
            self.lemma_cadence(elapsed, parts, done);
            assert(moves * parts == done * parts + parts) by (nonlinear_arith)
                requires
                    done == moves - 1,
            ;
            self.lemma_ticks_add(elapsed, done * parts, parts);
            let midway = self.ticks(elapsed, done * parts);
            midway.lemma_one_move(elapsed, parts);
            assert(cells.skip(done as int).drop_first() =~= cells.skip(moves as int));
        }
    }

    /// Between two moves the agent stands still. Under the conditions of
    /// [`Agent::lemma_cadence`], after `moves * parts` ticks and `extra` more,
    /// with `extra` fewer than the ticks of one step time, the agent still
    /// stands on waypoint `moves`, its route is what it was at that move, and
    /// the countdown has gone down by the `extra` ticks. So a fresh agent
    /// makes its first move after one full step time and not before.
    pub proof fn lemma_between_moves(self, elapsed: u64, parts: nat, moves: nat, extra: nat)
        requires
            parts >= 1,
            elapsed >= 1,
            self.step_nanos == parts * elapsed,
            self.remaining_nanos == self.step_nanos,
            self.route matches Some(cells) && moves < cells.len() && cells[0] == self.cell,
            extra < parts,
        ensures
            self.ticks(elapsed, moves * parts + extra) == (Agent {
                cell: self.route->Some_0[moves as int],
                route: Some(self.route->Some_0.skip(moves as int)),
                remaining_nanos: (self.step_nanos - extra * elapsed) as u64,
                ..self
            }),
    {
        self.lemma_cadence(elapsed, parts, moves);
        self.lemma_ticks_add(elapsed, moves * parts, extra);
        let midway = self.ticks(elapsed, moves * parts);
        assert(extra * elapsed < parts * elapsed) by (nonlinear_arith)
            requires
                extra < parts,
                elapsed >= 1,
        ;
        midway.lemma_waits(elapsed, extra);
    }

    /// Arrival. An agent that stands on the last waypoint of its route, with
    /// its countdown at `parts` ticks of `elapsed` nanoseconds, keeps its
    /// route until the countdown runs out and has none after `parts` ticks;
    /// it does not move.
    pub proof fn lemma_arrival(self, elapsed: u64, parts: nat)
        requires
            parts >= 1,
            elapsed >= 1,
            self.remaining_nanos == parts * elapsed,
            self.route matches Some(cells) && cells.len() <= 1,
        ensures
            self.ticks(elapsed, (parts - 1) as nat).route == self.route,
            self.ticks(elapsed, parts) == (Agent { route: None, remaining_nanos: 0, ..self }),
    {
        let before = (parts - 1) as nat;
        assert(before * elapsed == parts * elapsed - elapsed) by (nonlinear_arith)
            requires
                before == parts - 1,
        ;
        self.lemma_waits(elapsed, before);
    }
}

/// Moves one agent along its route as `elapsed_nanos` pass: the agent made
/// up of the cell, the route and the countdown becomes what [`Agent::tick`]
/// says. Returns what the tick did. The goal is never changed.
pub fn move_along_path(
    elapsed_nanos: u64,
    map_pos: &mut MapPosition,
    target: &mut Target,
    moving: &mut Moving,
) -> (step: Step)
    ensures
        step == step_of(
            Moving::left_after(old(moving).remaining_nanos, elapsed_nanos),
            old(target).route(),
        ),
        Agent::of(*final(map_pos), *final(target), *final(moving)) == Agent::of(
            *old(map_pos),
            *old(target),
            *old(moving),
        ).tick(elapsed_nanos),
        final(target).position == old(target).position,
{
    if !moving.tick(elapsed_nanos) {
        return Step::Waiting;
    }
    let mut taken: Option<Vec<MapPosition>> = None;
    core::mem::swap(&mut target.path, &mut taken);
    match taken {
        Some(mut path) => {
            if path.len() > 1 {
                path.remove(0);
                *map_pos = path[0];
                assert(path@ =~= old(target).route()->Some_0.drop_first());
                target.path = Some(path);
                moving.rearm();
                Step::Advanced
            } else {
                Step::Arrived
            }
        },
        None => Step::Idle,
    }
}

} // verus!
