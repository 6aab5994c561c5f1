//! The game session: the maze, the player, the goal, the clock, and the
//! two-state machine that moves, wins and restarts.

use crate::clock::{elapsed_between, ElapsedTime};
use crate::carving::carved_maze;
use crate::direction::Direction;
use crate::gate::{gate_admits, gate_carry, MoveGate};
use crate::generator::generate;
use crate::goal::{is_goal_of, is_interior_path, locate_goal};
use crate::grid::{is_rect, path_at, ring_is_wall, Coordinate, Grid, Rows};
use crate::maze::{is_perfect_maze, tree_edges};
use crate::random::{generator_after_draws, orders_of, GenerationError, RandomSource};
use vstd::prelude::*;

verus! {

/// The column of the cell in which every game starts.
pub const START_X: usize = 1;

/// The row of the cell in which every game starts.
pub const START_Y: usize = 1;

/// The state of a session.
#[derive(Clone, Copy, Debug, PartialEq, Eq, Structural)]
pub enum SessionState {
    /// The player is on the way.
    Playing,
    /// The player has reached the goal. Only a restart leads on.
    Won,
}

/// What became of one request to move.
#[derive(Clone, Copy, Debug, PartialEq, Eq, Structural)]
pub enum MoveOutcome {
    /// The game is won already: nothing changed.
    Ignored,
    /// No move was due: the timer let no step through, or no direction was
    /// asked for. Nothing changed.
    Waiting,
    /// The cell in that direction is a wall or outside the grid: nothing changed.
    Rejected,
    /// The player went one cell on.
    Moved,
    /// The player went one cell on, to the goal: the game is won.
    Won,
}

/// The directions that are asked for at one tick.
#[derive(Clone, Copy, Debug, PartialEq, Eq, Structural)]
pub struct Intents {
    pub up: bool,
    pub down: bool,
    pub left: bool,
    pub right: bool,
}

impl Intents {
    /// The one direction that is taken: the first that is asked for of up,
    /// down, left, right.
    pub open spec fn spec_selected(self) -> Option<Direction> {
        if self.up {
            Some(Direction::Up)
        } else if self.down {
            Some(Direction::Down)
        } else if self.left {
            Some(Direction::Left)
        } else if self.right {
            Some(Direction::Right)
        } else {
            None
        }
    }

    /// The one direction that is taken: the first that is asked for of up,
    /// down, left, right; `None` where none is asked for.
    pub fn selected(&self) -> (d: Option<Direction>)
        ensures
            d == self.spec_selected(),
    {
        if self.up {
            Some(Direction::Up)
        } else if self.down {
            Some(Direction::Down)
        } else if self.left {
            Some(Direction::Left)
        } else if self.right {
            Some(Direction::Right)
        } else {
            None
        }
    }
}

/// A session as the contracts see it.
pub struct SessionModel {
    /// The rows of the grid.
    pub rows: Rows,
    /// The number of columns of the grid.
    pub width: int,
    /// The number of rows of the grid.
    pub height: int,
    /// Where the player stands, `(x, y)`.
    pub player: (int, int),
    /// Where the goal is, `(x, y)`.
    pub goal: (int, int),
    /// Whether the game is on or won.
    pub state: SessionState,
    /// The reading of the caller's clock, in milliseconds, at which the game began.
    pub started_at: int,
    /// The milliseconds that the game took, once it is won.
    pub frozen: Option<int>,
}

impl SessionModel {
    /// The grid is a rectangle in a ring of walls, the player and the goal
    /// stand on paths, and a time is frozen exactly when the game is won,
    /// with the player on the goal.
    pub open spec fn valid(self) -> bool {
        &&& is_rect(self.rows, self.width, self.height)
        &&& ring_is_wall(self.rows, self.width, self.height)
        &&& path_at(self.rows, self.player.0, self.player.1)
        &&& path_at(self.rows, self.goal.0, self.goal.1)
        &&& 0 <= self.started_at
        &&& self.state == SessionState::Won <==> self.frozen is Some
        &&& self.state == SessionState::Won ==> self.player == self.goal
    }

    /// The cell one step from the player in the direction `d`.
    pub open spec fn target(self, d: Direction) -> (int, int) {
        (self.player.0 + d.dx(), self.player.1 + d.dy())
    }

    /// A move in the direction `d` is accepted: the game is on, and the cell
    /// one step that way lies in the grid and is a path.
    pub open spec fn accepts(self, d: Direction) -> bool {
        self.state == SessionState::Playing && path_at(self.rows, self.target(d).0, self.target(d).1)
    }

    /// The session after a request to move in the direction `d` at the clock
    /// reading `now`.
    pub open spec fn after_move(self, d: Direction, now: int) -> SessionModel {
        if !self.accepts(d) {
            self
        } else if self.target(d) == self.goal {
            SessionModel {
                player: self.target(d),
                state: SessionState::Won,
                frozen: Some(elapsed_between(self.started_at, now)),
                ..self
            }
        } else {
            SessionModel { player: self.target(d), ..self }
        }
    }

    /// What a request to move in the direction `d` is answered with.
    pub open spec fn outcome_of(self, d: Direction) -> MoveOutcome {
        if self.state == SessionState::Won {
            MoveOutcome::Ignored
        } else if !self.accepts(d) {
            MoveOutcome::Rejected
        } else if self.target(d) == self.goal {
            MoveOutcome::Won
        } else {
            MoveOutcome::Moved
        }
    }

    /// The session is the beginning of a game on its grid at the clock
    /// reading `now`: the player stands on the start cell, the goal is the one
    /// that the goal locator finds, and the clock starts at `now`.
    pub open spec fn is_fresh(self, now: int) -> bool {
        &&& self.state == SessionState::Playing
        &&& self.player == (START_X as int, START_Y as int)
        &&& is_goal_of(self.rows, self.width, self.height, self.goal.0, self.goal.1)
        &&& self.started_at == now
        &&& self.frozen is None
    }

    /// The grid is the maze that the carving walk makes from the start cell
    /// with the orders that are drawn from the generator `rng`.
    pub open spec fn on_maze_of(self, rng: rand::rngs::StdRng) -> bool {
        self.rows == carved_maze(
            self.width,
            self.height,
            START_X as int,
            START_Y as int,
            orders_of(rng),
        )
    }

    /// The generator `rng` as it is left when the maze of the session was
    /// carved with it: one order was drawn for each node.
    pub open spec fn generator_left(self, rng: rand::rngs::StdRng) -> rand::rngs::StdRng {
        generator_after_draws(
            rng,
            (tree_edges(self.rows, START_X as int, START_Y as int) + 1) as nat,
        )
    }

    /// The grid is a perfect maze around the start cell.
    pub open spec fn on_perfect_maze(self) -> bool {
        is_perfect_maze(
            self.rows,
            self.width,
            self.height,
            START_X as int,
            START_Y as int,
            tree_edges(self.rows, START_X as int, START_Y as int),
        )
    }
}

/// One game: a grid with the player and the goal on it.
pub struct GameSession {
    grid: Grid,
    player: Coordinate,
    goal: Coordinate,
    state: SessionState,
    started_at: u64,
    frozen: Option<u64>,
}

impl View for GameSession {
    type V = SessionModel;

    closed spec fn view(&self) -> SessionModel {
        SessionModel {
            rows: self.grid@,
            width: self.grid.spec_width(),
            height: self.grid.spec_height(),
            player: self.player.pos(),
            goal: self.goal.pos(),
            state: self.state,
            started_at: self.started_at as int,
            frozen: match self.frozen {
                Some(t) => Some(t as int),
                None => None,
            },
        }
    }
}

impl GameSession {
    /// The grid of the session.
    pub closed spec fn spec_grid(&self) -> Grid {
        self.grid
    }

    /// The session is in order: its grid is, its model shows that grid, and
    /// the model is valid.
    pub open spec fn wf(&self) -> bool {
        &&& self.spec_grid().wf()
        &&& self@.rows == self.spec_grid()@
        &&& self@.width == self.spec_grid().spec_width()
        &&& self@.height == self.spec_grid().spec_height()
        &&& self@.valid()
    }

    /// Begins a game on `grid` at the clock reading `now`, in milliseconds.
    /// The start cell has to be a path: on a grid where it is a wall there is
    /// no game, and `None` is returned.
    pub fn with_grid(grid: Grid, now: u64) -> (made: Option<GameSession>)
        requires
            grid.wf(),
        ensures
            made is Some <==> path_at(grid@, START_X as int, START_Y as int),
            made matches Some(session) ==> {
                &&& session.wf()
                &&& session.spec_grid() == grid
                &&& session@.is_fresh(now as int)
            },
    {
        if !grid.is_path(START_X, START_Y) {
            return None;
        }
        let goal = locate_goal(&grid);
        assert(is_interior_path(
            grid@,
            grid.spec_width(),
            grid.spec_height(),
            START_X as int,
            START_Y as int,
        ));
        Some(
            GameSession {
                grid,
                player: Coordinate { x: START_X, y: START_Y },
                goal,
                state: SessionState::Playing,
                started_at: now,
                frozen: None,
            },
        )
    }

    /// Begins a game on a newly generated maze of `width` by `height` cells at
    /// the clock reading `now`, in milliseconds.
    pub fn new(width: usize, height: usize, rng: &mut RandomSource, now: u64) -> (session: GameSession)
        requires
            3 <= width,
            3 <= height,
            width * height <= usize::MAX,
        ensures
            session.wf(),
            session@.width == width,
            session@.height == height,
            session@.is_fresh(now as int),
            session@.on_perfect_maze(),
            session@.on_maze_of(old(rng).generator()),
            final(rng).generator() == session@.generator_left(old(rng).generator()),
    {
        let maze = generate(width, height, Coordinate { x: START_X, y: START_Y }, rng);
        let goal = locate_goal(&maze.grid);
        assert(is_interior_path(
            maze.grid@,
            width as int,
            height as int,
            START_X as int,
            START_Y as int,
        ));
        GameSession {
            grid: maze.grid,
            player: Coordinate { x: START_X, y: START_Y },
            goal,
            state: SessionState::Playing,
            started_at: now,
            frozen: None,
        }
    }

    /// Begins a game as `new` does, with a random source that the operating
    /// system seeds. Where it gives no seed there is no maze and no session.
    pub fn new_fresh(width: usize, height: usize, now: u64) -> (made: Result<
        GameSession,
        GenerationError,
    >)
        requires
            3 <= width,
            3 <= height,
            width * height <= usize::MAX,
        ensures
            made matches Ok(session) ==> {
                &&& session.wf()
                &&& session@.width == width
                &&& session@.height == height
                &&& session@.is_fresh(now as int)
                &&& session@.on_perfect_maze()
            },
            made matches Err(e) ==> e == GenerationError::RandomSourceUnavailable,
    {
        GameSession::new_from(width, height, RandomSource::from_os(), now)
    }

    /// Begins a game as `new` does with the random source `source`, where
    /// there is one; where the attempt to make one failed, there is no maze
    /// and no session, and the error is handed on.
    pub fn new_from(
        width: usize,
        height: usize,
        source: Result<RandomSource, GenerationError>,
        now: u64,
    ) -> (made: Result<GameSession, GenerationError>)
        requires
            3 <= width,
            3 <= height,
            width * height <= usize::MAX,
        ensures
            match source {
                Ok(given) => {
                    &&& made matches Ok(session)
                    &&& session.wf()
                    &&& session@.width == width
                    &&& session@.height == height
                    &&& session@.is_fresh(now as int)
                    &&& session@.on_perfect_maze()
                    &&& session@.on_maze_of(given.generator())
                },
                Err(e) => made matches Err(f) && f == e,
            },
    {
        match source {
            Ok(mut rng) => Ok(GameSession::new(width, height, &mut rng, now)),
            Err(e) => Err(e),
        }
    }

    /// The grid.
    pub fn grid(&self) -> (grid: &Grid)
        ensures
            *grid == self.spec_grid(),
    {
        &self.grid
    }

    /// Where the player stands.
    pub fn player(&self) -> (at: Coordinate)
        ensures
            at.pos() == self@.player,
    {
        self.player
    }

    /// Where the goal is.
    pub fn goal(&self) -> (at: Coordinate)
        ensures
            at.pos() == self@.goal,
    {
        self.goal
    }

    /// Whether the game is on or won.
    pub fn state(&self) -> (state: SessionState)
        ensures
            state == self@.state,
    {
        self.state
    }

    /// The reading of the clock at which the game began.
    pub fn started_at(&self) -> (t: u64)
        ensures
            t == self@.started_at,
    {
        self.started_at
    }

    /// The time that the game took, once it is won.
    pub fn elapsed(&self) -> (time: Option<ElapsedTime>)
        ensures
            match (time, self@.frozen) {
                (Some(time), Some(total)) => time.seconds == total / 1000 && time.millis == total
                    % 1000,
                (None, None) => true,
                _ => false,
            },
    {
        match self.frozen {
            Some(total) => Some(ElapsedTime::from_millis(total)),
            None => None,
        }
    }

    /// Asks for one move of the player in the direction `direction` at the
    /// clock reading `now`, in milliseconds.
    ///
    /// While the game is on, the player goes to the cell one step that way
    /// where it lies in the grid and is a path; reaching the goal wins the
    /// game and freezes the time since it began. A move into a wall or out of
    /// the grid, and any move once the game is won, changes nothing.
    pub fn apply_move(&mut self, direction: Direction, now: u64) -> (outcome: MoveOutcome)
        requires
            old(self).wf(),
        ensures
            final(self).wf(),
            final(self).spec_grid() == old(self).spec_grid(),
            final(self)@ == old(self)@.after_move(direction, now as int),
            outcome == old(self)@.outcome_of(direction),
    {
        if self.state == SessionState::Won {
            return MoveOutcome::Ignored;
        }
        let target = match direction.step(self.player, self.grid.width(), self.grid.height()) {
            Some(target) => target,
            None => {
                return MoveOutcome::Rejected;
            },
        };
        if !self.grid.is_path(target.x, target.y) {
            return MoveOutcome::Rejected;
        }
        self.player = target;
        if target.x == self.goal.x && target.y == self.goal.y {
            self.state = SessionState::Won;
            self.frozen = Some(
                if now >= self.started_at {
                    now - self.started_at
                } else {
                    0
                },
            );
            MoveOutcome::Won
        } else {
            MoveOutcome::Moved
        }
    }

    /// One tick of the game: `delta` units of time have passed for `gate`,
    /// `intents` are the directions asked for, and `now` is the clock reading
    /// in milliseconds.
    ///
    /// Once the game is won nothing happens, and `gate` is not even ticked.
    /// While it is on, `gate` is ticked; where it lets a step through and a
    /// direction is asked for, the one selected is applied as a move.
    pub fn tick(&mut self, gate: &mut MoveGate, delta: u64, intents: Intents, now: u64) -> (outcome:
        MoveOutcome)
        requires
            old(self).wf(),
            old(gate).wf(),
        ensures
            final(self).wf(),
            final(gate).wf(),
            final(self).spec_grid() == old(self).spec_grid(),
            final(gate).spec_interval() == old(gate).spec_interval(),
            old(self)@.state == SessionState::Won ==> {
                &&& *final(gate) == *old(gate)
                &&& final(self)@ == old(self)@
                &&& outcome == MoveOutcome::Ignored
            },
            old(self)@.state == SessionState::Playing ==> {
                &&& final(gate).spec_elapsed() == gate_carry(
                    old(gate).spec_elapsed(),
                    old(gate).spec_interval(),
                    delta as int,
                )
                &&& match intents.spec_selected() {
                    Some(d) if gate_admits(
                        old(gate).spec_elapsed(),
                        old(gate).spec_interval(),
                        delta as int,
                    ) => {
                        &&& final(self)@ == old(self)@.after_move(d, now as int)
                        &&& outcome == old(self)@.outcome_of(d)
                    },
                    _ => final(self)@ == old(self)@ && outcome == MoveOutcome::Waiting,
                }
            },
    {
        if self.state == SessionState::Won {
            return MoveOutcome::Ignored;
        }
        if !gate.tick(delta) {
            return MoveOutcome::Waiting;
        }
        match intents.selected() {
            Some(d) => self.apply_move(d, now),
            None => MoveOutcome::Waiting,
        }
    }

    /// Begins a new game at the clock reading `now`, in milliseconds: a new
    /// maze of the same size is generated with `rng`, its goal is located, the
    /// player goes back to the start cell and the clock starts anew. A
    /// restart is in order in every state.
    pub fn restart(&mut self, rng: &mut RandomSource, now: u64)
        requires
            old(self).wf(),
        ensures
            final(self).wf(),
            final(self)@.width == old(self)@.width,
            final(self)@.height == old(self)@.height,
            final(self)@.is_fresh(now as int),
            final(self)@.on_perfect_maze(),
            final(self)@.on_maze_of(old(rng).generator()),
            final(rng).generator() == final(self)@.generator_left(old(rng).generator()),
    {
        let width = self.grid.width();
        let height = self.grid.height();
        let maze = generate(width, height, Coordinate { x: START_X, y: START_Y }, rng);
        let goal = locate_goal(&maze.grid);
        assert(is_interior_path(
            maze.grid@,
            width as int,
            height as int,
            START_X as int,
            START_Y as int,
        ));
        self.grid = maze.grid;
        self.goal = goal;
        self.player = Coordinate { x: START_X, y: START_Y };
        self.state = SessionState::Playing;
        self.started_at = now;
        self.frozen = None;
    }

    /// Begins a new game as `restart` does, with a random source that the
    /// operating system seeds. Where it gives no seed the session stays as it
    /// is and the error is returned.
    pub fn restart_fresh(&mut self, now: u64) -> (done: Result<(), GenerationError>)
        requires
            old(self).wf(),
        ensures
            final(self).wf(),
            final(self)@.width == old(self)@.width,
            final(self)@.height == old(self)@.height,
            done is Ok ==> final(self)@.is_fresh(now as int) && final(self)@.on_perfect_maze(),
            done matches Err(e) ==> e == GenerationError::RandomSourceUnavailable && final(self)@
                == old(self)@ && final(self).spec_grid() == old(self).spec_grid(),
    {
        self.restart_from(RandomSource::from_os(), now)
    }

    /// Begins a new game as `restart` does with the random source `source`,
    /// where there is one; where the attempt to make one failed, the session
    /// stays as it is and the error is handed on.
    pub fn restart_from(&mut self, source: Result<RandomSource, GenerationError>, now: u64) -> (done:
        Result<(), GenerationError>)
        requires
            old(self).wf(),
        ensures
            final(self).wf(),
            final(self)@.width == old(self)@.width,
            final(self)@.height == old(self)@.height,
            match source {
                Ok(given) => {
                    &&& done is Ok
                    &&& final(self)@.is_fresh(now as int)
                    &&& final(self)@.on_perfect_maze()
                    &&& final(self)@.on_maze_of(given.generator())
                },
                Err(e) => {
                    &&& done == Err::<(), GenerationError>(e)
                    &&& final(self)@ == old(self)@
                    &&& final(self).spec_grid() == old(self).spec_grid()
                },
            },
    {
        match source {
            Ok(mut rng) => {
                self.restart(&mut rng, now);
                Ok(())
            },
            Err(e) => Err(e),
        }
    }
}

/// A move keeps a session valid, and never touches the grid, the goal or the
/// start of the clock.
pub proof fn lemma_move_keeps_valid(m: SessionModel, d: Direction, now: int)
    requires
        m.valid(),
    ensures
        m.after_move(d, now).valid(),
        m.after_move(d, now).rows == m.rows,
        m.after_move(d, now).width == m.width,
        m.after_move(d, now).height == m.height,
        m.after_move(d, now).goal == m.goal,
        m.after_move(d, now).started_at == m.started_at,
{
}

/// A move that is not accepted changes nothing, and one that is accepted
/// takes the player exactly one step in its direction.
pub proof fn lemma_move_is_one_step(m: SessionModel, d: Direction, now: int)
    requires
        m.valid(),
        m.state == SessionState::Playing,
    ensures
        !path_at(m.rows, m.player.0 + d.dx(), m.player.1 + d.dy()) ==> m.after_move(d, now) == m
            && m.outcome_of(d) == MoveOutcome::Rejected,
        path_at(m.rows, m.player.0 + d.dx(), m.player.1 + d.dy()) ==> m.after_move(d, now).player
            == (m.player.0 + d.dx(), m.player.1 + d.dy()),
{
}

/// Winning happens once. The move that takes the player onto the goal turns
/// a game that is on into one that is won and freezes the time since the
/// clock was started; every move after it is ignored and leaves the session,
/// the frozen time with it, as it is.
pub proof fn lemma_win_is_final(m: SessionModel, d: Direction, now: int, later: Direction, then: int)
    requires
        m.valid(),
        m.accepts(d),
        m.target(d) == m.goal,
    ensures
        m.state == SessionState::Playing,
        m.outcome_of(d) == MoveOutcome::Won,
        m.after_move(d, now).state == SessionState::Won,
        m.after_move(d, now).player == m.goal,
        m.after_move(d, now).frozen == Some(elapsed_between(m.started_at, now)),
        m.after_move(d, now).outcome_of(later) == MoveOutcome::Ignored,
        m.after_move(d, now).after_move(later, then) == m.after_move(d, now),
{
}

/// The game is won by reaching the goal and in no other way: a move leaves a
/// game won exactly if it was won before or the move was accepted and led
/// onto the goal.
pub proof fn lemma_won_only_on_goal(m: SessionModel, d: Direction, now: int)
    requires
        m.valid(),
    ensures
        m.after_move(d, now).state == SessionState::Won <==> m.state == SessionState::Won || (
        m.accepts(d) && m.target(d) == m.goal),
{
}

/// The time of a win counts from the last start. In a game that began at the
/// clock reading `began`, by a first start or by a restart, the time frozen
/// by a winning move at `now` is the time from `began` to `now`.
pub proof fn lemma_time_counts_from_start(m: SessionModel, began: int, d: Direction, now: int)
    requires
        m.valid(),
        m.started_at == began,
        m.accepts(d),
        m.target(d) == m.goal,
    ensures
        m.after_move(d, now).frozen == Some(elapsed_between(began, now)),
        began <= now ==> m.after_move(d, now).frozen == Some(now - began),
{
}

} // verus!
