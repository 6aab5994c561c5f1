use maze_escape::clock::ElapsedTime;
use maze_escape::direction::Direction;
use maze_escape::gate::MoveGate;
use maze_escape::goal::locate_goal;
use maze_escape::grid::{Coordinate, Grid, Tile};
use maze_escape::random::RandomSource;
use maze_escape::session::{GameSession, Intents, MoveOutcome, SessionState, START_X, START_Y};

const NONE: Intents = Intents { up: false, down: false, left: false, right: false };

fn corridor() -> Grid {
    // paths: (1,1), (1,2), (1,3), (2,3), (3,3); the goal is (3,3)
    let mut grid = Grid::new(5, 5);
    for (x, y) in [(1, 1), (1, 2), (1, 3), (2, 3), (3, 3)] {
        assert!(grid.carve(x, y));
    }
    grid
}

fn count_paths(grid: &Grid) -> usize {
    let mut n = 0;
    for y in 0..grid.height() {
        for x in 0..grid.width() {
            if grid.tile(x, y) == Some(Tile::Path) {
                n += 1;
            }
        }
    }
    n
}

#[test]
fn session_begins_at_the_start_cell() {
    let session = GameSession::with_grid(corridor(), 5).unwrap();
    assert_eq!((START_X, START_Y), (1, 1));
    assert_eq!(session.player(), Coordinate { x: 1, y: 1 });
    assert_eq!(session.goal(), Coordinate { x: 3, y: 3 });
    assert_eq!(session.state(), SessionState::Playing);
    assert_eq!(session.started_at(), 5);
    assert_eq!(session.elapsed(), None);
    assert_eq!(session.grid().tile(2, 3), Some(Tile::Path));
}

#[test]
fn session_needs_a_path_at_the_start_cell() {
    let mut grid = Grid::new(5, 5);
    assert!(grid.carve(2, 2));
    assert!(GameSession::with_grid(grid, 0).is_none());
}

#[test]
fn move_into_a_wall_is_rejected() {
    let mut session = GameSession::with_grid(corridor(), 0).unwrap();
    assert_eq!(session.grid().tile(2, 1), Some(Tile::Wall));
    assert_eq!(session.apply_move(Direction::Right, 10), MoveOutcome::Rejected);
    assert_eq!(session.player(), Coordinate { x: 1, y: 1 });
    assert_eq!(session.state(), SessionState::Playing);
    assert_eq!(session.elapsed(), None);
    assert_eq!(session.apply_move(Direction::Left, 10), MoveOutcome::Rejected);
    assert_eq!(session.apply_move(Direction::Down, 10), MoveOutcome::Rejected);
    assert_eq!(session.player(), Coordinate { x: 1, y: 1 });
}

#[test]
fn move_onto_a_path_is_accepted() {
    let mut session = GameSession::with_grid(corridor(), 0).unwrap();
    assert_eq!(session.grid().tile(1, 2), Some(Tile::Path));
    assert_eq!(session.apply_move(Direction::Up, 10), MoveOutcome::Moved);
    assert_eq!(session.player(), Coordinate { x: 1, y: 2 });
    assert_eq!(session.state(), SessionState::Playing);
    assert_eq!(session.apply_move(Direction::Down, 20), MoveOutcome::Moved);
    assert_eq!(session.player(), Coordinate { x: 1, y: 1 });
}

#[test]
fn reaching_the_goal_wins_once_and_freezes_the_time() {
    let mut session = GameSession::with_grid(corridor(), 1_000).unwrap();
    assert_eq!(session.apply_move(Direction::Up, 1_100), MoveOutcome::Moved);
    assert_eq!(session.apply_move(Direction::Up, 1_200), MoveOutcome::Moved);
    assert_eq!(session.apply_move(Direction::Right, 1_300), MoveOutcome::Moved);
    assert_eq!(session.state(), SessionState::Playing);
    assert_eq!(session.elapsed(), None);
    assert_eq!(session.apply_move(Direction::Right, 63_050), MoveOutcome::Won);
    assert_eq!(session.state(), SessionState::Won);
    assert_eq!(session.player(), session.goal());
    assert_eq!(session.elapsed(), Some(ElapsedTime { seconds: 62, millis: 50 }));
    for (d, now) in [(Direction::Left, 70_000), (Direction::Down, 80_000), (Direction::Right, 90_000)] {
        assert_eq!(session.apply_move(d, now), MoveOutcome::Ignored);
        assert_eq!(session.player(), Coordinate { x: 3, y: 3 });
        assert_eq!(session.state(), SessionState::Won);
        assert_eq!(session.elapsed(), Some(ElapsedTime { seconds: 62, millis: 50 }));
    }
}

#[test]
fn clock_that_ran_backwards_counts_as_no_time() {
    let mut grid = Grid::new(5, 5);
    assert!(grid.carve(1, 1));
    assert!(grid.carve(1, 2));
    let mut session = GameSession::with_grid(grid, 500).unwrap();
    assert_eq!(session.apply_move(Direction::Up, 400), MoveOutcome::Won);
    assert_eq!(session.elapsed(), Some(ElapsedTime { seconds: 0, millis: 0 }));
}

#[test]
fn new_session_plays_on_a_perfect_maze() {
    let mut rng = RandomSource::from_seed(8);
    let session = GameSession::new(21, 21, &mut rng, 0);
    assert_eq!(session.state(), SessionState::Playing);
    assert_eq!(session.player(), Coordinate { x: 1, y: 1 });
    assert_eq!(session.goal(), Coordinate { x: 19, y: 19 });
    assert_eq!(session.goal(), locate_goal(session.grid()));
    assert_eq!(count_paths(session.grid()), 199);
    assert_eq!(session.elapsed(), None);
}

#[test]
fn fresh_session_is_seeded_by_the_operating_system() {
    let session = GameSession::new_fresh(9, 7, 3).ok().unwrap();
    assert_eq!(session.grid().width(), 9);
    assert_eq!(session.grid().height(), 7);
    assert_eq!(session.goal(), Coordinate { x: 7, y: 5 });
    assert_eq!(count_paths(session.grid()), 23);
}

#[test]
fn restart_begins_a_new_game_and_a_new_clock() {
    let mut rng = RandomSource::from_seed(21);
    let mut session = GameSession::new(3, 5, &mut rng, 0);
    // inside the ring there is one column: (1,1), (1,2), (1,3)
    assert_eq!(session.goal(), Coordinate { x: 1, y: 3 });
    assert_eq!(session.apply_move(Direction::Up, 100), MoveOutcome::Moved);
    assert_eq!(session.apply_move(Direction::Up, 2_500), MoveOutcome::Won);
    assert_eq!(session.elapsed(), Some(ElapsedTime { seconds: 2, millis: 500 }));
    session.restart(&mut rng, 10_000);
    assert_eq!(session.state(), SessionState::Playing);
    assert_eq!(session.player(), Coordinate { x: 1, y: 1 });
    assert_eq!(session.goal(), locate_goal(session.grid()));
    assert_eq!(session.started_at(), 10_000);
    assert_eq!(session.elapsed(), None);
    assert_eq!(session.grid().width(), 3);
    assert_eq!(session.grid().height(), 5);
    assert_eq!(count_paths(session.grid()), 3);
    assert_eq!(session.apply_move(Direction::Up, 10_400), MoveOutcome::Moved);
    assert_eq!(session.apply_move(Direction::Up, 11_234), MoveOutcome::Won);
    assert_eq!(session.elapsed(), Some(ElapsedTime { seconds: 1, millis: 234 }));
}

#[test]
fn restart_is_in_order_while_playing() {
    let mut rng = RandomSource::from_seed(2);
    let mut session = GameSession::with_grid(corridor(), 0).unwrap();
    assert_eq!(session.apply_move(Direction::Up, 10), MoveOutcome::Moved);
    session.restart(&mut rng, 50);
    assert_eq!(session.state(), SessionState::Playing);
    assert_eq!(session.player(), Coordinate { x: 1, y: 1 });
    assert_eq!(session.goal(), Coordinate { x: 3, y: 3 });
    assert_eq!(count_paths(session.grid()), 7);
    for x in 0..5 {
        assert_eq!(session.grid().tile(x, 0), Some(Tile::Wall));
        assert_eq!(session.grid().tile(x, 4), Some(Tile::Wall));
    }
}

#[test]
fn restart_with_a_fresh_source_begins_a_new_game() {
    let mut session = GameSession::with_grid(corridor(), 0).unwrap();
    assert_eq!(session.restart_fresh(900), Ok(()));
    assert_eq!(session.started_at(), 900);
    assert_eq!(session.player(), Coordinate { x: 1, y: 1 });
    assert_eq!(count_paths(session.grid()), 7);
}

#[test]
fn restarts_give_different_mazes() {
    let mut rng = RandomSource::from_seed(5);
    let mut session = GameSession::new(21, 21, &mut rng, 0);
    let mut first = Vec::new();
    for y in 0..21 {
        for x in 0..21 {
            first.push(session.grid().tile(x, y));
        }
    }
    let mut differs = false;
    for _ in 0..5 {
        session.restart(&mut rng, 0);
        let mut k = 0;
        for y in 0..21 {
            for x in 0..21 {
                if session.grid().tile(x, y) != first[k] {
                    differs = true;
                }
                k += 1;
            }
        }
    }
    assert!(differs);
}

#[test]
fn up_is_taken_before_down_before_left_before_right() {
    let all = Intents { up: true, down: true, left: true, right: true };
    assert_eq!(all.selected(), Some(Direction::Up));
    assert_eq!(Intents { up: false, ..all }.selected(), Some(Direction::Down));
    assert_eq!(Intents { up: false, down: false, ..all }.selected(), Some(Direction::Left));
    assert_eq!(Intents { right: true, ..NONE }.selected(), Some(Direction::Right));
    assert_eq!(NONE.selected(), None);
}

#[test]
fn tick_moves_only_when_the_gate_admits() {
    let mut session = GameSession::with_grid(corridor(), 0).unwrap();
    let mut gate = MoveGate::new(120);
    let up = Intents { up: true, ..NONE };
    assert_eq!(session.tick(&mut gate, 50, up, 50), MoveOutcome::Waiting);
    assert_eq!(session.tick(&mut gate, 50, up, 100), MoveOutcome::Waiting);
    assert_eq!(session.player(), Coordinate { x: 1, y: 1 });
    assert_eq!(session.tick(&mut gate, 50, up, 150), MoveOutcome::Moved);
    assert_eq!(session.player(), Coordinate { x: 1, y: 2 });
    assert_eq!(gate.elapsed(), 30);
    // a step is let through, but no direction is asked for
    assert_eq!(session.tick(&mut gate, 100, NONE, 250), MoveOutcome::Waiting);
    assert_eq!(gate.elapsed(), 10);
    assert_eq!(session.player(), Coordinate { x: 1, y: 2 });
    // up wins over right: (1,3) and not the wall at (2,2)
    let both = Intents { up: true, right: true, ..NONE };
    assert_eq!(session.tick(&mut gate, 120, both, 370), MoveOutcome::Moved);
    assert_eq!(session.player(), Coordinate { x: 1, y: 3 });
    assert_eq!(session.tick(&mut gate, 120, up, 490), MoveOutcome::Rejected);
    assert_eq!(session.player(), Coordinate { x: 1, y: 3 });
}

#[test]
fn tick_leaves_the_gate_alone_once_the_game_is_won() {
    let mut session = GameSession::with_grid(corridor(), 0).unwrap();
    let mut gate = MoveGate::new(100);
    let up = Intents { up: true, ..NONE };
    let right = Intents { right: true, ..NONE };
    assert_eq!(session.tick(&mut gate, 100, up, 100), MoveOutcome::Moved);
    assert_eq!(session.tick(&mut gate, 100, up, 200), MoveOutcome::Moved);
    assert_eq!(session.tick(&mut gate, 100, right, 300), MoveOutcome::Moved);
    assert_eq!(session.tick(&mut gate, 130, right, 430), MoveOutcome::Won);
    assert_eq!(gate.elapsed(), 30);
    assert_eq!(session.elapsed(), Some(ElapsedTime { seconds: 0, millis: 430 }));
    assert_eq!(session.tick(&mut gate, 500, up, 930), MoveOutcome::Ignored);
    assert_eq!(gate.elapsed(), 30);
    assert_eq!(session.state(), SessionState::Won);
}

#[test]
fn elapsed_time_splits_into_seconds_and_milliseconds() {
    assert_eq!(ElapsedTime::from_millis(0), ElapsedTime { seconds: 0, millis: 0 });
    assert_eq!(ElapsedTime::from_millis(999), ElapsedTime { seconds: 0, millis: 999 });
    assert_eq!(ElapsedTime::from_millis(1_000), ElapsedTime { seconds: 1, millis: 0 });
    assert_eq!(ElapsedTime::from_millis(83_007), ElapsedTime { seconds: 83, millis: 7 });
    assert_eq!(
        ElapsedTime::from_millis(u64::MAX),
        ElapsedTime { seconds: 18_446_744_073_709_551, millis: 615 }
    );
}

#[test]
fn elapsed_time_is_shown_with_three_digits_of_milliseconds() {
    assert_eq!(ElapsedTime::from_millis(0).text(), "0.000 seconds");
    assert_eq!(ElapsedTime::from_millis(1_050).text(), "1.050 seconds");
    assert_eq!(ElapsedTime::from_millis(83_007).text(), "83.007 seconds");
    assert_eq!(ElapsedTime::from_millis(12_345).text(), "12.345 seconds");
    assert_eq!(ElapsedTime::from_millis(600_999).text(), "600.999 seconds");
    assert_eq!(ElapsedTime { seconds: 3, millis: 1_234 }.text(), "3.1234 seconds");
    assert_eq!(
        ElapsedTime { seconds: 3, millis: 1_234 }.text(),
        format!("{}.{:03} seconds", 3, 1_234)
    );
    assert_eq!(
        ElapsedTime::from_millis(u64::MAX).text(),
        format!("{}.{:03} seconds", 18_446_744_073_709_551u64, 615)
    );
}
