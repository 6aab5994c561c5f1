use maze_escape::direction::Direction;
use maze_escape::generator::generate;
use maze_escape::grid::{Coordinate, Grid};
use maze_escape::random::{GenerationError, RandomSource};
use maze_escape::session::{GameSession, MoveOutcome, SessionState};
use rand::rngs::StdRng;
use rand::SeedableRng;
use std::num::NonZeroU32;

fn failure() -> rand::Error {
    rand::Error::from(NonZeroU32::new(rand::Error::CUSTOM_START).unwrap())
}

fn tiles(grid: &Grid) -> Vec<bool> {
    let mut all = Vec::new();
    for y in 0..grid.height() {
        for x in 0..grid.width() {
            all.push(grid.is_path(x, y));
        }
    }
    all
}

fn corridor() -> Grid {
    let mut grid = Grid::new(5, 5);
    for (x, y) in [(1, 1), (1, 2), (1, 3), (2, 3), (3, 3)] {
        assert!(grid.carve(x, y));
    }
    grid
}

#[test]
fn failed_seeding_gives_no_random_source() {
    let made = RandomSource::from_seeding(Err(failure()));
    assert_eq!(made.err(), Some(GenerationError::RandomSourceUnavailable));
}

#[test]
fn source_draws_from_the_generator_it_was_made_of() {
    for seed in [0u64, 1, 42, u64::MAX] {
        let mut given = RandomSource::from_seeding(Ok(StdRng::seed_from_u64(seed))).ok().unwrap();
        let mut seeded = RandomSource::from_seed(seed);
        for _ in 0..20 {
            assert_eq!(given.shuffled_directions(), seeded.shuffled_directions());
        }
        let a = generate(21, 21, Coordinate { x: 1, y: 1 }, &mut given);
        let b = generate(21, 21, Coordinate { x: 1, y: 1 }, &mut seeded);
        assert_eq!(tiles(&a.grid), tiles(&b.grid));
    }
}

#[test]
fn sources_of_one_seed_give_the_same_orders() {
    let mut a = RandomSource::from_seed(1234);
    let mut b = RandomSource::from_seed(1234);
    for _ in 0..100 {
        assert_eq!(a.shuffled_directions(), b.shuffled_directions());
    }
}

#[test]
fn sources_of_different_seeds_give_different_orders() {
    let mut a = RandomSource::from_seed(1);
    let mut b = RandomSource::from_seed(2);
    let mut differs = false;
    for _ in 0..100 {
        if a.shuffled_directions() != b.shuffled_directions() {
            differs = true;
        }
    }
    assert!(differs);
}

#[test]
fn no_session_begins_without_a_random_source() {
    let made = GameSession::new_from(21, 21, Err(GenerationError::RandomSourceUnavailable), 5);
    assert_eq!(made.err(), Some(GenerationError::RandomSourceUnavailable));
}

#[test]
fn session_begins_with_the_random_source_given() {
    let made = GameSession::new_from(9, 9, Ok(RandomSource::from_seed(6)), 5);
    let session = made.ok().unwrap();
    let mut rng = RandomSource::from_seed(6);
    let same = GameSession::new(9, 9, &mut rng, 5);
    assert_eq!(tiles(session.grid()), tiles(same.grid()));
    assert_eq!(session.state(), SessionState::Playing);
    assert_eq!(session.player(), Coordinate { x: 1, y: 1 });
    assert_eq!(session.goal(), Coordinate { x: 7, y: 7 });
    assert_eq!(session.started_at(), 5);
    assert_eq!(session.elapsed(), None);
}

#[test]
fn restart_without_a_random_source_leaves_the_session_as_it_is() {
    let mut session = GameSession::with_grid(corridor(), 100).unwrap();
    assert_eq!(session.apply_move(Direction::Up, 150), MoveOutcome::Moved);
    let before = tiles(session.grid());
    let done = session.restart_from(Err(GenerationError::RandomSourceUnavailable), 900);
    assert_eq!(done, Err(GenerationError::RandomSourceUnavailable));
    assert_eq!(tiles(session.grid()), before);
    assert_eq!(session.player(), Coordinate { x: 1, y: 2 });
    assert_eq!(session.goal(), Coordinate { x: 3, y: 3 });
    assert_eq!(session.state(), SessionState::Playing);
    assert_eq!(session.started_at(), 100);
    assert_eq!(session.elapsed(), None);
}

#[test]
fn restart_of_a_won_game_without_a_random_source_keeps_it_won() {
    let mut grid = Grid::new(5, 5);
    assert!(grid.carve(1, 1));
    assert!(grid.carve(1, 2));
    let mut session = GameSession::with_grid(grid, 0).unwrap();
    assert_eq!(session.apply_move(Direction::Up, 1_500), MoveOutcome::Won);
    let frozen = session.elapsed();
    let done = session.restart_from(Err(GenerationError::RandomSourceUnavailable), 2_000);
    assert!(done.is_err());
    assert_eq!(session.state(), SessionState::Won);
    assert_eq!(session.elapsed(), frozen);
    assert_eq!(session.player(), Coordinate { x: 1, y: 2 });
}

#[test]
fn restart_with_the_random_source_given_begins_a_new_game() {
    let mut session = GameSession::with_grid(corridor(), 100).unwrap();
    assert_eq!(session.apply_move(Direction::Up, 150), MoveOutcome::Moved);
    let done = session.restart_from(Ok(RandomSource::from_seed(3)), 900);
    assert_eq!(done, Ok(()));
    let mut rng = RandomSource::from_seed(3);
    let same = GameSession::new(5, 5, &mut rng, 900);
    assert_eq!(tiles(session.grid()), tiles(same.grid()));
    assert_eq!(session.player(), Coordinate { x: 1, y: 1 });
    assert_eq!(session.goal(), Coordinate { x: 3, y: 3 });
    assert_eq!(session.state(), SessionState::Playing);
    assert_eq!(session.started_at(), 900);
}
