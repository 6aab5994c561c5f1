use maze_escape::direction::Direction;
use maze_escape::generator::{generate, Maze};
use maze_escape::grid::{Coordinate, Grid, Tile};
use maze_escape::random::RandomSource;

fn maze_of(width: usize, height: usize, seed: u64) -> Maze {
    let mut rng = RandomSource::from_seed(seed);
    generate(width, height, Coordinate { x: 1, y: 1 }, &mut rng)
}

fn is_path(grid: &Grid, x: usize, y: usize) -> bool {
    grid.tile(x, y) == Some(Tile::Path)
}

fn count_paths(grid: &Grid) -> usize {
    let mut n = 0;
    for y in 0..grid.height() {
        for x in 0..grid.width() {
            if is_path(grid, x, y) {
                n += 1;
            }
        }
    }
    n
}

fn flood_fill(grid: &Grid, start: Coordinate) -> Vec<Vec<bool>> {
    let mut seen = vec![vec![false; grid.width()]; grid.height()];
    let mut todo = vec![start];
    seen[start.y][start.x] = true;
    while let Some(cell) = todo.pop() {
        for d in [Direction::Up, Direction::Down, Direction::Left, Direction::Right] {
            if let Some(next) = d.step(cell, grid.width(), grid.height()) {
                if is_path(grid, next.x, next.y) && !seen[next.y][next.x] {
                    seen[next.y][next.x] = true;
                    todo.push(next);
                }
            }
        }
    }
    seen
}

fn same_tiles(a: &Grid, b: &Grid) -> bool {
    if a.width() != b.width() || a.height() != b.height() {
        return false;
    }
    for y in 0..a.height() {
        for x in 0..a.width() {
            if a.tile(x, y) != b.tile(x, y) {
                return false;
            }
        }
    }
    true
}

#[test]
fn generated_grid_has_the_size_asked_for() {
    let maze = maze_of(21, 15, 3);
    assert_eq!(maze.grid.width(), 21);
    assert_eq!(maze.grid.height(), 15);
    assert_eq!(maze.start, Coordinate { x: 1, y: 1 });
    assert_eq!(maze.grid.tile(21, 0), None);
    assert_eq!(maze.grid.tile(0, 15), None);
}

#[test]
fn boundary_of_every_generated_grid_is_wall() {
    for seed in 0..20u64 {
        for (width, height) in [(21usize, 21usize), (5, 5), (7, 13), (3, 3), (6, 8)] {
            let maze = maze_of(width, height, seed);
            for x in 0..width {
                assert_eq!(maze.grid.tile(x, 0), Some(Tile::Wall));
                assert_eq!(maze.grid.tile(x, height - 1), Some(Tile::Wall));
            }
            for y in 0..height {
                assert_eq!(maze.grid.tile(0, y), Some(Tile::Wall));
                assert_eq!(maze.grid.tile(width - 1, y), Some(Tile::Wall));
            }
        }
    }
}

#[test]
fn flood_fill_from_start_visits_exactly_the_paths() {
    for seed in 0..20u64 {
        let maze = maze_of(21, 21, seed);
        let seen = flood_fill(&maze.grid, maze.start);
        for y in 0..21 {
            for x in 0..21 {
                assert_eq!(seen[y][x], is_path(&maze.grid, x, y));
            }
        }
    }
}

#[test]
fn path_cells_count_as_a_tree() {
    for seed in 0..20u64 {
        let maze = maze_of(21, 21, seed);
        let mut nodes = 0;
        let mut passages = 0;
        for y in 0..21 {
            for x in 0..21 {
                if is_path(&maze.grid, x, y) {
                    if x % 2 == 1 && y % 2 == 1 {
                        nodes += 1;
                    } else {
                        passages += 1;
                    }
                }
            }
        }
        assert_eq!(nodes, maze.carves + 1);
        assert_eq!(passages, maze.carves);
        assert_eq!(count_paths(&maze.grid), 1 + 2 * maze.carves);
    }
}

#[test]
fn maze_of_21_by_21_has_100_nodes_and_99_passages() {
    let maze = maze_of(21, 21, 11);
    assert_eq!(maze.carves, 99);
    assert_eq!(count_paths(&maze.grid), 199);
}

#[test]
fn every_odd_interior_cell_is_a_path() {
    for seed in 0..10u64 {
        let maze = maze_of(21, 21, seed);
        for y in (1..20).step_by(2) {
            for x in (1..20).step_by(2) {
                assert!(is_path(&maze.grid, x, y));
            }
        }
        for y in (2..20).step_by(2) {
            for x in (2..20).step_by(2) {
                assert_eq!(maze.grid.tile(x, y), Some(Tile::Wall));
            }
        }
    }
}

#[test]
fn every_passage_joins_two_nodes() {
    let maze = maze_of(21, 21, 5);
    for y in 1..20usize {
        for x in 1..20usize {
            if is_path(&maze.grid, x, y) {
                if x % 2 == 0 {
                    assert!(y % 2 == 1);
                    assert!(is_path(&maze.grid, x - 1, y) && is_path(&maze.grid, x + 1, y));
                } else if y % 2 == 0 {
                    assert!(is_path(&maze.grid, x, y - 1) && is_path(&maze.grid, x, y + 1));
                }
            }
        }
    }
}

#[test]
fn smallest_grid_holds_one_path() {
    let maze = maze_of(3, 3, 1);
    assert_eq!(maze.carves, 0);
    assert_eq!(count_paths(&maze.grid), 1);
    assert_eq!(maze.grid.tile(1, 1), Some(Tile::Path));
}

#[test]
fn grid_of_5_by_5_is_a_tree_of_four_nodes() {
    for seed in 0..10u64 {
        let maze = maze_of(5, 5, seed);
        assert_eq!(maze.carves, 3);
        assert_eq!(count_paths(&maze.grid), 7);
        assert_eq!(maze.grid.tile(2, 2), Some(Tile::Wall));
    }
}

#[test]
fn carving_from_another_start_keeps_to_its_lattice() {
    let mut rng = RandomSource::from_seed(9);
    let maze = generate(8, 8, Coordinate { x: 2, y: 2 }, &mut rng);
    // nodes are the even cells inside the ring: 2, 4, 6 in both axes
    assert_eq!(maze.carves, 8);
    assert_eq!(count_paths(&maze.grid), 17);
    for y in [2usize, 4, 6] {
        for x in [2usize, 4, 6] {
            assert_eq!(maze.grid.tile(x, y), Some(Tile::Path));
        }
    }
    let seen = flood_fill(&maze.grid, maze.start);
    for y in 0..8 {
        for x in 0..8 {
            assert_eq!(seen[y][x], is_path(&maze.grid, x, y));
        }
    }
}

#[test]
fn same_seed_gives_the_same_maze() {
    let a = maze_of(21, 21, 42);
    let b = maze_of(21, 21, 42);
    assert!(same_tiles(&a.grid, &b.grid));
}

#[test]
fn different_seeds_give_different_mazes() {
    let first = maze_of(21, 21, 0);
    let mut differs = false;
    for seed in 1..10u64 {
        if !same_tiles(&first.grid, &maze_of(21, 21, seed).grid) {
            differs = true;
        }
    }
    assert!(differs);
}

#[test]
fn shuffled_directions_are_a_permutation_and_vary() {
    let mut rng = RandomSource::from_seed(1);
    let unshuffled = vec![Direction::Right, Direction::Left, Direction::Up, Direction::Down];
    let mut moved = false;
    for _ in 0..50 {
        let order = rng.shuffled_directions();
        assert_eq!(order.len(), 4);
        for d in [Direction::Up, Direction::Down, Direction::Left, Direction::Right] {
            assert_eq!(order.iter().filter(|o| **o == d).count(), 1);
        }
        if order != unshuffled {
            moved = true;
        }
    }
    assert!(moved);
}

#[test]
fn operating_system_gives_a_random_source() {
    let made = RandomSource::from_os();
    assert!(made.is_ok());
    let mut rng = made.ok().unwrap();
    let maze = generate(9, 9, Coordinate { x: 1, y: 1 }, &mut rng);
    assert_eq!(maze.carves, 15);
}

#[test]
fn grid_starts_as_walls_and_carves_only_inside_the_ring() {
    let mut grid = Grid::new(5, 4);
    for y in 0..4 {
        for x in 0..5 {
            assert_eq!(grid.tile(x, y), Some(Tile::Wall));
            assert!(!grid.is_path(x, y));
        }
    }
    assert!(!grid.carve(0, 1));
    assert!(!grid.carve(4, 1));
    assert!(!grid.carve(1, 0));
    assert!(!grid.carve(1, 3));
    assert!(!grid.carve(7, 7));
    assert_eq!(count_paths(&grid), 0);
    assert!(grid.carve(3, 2));
    assert!(grid.is_path(3, 2));
    assert_eq!(grid.tile(3, 2), Some(Tile::Path));
    assert_eq!(count_paths(&grid), 1);
    assert!(!grid.is_path(5, 2));
    assert_eq!(grid.tile(3, 4), None);
}

#[test]
fn step_stays_inside_the_rectangle() {
    let at = Coordinate { x: 0, y: 0 };
    assert_eq!(Direction::Left.step(at, 5, 5), None);
    assert_eq!(Direction::Down.step(at, 5, 5), None);
    assert_eq!(Direction::Up.step(at, 5, 5), Some(Coordinate { x: 0, y: 1 }));
    assert_eq!(Direction::Right.step(at, 5, 5), Some(Coordinate { x: 1, y: 0 }));
    let corner = Coordinate { x: 4, y: 4 };
    assert_eq!(Direction::Right.step(corner, 5, 5), None);
    assert_eq!(Direction::Up.step(corner, 5, 5), None);
    assert_eq!(Direction::Left.step(corner, 5, 5), Some(Coordinate { x: 3, y: 4 }));
    assert_eq!(Direction::Down.step(corner, 5, 5), Some(Coordinate { x: 4, y: 3 }));
    let far = Coordinate { x: usize::MAX, y: usize::MAX };
    assert_eq!(Direction::Right.step(far, 5, 5), None);
    assert_eq!(Direction::Up.step(far, 5, 5), None);
    assert_eq!(Direction::Left.step(far, 5, 5), None);
    assert_eq!(Direction::Left.step(Coordinate { x: 5, y: 2 }, 5, 5), Some(Coordinate { x: 4, y: 2 }));
}

fn count_routes(grid: &Grid, at: Coordinate, to: Coordinate, seen: &mut Vec<Vec<bool>>) -> usize {
    if at == to {
        return 1;
    }
    seen[at.y][at.x] = true;
    let mut found = 0;
    for d in [Direction::Up, Direction::Down, Direction::Left, Direction::Right] {
        if let Some(next) = d.step(at, grid.width(), grid.height()) {
            if is_path(grid, next.x, next.y) && !seen[next.y][next.x] {
                found += count_routes(grid, next, to, seen);
            }
        }
    }
    seen[at.y][at.x] = false;
    found
}

#[test]
fn neighbouring_paths_are_one_fewer_than_paths() {
    for seed in 0..20u64 {
        let maze = maze_of(21, 21, seed);
        let mut pairs = 0;
        for y in 0..21 {
            for x in 0..21 {
                if is_path(&maze.grid, x, y) {
                    if is_path(&maze.grid, x + 1, y) {
                        pairs += 1;
                    }
                    if is_path(&maze.grid, x, y + 1) {
                        pairs += 1;
                    }
                }
            }
        }
        assert_eq!(pairs, 198);
        assert_eq!(pairs, count_paths(&maze.grid) - 1);
        assert_eq!(pairs, 2 * maze.carves);
    }
}

#[test]
fn one_route_joins_any_two_paths() {
    for seed in 0..5u64 {
        let maze = maze_of(9, 9, seed);
        let mut paths = Vec::new();
        for y in 0..9 {
            for x in 0..9 {
                if is_path(&maze.grid, x, y) {
                    paths.push(Coordinate { x, y });
                }
            }
        }
        for a in paths.iter() {
            for b in paths.iter() {
                let mut seen = vec![vec![false; 9]; 9];
                assert_eq!(count_routes(&maze.grid, *a, *b, &mut seen), 1);
            }
        }
    }
}

#[test]
fn open_square_has_more_than_one_route() {
    // the counting of routes itself: a ring of paths joins two cells twice
    let mut grid = Grid::new(5, 5);
    for (x, y) in [(1, 1), (2, 1), (3, 1), (1, 2), (3, 2), (1, 3), (2, 3), (3, 3)] {
        assert!(grid.carve(x, y));
    }
    let mut seen = vec![vec![false; 5]; 5];
    let found = count_routes(&grid, Coordinate { x: 1, y: 1 }, Coordinate { x: 3, y: 3 }, &mut seen);
    assert_eq!(found, 2);
}

#[test]
fn number_of_carves_is_decided_by_size_and_start() {
    for seed in 0..10u64 {
        let mut rng = RandomSource::from_seed(seed);
        // lattice columns 2, 4, 6 and lattice rows 1, 3: six nodes
        let maze = generate(8, 6, Coordinate { x: 2, y: 1 }, &mut rng);
        assert_eq!(maze.carves, 5);
        assert_eq!(count_paths(&maze.grid), 11);
        // columns 1, 3, ..., 19 and rows 1, 3, 5: thirty nodes
        let wide = generate(21, 7, Coordinate { x: 1, y: 1 }, &mut rng);
        assert_eq!(wide.carves, 29);
        assert_eq!(count_paths(&wide.grid), 59);
    }
}
