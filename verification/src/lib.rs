//! Maze escape: a perfect-maze generator and the game session that is played on it.
//!
//! The crate is organised leaves first. [`grid`] holds the tile grid and its
//! mathematical model, [`direction`] the four directions of movement,
//! [`maze`] the statements of what a maze is and [`routes`] the statement
//! that its paths hold no cycle. [`random`] is the boundary to the random
//! number generator, [`carving`] says which maze the orders drawn from it
//! give, [`generator`] carves that maze and [`goal`] picks the goal cell.
//! [`gate`] rate-limits moves, [`clock`] splits and shows the time a game
//! took, and [`session`] is the state machine of one game.

pub mod carving;
pub mod clock;
pub mod direction;
pub mod gate;
pub mod generator;
pub mod goal;
pub mod grid;
pub mod maze;
pub mod random;
pub mod routes;
pub mod session;
