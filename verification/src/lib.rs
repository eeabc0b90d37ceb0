//! Verified core of a swarm simulation game: the quad tree navigation mesh and its
//! pixel cache, flood fills over the board, marching squares contour tracing and
//! the small rule tables of the game.

pub mod qtree;
pub mod dijkstra;
pub mod marching_squares;
pub mod shape;
pub mod game;
pub mod agent;
pub mod text;
pub mod vfs;
pub mod ui;
pub mod maze;
pub mod iterative_maze;
pub mod fog;
pub mod spawner;
pub mod boards;
pub mod tick;
pub mod rooms;
pub mod bt_source;
pub mod xor128;
pub mod raycast;
