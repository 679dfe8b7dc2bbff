//! Procedural generator for connected, randomized tile maps.
//!
//! A map is a bounded grid of cells. Generation draws dimensions and a wall
//! density at random, fills the interior, scatters a few monsters, and then
//! runs a weighted-random path search that may carve extra floor cells while
//! it explores. A found path is simplified and re-carved so that every
//! returned map has a corridor of non-wall cells from the start marker to the
//! exit marker.

pub mod codec;
pub mod game;
pub mod grid;
pub mod mapgen;
pub mod monster;
pub mod optimize;
pub mod party;
pub mod path;
pub mod player;
mod rng;
pub mod search;

pub use game::Game;
pub use game::MoveOutcome;
pub use grid::Cell;
pub use grid::Grid;
pub use mapgen::generate_random_map;
pub use mapgen::generate_random_map_with;
pub use mapgen::GenError;
pub use optimize::optimize_path;
pub use path::Coord;
pub use search::a_star_random_path;
pub use search::random_neighbor;
pub use search::SearchTables;
