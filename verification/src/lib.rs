//! Route search and step-by-step movement for agents on a tile map.
//!
//! The crate has three layers. A [`TileIndex`] merges every tile that sits on
//! a grid cell into one record per cell. [`find_path`] searches that index
//! for a cheapest four-connected route between two cells. [`move_along_path`]
//! consumes such a route one waypoint at a time, driven by a countdown.
pub mod frontier;
pub mod laws;
pub mod movement;
pub mod position;
pub mod route;
pub mod search;
pub mod tiles;

pub use frontier::{Frontier, Node};
pub use movement::{move_along_path, Agent, Moving, Step, Target, NANOS_PER_SECOND};
pub use position::{
    manhattan_distance, map_to_world_coordinates, neighbors, MapPosition, MapSize, TILE_SIZE,
};
pub use search::find_path;
pub use tiles::{build_tile_lookup, get_walkable_cost, Tile, TileIndex, TileRecord, MIN_WALK_COST};
