//! A constrained grid-collapse library: a fixed square grid of cells, each
//! holding a bitmask of up to 8 candidate tile types, is driven to a terminal
//! state by repeatedly collapsing a minimum-entropy cell to a single randomly
//! chosen candidate and propagating the adjacency constraint outward through
//! 4-connected neighbors until a fixed point.

pub mod bits;
mod rng;
pub mod tile;
pub mod tile_map;

pub use tile::Tile;
pub use tile_map::TileMap;
