//! Board logic for a tactical grid game: a bijective position/occupant index,
//! an A* pathfinder, a bounded reachability flood and a proximity heat map.
pub mod coord;
pub mod heat_map;
pub mod path;
pub mod ranking;
pub mod selection;
pub mod tile_map;
pub mod spread;
pub mod village_map;

pub use coord::{king_moves, rook_moves, Coord};
pub use tile_map::{Overwritten, Rect, TileMap};
pub use village_map::{Passage, Terrain, VillageMap};
