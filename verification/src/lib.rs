//! A verified Carcassonne rules engine: tile pixels, the growing board map,
//! flood filling, structure detection and scoring, and move generation.

pub mod tile_pixel;
pub mod direction;
pub mod rel_direction;
pub mod index;
pub mod tilepixel_fits;
pub mod tile;
pub mod map;
pub mod flood_fill;
pub mod random;
pub mod multi_hashset;
pub mod game;
pub mod tileset;
pub mod structures;
pub mod engines;
pub mod session;
pub mod tile_features;
pub mod small_tables;
pub mod structure_links;
pub mod playout;
pub mod fixed_tile;
pub mod linked_tileset;
