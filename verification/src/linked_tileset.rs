//! A set of tiles described by their edges, each with its structure links.

use vstd::prelude::*;
use crate::direction::Rotation;
use crate::fixed_tile::{FixedTile, edge_features};
use crate::structure_links::{RelStructureLinks, links_of, turned, turned_items};
use crate::tile_features::Tile;

verus! {

/// The tiles of a game, each with the structure links worked out once, and
/// the starting tile fixed upright.
#[derive(Debug)]
pub struct TileSet {
    pub starting_tile: FixedTile,
    pub tiles: Vec<Tile>,
    /// The links of each tile, in the order of `tiles`.
    pub structures: Vec<RelStructureLinks>,
}

impl TileSet {
    /// Works out the links of every tile and fixes the starting tile upright;
    /// the starting tile must be one of the tiles.
    pub fn new(starting_tile: Tile, tiles: Vec<Tile>) -> (r: Self)
        requires
            tiles@.contains(starting_tile),
        ensures
            r.tiles@ == tiles@,
            r.structures@.len() == tiles@.len(),
            forall|i: int|
                0 <= i < tiles@.len() ==> (#[trigger] r.structures@[i]).wf()
                    && r.structures@[i].structures_view() == links_of(tiles@[i]).structures
                    && r.structures@[i].internal_view() == links_of(tiles@[i]).internal
                    && r.structures@[i].external_view() == links_of(tiles@[i]).external
                    && r.structures@[i].cloister_view() == links_of(tiles@[i]).cloister,
            edge_features(r.starting_tile.edges) == starting_tile.features.spec_features(),
            r.starting_tile.structure_links.structures_view() == links_of(starting_tile).structures,
            r.starting_tile.structure_links.internal_view() == links_of(starting_tile).internal.map_values(
                |e: (u8, usize)| (turned(e.0, Rotation::Rot0), e.1),
            ),
            r.starting_tile.structure_links.external_view() == links_of(starting_tile).external.map_values(
                |e: (usize, Seq<u8>)| (e.0, turned_items(e.1, Rotation::Rot0)),
            ),
            r.starting_tile.structure_links.cloister_view() == links_of(starting_tile).cloister,
            r.starting_tile.cloister == starting_tile.cloister,
            r.starting_tile.pennant == starting_tile.pennant,
            r.starting_tile.cities_connected == starting_tile.cities_connected,
            r.starting_tile.roads_connected == starting_tile.roads_connected,
            r.starting_tile.city_road == starting_tile.city_road,
    {
        let mut structures: Vec<RelStructureLinks> = Vec::new();
        let mut i: usize = 0;
        while i < tiles.len()
            invariant
                i <= tiles@.len(),
                structures@.len() == i,
                forall|k: int|
                    0 <= k < i ==> (#[trigger] structures@[k]).wf() && structures@[k].structures_view()
                        == links_of(tiles@[k]).structures && structures@[k].internal_view() == links_of(
                        tiles@[k],
                    ).internal && structures@[k].external_view() == links_of(tiles@[k]).external
                        && structures@[k].cloister_view() == links_of(tiles@[k]).cloister,
            decreases tiles@.len() - i,
        {
            structures.push(RelStructureLinks::new(&tiles[i]));
            i += 1;
        }
        let starting_links = RelStructureLinks::new(&starting_tile);
        let starting = starting_tile.fix_rotation(&Rotation::Rot0, &starting_links);
        TileSet { starting_tile: starting, tiles, structures }
    }
}

} // verus!
