use vstd::prelude::*;
use crate::direction::{Rotation, rot_index};
use crate::tile_pixel::{TILE_SIZE, TilePixel};

verus! {

/// Identifier of a tile kind within a game's tile set.
#[derive(Debug, PartialEq, Eq, Structural, Hash, Clone, Copy)]
pub struct TileId(pub u32);

/// A square tile picture, indexed `[row][column]`.
#[derive(Clone, Copy, Debug)]
pub struct Tile(pub [[TilePixel; TILE_SIZE]; TILE_SIZE]);

/// The pixel seen at row `y`, column `x` of tile `t` turned by `r` quarter turns.
pub open spec fn tile_at(t: Tile, y: int, x: int, r: Rotation) -> TilePixel {
    match r {
        Rotation::Rot0 => t.0[y][x],
        Rotation::Rot1 => t.0[x][4 - y],
        Rotation::Rot2 => t.0[4 - y][4 - x],
        Rotation::Rot3 => t.0[4 - x][y],
    }
}

/// The next rotation, a quarter turn further clockwise.
pub open spec fn next_rotation(r: Rotation) -> Rotation {
    match r {
        Rotation::Rot0 => Rotation::Rot1,
        Rotation::Rot1 => Rotation::Rot2,
        Rotation::Rot2 => Rotation::Rot3,
        Rotation::Rot3 => Rotation::Rot0,
    }
}

impl Tile {
    pub fn new(content: [[TilePixel; TILE_SIZE]; TILE_SIZE]) -> (r: Self)
        ensures
            r.0 == content,
    {
        Tile(content)
    }

    /// The empty tile, all pixels `Nothing`.
    pub fn nothing() -> (r: Self)
        ensures
            forall|y: int, x: int|
                0 <= y < 5 && 0 <= x < 5 ==> #[trigger] r.0[y][x] == TilePixel::Nothing,
    {
        let row = [TilePixel::Nothing; TILE_SIZE];
        Tile([row; TILE_SIZE])
    }

    /// The pixel at row `y`, column `x` once the tile is turned by `rotation`.
    pub fn pixel(&self, y: usize, x: usize, rotation: Rotation) -> (r: TilePixel)
        requires
            y < TILE_SIZE,
            x < TILE_SIZE,
        ensures
            r == tile_at(*self, y as int, x as int, rotation),
    {
        match rotation {
            Rotation::Rot0 => self.0[y][x],
            Rotation::Rot1 => self.0[x][TILE_SIZE - 1 - y],
            Rotation::Rot2 => self.0[TILE_SIZE - 1 - y][TILE_SIZE - 1 - x],
            Rotation::Rot3 => self.0[TILE_SIZE - 1 - x][y],
        }
    }
}

/// Each rotation is a quarter turn of the one before it, and four of them
/// bring the picture back.
pub proof fn lemma_rotation_is_quarter_turn(t: Tile, r: Rotation, y: int, x: int)
    requires
        0 <= y < 5,
        0 <= x < 5,
    ensures
        tile_at(t, y, x, next_rotation(r)) == tile_at(t, x, 4 - y, r),
        next_rotation(next_rotation(next_rotation(next_rotation(r)))) == r,
        rot_index(next_rotation(r)) == (rot_index(r) + 1) % 4,
{
}

} // verus!
