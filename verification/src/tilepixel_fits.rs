use vstd::prelude::*;
use crate::tile_pixel::{TilePixel, spec_fits};

verus! {

/// The edge-matching rule as a trait of its own.
pub trait TilePixelFits {
    fn fits(&self, other: &TilePixel) -> bool;
}

impl TilePixelFits for TilePixel {
    fn fits(&self, other: &TilePixel) -> (r: bool)
        ensures
            r == spec_fits(*self, *other),
    {
        *self == TilePixel::Nothing || *other == TilePixel::Nothing || *self == *other
            || *self == TilePixel::Blockade || *other == TilePixel::Blockade || (*self
            == TilePixel::City && *other == TilePixel::PennantCity) || (*self
            == TilePixel::PennantCity && *other == TilePixel::City)
    }
}

} // verus!
