use vstd::prelude::*;

verus! {

/// Side length, in pixels, of one square tile.
pub const TILE_SIZE: usize = 5;

/// One pixel of a tile picture.
#[derive(Debug, Clone, Copy, PartialEq, Eq, Structural, Hash)]
pub enum TilePixel {
    Nothing,
    Blockade,
    Field,
    Road,
    Cloister,
    City,
    PennantCity,
}

impl Default for TilePixel {
    fn default() -> (r: Self)
        ensures
            r == TilePixel::Nothing,
    {
        TilePixel::Nothing
    }
}

/// Two tiles may lie side by side when their touching edge pixels fit.
pub open spec fn spec_fits(a: TilePixel, b: TilePixel) -> bool {
    ||| a == TilePixel::Nothing
    ||| b == TilePixel::Nothing
    ||| a == b
    ||| a == TilePixel::Blockade
    ||| b == TilePixel::Blockade
    ||| (a == TilePixel::City && b == TilePixel::PennantCity)
    ||| (a == TilePixel::PennantCity && b == TilePixel::City)
}

/// Two pixels belong to one structure when they connect.
pub open spec fn spec_connects(a: TilePixel, b: TilePixel) -> bool {
    ||| a == b
    ||| (a == TilePixel::City && b == TilePixel::PennantCity)
    ||| (a == TilePixel::PennantCity && b == TilePixel::City)
}

/// Value of one (pixel kind, tile) pair when a structure is scored.
pub open spec fn spec_score(p: TilePixel, in_game: bool) -> u32 {
    match p {
        TilePixel::Road => 1,
        TilePixel::City => if in_game { 2 } else { 1 },
        TilePixel::PennantCity => if in_game { 4 } else { 2 },
        _ => 0,
    }
}

/// The pixels that form scoring structures; fields only when farmers are on.
pub open spec fn spec_scoring_tiles(farmers_enabled: bool) -> Seq<TilePixel> {
    if farmers_enabled {
        seq![TilePixel::Field, TilePixel::Road, TilePixel::Cloister, TilePixel::City, TilePixel::PennantCity]
    } else {
        seq![TilePixel::Road, TilePixel::Cloister, TilePixel::City, TilePixel::PennantCity]
    }
}

pub open spec fn spec_is_scoring(p: TilePixel, farmers_enabled: bool) -> bool {
    spec_scoring_tiles(farmers_enabled).contains(p)
}

/// Pixel rules used when tiles are matched and structures are scored.
pub trait TilePixelExt {
    /// Whether two tiles can be placed next to each other
    /// if they have edges with these pixels.
    fn fits(&self, other: &TilePixel) -> bool;

    /// Whether two pixels connect together to form a structure.
    fn connects(&self, other: &TilePixel) -> bool;

    /// Pixel value in scoring.
    fn score(&self, in_game: bool) -> u32;
}

impl TilePixelExt for TilePixel {
    fn fits(&self, other: &TilePixel) -> (r: bool)
        ensures
            r == spec_fits(*self, *other),
    {
        match (self, other) {
            (TilePixel::Nothing, _) => true,
            (_, TilePixel::Nothing) => true,
            (TilePixel::Blockade, _) => true,
            (_, TilePixel::Blockade) => true,
            (TilePixel::City, TilePixel::PennantCity) => true,
            (TilePixel::PennantCity, TilePixel::City) => true,
            _ => *self == *other,
        }
    }

    fn connects(&self, other: &TilePixel) -> (r: bool)
        ensures
            r == spec_connects(*self, *other),
    {
        match (self, other) {
            (TilePixel::City, TilePixel::PennantCity) => true,
            (TilePixel::PennantCity, TilePixel::City) => true,
            _ => *self == *other,
        }
    }

    fn score(&self, in_game: bool) -> (r: u32)
        ensures
            r == spec_score(*self, in_game),
    {
        match (self, in_game) {
            (TilePixel::Road, true) => 1,
            (TilePixel::Road, false) => 1,
            (TilePixel::City, true) => 2,
            (TilePixel::City, false) => 1,
            (TilePixel::PennantCity, true) => 4,
            (TilePixel::PennantCity, false) => 2,
            _ => 0,
        }
    }
}

/// The pixels that form scoring structures under the given farmer rule.
pub fn scoring_tiles(farmers_enabled: bool) -> (r: Vec<TilePixel>)
    ensures
        r@ == spec_scoring_tiles(farmers_enabled),
{
    let mut v: Vec<TilePixel> = Vec::new();
    if farmers_enabled {
        v.push(TilePixel::Field);
    }
    v.push(TilePixel::Road);
    v.push(TilePixel::Cloister);
    v.push(TilePixel::City);
    v.push(TilePixel::PennantCity);
    v
}

/// Whether `p` is one of the scoring pixels.
pub fn is_scoring(p: TilePixel, farmers_enabled: bool) -> (r: bool)
    ensures
        r == spec_is_scoring(p, farmers_enabled),
{
    let tiles = scoring_tiles(farmers_enabled);
    let mut i: usize = 0;
    while i < tiles.len()
        invariant
            i <= tiles@.len(),
            tiles@ == spec_scoring_tiles(farmers_enabled),
            forall|j: int| 0 <= j < i ==> tiles@[j] != p,
        decreases tiles@.len() - i,
    {
        if tiles[i] == p {
            return true;
        }
        i += 1;
    }
    proof {
        assert(!spec_scoring_tiles(farmers_enabled).contains(p));
    }
    false
}

/// Fitting is symmetric, and pixels that connect also fit.
pub proof fn lemma_fits_symmetric_and_connects_fit(a: TilePixel, b: TilePixel)
    ensures
        spec_fits(a, b) == spec_fits(b, a),
        spec_connects(a, b) == spec_connects(b, a),
        spec_connects(a, b) ==> spec_fits(a, b),
{
}

/// Nothing connects to a scoring pixel but a pixel of the same structure kind;
/// in particular the empty pixel never does.
pub proof fn lemma_nothing_never_connects(p: TilePixel)
    requires
        p != TilePixel::Nothing,
    ensures
        !spec_connects(TilePixel::Nothing, p),
        !spec_connects(p, TilePixel::Nothing),
{
}

/// The points of the rules: a road tile is worth 1; a city tile 2 while
/// the game goes on and 1 at its end; a pennant city tile twice a city tile
/// (4, or 2 at the end); fields, cloisters, blockades and empty pixels give
/// no points of their own.
pub proof fn lemma_pixel_values(in_game: bool)
    ensures
        spec_score(TilePixel::Road, in_game) == 1,
        spec_score(TilePixel::City, true) == 2,
        spec_score(TilePixel::City, false) == 1,
        spec_score(TilePixel::PennantCity, true) == 4,
        spec_score(TilePixel::PennantCity, false) == 2,
        spec_score(TilePixel::PennantCity, in_game) == 2 * spec_score(TilePixel::City, in_game),
        spec_score(TilePixel::Field, in_game) == 0,
        spec_score(TilePixel::Cloister, in_game) == 0,
        spec_score(TilePixel::Blockade, in_game) == 0,
        spec_score(TilePixel::Nothing, in_game) == 0,
{
}

/// A city pixel, plain or with a pennant.
pub open spec fn city_like(p: TilePixel) -> bool {
    p == TilePixel::City || p == TilePixel::PennantCity
}

/// Edges fit only where the structures meet their own kind: two pixels fit
/// exactly when one is empty or a blockade, or both are the same pixel, or
/// both are city pixels (plain or pennant). So a field fits neither a road
/// nor a city, and pixels of structures that fit also connect.
pub proof fn lemma_fitting_rule(a: TilePixel, b: TilePixel)
    ensures
        spec_fits(a, b) <==> (a == TilePixel::Nothing || b == TilePixel::Nothing || a == TilePixel::Blockade || b
            == TilePixel::Blockade || a == b || (city_like(a) && city_like(b))),
        spec_connects(a, b) <==> (a == b || (city_like(a) && city_like(b))),
        spec_fits(a, b) && a != TilePixel::Nothing && b != TilePixel::Nothing && a != TilePixel::Blockade && b
            != TilePixel::Blockade ==> spec_connects(a, b),
        !spec_fits(TilePixel::Field, TilePixel::City) && !spec_fits(TilePixel::Field, TilePixel::PennantCity),
        !spec_fits(TilePixel::Field, TilePixel::Road) && !spec_fits(TilePixel::Road, TilePixel::City),
        !spec_fits(TilePixel::Road, TilePixel::PennantCity) && !spec_fits(TilePixel::Cloister, TilePixel::Field),
{
}

/// The pixels that seed structures: roads, cloisters, cities and pennant
/// cities always, fields only when farmers are on; empty pixels and
/// blockades never.
pub proof fn lemma_scoring_pixels(farmers_enabled: bool)
    ensures
        spec_is_scoring(TilePixel::Road, farmers_enabled),
        spec_is_scoring(TilePixel::Cloister, farmers_enabled),
        spec_is_scoring(TilePixel::City, farmers_enabled),
        spec_is_scoring(TilePixel::PennantCity, farmers_enabled),
        spec_is_scoring(TilePixel::Field, farmers_enabled) == farmers_enabled,
        !spec_is_scoring(TilePixel::Nothing, farmers_enabled),
        !spec_is_scoring(TilePixel::Blockade, farmers_enabled),
{
    let s = spec_scoring_tiles(farmers_enabled);
    let d = if farmers_enabled { 1int } else { 0int };
    assert(s[d] == TilePixel::Road);
    assert(s[d + 1] == TilePixel::Cloister);
    assert(s[d + 2] == TilePixel::City);
    assert(s[d + 3] == TilePixel::PennantCity);
    if farmers_enabled {
        assert(s[0] == TilePixel::Field);
    } else {
        assert(forall|i: int| 0 <= i < s.len() ==> s[i] != TilePixel::Field);
    }
    assert(forall|i: int| 0 <= i < s.len() ==> s[i] != TilePixel::Nothing && s[i] != TilePixel::Blockade);
}

} // verus!
