use vstd::prelude::*;
use rand::rngs::ThreadRng;
use crate::direction::{Direction, OrdinalDirection, Rotation, ord_index, rot_index};
use crate::index::Index;
use crate::map::{MAX_SIDE, PixelMap, needed_side, abs_int};
use crate::multi_hashset::MultiHashSet;
use crate::random::{thread_rng, sample_all, shuffle_all, choose_one};
use crate::tile::{Tile, TileId, tile_at};
use crate::tile_pixel::{TILE_SIZE, TilePixel, TilePixelExt, spec_fits};
use crate::tileset::{TileSet, tileset_usable, number_for, starting_position};
use crate::multi_hashset::spec_take;
use crate::flood_fill::contains_index;
use crate::structures::{count_of, owned_by, follower_on, Structure, structure_for, structure_from, own_component, structures_of, scores_after, left_after, followers_after, distinct_players, counts_match, apply_structure, lemma_structures_distinct, lemma_structures_distinct_one, lemma_scoring_returns_followers, lemma_same_structure_scores, takes, followers_within, lemma_taking_returns_followers, lemma_filter_congruent};

verus! {

/// A player, numbered from 0.
#[derive(Debug, PartialEq, Eq, Structural, Hash, Clone, Copy)]
pub struct PlayerId(pub u32);

/// The rules a game is played with.
#[derive(Debug, Clone, Copy)]
pub struct GameSettings {
    pub number_players: u32,
    pub number_followers: u32,
    pub calculate_move_score_field: bool,
    pub farmers_enabled: bool,
}

impl Default for GameSettings {
    fn default() -> (r: Self)
        ensures
            r.number_players == 2,
            r.number_followers == 8,
            r.calculate_move_score_field,
            r.farmers_enabled,
    {
        GameSettings {
            number_players: 2,
            number_followers: 8,
            calculate_move_score_field: true,
            farmers_enabled: true,
        }
    }
}

/// A tile position on the board.
#[derive(Debug, Clone, Copy, PartialEq, Eq, Structural, Hash)]
pub struct Place {
    pub x: isize,
    pub y: isize,
}

/// The place one step from `p` in direction `d` (north is up, `y` grows down).
pub open spec fn spec_neighbour(p: Place, d: OrdinalDirection) -> Place {
    match d {
        OrdinalDirection::North => Place { x: p.x, y: (p.y - 1) as isize },
        OrdinalDirection::NorthEast => Place { x: (p.x + 1) as isize, y: (p.y - 1) as isize },
        OrdinalDirection::East => Place { x: (p.x + 1) as isize, y: p.y },
        OrdinalDirection::SouthEast => Place { x: (p.x + 1) as isize, y: (p.y + 1) as isize },
        OrdinalDirection::South => Place { x: p.x, y: (p.y + 1) as isize },
        OrdinalDirection::SouthWest => Place { x: (p.x - 1) as isize, y: (p.y + 1) as isize },
        OrdinalDirection::West => Place { x: (p.x - 1) as isize, y: p.y },
        OrdinalDirection::NorthWest => Place { x: (p.x - 1) as isize, y: (p.y - 1) as isize },
    }
}

/// Places far enough from the edge of `isize` that their pixels and their
/// neighbours' pixels have representable coordinates.
pub open spec fn place_readable(p: Place) -> bool {
    -0x100000 <= p.x <= 0x100000 && -0x100000 <= p.y <= 0x100000
}

/// Places whose pixels fit in the largest board the map can grow to.
pub open spec fn place_writable(p: Place) -> bool {
    abs_int(p.x as int) + abs_int(p.y as int) <= 816
}

/// Places a tile may be played on: they and their neighbours are writable.
pub open spec fn place_playable(p: Place) -> bool {
    abs_int(p.x as int) + abs_int(p.y as int) <= 815
}

/// The step (across, down) that direction `d` takes.
pub open spec fn step_of(d: OrdinalDirection) -> (int, int) {
    match d {
        OrdinalDirection::North => (0, -1),
        OrdinalDirection::NorthEast => (1, -1),
        OrdinalDirection::East => (1, 0),
        OrdinalDirection::SouthEast => (1, 1),
        OrdinalDirection::South => (0, 1),
        OrdinalDirection::SouthWest => (-1, 1),
        OrdinalDirection::West => (-1, 0),
        OrdinalDirection::NorthWest => (-1, -1),
    }
}

/// The step from `p` in direction `d` lands on coordinates an `isize` holds.
pub open spec fn step_fits(p: Place, d: OrdinalDirection) -> bool {
    &&& isize::MIN <= p.x + step_of(d).0 <= isize::MAX
    &&& isize::MIN <= p.y + step_of(d).1 <= isize::MAX
}

impl Place {
    /// The place one step away in direction `dir`.
    pub fn neighbour(&self, dir: &OrdinalDirection) -> (r: Place)
        requires
            step_fits(*self, *dir),
        ensures
            r == spec_neighbour(*self, *dir),
    {
        match dir {
            OrdinalDirection::North => Place { x: self.x, y: self.y - 1 },
            OrdinalDirection::NorthEast => Place { x: self.x + 1, y: self.y - 1 },
            OrdinalDirection::East => Place { x: self.x + 1, y: self.y },
            OrdinalDirection::SouthEast => Place { x: self.x + 1, y: self.y + 1 },
            OrdinalDirection::South => Place { x: self.x, y: self.y + 1 },
            OrdinalDirection::SouthWest => Place { x: self.x - 1, y: self.y + 1 },
            OrdinalDirection::West => Place { x: self.x - 1, y: self.y },
            OrdinalDirection::NorthWest => Place { x: self.x - 1, y: self.y - 1 },
        }
    }
}

/// Stepping one way and then the opposite way returns to the start.
pub proof fn lemma_neighbour_opposite(p: Place, d: OrdinalDirection, e: OrdinalDirection)
    requires
        place_readable(p),
        ord_index(e) == (ord_index(d) + 4) % 8,
    ensures
        spec_neighbour(spec_neighbour(p, d), e) == p,
{
}

/// Why a move was refused.
#[derive(Debug, Clone, Copy, PartialEq, Eq, Structural)]
pub enum TileError {
    PlaceOccupied,
    DoesntFit,
    Disconnected,
    StaleMove,
    BadTile,
}

/// The message shown for error `e`.
pub open spec fn error_message(e: TileError) -> Seq<char> {
    match e {
        TileError::PlaceOccupied => "Pozycja zaj\u{119}ta"@,
        TileError::DoesntFit => "Sasi\u{119}dzi nie pasuj\u{105}"@,
        TileError::Disconnected => "Kafelek od\u{142}\u{105}czony"@,
        TileError::StaleMove => "Ruch dla starej mapy"@,
        TileError::BadTile => "Nierozpoznany kafelek"@,
    }
}

impl TileError {
    /// The message shown for this error.
    pub fn message(&self) -> (r: &'static str)
        ensures
            r@ == error_message(*self),
    {
        match self {
            TileError::PlaceOccupied => "Pozycja zaj\u{119}ta",
            TileError::DoesntFit => "Sasi\u{119}dzi nie pasuj\u{105}",
            TileError::Disconnected => "Kafelek od\u{142}\u{105}czony",
            TileError::StaleMove => "Ruch dla starej mapy",
            TileError::BadTile => "Nierozpoznany kafelek",
        }
    }
}

/// A tile placement, optionally with a follower, for a given move number.
#[derive(Debug, Clone, Copy, PartialEq, Eq, Structural)]
pub struct Move {
    pub move_num: u32,
    pub place: Place,
    pub tile: TileId,
    pub rotation: Rotation,
    pub follower: Option<Index>,
    pub player: PlayerId,
}

impl Move {
    pub fn get_move_num(&self) -> (r: u32)
        ensures
            r == self.move_num,
    {
        self.move_num
    }

    pub fn get_place(&self) -> (r: Place)
        ensures
            r == self.place,
    {
        self.place
    }

    pub fn get_follower(&self) -> (r: Option<Index>)
        ensures
            r == self.follower,
    {
        self.follower
    }

    pub fn get_tile(&self) -> (r: TileId)
        ensures
            r == self.tile,
    {
        self.tile
    }

    pub fn get_rotation(&self) -> (r: Rotation)
        ensures
            r == self.rotation,
    {
        self.rotation
    }

    pub fn get_player(&self) -> (r: PlayerId)
        ensures
            r == self.player,
    {
        self.player
    }
}

/// The upper-left pixel of a place.
pub open spec fn spec_place_index(p: Place) -> Index {
    Index { x: (p.x * 5) as isize, y: (p.y * 5) as isize }
}

/// The place a pixel lies in.
pub open spec fn spec_index_place(i: Index) -> Place {
    Place { x: (i.x as int / 5) as isize, y: (i.y as int / 5) as isize }
}

/// The upper-left pixel of a place.
pub fn place_index(place: &Place) -> (r: Index)
    requires
        place_readable(*place),
    ensures
        r == spec_place_index(*place),
{
    Index { x: place.x * (TILE_SIZE as isize), y: place.y * (TILE_SIZE as isize) }
}

/// The place a pixel lies in (floor division by the tile size).
pub fn index_place(index: &Index) -> (r: Place)
    ensures
        r == spec_index_place(*index),
{
    Place { x: floor_div5(index.x), y: floor_div5(index.y) }
}

fn floor_div5(a: isize) -> (r: isize)
    ensures
        r == a as int / 5,
{
    let q = a / 5;
    let rem = a % 5;
    if rem < 0 {
        q - 1
    } else {
        q
    }
}

/// The pixel of a place's upper-left corner maps back to the place, and
/// every pixel of the place's square does.
pub proof fn lemma_place_index_roundtrip(p: Place, dx: int, dy: int)
    requires
        place_readable(p),
        0 <= dx < 5,
        0 <= dy < 5,
    ensures
        spec_index_place(
            Index {
                x: (spec_place_index(p).x + dx) as isize,
                y: (spec_place_index(p).y + dy) as isize,
            },
        ) == p,
{
}

/// Pixel `(dx, dy)` of place `p`.
pub open spec fn pixel_of(p: Place, dx: int, dy: int) -> Index {
    Index { x: (p.x * 5 + dx) as isize, y: (p.y * 5 + dy) as isize }
}

/// Whether a tile lies at place `p` of map `m`.
pub open spec fn spec_occupied(m: PixelMap, p: Place) -> bool {
    m.at_index(spec_place_index(p)) != TilePixel::Nothing
}

pub open spec fn occupied_count(m: PixelMap, p: Place, d: OrdinalDirection) -> int {
    if spec_occupied(m, spec_neighbour(p, d)) { 1 } else { 0 }
}

/// How many of the eight surrounding places hold a tile.
pub open spec fn spec_neighbour_count(m: PixelMap, p: Place) -> int {
    occupied_count(m, p, OrdinalDirection::North) + occupied_count(m, p, OrdinalDirection::NorthEast)
        + occupied_count(m, p, OrdinalDirection::East) + occupied_count(
        m,
        p,
        OrdinalDirection::SouthEast,
    ) + occupied_count(m, p, OrdinalDirection::South) + occupied_count(
        m,
        p,
        OrdinalDirection::SouthWest,
    ) + occupied_count(m, p, OrdinalDirection::West) + occupied_count(
        m,
        p,
        OrdinalDirection::NorthWest,
    )
}

/// The board after tile `t`, turned by `r`, is copied to place `p` of `m`.
pub open spec fn painted(before: PixelMap, after: PixelMap, t: Tile, r: Rotation, p: Place) -> bool {
    &&& after.wf()
    &&& forall|dx: int, dy: int|
        0 <= dx < 5 && 0 <= dy < 5 ==> #[trigger] after.at_index(pixel_of(p, dx, dy)) == tile_at(
            t,
            dy,
            dx,
            r,
        )
    &&& forall|i: Index|
        !(spec_index_place(i) == p) ==> #[trigger] after.at_index(i) == before.at_index(i)
}

/// Our pixel `k` on side `dir` of tile `t` turned by `r`, and the facing pixel
/// of the neighbouring place.
pub open spec fn our_edge_pixel(t: Tile, r: Rotation, dir: Direction, k: int) -> TilePixel {
    match dir {
        Direction::North => tile_at(t, 0, k, r),
        Direction::East => tile_at(t, k, 4, r),
        Direction::South => tile_at(t, 4, k, r),
        Direction::West => tile_at(t, k, 0, r),
    }
}

pub open spec fn other_edge_pixel(m: PixelMap, p: Place, dir: Direction, k: int) -> TilePixel {
    match dir {
        Direction::North => m.at_index(pixel_of(Place { x: p.x, y: (p.y - 1) as isize }, k, 4)),
        Direction::East => m.at_index(pixel_of(Place { x: (p.x + 1) as isize, y: p.y }, 0, k)),
        Direction::South => m.at_index(pixel_of(Place { x: p.x, y: (p.y + 1) as isize }, k, 0)),
        Direction::West => m.at_index(pixel_of(Place { x: (p.x - 1) as isize, y: p.y }, 4, k)),
    }
}

/// Every edge pixel of the tile fits the facing pixel of its neighbour.
pub open spec fn edges_fit(m: PixelMap, t: Tile, p: Place, r: Rotation) -> bool {
    forall|dir: Direction, k: int|
        0 <= k < 5 ==> spec_fits(
            #[trigger] our_edge_pixel(t, r, dir, k),
            other_edge_pixel(m, p, dir, k),
        )
}

/// The state of a game.
pub struct Game {
    move_num: u32,
    map: PixelMap,
    tiles: Vec<Tile>,
    tiles_left: MultiHashSet,
    free_places: Vec<Place>,
    followers: Vec<(Index, PlayerId)>,
    followers_left: Vec<u32>,
    score: Vec<u32>,
    settings: GameSettings,
    rng: ThreadRng,
}

pub open spec fn distinct_places(s: Seq<Place>) -> bool {
    forall|i: int, j: int| 0 <= i < j < s.len() ==> #[trigger] s[i] != #[trigger] s[j]
}

pub open spec fn distinct_follower_positions(s: Seq<(Index, PlayerId)>) -> bool {
    forall|i: int, j: int| 0 <= i < j < s.len() ==> #[trigger] s[i].0 != #[trigger] s[j].0
}

impl Game {
    pub closed spec fn spec_move_num(&self) -> u32 {
        self.move_num
    }

    pub closed spec fn spec_map(&self) -> PixelMap {
        self.map
    }

    pub closed spec fn spec_tiles(&self) -> Seq<Tile> {
        self.tiles@
    }

    pub closed spec fn spec_tiles_left(&self) -> MultiHashSet {
        self.tiles_left
    }

    pub closed spec fn spec_free_places(&self) -> Seq<Place> {
        self.free_places@
    }

    pub closed spec fn spec_followers(&self) -> Seq<(Index, PlayerId)> {
        self.followers@
    }

    pub closed spec fn spec_followers_left(&self) -> Seq<u32> {
        self.followers_left@
    }

    pub closed spec fn spec_score(&self) -> Seq<u32> {
        self.score@
    }

    pub closed spec fn spec_settings(&self) -> GameSettings {
        self.settings
    }

    /// The internal consistency every game keeps.
    pub open spec fn wf(&self) -> bool {
        &&& self.spec_map().wf()
        &&& self.spec_map().spec_size() >= 1
        &&& self.spec_tiles_left().wf()
        &&& self.spec_tiles().len() <= u32::MAX
        &&& distinct_places(self.spec_free_places())
        &&& forall|i: int|
            0 <= i < self.spec_free_places().len() ==> place_writable(
                #[trigger] self.spec_free_places()[i],
            )
        &&& forall|k: int|
            0 <= k < self.spec_tiles_left().entries().len() ==> (#[trigger] self.spec_tiles_left().entries()[k]).0
                < self.spec_tiles().len()
        &&& distinct_follower_positions(self.spec_followers())
        &&& self.spec_followers().len() <= self.spec_move_num()
        &&& self.spec_followers_left().len() == self.spec_settings().number_players
        &&& self.spec_score().len() == self.spec_settings().number_players
    }

    /// The players, in order.
    pub fn get_players(&self) -> (r: Vec<PlayerId>)
        requires
            self.wf(),
        ensures
            r@.len() == self.spec_settings().number_players,
            forall|i: int| 0 <= i < r@.len() ==> #[trigger] r@[i] == PlayerId(i as u32),
    {
        let n = self.followers_left.len();
        let mut r: Vec<PlayerId> = Vec::new();
        let mut i: usize = 0;
        while i < n
            invariant
                n == self.followers_left@.len(),
                n == self.settings.number_players,
                i <= n,
                r@.len() == i,
                forall|j: int| 0 <= j < i ==> #[trigger] r@[j] == PlayerId(j as u32),
            decreases n - i,
        {
            r.push(PlayerId(i as u32));
            i += 1;
        }
        r
    }

    /// The score of each player, indexed by player number.
    pub fn get_score(&self) -> (r: Vec<u32>)
        ensures
            r@ == self.spec_score(),
    {
        self.score.clone()
    }

    /// The followers each player has left, indexed by player number.
    pub fn get_followers(&self) -> (r: Vec<u32>)
        ensures
            r@ == self.spec_followers_left(),
    {
        self.followers_left.clone()
    }

    /// Number of distinct tile kinds still in the bag.
    pub fn get_tiles_left(&self) -> (r: usize)
        ensures
            r == self.spec_tiles_left().entries().len(),
    {
        self.tiles_left.len()
    }

    /// The places where a tile may be put next.
    pub fn get_free_places(&self) -> (r: Vec<Place>)
        ensures
            r@ == self.spec_free_places(),
    {
        self.free_places.clone()
    }

    /// The followers on the board: pixel and owner.
    pub fn get_followers_on_board(&self) -> (r: Vec<(Index, PlayerId)>)
        ensures
            r@ == self.spec_followers(),
    {
        let mut r: Vec<(Index, PlayerId)> = Vec::new();
        let mut i: usize = 0;
        while i < self.followers.len()
            invariant
                i <= self.followers@.len(),
                r@ == self.followers@.take(i as int),
            decreases self.followers@.len() - i,
        {
            r.push(self.followers[i]);
            proof {
                assert(self.followers@.take(i as int + 1) == self.followers@.take(i as int).push(
                    self.followers@[i as int],
                ));
            }
            i += 1;
        }
        proof {
            assert(self.followers@.take(self.followers@.len() as int) == self.followers@);
        }
        r
    }

    /// The current move number.
    pub fn get_move_num(&self) -> (r: u32)
        ensures
            r == self.spec_move_num(),
    {
        self.move_num
    }

    /// The rules of the game.
    pub fn get_settings(&self) -> (r: GameSettings)
        ensures
            r == self.spec_settings(),
    {
        self.settings
    }

    /// The pixel at a board index.
    pub fn pixel_at(&self, idx: Index) -> (r: TilePixel)
        requires
            self.wf(),
        ensures
            r == self.spec_map().at_index(idx),
    {
        self.map.get_index(idx)
    }

    fn place_occupied(&self, place: &Place) -> (r: bool)
        requires
            self.spec_map().wf(),
            place_readable(*place),
        ensures
            r == spec_occupied(self.spec_map(), *place),
    {
        occupied_at(&self.map, place)
    }

    /// How many of the eight surrounding places hold a tile.
    pub fn neighbour_count(&self, place: &Place) -> (r: u32)
        requires
            self.spec_map().wf(),
            -0xFFFFF <= place.x <= 0xFFFFF,
            -0xFFFFF <= place.y <= 0xFFFFF,
        ensures
            r == spec_neighbour_count(self.spec_map(), *place),
    {
        count_neighbours(&self.map, place)
    }

    /// The places around `place` (north, east, south, west) without a tile.
    fn empty_neighbour_places(&self, place: &Place) -> (r: Vec<Place>)
        requires
            self.spec_map().wf(),
            -0xFFFFF <= place.x <= 0xFFFFF,
            -0xFFFFF <= place.y <= 0xFFFFF,
        ensures
            r@ == seq![
                spec_neighbour(*place, OrdinalDirection::North),
                spec_neighbour(*place, OrdinalDirection::East),
                spec_neighbour(*place, OrdinalDirection::South),
                spec_neighbour(*place, OrdinalDirection::West),
            ].filter(|q: Place| !spec_occupied(self.spec_map(), q)),
    {
        let dirs = Direction::all();
        let mut r: Vec<Place> = Vec::new();
        let ghost all = seq![
            spec_neighbour(*place, OrdinalDirection::North),
            spec_neighbour(*place, OrdinalDirection::East),
            spec_neighbour(*place, OrdinalDirection::South),
            spec_neighbour(*place, OrdinalDirection::West),
        ];
        let ghost pred = |q: Place| !spec_occupied(self.spec_map(), q);
        let mut k: usize = 0;
        while k < 4
            invariant
                self.spec_map().wf(),
                -0xFFFFF <= place.x <= 0xFFFFF,
                -0xFFFFF <= place.y <= 0xFFFFF,
                k <= 4,
                dirs@ == seq![Direction::North, Direction::East, Direction::South, Direction::West],
                all.len() == 4,
                all == seq![
                    spec_neighbour(*place, OrdinalDirection::North),
                    spec_neighbour(*place, OrdinalDirection::East),
                    spec_neighbour(*place, OrdinalDirection::South),
                    spec_neighbour(*place, OrdinalDirection::West),
                ],
                pred == (|q: Place| !spec_occupied(self.spec_map(), q)),
                r@ == all.take(k as int).filter(pred),
            decreases 4 - k,
        {
            let od = OrdinalDirection::from_direction(dirs[k]);
            let n = place.neighbour(&od);
            proof {
                assert(all.take(k as int + 1) == all.take(k as int).push(all[k as int]));
                assert(n == all[k as int]);
            }
            if !self.place_occupied(&n) {
                r.push(n);
            }
            proof {
                all.take(k as int).lemma_filter_push(all[k as int], pred);
            }
            k += 1;
        }
        proof {
            assert(all.take(4) == all);
        }
        r
    }
}

/// Whether a tile lies at `place` of `map`.
pub fn occupied_at(map: &PixelMap, place: &Place) -> (r: bool)
    requires
        map.wf(),
        place_readable(*place),
    ensures
        r == spec_occupied(*map, *place),
{
    map.get_index(place_index(place)) != TilePixel::Nothing
}

/// How many of the eight places around `place` hold a tile on `map`.
pub fn count_neighbours(map: &PixelMap, place: &Place) -> (r: u32)
    requires
        map.wf(),
        -0xFFFFF <= place.x <= 0xFFFFF,
        -0xFFFFF <= place.y <= 0xFFFFF,
    ensures
        r == spec_neighbour_count(*map, *place),
        r <= 8,
{
    let dirs = OrdinalDirection::all();
    let mut count: u32 = 0;
    let mut k: usize = 0;
    while k < 8
        invariant
            map.wf(),
            -0xFFFFF <= place.x <= 0xFFFFF,
            -0xFFFFF <= place.y <= 0xFFFFF,
            k <= 8,
            dirs@.len() == 8,
            forall|i: int| 0 <= i < 8 ==> ord_index(#[trigger] dirs@[i]) == i,
            count == partial_neighbour_count(*map, *place, k as int),
            count <= k,
        decreases 8 - k,
    {
        let n = place.neighbour(&dirs[k]);
        proof {
            assert(dirs@[k as int] == ord_dir(k as int));
        }
        if occupied_at(map, &n) {
            count += 1;
        }
        k += 1;
    }
    proof {
        reveal_with_fuel(partial_neighbour_count, 9);
    }
    count
}

pub open spec fn ord_dir(k: int) -> OrdinalDirection {
    crate::direction::ord_from_index(k)
}

/// Occupied places among the first `k` directions clockwise from north.
pub open spec fn partial_neighbour_count(m: PixelMap, p: Place, k: int) -> int
    decreases k,
{
    if k <= 0 {
        0
    } else {
        partial_neighbour_count(m, p, k - 1) + occupied_count(m, p, ord_dir(k - 1))
    }
}


/// Pixel `(dx, dy)` of place `p` was painted, going in reading order up to (`x`, `y`).
spec fn painted_upto(m: PixelMap, t: Tile, r: Rotation, p: Place, y: int, x: int) -> bool {
    forall|dx: int, dy: int|
        (0 <= dy < y && 0 <= dx < 5) || (dy == y && 0 <= dx < x) ==> #[trigger] m.at_index(
            pixel_of(p, dx, dy),
        ) == tile_at(t, dy, dx, r)
}

spec fn outside_unchanged(before: PixelMap, after: PixelMap, p: Place) -> bool {
    forall|i: Index| !(spec_index_place(i) == p) ==> #[trigger] after.at_index(i) == before.at_index(i)
}

/// Whether the four tile pictures' edges meet along `dir` at position `k`.
spec fn edge_fits(m: PixelMap, t: Tile, p: Place, r: Rotation, dir: Direction, k: int) -> bool {
    spec_fits(our_edge_pixel(t, r, dir, k), other_edge_pixel(m, p, dir, k))
}

spec fn edges_fit_upto(m: PixelMap, t: Tile, p: Place, r: Rotation, d: int, k: int) -> bool {
    forall|dd: int, kk: int|
        (0 <= dd < d && 0 <= kk < 5) || (dd == d && 0 <= kk < k) ==> #[trigger] edge_fits(
            m,
            t,
            p,
            r,
            dir_of(dd),
            kk,
        )
}

pub open spec fn dir_of(d: int) -> Direction {
    if d == 0 {
        Direction::North
    } else if d == 1 {
        Direction::East
    } else if d == 2 {
        Direction::South
    } else {
        Direction::West
    }
}

/// What `check_tile` answers for tile `t` turned by `r` at place `p`.
pub open spec fn spec_check_tile(g: Game, t: Tile, p: Place, r: Rotation) -> Result<(), TileError> {
    if !g.spec_free_places().contains(p) {
        if spec_occupied(g.spec_map(), p) {
            Err(TileError::PlaceOccupied)
        } else {
            Err(TileError::Disconnected)
        }
    } else if edges_fit(g.spec_map(), t, p, r) {
        Ok(())
    } else {
        Err(TileError::DoesntFit)
    }
}

/// Every field but the board is the same in both games.
spec fn same_except_map(a: Game, b: Game) -> bool {
    &&& a.move_num == b.move_num
    &&& a.tiles == b.tiles
    &&& a.tiles_left == b.tiles_left
    &&& a.free_places == b.free_places
    &&& a.followers == b.followers
    &&& a.followers_left == b.followers_left
    &&& a.score == b.score
    &&& a.settings == b.settings
}

pub fn contains_place(v: &Vec<Place>, p: Place) -> (r: bool)
    ensures
        r == v@.contains(p),
{
    let mut k: usize = 0;
    while k < v.len()
        invariant
            k <= v@.len(),
            forall|j: int| 0 <= j < k ==> v@[j] != p,
        decreases v@.len() - k,
    {
        if v[k] == p {
            return true;
        }
        k += 1;
    }
    false
}

impl Game {
    /// Paints tile `tile`, turned by `rotation`, onto place `place`.
    pub fn copy_tile(&mut self, tile: &Tile, rotation: Rotation, place: Place)
        requires
            old(self).wf(),
            place_writable(place),
        ensures
            final(self).wf(),
            painted(old(self).spec_map(), final(self).spec_map(), *tile, rotation, place),
            final(self).spec_move_num() == old(self).spec_move_num(),
            final(self).spec_tiles() == old(self).spec_tiles(),
            final(self).spec_tiles_left() == old(self).spec_tiles_left(),
            final(self).spec_free_places() == old(self).spec_free_places(),
            final(self).spec_followers() == old(self).spec_followers(),
            final(self).spec_followers_left() == old(self).spec_followers_left(),
            final(self).spec_score() == old(self).spec_score(),
            final(self).spec_settings() == old(self).spec_settings(),
    {
        let upper_left = place_index(&place);
        let ghost m0 = self.map;
        let ghost g0 = *self;
        let mut y: usize = 0;
        while y < TILE_SIZE
            invariant
                self.map.wf(),
                self.map.spec_size() >= 1,
                place_writable(place),
                upper_left == spec_place_index(place),
                y <= 5,
                same_except_map(g0, *self),
                painted_upto(self.map, *tile, rotation, place, y as int, 0),
                outside_unchanged(m0, self.map, place),
            decreases 5 - y,
        {
            let mut x: usize = 0;
            while x < TILE_SIZE
                invariant
                    self.map.wf(),
                    self.map.spec_size() >= 1,
                    place_writable(place),
                    upper_left == spec_place_index(place),
                    y < 5,
                    x <= 5,
                    same_except_map(g0, *self),
                    painted_upto(self.map, *tile, rotation, place, y as int, x as int),
                    outside_unchanged(m0, self.map, place),
                decreases 5 - x,
            {
                let map_idx = Index { x: upper_left.x + x as isize, y: upper_left.y + y as isize };
                let v = tile.pixel(y, x, rotation);
                let ghost before = self.map;
                self.map.set_index(map_idx, v);
                proof {
                    assert(map_idx == pixel_of(place, x as int, y as int));
                    lemma_place_index_roundtrip(place, x as int, y as int);
                    assert forall|dx: int, dy: int|
                        (0 <= dy < y && 0 <= dx < 5) || (dy == y && 0 <= dx < x + 1) implies #[trigger] self.map.at_index(
                        pixel_of(place, dx, dy),
                    ) == tile_at(*tile, dy, dx, rotation) by {
                        if !(dx == x && dy == y) {
                            assert(pixel_of(place, dx, dy) != map_idx);
                            assert(before.at_index(pixel_of(place, dx, dy)) == tile_at(
                                *tile,
                                dy,
                                dx,
                                rotation,
                            ));
                        }
                    }
                    assert forall|i: Index| !(spec_index_place(i) == place) implies #[trigger] self.map.at_index(
                        i,
                    ) == m0.at_index(i) by {
                        assert(i != map_idx);
                        assert(before.at_index(i) == m0.at_index(i));
                    }
                }
                x += 1;
            }
            proof {
                assert forall|dx: int, dy: int|
                    (0 <= dy < y + 1 && 0 <= dx < 5) implies #[trigger] self.map.at_index(
                    pixel_of(place, dx, dy),
                ) == tile_at(*tile, dy, dx, rotation) by {
                    assert((0 <= dy < y && 0 <= dx < 5) || (dy == y && 0 <= dx < 5));
                }
            }
            y += 1;
        }
        proof {
            assert forall|dx: int, dy: int| 0 <= dx < 5 && 0 <= dy < 5 implies #[trigger] self.map.at_index(
                pixel_of(place, dx, dy),
            ) == tile_at(*tile, dy, dx, rotation) by {
                assert((0 <= dy < 5 && 0 <= dx < 5) || (dy == 5 && 0 <= dx < 0));
            }
        }
    }

    /// Whether tile `tile` turned by `rotation` may be put at `place`: the place
    /// must be free and every edge pixel must fit its neighbour's.
    pub fn check_tile(&self, tile: &Tile, place: &Place, rotation: &Rotation) -> (r: Result<(), TileError>)
        requires
            self.wf(),
            place_readable(*place),
        ensures
            r == spec_check_tile(*self, *tile, *place, *rotation),
    {
        if !contains_place(&self.free_places, *place) {
            if self.place_occupied(place) {
                return Err(TileError::PlaceOccupied);
            }
            return Err(TileError::Disconnected);
        }
        let dirs = Direction::all();
        let mut d: usize = 0;
        while d < 4
            invariant
                self.wf(),
                place_readable(*place),
                d <= 4,
                self.free_places@.contains(*place),
                dirs@ == seq![Direction::North, Direction::East, Direction::South, Direction::West],
                edges_fit_upto(self.map, *tile, *place, *rotation, d as int, 0),
            decreases 4 - d,
        {
            let dir = dirs[d];
            proof {
                assert(dir == dir_of(d as int));
            }
            let mut i: usize = 0;
            while i < TILE_SIZE
                invariant
                    self.wf(),
                    place_readable(*place),
                    d < 4,
                    i <= 5,
                    self.free_places@.contains(*place),
                    dir == dir_of(d as int),
                    edges_fit_upto(self.map, *tile, *place, *rotation, d as int, i as int),
                decreases 5 - i,
            {
                let ii = i as isize;
                let other = match dir {
                    Direction::North => Index { x: place.x * 5 + ii, y: (place.y - 1) * 5 + 4 },
                    Direction::East => Index { x: (place.x + 1) * 5, y: place.y * 5 + ii },
                    Direction::South => Index { x: place.x * 5 + ii, y: (place.y + 1) * 5 },
                    Direction::West => Index { x: (place.x - 1) * 5 + 4, y: place.y * 5 + ii },
                };
                let other_pixel = self.map.get_index(other);
                let our_pixel = match dir {
                    Direction::North => tile.pixel(0, i, *rotation),
                    Direction::East => tile.pixel(i, TILE_SIZE - 1, *rotation),
                    Direction::South => tile.pixel(TILE_SIZE - 1, i, *rotation),
                    Direction::West => tile.pixel(i, 0, *rotation),
                };
                proof {
                    assert(our_pixel == our_edge_pixel(*tile, *rotation, dir, i as int));
                    assert(other_pixel == other_edge_pixel(self.map, *place, dir, i as int));
                }
                if !our_pixel.fits(&other_pixel) {
                    proof {
                        assert(!edge_fits(self.map, *tile, *place, *rotation, dir, i as int));
                        assert(!edges_fit(self.map, *tile, *place, *rotation));
                    }
                    return Err(TileError::DoesntFit);
                }
                proof {
                    assert forall|dd: int, kk: int|
                        (0 <= dd < d && 0 <= kk < 5) || (dd == d && 0 <= kk < i + 1) implies #[trigger] edge_fits(
                        self.map,
                        *tile,
                        *place,
                        *rotation,
                        dir_of(dd),
                        kk,
                    ) by {
                        if !(dd == d && kk == i) {
                            assert((0 <= dd < d && 0 <= kk < 5) || (dd == d && 0 <= kk < i));
                        }
                    }
                }
                i += 1;
            }
            proof {
                assert forall|dd: int, kk: int| (0 <= dd < d + 1 && 0 <= kk < 5) implies #[trigger] edge_fits(
                    self.map,
                    *tile,
                    *place,
                    *rotation,
                    dir_of(dd),
                    kk,
                ) by {
                    assert((0 <= dd < d && 0 <= kk < 5) || (dd == d && 0 <= kk < 5));
                }
            }
            d += 1;
        }
        proof {
            assert forall|dir: Direction, k: int| 0 <= k < 5 implies spec_fits(
                #[trigger] our_edge_pixel(*tile, *rotation, dir, k),
                other_edge_pixel(self.map, *place, dir, k),
            ) by {
                let dd: int = match dir {
                    Direction::North => 0,
                    Direction::East => 1,
                    Direction::South => 2,
                    Direction::West => 3,
                };
                assert(dir_of(dd) == dir);
                assert(edge_fits(self.map, *tile, *place, *rotation, dir_of(dd), k));
            }
        }
        Ok(())
    }
}


/// The bag before the starting tile is taken out: tile `i` with its number of copies.
pub open spec fn initial_bag(ts: &TileSet) -> Seq<(u32, u32)> {
    Seq::new(ts.tiles@.len(), |i: int| (i as u32, number_for(ts, ts.tiles@[i].0@)))
}

/// The place `(x, y)`.
pub open spec fn place_at(x: int, y: int) -> Place {
    Place { x: x as isize, y: y as isize }
}

fn number_of_copies(ts: &TileSet, name: &String) -> (r: u32)
    requires
        forall|i: int, j: int|
            0 <= i < j < ts.tile_numbers@.len() ==> #[trigger] ts.tile_numbers@[i].0@
                != #[trigger] ts.tile_numbers@[j].0@,
        exists|j: int| 0 <= j < ts.tile_numbers@.len() && ts.tile_numbers@[j].0@ == name@,
    ensures
        r == number_for(ts, name@),
{
    let mut j: usize = 0;
    while j < ts.tile_numbers.len()
        invariant
            j <= ts.tile_numbers@.len(),
            forall|k: int| 0 <= k < j ==> ts.tile_numbers@[k].0@ != name@,
            forall|i: int, j: int|
                0 <= i < j < ts.tile_numbers@.len() ==> #[trigger] ts.tile_numbers@[i].0@
                    != #[trigger] ts.tile_numbers@[j].0@,
            exists|j: int| 0 <= j < ts.tile_numbers@.len() && ts.tile_numbers@[j].0@ == name@,
        decreases ts.tile_numbers@.len() - j,
    {
        if ts.tile_numbers[j].0 == *name {
            proof {
                assert(ts.tile_numbers@[j as int].0@ == name@);
                let c = choose|c: int|
                    0 <= c < ts.tile_numbers@.len() && ts.tile_numbers@[c].0@ == name@;
                if c != j {
                    if c < j {
                    } else {
                        let a = ts.tile_numbers@[j as int];
                        let b = ts.tile_numbers@[c];
                        assert(a.0@ != b.0@);
                    }
                }
            }
            return ts.tile_numbers[j].1;
        }
        j += 1;
    }
    proof {
        let c = choose|c: int| 0 <= c < ts.tile_numbers@.len() && ts.tile_numbers@[c].0@ == name@;
        assert(ts.tile_numbers@[c].0@ != name@);
    }
    0
}

impl Game {
    /// A new game on `tileset`: the starting tile lies at (0, 0), the four places
    /// around it are free, and every player has all followers and no points.
    /// The board starts with room for a round patch of all the tile kinds, as
    /// far as the largest board the map holds allows; it grows as tiles are put.
    pub fn new(tileset: &TileSet, settings: GameSettings) -> (r: Game)
        requires
            tileset_usable(tileset),
        ensures
            r.wf(),
            r.spec_move_num() == 0,
            r.spec_settings() == settings,
            r.spec_tiles().len() == tileset.tiles@.len(),
            forall|i: int| 0 <= i < tileset.tiles@.len() ==> #[trigger] r.spec_tiles()[i].0 == tileset.tiles@[i].1,
            r.spec_tiles_left().entries() == spec_take(initial_bag(tileset), starting_position(tileset) as u32),
            painted(
                r.spec_map(),
                r.spec_map(),
                Tile(tileset.tiles@[starting_position(tileset)].1),
                Rotation::Rot0,
                place_at(0, 0),
            ),
            forall|i: Index|
                spec_index_place(i) != place_at(0, 0) ==> #[trigger] r.spec_map().at_index(i) == TilePixel::Nothing,
            r.spec_free_places() == seq![place_at(0, -1), place_at(1, 0), place_at(0, 1), place_at(-1, 0)],
            r.spec_followers() == Seq::<(Index, PlayerId)>::empty(),
            r.spec_followers_left() == Seq::new(settings.number_players as nat, |i: int| settings.number_followers),
            r.spec_score() == Seq::new(settings.number_players as nat, |i: int| 0u32),
            followers_balanced(r),
    {
        let n = tileset.tiles.len();
        let mut k: u64 = 0;
        while k < 409
            invariant
                k <= 409,
                n <= u32::MAX,
            decreases 409 - k,
        {
            proof {
                assert(k * k < 409 * 409) by (nonlinear_arith)
                    requires
                        k < 409,
                ;
            }
            if 355 * (k * k) >= 113 * (n as u64) {
                break;
            }
            k += 1;
        }
        let init_map_size: usize = if k == 0 { 1 } else { (k as usize) * 8 * TILE_SIZE };
        let mut tiles: Vec<Tile> = Vec::new();
        let mut tiles_left = MultiHashSet::new();
        let mut starting_tile_id: Option<usize> = None;
        let ghost bag = initial_bag(tileset);
        let mut i: usize = 0;
        while i < n
            invariant
                n == tileset.tiles@.len(),
                tileset_usable(tileset),
                bag == initial_bag(tileset),
                i <= n,
                tiles@.len() == i,
                forall|j: int| 0 <= j < i ==> #[trigger] tiles@[j].0 == tileset.tiles@[j].1,
                tiles_left.wf(),
                tiles_left.entries() == bag.take(i as int),
                match starting_tile_id {
                    Some(s) => s < i && tileset.tiles@[s as int].0@ == tileset.starting_tile@,
                    None => forall|j: int| 0 <= j < i ==> tileset.tiles@[j].0@ != tileset.starting_tile@,
                },
            decreases n - i,
        {
            tiles.push(Tile::new(tileset.tiles[i].1));
            let count = number_of_copies(tileset, &tileset.tiles[i].0);
            proof {
                let e = tiles_left.entries();
                if key_position_some(e, i as u32) {
                    let c = choose|c: int| 0 <= c < e.len() && #[trigger] e[c].0 == i as u32;
                    assert(e[c] == bag[c]);
                }
            }
            tiles_left.set(TileId(i as u32), count);
            proof {
                assert(bag.take(i as int + 1) =~= bag.take(i as int).push(bag[i as int]));
            }
            if tileset.tiles[i].0 == tileset.starting_tile {
                starting_tile_id = Some(i);
            }
            i += 1;
        }
        let start = match starting_tile_id {
            Some(s) => s,
            None => {
                proof {
                    let c = choose|c: int|
                        0 <= c < tileset.tiles@.len() && (#[trigger] tileset.tiles@[c]).0@
                            == tileset.starting_tile@;
                    assert(tileset.tiles@[c].0@ != tileset.starting_tile@);
                }
                0
            },
        };
        proof {
            let c = starting_position(tileset);
            if c != start {
                if c < start {
                    assert(tileset.tiles@[c].0@ != tileset.tiles@[start as int].0@);
                } else {
                    assert(tileset.tiles@[start as int].0@ != tileset.tiles@[c].0@);
                }
            }
            assert(bag.take(n as int) == bag);
        }
        let mut followers_left: Vec<u32> = Vec::new();
        let mut score: Vec<u32> = Vec::new();
        let mut p: u32 = 0;
        while p < settings.number_players
            invariant
                p <= settings.number_players,
                followers_left@ == Seq::new(p as nat, |i: int| settings.number_followers),
                score@ == Seq::new(p as nat, |i: int| 0u32),
            decreases settings.number_players - p,
        {
            followers_left.push(settings.number_followers);
            score.push(0);
            p += 1;
        }
        let mut game = Game {
            move_num: 0,
            map: PixelMap::new(init_map_size),
            tiles,
            tiles_left,
            free_places: Vec::new(),
            followers: Vec::new(),
            followers_left,
            score,
            settings,
            rng: thread_rng(),
        };
        let ghost m0 = game.map;
        let starting_tile = game.tiles[start];
        let starting_place = Place { x: 0, y: 0 };
        game.copy_tile(&starting_tile, Rotation::Rot0, starting_place);
        game.tiles_left.take(&TileId(start as u32));
        game.free_places.push(starting_place.neighbour(&OrdinalDirection::North));
        game.free_places.push(starting_place.neighbour(&OrdinalDirection::East));
        game.free_places.push(starting_place.neighbour(&OrdinalDirection::South));
        game.free_places.push(starting_place.neighbour(&OrdinalDirection::West));
        proof {
            assert(game.free_places@ =~= seq![place_at(0, -1), place_at(1, 0), place_at(0, 1), place_at(-1, 0)]);
            assert(place_at(0, 0) == starting_place);
        }
        game
    }
}

pub open spec fn key_position_some(s: Seq<(u32, u32)>, k: u32) -> bool {
    exists|c: int| 0 <= c < s.len() && #[trigger] s[c].0 == k
}

/// The followers after a follower of `p` is put on `idx`; a follower already
/// standing there changes owner.
pub open spec fn place_follower(fs: Seq<(Index, PlayerId)>, idx: Index, p: PlayerId) -> Seq<(Index, PlayerId)> {
    if exists|k: int| 0 <= k < fs.len() && (#[trigger] fs[k]).0 == idx {
        fs.update(choose|k: int| 0 <= k < fs.len() && (#[trigger] fs[k]).0 == idx, (idx, p))
    } else {
        fs.push((idx, p))
    }
}

/// The followers in hand after player `p` puts one down.
pub open spec fn take_follower(left: Seq<u32>, p: PlayerId) -> Seq<u32> {
    if p.0 < left.len() {
        left.update(p.0 as int, (left[p.0 as int] - 1) as u32)
    } else {
        left
    }
}

/// `base` extended by each place of `extra` that it does not hold yet, in order.
pub open spec fn add_places(base: Seq<Place>, extra: Seq<Place>) -> Seq<Place>
    decreases extra.len(),
{
    if extra.len() == 0 {
        base
    } else if add_places(base, extra.drop_last()).contains(extra.last()) {
        add_places(base, extra.drop_last())
    } else {
        add_places(base, extra.drop_last()).push(extra.last())
    }
}

/// The empty places north, east, south and west of `p`, in that order.
pub open spec fn empty_sides(m: PixelMap, p: Place) -> Seq<Place> {
    seq![
        spec_neighbour(p, OrdinalDirection::North),
        spec_neighbour(p, OrdinalDirection::East),
        spec_neighbour(p, OrdinalDirection::South),
        spec_neighbour(p, OrdinalDirection::West),
    ].filter(|q: Place| !spec_occupied(m, q))
}

/// The free places after a tile is put on `p`: `p` leaves, and each empty side
/// neighbour that is not free yet joins.
pub open spec fn free_after(free: Seq<Place>, p: Place, m: PixelMap) -> Seq<Place> {
    add_places(without_place(free, p), empty_sides(m, p))
}

/// `free` without the place `p`.
pub open spec fn without_place(free: Seq<Place>, p: Place) -> Seq<Place> {
    free.filter(other_than(p))
}

pub open spec fn other_than(p: Place) -> spec_fn(Place) -> bool {
    |q: Place| q != p
}

/// Scores, in order, each completed structure of `ss`.
pub open spec fn scored(
    score: Seq<u32>,
    left: Seq<u32>,
    fs: Seq<(Index, PlayerId)>,
    ss: Seq<Structure>,
) -> (Seq<u32>, Seq<u32>, Seq<(Index, PlayerId)>)
    decreases ss.len(),
{
    if ss.len() == 0 {
        (score, left, fs)
    } else {
        let prev = scored(score, left, fs, ss.drop_last());
        if ss.last().completed {
            (
                scores_after(prev.0, ss.last()),
                left_after(prev.1, ss.last()),
                followers_after(prev.2, ss.last()),
            )
        } else {
            prev
        }
    }
}

proof fn lemma_filter_keeps_distinct(fs: Seq<(Index, PlayerId)>, f: spec_fn((Index, PlayerId)) -> bool)
    requires
        distinct_follower_positions(fs),
    ensures
        distinct_follower_positions(fs.filter(f)),
        fs.filter(f).len() <= fs.len(),
    decreases fs.len(),
{
    reveal(Seq::filter);
    fs.lemma_filter_len(f);
    if fs.len() > 0 {
        let init = fs.drop_last();
        assert(distinct_follower_positions(init));
        lemma_filter_keeps_distinct(init, f);
        let fi = init.filter(f);
        if f(fs.last()) {
            assert(fs.filter(f) == fi.push(fs.last()));
            assert forall|a: int, b: int| 0 <= a < b < fi.len() + 1 implies #[trigger] fs.filter(f)[a].0 != #[trigger] fs.filter(f)[b].0 by {
                if b == fi.len() {
                    init.lemma_filter_contains_rev(f, fi[a]);
                    let k = choose|k: int| 0 <= k < init.len() && init[k] == fi[a];
                    assert(fs[k].0 != fs[fs.len() - 1].0);
                }
            }
        } else {
            assert(fs.filter(f) == fi);
        }
    }
}

impl Game {
    /// The structures touched by the tile at `place`.
    pub fn get_structures(&self, place: &Place, in_game: bool) -> (r: Vec<Structure>)
        requires
            self.wf(),
            -0xFFFFF <= place.x <= 0xFFFFF,
            -0xFFFFF <= place.y <= 0xFFFFF,
        ensures
            structures_of(self.spec_map(), self.spec_followers(), self.spec_settings(), *place, in_game, r@),
    {
        crate::structures::get_structures(&self.map, &self.followers, &self.settings, place, in_game)
    }

    /// Scores `structure`: its top players gain its points, and its followers
    /// go back to their owners.
    fn score_structure(&mut self, structure: &Structure)
        requires
            old(self).wf(),
            distinct_players(structure.followers_number@),
        ensures
            final(self).wf(),
            final(self).spec_score() == scores_after(old(self).spec_score(), *structure),
            final(self).spec_followers_left() == left_after(old(self).spec_followers_left(), *structure),
            final(self).spec_followers() == followers_after(old(self).spec_followers(), *structure),
            final(self).spec_map() == old(self).spec_map(),
            final(self).spec_move_num() == old(self).spec_move_num(),
            final(self).spec_tiles() == old(self).spec_tiles(),
            final(self).spec_tiles_left() == old(self).spec_tiles_left(),
            final(self).spec_free_places() == old(self).spec_free_places(),
            final(self).spec_settings() == old(self).spec_settings(),
    {
        apply_structure(&mut self.score, &mut self.followers_left, &mut self.followers, structure);
        proof {
            lemma_filter_keeps_distinct(old(self).followers@, |e: (Index, PlayerId)| !structure.followers_idx@.contains(e.0));
        }
    }
}

/// Scoring the structures that a tile touched, in some order in which
/// `structures_of` lists them, turns the given state into the final one.
pub open spec fn scoring_outcome(
    m: PixelMap,
    st: GameSettings,
    place: Place,
    score: Seq<u32>,
    left: Seq<u32>,
    fs: Seq<(Index, PlayerId)>,
    result: (Seq<u32>, Seq<u32>, Seq<(Index, PlayerId)>),
) -> bool {
    exists|ss: Seq<Structure>| #[trigger] structures_of(m, fs, st, place, true, ss) && scored(score, left, fs, ss) == result
}

proof fn lemma_distinct_places_filter(s: Seq<Place>, f: spec_fn(Place) -> bool)
    requires
        distinct_places(s),
    ensures
        distinct_places(s.filter(f)),
        forall|q: Place| s.filter(f).contains(q) ==> s.contains(q) && f(q),
    decreases s.len(),
{
    reveal(Seq::filter);
    assert forall|q: Place| s.filter(f).contains(q) implies s.contains(q) && f(q) by {
        s.lemma_filter_contains_rev(f, q);
        let k = choose|k: int| 0 <= k < s.filter(f).len() && s.filter(f)[k] == q;
        assert(f(s.filter(f)[k]));
    }
    if s.len() > 0 {
        let init = s.drop_last();
        lemma_distinct_places_filter(init, f);
        let fi = init.filter(f);
        if f(s.last()) {
            assert(s.filter(f) == fi.push(s.last()));
            assert forall|a: int, b: int| 0 <= a < b < fi.len() + 1 implies #[trigger] s.filter(f)[a] != #[trigger] s.filter(f)[b] by {
                if b == fi.len() {
                    assert(fi.contains(fi[a]));
                    init.lemma_filter_contains_rev(f, fi[a]);
                    let k = choose|k: int| 0 <= k < init.len() && init[k] == fi[a];
                    assert(s[k] != s[s.len() - 1]);
                }
            }
        } else {
            assert(s.filter(f) == fi);
        }
    }
}

impl Game {
    fn remove_free_place(&mut self, place: Place)
        requires
            old(self).wf(),
        ensures
            final(self).wf(),
            final(self).spec_free_places() == without_place(old(self).spec_free_places(), place),
            final(self).spec_map() == old(self).spec_map(),
            final(self).spec_move_num() == old(self).spec_move_num(),
            final(self).spec_tiles() == old(self).spec_tiles(),
            final(self).spec_tiles_left() == old(self).spec_tiles_left(),
            final(self).spec_followers() == old(self).spec_followers(),
            final(self).spec_followers_left() == old(self).spec_followers_left(),
            final(self).spec_score() == old(self).spec_score(),
            final(self).spec_settings() == old(self).spec_settings(),
    {
        let ghost f = other_than(place);
        let ghost v0 = self.free_places@;
        let mut kept: Vec<Place> = Vec::new();
        let mut i: usize = 0;
        while i < self.free_places.len()
            invariant
                self.free_places@ == v0,
                f == other_than(place),
                i <= v0.len(),
                kept@ == v0.take(i as int).filter(f),
            decreases v0.len() - i,
        {
            let q = self.free_places[i];
            proof {
                assert(v0.take(i as int + 1) == v0.take(i as int).push(q));
                v0.take(i as int).lemma_filter_push(q, f);
            }
            if q != place {
                kept.push(q);
            }
            i += 1;
        }
        proof {
            assert(v0.take(v0.len() as int) == v0);
            lemma_distinct_places_filter(v0, f);
            assert(kept@ == v0.filter(f));
            assert forall|i: int| 0 <= i < kept@.len() implies place_writable(#[trigger] kept@[i]) by {
                let q = kept@[i];
                assert(v0.filter(f)[i] == q);
                assert(v0.filter(f).contains(q));
                assert(v0.contains(q));
                let k = choose|k: int| 0 <= k < v0.len() && v0[k] == q;
                assert(place_writable(old(self).spec_free_places()[k]));
            }
        }
        self.free_places = kept;
    }

    fn add_free_places(&mut self, extra: &Vec<Place>)
        requires
            old(self).wf(),
            forall|i: int| 0 <= i < extra@.len() ==> place_writable(#[trigger] extra@[i]),
        ensures
            final(self).wf(),
            final(self).spec_free_places() == add_places(old(self).spec_free_places(), extra@),
            final(self).spec_map() == old(self).spec_map(),
            final(self).spec_move_num() == old(self).spec_move_num(),
            final(self).spec_tiles() == old(self).spec_tiles(),
            final(self).spec_tiles_left() == old(self).spec_tiles_left(),
            final(self).spec_followers() == old(self).spec_followers(),
            final(self).spec_followers_left() == old(self).spec_followers_left(),
            final(self).spec_score() == old(self).spec_score(),
            final(self).spec_settings() == old(self).spec_settings(),
    {
        let ghost g0 = *self;
        let mut i: usize = 0;
        while i < extra.len()
            invariant
                self.wf(),
                same_except_free(g0, *self),
                forall|i: int| 0 <= i < extra@.len() ==> place_writable(#[trigger] extra@[i]),
                i <= extra@.len(),
                self.free_places@ == add_places(g0.free_places@, extra@.take(i as int)),
            decreases extra@.len() - i,
        {
            let q = extra[i];
            proof {
                assert(extra@.take(i as int + 1).drop_last() == extra@.take(i as int));
                assert(extra@.take(i as int + 1).last() == q);
            }
            if !contains_place(&self.free_places, q) {
                let ghost before = self.free_places@;
                self.free_places.push(q);
                proof {
                    assert forall|a: int, b: int| 0 <= a < b < self.free_places@.len() implies #[trigger] self.free_places@[a] != #[trigger] self.free_places@[b] by {
                        if b == before.len() {
                            assert(before[a] != q) by {
                                if before[a] == q {
                                    assert(before.contains(q));
                                }
                            }
                        }
                    }
                }
            }
            i += 1;
        }
        proof {
            assert(extra@.take(extra@.len() as int) == extra@);
        }
    }

    fn put_follower(&mut self, idx: Index, player: PlayerId)
        requires
            old(self).wf(),
            old(self).spec_followers().len() < old(self).spec_move_num(),
        ensures
            final(self).wf(),
            final(self).spec_followers() == place_follower(old(self).spec_followers(), idx, player),
            final(self).spec_map() == old(self).spec_map(),
            final(self).spec_move_num() == old(self).spec_move_num(),
            final(self).spec_tiles() == old(self).spec_tiles(),
            final(self).spec_tiles_left() == old(self).spec_tiles_left(),
            final(self).spec_free_places() == old(self).spec_free_places(),
            final(self).spec_followers_left() == old(self).spec_followers_left(),
            final(self).spec_score() == old(self).spec_score(),
            final(self).spec_settings() == old(self).spec_settings(),
    {
        let ghost fs0 = self.followers@;
        match follower_position(&self.followers, idx) {
            Some(k) => {
                self.followers.set(k, (idx, player));
                proof {
                    let c = choose|c: int| 0 <= c < fs0.len() && (#[trigger] fs0[c]).0 == idx;
                    if c != k {
                        if c < k {
                            assert(fs0[c].0 != fs0[k as int].0);
                        } else {
                            assert(fs0[k as int].0 != fs0[c].0);
                        }
                    }
                    assert forall|a: int, b: int| 0 <= a < b < self.followers@.len() implies #[trigger] self.followers@[a].0 != #[trigger] self.followers@[b].0 by {
                        assert(fs0[a].0 != fs0[b].0);
                    }
                }
            },
            None => {
                self.followers.push((idx, player));
                proof {
                    assert forall|a: int, b: int| 0 <= a < b < self.followers@.len() implies #[trigger] self.followers@[a].0 != #[trigger] self.followers@[b].0 by {
                        if b == fs0.len() {
                            assert(fs0[a].0 != idx);
                        } else {
                            assert(fs0[a].0 != fs0[b].0);
                        }
                    }
                }
            },
        }
    }

    /// Plays `mov`: its tile goes on the board, a follower is put down if it
    /// carries one, and every structure that the tile completes is scored.
    /// A move made for another move number is refused and changes nothing.
    pub fn play_move(&mut self, mov: Move) -> (r: Result<(), TileError>)
        requires
            old(self).wf(),
            old(self).spec_move_num() == mov.move_num ==> {
                &&& place_playable(mov.place)
                &&& mov.tile.0 < old(self).spec_tiles().len()
                &&& old(self).spec_move_num() < u32::MAX
                &&& mov.follower is Some && mov.player.0 < old(self).spec_followers_left().len()
                    ==> old(self).spec_followers_left()[mov.player.0 as int] > 0
            },
        ensures
            final(self).wf(),
            old(self).spec_move_num() != mov.move_num ==> r == Err::<(), TileError>(TileError::StaleMove) && *final(self) == *old(self),
            old(self).spec_move_num() == mov.move_num ==> r is Ok && move_played(*old(self), *final(self), mov),
            old(self).spec_move_num() == mov.move_num ==> keeps_followers(*old(self), *final(self), mov),
            old(self).spec_move_num() == mov.move_num && followers_balanced(*old(self)) && (mov.follower matches Some(f)
                ==> !follower_on(old(self).spec_followers(), f) && mov.player.0 < old(self).spec_followers_left().len())
                && cloisters_apart(final(self).spec_map(), followers_put(*old(self), mov), old(self).spec_settings(), mov.place)
                ==> followers_balanced(*final(self)),
    {
        if self.move_num != mov.move_num {
            return Err(TileError::StaleMove);
        }
        let ghost g0 = *self;
        self.move_num = self.move_num + 1;
        let tile = self.tiles[mov.tile.0 as usize];
        self.tiles_left.take(&mov.tile);
        self.copy_tile(&tile, mov.rotation, mov.place);
        self.remove_free_place(mov.place);
        let empties = self.empty_neighbour_places(&mov.place);
        proof {
            assert forall|i: int| 0 <= i < empties@.len() implies place_writable(#[trigger] empties@[i]) by {
                let all = seq![
                    spec_neighbour(mov.place, OrdinalDirection::North),
                    spec_neighbour(mov.place, OrdinalDirection::East),
                    spec_neighbour(mov.place, OrdinalDirection::South),
                    spec_neighbour(mov.place, OrdinalDirection::West),
                ];
                let f = |q: Place| !spec_occupied(self.spec_map(), q);
                assert(all.filter(f).contains(empties@[i]));
                all.lemma_filter_contains_rev(f, empties@[i]);
            }
        }
        let ghost removed = self.spec_free_places();
        proof {
            assert(removed == without_place(g0.spec_free_places(), mov.place));
            assert(empties@ == empty_sides(self.spec_map(), mov.place));
        }
        self.add_free_places(&empties);
        proof {
            assert(self.spec_free_places() == add_places(removed, empties@));
        }
        if let Some(f) = mov.follower {
            self.put_follower(f, mov.player);
            let pi = mov.player.0 as usize;
            if pi < self.followers_left.len() {
                let v = self.followers_left[pi] - 1;
                self.followers_left.set(pi, v);
            }
        }
        let ghost mid = *self;
        proof {
            assert(mid.spec_free_places() == free_after(g0.spec_free_places(), mov.place, mid.spec_map()));
        }
        let structures = self.get_structures(&mov.place, true);
        let mut i: usize = 0;
        while i < structures.len()
            invariant
                self.wf(),
                structures_of(mid.spec_map(), mid.spec_followers(), mid.spec_settings(), mov.place, true, structures@),
                i <= structures@.len(),
                (self.spec_score(), self.spec_followers_left(), self.spec_followers()) == scored(
                    mid.spec_score(),
                    mid.spec_followers_left(),
                    mid.spec_followers(),
                    structures@.take(i as int),
                ),
                self.spec_map() == mid.spec_map(),
                self.spec_move_num() == mid.spec_move_num(),
                self.spec_tiles() == mid.spec_tiles(),
                self.spec_tiles_left() == mid.spec_tiles_left(),
                self.spec_free_places() == mid.spec_free_places(),
                self.spec_settings() == mid.spec_settings(),
            decreases structures@.len() - i,
        {
            proof {
                assert(structures@.take(i as int + 1).drop_last() == structures@.take(i as int));
                assert(structures@.take(i as int + 1).last() == structures@[i as int]);
            }
            if structures[i].completed {
                proof {
                    lemma_structures_distinct(mid.spec_map(), mid.spec_followers(), mid.spec_settings(), mov.place, true, structures@, i as int);
                }
                self.score_structure(&structures[i]);
            }
            i += 1;
        }
        proof {
            assert(structures@.take(structures@.len() as int) == structures@);
            assert(structures_of(mid.spec_map(), mid.spec_followers(), mid.spec_settings(), mov.place, true, structures@));
            assert(move_played(g0, *self, mov));
            lemma_move_keeps_all(g0, *self, mov);
            if followers_balanced(g0) && (mov.follower matches Some(f) ==> !follower_on(g0.spec_followers(), f)
                && mov.player.0 < g0.spec_followers_left().len()) && cloisters_apart(
                self.spec_map(),
                followers_put(g0, mov),
                g0.spec_settings(),
                mov.place,
            ) {
                lemma_move_keeps_balance(g0, *self, mov);
            }
        }
        Ok(())
    }
}

/// Where the follower standing on `idx` is listed.
fn follower_position(fs: &Vec<(Index, PlayerId)>, idx: Index) -> (r: Option<usize>)
    ensures
        r matches Some(k) ==> k < fs@.len() && fs@[k as int].0 == idx,
        r is None ==> forall|j: int| 0 <= j < fs@.len() ==> (#[trigger] fs@[j]).0 != idx,
{
    let mut k: usize = 0;
    while k < fs.len()
        invariant
            k <= fs@.len(),
            forall|j: int| 0 <= j < k ==> (#[trigger] fs@[j]).0 != idx,
        decreases fs@.len() - k,
    {
        if fs[k].0 == idx {
            return Some(k);
        }
        k += 1;
    }
    None
}

/// `after` is `before` with `mov` played: the move number goes up, the tile is
/// painted and taken from the bag, the free places move on, the follower (if
/// any) is put down, and the structures the tile completes are scored.
pub open spec fn move_played(before: Game, after: Game, mov: Move) -> bool {
    let m = after.spec_map();
    let fs_mid = match mov.follower {
        Some(f) => place_follower(before.spec_followers(), f, mov.player),
        None => before.spec_followers(),
    };
    let left_mid = match mov.follower {
        Some(f) => take_follower(before.spec_followers_left(), mov.player),
        None => before.spec_followers_left(),
    };
    &&& after.spec_move_num() == before.spec_move_num() + 1
    &&& painted(before.spec_map(), m, before.spec_tiles()[mov.tile.0 as int], mov.rotation, mov.place)
    &&& after.spec_tiles() == before.spec_tiles()
    &&& after.spec_tiles_left().entries() == spec_take(before.spec_tiles_left().entries(), mov.tile.0)
    &&& after.spec_free_places() == free_after(before.spec_free_places(), mov.place, m)
    &&& after.spec_settings() == before.spec_settings()
    &&& scoring_outcome(
        m,
        before.spec_settings(),
        mov.place,
        before.spec_score(),
        left_mid,
        fs_mid,
        (after.spec_score(), after.spec_followers_left(), after.spec_followers()),
    )
}

/// Tile `t` as drawn equals tile `cand` turned by `r`.
pub open spec fn tile_matches(t: Tile, cand: Tile, r: Rotation) -> bool {
    forall|y: int, x: int| 0 <= y < 5 && 0 <= x < 5 ==> #[trigger] tile_at(t, y, x, Rotation::Rot0) == tile_at(cand, y, x, r)
}

pub open spec fn rot_of(k: int) -> Rotation {
    if k == 0 {
        Rotation::Rot0
    } else if k == 1 {
        Rotation::Rot1
    } else if k == 2 {
        Rotation::Rot2
    } else {
        Rotation::Rot3
    }
}

/// Tile kind `id` turned by rotation number `k` is the first match of `t`,
/// trying kinds in order and, for each, rotations in order.
pub open spec fn first_match(tiles: Seq<Tile>, t: Tile, id: int, k: int) -> bool {
    &&& 0 <= id < tiles.len()
    &&& 0 <= k < 4
    &&& tile_matches(t, tiles[id], rot_of(k))
    &&& forall|i: int, j: int|
        0 <= i < tiles.len() && 0 <= j < 4 && (i < id || (i == id && j < k)) ==> !#[trigger] tile_matches(t, tiles[i], rot_of(j))
}

/// The move that puts tile kind `id`, turned by `r`, on `place`, with the
/// follower (given within the tile) moved to board pixels.
pub open spec fn custom_move(g: Game, place: Place, id: int, r: Rotation, follower: Option<Index>, player: PlayerId) -> Move {
    Move {
        move_num: g.spec_move_num(),
        place,
        tile: TileId(id as u32),
        rotation: r,
        follower: match follower {
            Some(f) => Some(Index { x: (f.x + place.x * 5) as isize, y: (f.y + place.y * 5) as isize }),
            None => None,
        },
        player,
    }
}

fn tile_equals(t: &Tile, cand: &Tile, r: Rotation) -> (b: bool)
    ensures
        b == tile_matches(*t, *cand, r),
{
    let mut y: usize = 0;
    while y < 5
        invariant
            y <= 5,
            forall|yy: int, x: int| 0 <= yy < y && 0 <= x < 5 ==> #[trigger] tile_at(*t, yy, x, Rotation::Rot0) == tile_at(*cand, yy, x, r),
        decreases 5 - y,
    {
        let mut x: usize = 0;
        while x < 5
            invariant
                y < 5,
                x <= 5,
                forall|yy: int, xx: int| (0 <= yy < y && 0 <= xx < 5) || (yy == y && 0 <= xx < x) ==> #[trigger] tile_at(*t, yy, xx, Rotation::Rot0) == tile_at(*cand, yy, xx, r),
            decreases 5 - x,
        {
            if t.pixel(y, x, Rotation::Rot0) != cand.pixel(y, x, r) {
                return false;
            }
            x += 1;
        }
        y += 1;
    }
    true
}

/// Every field but the free places is the same in both games.
spec fn same_except_free(a: Game, b: Game) -> bool {
    &&& a.move_num == b.move_num
    &&& a.map == b.map
    &&& a.tiles == b.tiles
    &&& a.tiles_left == b.tiles_left
    &&& a.followers == b.followers
    &&& a.followers_left == b.followers_left
    &&& a.score == b.score
    &&& a.settings == b.settings
}

/// Tile `tile`, as drawn, is recognised as one of the kinds of `g` and fits
/// at `place` in the rotation recognised first.
pub open spec fn custom_fits(g: Game, place: Place, tile: Tile) -> bool {
    exists|id: int, k: int|
        #[trigger] first_match(g.spec_tiles(), tile, id, k) && spec_check_tile(g, g.spec_tiles()[id], place, rot_of(k)) is Ok
}

impl Game {
    /// Plays tile `tile`, as drawn, on `place`: it is recognised as one of the
    /// game's tile kinds in some rotation, checked against its neighbours, and
    /// played with the follower (given as a pixel of the tile) for `player`.
    pub fn play_custom_move(&mut self, place: &Place, tile: Tile, follower: Option<Index>, player: PlayerId) -> (r: Result<(), TileError>)
        requires
            old(self).wf(),
            place_readable(*place),
            custom_fits(*old(self), *place, tile) ==> {
                &&& place_playable(*place)
                &&& old(self).spec_move_num() < u32::MAX
                &&& follower matches Some(f) ==> isize::MIN <= f.x + place.x * 5 <= isize::MAX && isize::MIN <= f.y
                    + place.y * 5 <= isize::MAX
                &&& follower is Some && player.0 < old(self).spec_followers_left().len()
                    ==> old(self).spec_followers_left()[player.0 as int] > 0
            },
        ensures
            final(self).wf(),
            (forall|i: int, k: int| 0 <= i < old(self).spec_tiles().len() && 0 <= k < 4 ==> !#[trigger] tile_matches(tile, old(self).spec_tiles()[i], rot_of(k)))
                ==> r == Err::<(), TileError>(TileError::BadTile) && *final(self) == *old(self),
            forall|id: int, k: int| #[trigger] first_match(old(self).spec_tiles(), tile, id, k) ==> {
                let check = spec_check_tile(*old(self), old(self).spec_tiles()[id], *place, rot_of(k));
                &&& check is Err ==> r == check && *final(self) == *old(self)
                &&& check is Ok ==> r is Ok && move_played(*old(self), *final(self), custom_move(*old(self), *place, id, rot_of(k), follower, player))
            },
    {
        let rots = crate::direction::Rotation::all();
        let mut found: Option<(usize, usize)> = None;
        let mut i: usize = 0;
        while i < self.tiles.len()
            invariant_except_break
                found is None,
            invariant
                i <= self.tiles@.len(),
                rots@ == seq![Rotation::Rot0, Rotation::Rot1, Rotation::Rot2, Rotation::Rot3],
                forall|a: int, j: int| 0 <= a < i && 0 <= j < 4 ==> !#[trigger] tile_matches(tile, self.tiles@[a], rot_of(j)),
            ensures
                found matches Some(fk) ==> first_match(self.tiles@, tile, fk.0 as int, fk.1 as int),
                found is None ==> forall|a: int, j: int| 0 <= a < self.tiles@.len() && 0 <= j < 4 ==> !#[trigger] tile_matches(tile, self.tiles@[a], rot_of(j)),
            decreases self.tiles@.len() - i,
        {
            let mut k: usize = 0;
            while k < 4
                invariant_except_break
                    found is None,
                invariant
                    i < self.tiles@.len(),
                    k <= 4,
                    rots@ == seq![Rotation::Rot0, Rotation::Rot1, Rotation::Rot2, Rotation::Rot3],
                    forall|a: int, j: int| 0 <= a < i && 0 <= j < 4 ==> !#[trigger] tile_matches(tile, self.tiles@[a], rot_of(j)),
                    forall|j: int| 0 <= j < k ==> !tile_matches(tile, self.tiles@[i as int], #[trigger] rot_of(j)),
                ensures
                    found matches Some(fk) ==> first_match(self.tiles@, tile, fk.0 as int, fk.1 as int),
                    found is None ==> forall|j: int| 0 <= j < 4 ==> !tile_matches(tile, self.tiles@[i as int], #[trigger] rot_of(j)),
                decreases 4 - k,
            {
                proof {
                    assert(rots@[k as int] == rot_of(k as int));
                }
                if tile_equals(&tile, &self.tiles[i], rots[k]) {
                    found = Some((i, k));
                    proof {
                        assert forall|a: int, j: int|
                            0 <= a < self.tiles@.len() && 0 <= j < 4 && (a < i || (a == i && j < k)) implies !#[trigger] tile_matches(tile, self.tiles@[a], rot_of(j)) by {
                            if a == i {
                                assert(!tile_matches(tile, self.tiles@[i as int], rot_of(j)));
                            }
                        }
                    }
                    break;
                }
                k += 1;
            }
            if found.is_some() {
                break;
            }
            proof {
                assert forall|a: int, j: int| 0 <= a < i + 1 && 0 <= j < 4 implies !#[trigger] tile_matches(tile, self.tiles@[a], rot_of(j)) by {
                    if a == i {
                        assert(!tile_matches(tile, self.tiles@[i as int], rot_of(j)));
                    }
                }
            }
            i += 1;
        }
        match found {
            None => Err(TileError::BadTile),
            Some((id, k)) => {
                proof {
                    assert forall|id2: int, k2: int| #[trigger] first_match(self.tiles@, tile, id2, k2) implies id2 == id && k2 == k by {
                        if id2 < id || (id2 == id && k2 < k) {
                            assert(!tile_matches(tile, self.tiles@[id2], rot_of(k2)));
                        } else if id < id2 || (id == id2 && k < k2) {
                            assert(!tile_matches(tile, self.tiles@[id as int], rot_of(k as int)));
                        }
                    }
                    assert(rots@[k as int] == rot_of(k as int));
                }
                let rot = rots[k];
                let cand = self.tiles[id];
                let check = self.check_tile(&cand, place, &rot);
                if check.is_err() {
                    return check;
                }
                proof {
                    assert(first_match(self.spec_tiles(), tile, id as int, k as int));
                    assert(custom_fits(*self, *place, tile));
                }
                let f = match follower {
                    Some(f) => Some(Index { x: f.x + place.x * 5, y: f.y + place.y * 5 }),
                    None => None,
                };
                let mov = Move { move_num: self.move_num, place: *place, tile: TileId(id as u32), rotation: rot, follower: f, player };
                proof {
                    assert(mov == custom_move(*self, *place, id as int, rot_of(k as int), follower, player));
                }
                self.play_move(mov)
            },
        }
    }
}

/// Scores the structures `ss` one after the other.
pub open spec fn end_run(
    score: Seq<u32>,
    left: Seq<u32>,
    fs: Seq<(Index, PlayerId)>,
    ss: Seq<Structure>,
) -> (Seq<u32>, Seq<u32>, Seq<(Index, PlayerId)>)
    decreases ss.len(),
{
    if ss.len() == 0 {
        (score, left, fs)
    } else {
        let p = end_run(score, left, fs, ss.drop_last());
        (scores_after(p.0, ss.last()), left_after(p.1, ss.last()), followers_after(p.2, ss.last()))
    }
}

/// Each structure of `ss` is the one holding the first follower still on the
/// board when its turn comes.
pub open spec fn end_steps(
    m: PixelMap,
    st: GameSettings,
    score: Seq<u32>,
    left: Seq<u32>,
    fs: Seq<(Index, PlayerId)>,
    ss: Seq<Structure>,
) -> bool
    decreases ss.len(),
{
    if ss.len() == 0 {
        true
    } else {
        let p = end_run(score, left, fs, ss.drop_last());
        &&& end_steps(m, st, score, left, fs, ss.drop_last())
        &&& p.2.len() > 0
        &&& structure_for(m, p.2, st, false, p.2[0].0, ss.last())
    }
}

/// Filtering twice keeps what both filters keep.
proof fn lemma_filter_twice(
    s: Seq<(Index, PlayerId)>,
    a: spec_fn((Index, PlayerId)) -> bool,
    b: spec_fn((Index, PlayerId)) -> bool,
)
    ensures
        s.filter(a).filter(b) == s.filter(|e: (Index, PlayerId)| a(e) && b(e)),
    decreases s.len(),
{
    reveal(Seq::filter);
    if s.len() > 0 {
        let d = s.drop_last();
        let e = s.last();
        lemma_filter_twice(d, a, b);
        if a(e) {
            d.filter(a).lemma_filter_push(e, b);
        }
    }
}

/// A filter that keeps every item keeps the sequence.
proof fn lemma_filter_keeps_all(s: Seq<(Index, PlayerId)>, a: spec_fn((Index, PlayerId)) -> bool)
    requires
        forall|k: int| 0 <= k < s.len() ==> a(#[trigger] s[k]),
    ensures
        s.filter(a) == s,
    decreases s.len(),
{
    reveal(Seq::filter);
    if s.len() > 0 {
        let d = s.drop_last();
        assert forall|k: int| 0 <= k < d.len() implies a(#[trigger] d[k]) by {
            assert(d[k] == s[k]);
        }
        lemma_filter_keeps_all(d, a);
        assert(a(s[s.len() - 1]));
        assert(d.push(s.last()) == s);
    }
}

/// The followers that no completed structure among the first `n` of `ss`
/// takes, `xs` giving the positions each one takes.
pub open spec fn untaken(ss: Seq<Structure>, xs: Seq<Set<Index>>, n: int) -> spec_fn((Index, PlayerId)) -> bool {
    |e: (Index, PlayerId)| forall|i: int| 0 <= i < n && ss[i].completed ==> !xs[i].contains(e.0)
}

/// Scoring structures in turn, each taking the followers of `fs` on its
/// positions `xs[j]`, no follower on the positions of two completed ones,
/// hands every follower back: for each player, followers in hand plus
/// followers on the board stay the same (while that sum fits in a `u32`),
/// and the followers left on the board are those no completed structure took.
pub proof fn lemma_scored_keeps_followers(
    score: Seq<u32>,
    left: Seq<u32>,
    fs: Seq<(Index, PlayerId)>,
    ss: Seq<Structure>,
    xs: Seq<Set<Index>>,
    p: int,
)
    requires
        xs.len() == ss.len(),
        forall|j: int| 0 <= j < ss.len() ==> #[trigger] takes(fs, xs[j], ss[j]),
        forall|i: int, j: int, k: int|
            0 <= i < ss.len() && 0 <= j < ss.len() && i != j && ss[i].completed && ss[j].completed && 0 <= k < fs.len()
                && #[trigger] xs[i].contains(fs[k].0) ==> !#[trigger] xs[j].contains(fs[k].0),
        0 <= p < left.len() <= u32::MAX + 1,
        left[p] + count_of(fs, PlayerId(p as u32)) <= u32::MAX,
    ensures
        scored(score, left, fs, ss).1.len() == left.len(),
        scored(score, left, fs, ss).2 == fs.filter(untaken(ss, xs, ss.len() as int)),
        scored(score, left, fs, ss).1[p] + count_of(scored(score, left, fs, ss).2, PlayerId(p as u32)) == left[p]
            + count_of(fs, PlayerId(p as u32)),
    decreases ss.len(),
{
    let n = ss.len() as int;
    if n == 0 {
        lemma_filter_keeps_all(fs, untaken(ss, xs, 0));
    } else {
        let d = ss.drop_last();
        let xd = xs.drop_last();
        assert forall|j: int| 0 <= j < d.len() implies #[trigger] takes(fs, xd[j], d[j]) by {
            assert(takes(fs, xs[j], ss[j]));
        }
        assert forall|i: int, j: int, k: int|
            0 <= i < d.len() && 0 <= j < d.len() && i != j && d[i].completed && d[j].completed && 0 <= k < fs.len()
                && #[trigger] xd[i].contains(fs[k].0) implies !#[trigger] xd[j].contains(fs[k].0) by {
            assert(xs[i].contains(fs[k].0));
        }
        lemma_scored_keeps_followers(score, left, fs, d, xd, p);
        let prev = scored(score, left, fs, d);
        let q = untaken(ss, xs, n - 1);
        assert forall|k: int| 0 <= k < fs.len() implies untaken(d, xd, n - 1)(#[trigger] fs[k]) == q(fs[k]) by {
            assert forall|i: int| 0 <= i < n - 1 implies d[i] == ss[i] && xd[i] == xs[i] by {}
        }
        lemma_filter_congruent(fs, untaken(d, xd, n - 1), q);
        let last = ss[n - 1];
        let x = xs[n - 1];
        assert(ss.last() == last);
        if !last.completed {
            lemma_filter_congruent(fs, q, untaken(ss, xs, n));
        } else {
            let g = prev.2;
            let inx = |e: (Index, PlayerId)| x.contains(e.0);
            lemma_filter_twice(fs, q, inx);
            assert forall|k: int| 0 <= k < fs.len() implies (|e: (Index, PlayerId)| q(e) && inx(e))(#[trigger] fs[k]) == inx(
                fs[k],
            ) by {
                if inx(fs[k]) {
                    assert forall|i: int| 0 <= i < n - 1 && ss[i].completed implies !xs[i].contains(fs[k].0) by {
                        assert(xs[n - 1].contains(fs[k].0));
                    }
                }
            }
            lemma_filter_congruent(fs, |e: (Index, PlayerId)| q(e) && inx(e), inx);
            assert(followers_within(g, x) == followers_within(fs, x));
            assert(takes(fs, x, last));
            assert(takes(g, x, last));
            lemma_taking_returns_followers(g, x, last, prev.1, p);
            let within = followers_within(fs, x);
            let idx = last.followers_idx@;
            let notidx = |e: (Index, PlayerId)| !idx.contains(e.0);
            lemma_filter_twice(fs, q, notidx);
            assert forall|k: int| 0 <= k < fs.len() implies (|e: (Index, PlayerId)| q(e) && notidx(e))(#[trigger] fs[k])
                == untaken(ss, xs, n)(fs[k]) by {
                broadcast use vstd::seq_lib::group_filter_ensures;

                let e = fs[k];
                if x.contains(e.0) {
                    assert(within.contains(e));
                    let w = choose|w: int| 0 <= w < within.len() && within[w] == e;
                    assert(idx[w] == e.0);
                    assert(idx.contains(e.0));
                }
                if idx.contains(e.0) {
                    let w = choose|w: int| 0 <= w < idx.len() && idx[w] == e.0;
                    assert(within[w].0 == e.0);
                    assert(within.contains(within[w]));
                    fs.lemma_filter_contains_rev(inx, within[w]);
                }
            }
            lemma_filter_congruent(fs, |e: (Index, PlayerId)| q(e) && notidx(e), untaken(ss, xs, n));
        }
    }
}

/// The followers on the board once move `mov` has put its follower down,
/// before anything is scored.
pub open spec fn followers_put(g: Game, mov: Move) -> Seq<(Index, PlayerId)> {
    match mov.follower {
        Some(f) => place_follower(g.spec_followers(), f, mov.player),
        None => g.spec_followers(),
    }
}

/// The followers in hand once move `mov` has put its follower down.
pub open spec fn left_put(g: Game, mov: Move) -> Seq<u32> {
    match mov.follower {
        Some(f) => take_follower(g.spec_followers_left(), mov.player),
        None => g.spec_followers_left(),
    }
}

/// No structure grown from a seed of the tile at `place` reaches the centre
/// of a completed neighbouring cloister (where both would hand back the one
/// follower on it).
pub open spec fn cloisters_apart(m: PixelMap, fs: Seq<(Index, PlayerId)>, st: GameSettings, place: Place) -> bool {
    let ts = crate::structures::tile_seeds(m, st, place, 25);
    let cs = crate::structures::cloister_seeds(m, fs, place, true, 8);
    forall|i: int, j: int| 0 <= i < ts.len() && 0 <= j < cs.len() ==> !own_component(m, ts[i]).contains(cs[j])
}

/// Playing a move keeps every player's followers: those in hand plus those
/// on the board are as many after the move as before. This holds when the
/// move's follower goes on a position no follower holds, the sum fits in a
/// `u32`, and no structure of the placed tile reaches the centre of a
/// completed neighbouring cloister.
pub proof fn lemma_move_keeps_followers(before: Game, after: Game, mov: Move, q: int)
    requires
        before.wf(),
        place_readable(mov.place),
        move_played(before, after, mov),
        mov.follower matches Some(f) ==> !follower_on(before.spec_followers(), f) && mov.player.0
            < before.spec_followers_left().len() && before.spec_followers_left()[mov.player.0 as int] > 0,
        0 <= q < before.spec_followers_left().len(),
        before.spec_followers_left()[q] + count_of(before.spec_followers(), PlayerId(q as u32)) <= u32::MAX,
        cloisters_apart(after.spec_map(), followers_put(before, mov), before.spec_settings(), mov.place),
    ensures
        after.spec_followers_left()[q] + count_of(after.spec_followers(), PlayerId(q as u32)) == before.spec_followers_left()[q]
            + count_of(before.spec_followers(), PlayerId(q as u32)),
{
    let m = after.spec_map();
    let st = before.spec_settings();
    let place = mov.place;
    let fs = before.spec_followers();
    let left = before.spec_followers_left();
    let fm = followers_put(before, mov);
    let lm = left_put(before, mov);
    let pl = PlayerId(q as u32);
    assert(left.len() <= u32::MAX + 1);
    if let Some(f) = mov.follower {
        lemma_placing_keeps_followers(fs, left, f, mov.player, q);
        assert(fm == fs.push((f, mov.player)));
        assert forall|i: int, j: int| 0 <= i < j < fm.len() implies #[trigger] fm[i].0 != #[trigger] fm[j].0 by {
            if j == fs.len() {
                assert(fm[i] == fs[i]);
            } else {
                assert(fm[i] == fs[i] && fm[j] == fs[j]);
            }
        }
    }
    assert(distinct_follower_positions(fm));
    assert(lm[q] + count_of(fm, pl) == left[q] + count_of(fs, pl));
    let ss = choose|ss: Seq<Structure>|
        #[trigger] structures_of(m, fm, st, place, true, ss) && scored(before.spec_score(), lm, fm, ss) == (
            after.spec_score(),
            after.spec_followers_left(),
            after.spec_followers(),
        );
    let ts = crate::structures::tile_seeds(m, st, place, 25);
    let cs = crate::structures::cloister_seeds(m, fm, place, true, 8);
    let tl = ts.len() as int;
    let xs = Seq::new(
        ss.len(),
        |j: int|
            if j < tl {
                own_component(m, ts[j])
            } else {
                set![cs[j - tl]]
            },
    );
    crate::structures::lemma_cloister_seeds_from(m, fm, place, true, 8);
    assert forall|j: int| 0 <= j < ss.len() implies #[trigger] takes(fm, xs[j], ss[j]) by {
        if j < tl {
            assert(structure_for(m, fm, st, true, ts[j], ss[j]));
        } else {
            let c = j - tl;
            assert(crate::structures::cloister_structure(fm, cs[c], ss[tl + c]));
            let a = choose|a: int|
                0 <= a < 8 && #[trigger] cs[c] == crate::structures::cloister_index(place, ord_dir(a)) && follower_on(
                    fm,
                    crate::structures::cloister_index(place, ord_dir(a)),
                );
            crate::structures::lemma_cloister_takes(fm, cs[c], ss[j]);
        }
    }
    assert forall|i: int, j: int, k: int|
        0 <= i < ss.len() && 0 <= j < ss.len() && i != j && ss[i].completed && ss[j].completed && 0 <= k < fm.len()
            && #[trigger] xs[i].contains(fm[k].0) implies !#[trigger] xs[j].contains(fm[k].0) by {
        let y = fm[k].0;
        if i < tl && j < tl {
            if i < j {
                crate::structures::lemma_tile_seeds_apart(m, st, place, 25, i, j, y);
            } else {
                crate::structures::lemma_tile_seeds_apart(m, st, place, 25, j, i, y);
            }
        } else if i >= tl && j >= tl {
            if i < j {
                crate::structures::lemma_cloister_seeds_apart(m, fm, place, true, 8, i - tl, j - tl);
            } else {
                crate::structures::lemma_cloister_seeds_apart(m, fm, place, true, 8, j - tl, i - tl);
            }
        } else if i < tl {
            assert(!own_component(m, ts[i]).contains(cs[j - tl]));
        } else {
            assert(!own_component(m, ts[j]).contains(cs[i - tl]));
        }
    }
    lemma_scored_keeps_followers(before.spec_score(), lm, fm, ss, xs, q);
}

/// For every player for whom the conditions of `lemma_move_keeps_followers`
/// hold, the followers in hand plus those on the board are as many in
/// `after`, once `mov` is played, as in `before`.
pub open spec fn keeps_followers(before: Game, after: Game, mov: Move) -> bool {
    forall|q: int|
        0 <= q < before.spec_followers_left().len() && before.spec_followers_left()[q] + count_of(
            before.spec_followers(),
            PlayerId(q as u32),
        ) <= u32::MAX && (mov.follower matches Some(f) ==> !follower_on(before.spec_followers(), f) && mov.player.0
            < before.spec_followers_left().len()) && cloisters_apart(
            after.spec_map(),
            followers_put(before, mov),
            before.spec_settings(),
            mov.place,
        ) ==> #[trigger] after.spec_followers_left()[q] + count_of(after.spec_followers(), PlayerId(q as u32))
            == before.spec_followers_left()[q] + count_of(before.spec_followers(), PlayerId(q as u32))
}

proof fn lemma_move_keeps_all(before: Game, after: Game, mov: Move)
    requires
        before.wf(),
        place_playable(mov.place),
        move_played(before, after, mov),
        mov.follower is Some && mov.player.0 < before.spec_followers_left().len()
            ==> before.spec_followers_left()[mov.player.0 as int] > 0,
    ensures
        keeps_followers(before, after, mov),
{
    assert(place_readable(mov.place));
    assert forall|q: int|
        0 <= q < before.spec_followers_left().len() && before.spec_followers_left()[q] + count_of(
            before.spec_followers(),
            PlayerId(q as u32),
        ) <= u32::MAX && (mov.follower matches Some(f) ==> !follower_on(before.spec_followers(), f) && mov.player.0
            < before.spec_followers_left().len()) && cloisters_apart(
            after.spec_map(),
            followers_put(before, mov),
            before.spec_settings(),
            mov.place,
        ) implies #[trigger] after.spec_followers_left()[q] + count_of(after.spec_followers(), PlayerId(q as u32))
            == before.spec_followers_left()[q] + count_of(before.spec_followers(), PlayerId(q as u32)) by {
        lemma_move_keeps_followers(before, after, mov, q);
    }
}

/// Every player has all its followers: those in hand plus those on the
/// board make up the number each player starts with.
pub open spec fn followers_balanced(g: Game) -> bool {
    forall|q: int|
        0 <= q < g.spec_followers_left().len() ==> #[trigger] g.spec_followers_left()[q] + count_of(
            g.spec_followers(),
            PlayerId(q as u32),
        ) == g.spec_settings().number_followers
}

/// A move keeps every player's followers all accounted for, when its
/// follower goes on a position no follower holds and no structure of the
/// placed tile reaches the centre of a completed neighbouring cloister.
pub proof fn lemma_move_keeps_balance(before: Game, after: Game, mov: Move)
    requires
        before.wf(),
        after.wf(),
        followers_balanced(before),
        move_played(before, after, mov),
        keeps_followers(before, after, mov),
        mov.follower matches Some(f) ==> !follower_on(before.spec_followers(), f) && mov.player.0
            < before.spec_followers_left().len(),
        cloisters_apart(after.spec_map(), followers_put(before, mov), before.spec_settings(), mov.place),
    ensures
        followers_balanced(after),
{
    assert forall|q: int| 0 <= q < after.spec_followers_left().len() implies #[trigger] after.spec_followers_left()[q]
        + count_of(after.spec_followers(), PlayerId(q as u32)) == after.spec_settings().number_followers by {
        assert(before.spec_followers_left()[q] + count_of(before.spec_followers(), PlayerId(q as u32))
            == before.spec_settings().number_followers);
    }
}

/// Ending the game keeps every player's followers all accounted for: each
/// gets back all of those it had on the board.
pub proof fn lemma_end_game_keeps_balance(before: Game, after: Game)
    requires
        before.wf(),
        followers_balanced(before),
        after.spec_followers().len() == 0,
        after.spec_settings() == before.spec_settings(),
        after.spec_followers_left().len() == before.spec_followers_left().len(),
        forall|p: int|
            0 <= p < before.spec_followers_left().len() && before.spec_followers_left()[p] + count_of(
                before.spec_followers(),
                PlayerId(p as u32),
            ) <= u32::MAX ==> #[trigger] after.spec_followers_left()[p] == before.spec_followers_left()[p]
                + count_of(before.spec_followers(), PlayerId(p as u32)),
    ensures
        followers_balanced(after),
{
    assert forall|q: int| 0 <= q < after.spec_followers_left().len() implies #[trigger] after.spec_followers_left()[q]
        + count_of(after.spec_followers(), PlayerId(q as u32)) == after.spec_settings().number_followers by {
        assert(before.spec_followers_left()[q] + count_of(before.spec_followers(), PlayerId(q as u32))
            == before.spec_settings().number_followers);
        assert(after.spec_followers() =~= Seq::<(Index, PlayerId)>::empty());
        assert(count_of(after.spec_followers(), PlayerId(q as u32)) == 0);
    }
}

/// Ending the game hands every follower back: for each player, the
/// followers in hand after the structures `ss` are scored in turn, plus those
/// still on the board, are those in hand before plus those it had on the
/// board (while that sum fits in a `u32`).
pub proof fn lemma_end_game_returns_followers(
    m: PixelMap,
    st: GameSettings,
    score: Seq<u32>,
    left: Seq<u32>,
    fs: Seq<(Index, PlayerId)>,
    ss: Seq<Structure>,
    p: int,
)
    requires
        end_steps(m, st, score, left, fs, ss),
        0 <= p < left.len() <= u32::MAX + 1,
        left[p] + count_of(fs, PlayerId(p as u32)) <= u32::MAX,
    ensures
        end_run(score, left, fs, ss).1.len() == left.len(),
        end_run(score, left, fs, ss).1[p] + count_of(end_run(score, left, fs, ss).2, PlayerId(p as u32)) == left[p]
            + count_of(fs, PlayerId(p as u32)),
    decreases ss.len(),
{
    if ss.len() > 0 {
        lemma_end_game_returns_followers(m, st, score, left, fs, ss.drop_last(), p);
        let prev = end_run(score, left, fs, ss.drop_last());
        lemma_scoring_returns_followers(m, prev.2, st, false, prev.2[0].0, ss.last(), prev.1, p);
    }
}

/// A prefix of an end-of-game scoring run is one too.
proof fn lemma_end_steps_prefix(
    m: PixelMap,
    st: GameSettings,
    score: Seq<u32>,
    left: Seq<u32>,
    fs: Seq<(Index, PlayerId)>,
    ss: Seq<Structure>,
    k: int,
)
    requires
        end_steps(m, st, score, left, fs, ss),
        0 <= k <= ss.len(),
    ensures
        end_steps(m, st, score, left, fs, ss.take(k)),
    decreases ss.len() - k,
{
    if k < ss.len() {
        lemma_end_steps_prefix(m, st, score, left, fs, ss, k + 1);
        assert(ss.take(k + 1).drop_last() == ss.take(k));
    } else {
        assert(ss.take(k) == ss);
    }
}

/// Two end-of-game scoring runs agree for as long as both go on.
proof fn lemma_end_runs_agree(
    m: PixelMap,
    st: GameSettings,
    score: Seq<u32>,
    left: Seq<u32>,
    fs: Seq<(Index, PlayerId)>,
    ss1: Seq<Structure>,
    ss2: Seq<Structure>,
    k: int,
)
    requires
        end_steps(m, st, score, left, fs, ss1),
        end_steps(m, st, score, left, fs, ss2),
        0 <= k <= ss1.len(),
        k <= ss2.len(),
    ensures
        end_run(score, left, fs, ss1.take(k)) == end_run(score, left, fs, ss2.take(k)),
    decreases k,
{
    if k > 0 {
        lemma_end_runs_agree(m, st, score, left, fs, ss1, ss2, k - 1);
        lemma_end_steps_prefix(m, st, score, left, fs, ss1, k);
        lemma_end_steps_prefix(m, st, score, left, fs, ss2, k);
        let a = ss1.take(k);
        let b = ss2.take(k);
        assert(a.drop_last() == ss1.take(k - 1));
        assert(b.drop_last() == ss2.take(k - 1));
        let p = end_run(score, left, fs, ss1.take(k - 1));
        lemma_same_structure_scores(m, p.2, st, false, p.2[0].0, a.last(), b.last(), p.0, p.1, p.2);
    }
}

/// Ending the game has one outcome: two end-of-game scoring runs on one board
/// that each leave no follower end with the same scores, followers in hand
/// and followers on the board, whatever order each structure lists its
/// followers' owners in.
pub proof fn lemma_end_run_unique(
    m: PixelMap,
    st: GameSettings,
    score: Seq<u32>,
    left: Seq<u32>,
    fs: Seq<(Index, PlayerId)>,
    ss1: Seq<Structure>,
    ss2: Seq<Structure>,
)
    requires
        end_steps(m, st, score, left, fs, ss1),
        end_steps(m, st, score, left, fs, ss2),
        end_run(score, left, fs, ss1).2.len() == 0,
        end_run(score, left, fs, ss2).2.len() == 0,
    ensures
        end_run(score, left, fs, ss1) == end_run(score, left, fs, ss2),
{
    if ss1.len() <= ss2.len() {
        lemma_end_runs_agree(m, st, score, left, fs, ss1, ss2, ss1.len() as int);
        assert(ss1.take(ss1.len() as int) == ss1);
        if ss1.len() < ss2.len() {
            lemma_end_steps_prefix(m, st, score, left, fs, ss2, ss1.len() as int + 1);
            assert(ss2.take(ss1.len() as int + 1).drop_last() == ss2.take(ss1.len() as int));
        }
        assert(ss2.take(ss2.len() as int) == ss2);
    } else {
        lemma_end_runs_agree(m, st, score, left, fs, ss1, ss2, ss2.len() as int);
        assert(ss2.take(ss2.len() as int) == ss2);
        lemma_end_steps_prefix(m, st, score, left, fs, ss1, ss2.len() as int + 1);
        assert(ss1.take(ss2.len() as int + 1).drop_last() == ss1.take(ss2.len() as int));
    }
}

/// Every follower stands on a pixel that scores.
pub open spec fn followers_on_scoring(m: PixelMap, st: GameSettings, fs: Seq<(Index, PlayerId)>) -> bool {
    forall|k: int| 0 <= k < fs.len() ==> crate::tile_pixel::spec_is_scoring(m.at_index(#[trigger] fs[k].0), st.farmers_enabled)
}

proof fn lemma_filter_drops(s: Seq<(Index, PlayerId)>, f: spec_fn((Index, PlayerId)) -> bool)
    requires
        s.len() > 0,
        !f(s[0]),
    ensures
        s.filter(f).len() < s.len(),
    decreases s.len(),
{
    reveal(Seq::filter);
    if s.len() == 1 {
        assert(s.drop_last().filter(f) =~= Seq::empty());
    } else {
        let init = s.drop_last();
        assert(init[0] == s[0]);
        lemma_filter_drops(init, f);
    }
}

impl Game {
    /// Ends the game: each follower's structure is scored as it stands, at
    /// end-of-game values, until no follower is left on the board.
    pub fn end_game(&mut self)
        requires
            old(self).wf(),
            followers_on_scoring(old(self).spec_map(), old(self).spec_settings(), old(self).spec_followers()),
        ensures
            final(self).wf(),
            final(self).spec_followers().len() == 0,
            final(self).spec_map() == old(self).spec_map(),
            final(self).spec_move_num() == old(self).spec_move_num(),
            final(self).spec_tiles() == old(self).spec_tiles(),
            final(self).spec_tiles_left() == old(self).spec_tiles_left(),
            final(self).spec_free_places() == old(self).spec_free_places(),
            final(self).spec_settings() == old(self).spec_settings(),
            exists|ss: Seq<Structure>|
                end_steps(old(self).spec_map(), old(self).spec_settings(), old(self).spec_score(), old(self).spec_followers_left(), old(self).spec_followers(), ss)
                && #[trigger] end_run(old(self).spec_score(), old(self).spec_followers_left(), old(self).spec_followers(), ss)
                    == (final(self).spec_score(), final(self).spec_followers_left(), final(self).spec_followers()),
            forall|p: int|
                0 <= p < old(self).spec_followers_left().len() && old(self).spec_followers_left()[p] + count_of(
                    old(self).spec_followers(),
                    PlayerId(p as u32),
                ) <= u32::MAX ==> #[trigger] final(self).spec_followers_left()[p] == old(self).spec_followers_left()[p]
                    + count_of(old(self).spec_followers(), PlayerId(p as u32)),
            followers_balanced(*old(self)) ==> followers_balanced(*final(self)),
    {
        let ghost g0 = *self;
        let ghost mut ss: Seq<Structure> = Seq::empty();
        while self.followers.len() > 0
            invariant
                self.wf(),
                followers_on_scoring(self.spec_map(), self.spec_settings(), self.spec_followers()),
                self.spec_map() == g0.spec_map(),
                self.spec_move_num() == g0.spec_move_num(),
                self.spec_tiles() == g0.spec_tiles(),
                self.spec_tiles_left() == g0.spec_tiles_left(),
                self.spec_free_places() == g0.spec_free_places(),
                self.spec_settings() == g0.spec_settings(),
                end_steps(g0.spec_map(), g0.spec_settings(), g0.spec_score(), g0.spec_followers_left(), g0.spec_followers(), ss),
                end_run(g0.spec_score(), g0.spec_followers_left(), g0.spec_followers(), ss)
                    == (self.spec_score(), self.spec_followers_left(), self.spec_followers()),
            decreases self.followers@.len(),
        {
            let idx = self.followers[0].0;
            proof {
                assert(crate::tile_pixel::spec_is_scoring(self.map.at_index(self.followers@[0].0), self.settings.farmers_enabled));
                if self.map.at_index(idx) == TilePixel::Nothing {
                    reveal_with_fuel(vstd::seq::Seq::contains, 1);
                    assert(!crate::tile_pixel::spec_scoring_tiles(self.settings.farmers_enabled).contains(TilePixel::Nothing));
                }
            }
            let (st, _comp) = structure_from(&self.map, &self.followers, &self.settings, idx, false);
            let ghost fs0 = self.followers@;
            let ghost sel = |e: (Index, PlayerId)| own_component(self.spec_map(), idx).contains(e.0);
            proof {
                broadcast use vstd::seq_lib::group_filter_ensures;

                assert(sel(fs0[0]));
                assert(fs0.filter(sel).contains(fs0[0]));
                let j = choose|j: int| 0 <= j < fs0.filter(sel).len() && fs0.filter(sel)[j] == fs0[0];
                assert(st.followers_idx@[j] == idx);
                assert(st.followers_idx@.contains(idx));
                lemma_structures_distinct_one(self.spec_map(), fs0, self.spec_settings(), idx, st);
            }
            self.score_structure(&st);
            proof {
                let keep = |e: (Index, PlayerId)| !st.followers_idx@.contains(e.0);
                lemma_filter_drops(fs0, keep);
                assert forall|k: int| 0 <= k < self.spec_followers().len() implies crate::tile_pixel::spec_is_scoring(
                    self.spec_map().at_index(#[trigger] self.spec_followers()[k].0),
                    self.spec_settings().farmers_enabled,
                ) by {
                    let e = self.spec_followers()[k];
                    assert(fs0.filter(keep).contains(e));
                    fs0.lemma_filter_contains_rev(keep, e);
                    let w = choose|w: int| 0 <= w < fs0.len() && fs0[w] == e;
                    assert(crate::tile_pixel::spec_is_scoring(self.spec_map().at_index(fs0[w].0), self.spec_settings().farmers_enabled));
                }
                let ss2 = ss.push(st);
                assert(ss2.drop_last() == ss);
                ss = ss2;
            }
        }
        proof {
            assert forall|p: int|
                0 <= p < g0.spec_followers_left().len() && g0.spec_followers_left()[p] + count_of(
                    g0.spec_followers(),
                    PlayerId(p as u32),
                ) <= u32::MAX implies #[trigger] self.spec_followers_left()[p] == g0.spec_followers_left()[p]
                    + count_of(g0.spec_followers(), PlayerId(p as u32)) by {
                lemma_end_game_returns_followers(g0.spec_map(), g0.spec_settings(), g0.spec_score(), g0.spec_followers_left(), g0.spec_followers(), ss, p);
                assert(self.spec_followers() =~= Seq::<(Index, PlayerId)>::empty());
                assert(count_of(self.spec_followers(), PlayerId(p as u32)) == 0);
            }
            if followers_balanced(g0) {
                lemma_end_game_keeps_balance(g0, *self);
            }
        }
    }
}

/// `m` is a move `player` can make now: a tile kind still in the bag, on a
/// free place, in a rotation that fits, without a follower.
pub open spec fn placement_move(g: Game, player: PlayerId, m: Move) -> bool {
    &&& m.move_num == g.spec_move_num()
    &&& m.player == player
    &&& m.follower is None
    &&& exists|k: int| 0 <= k < g.spec_tiles_left().entries().len() && (#[trigger] g.spec_tiles_left().entries()[k]).0 == m.tile.0
    &&& g.spec_free_places().contains(m.place)
    &&& spec_check_tile(g, g.spec_tiles()[m.tile.0 as int], m.place, m.rotation) is Ok
}

/// The placement move for the `a`-th kind in the bag, the `b`-th free place and rotation `c`.
pub open spec fn nth_placement(g: Game, player: PlayerId, a: int, b: int, c: int) -> Move {
    Move {
        move_num: g.spec_move_num(),
        place: g.spec_free_places()[b],
        tile: TileId(g.spec_tiles_left().entries()[a].0),
        rotation: rot_of(c),
        follower: None,
        player,
    }
}

pub open spec fn lex_less(p: (int, int, int), q: (int, int, int)) -> bool {
    p.0 < q.0 || (p.0 == q.0 && (p.1 < q.1 || (p.1 == q.1 && p.2 < q.2)))
}

impl Game {
    /// Every move without a follower that `player` can make now.
    fn get_moves_placement(&self, player: PlayerId) -> (r: Vec<Move>)
        requires
            self.wf(),
        ensures
            r@.no_duplicates(),
            forall|m: Move| r@.contains(m) <==> placement_move(*self, player, m),
    {
        let ids = self.tiles_left.elements();
        let rots = crate::direction::Rotation::all();
        let ghost entries = self.spec_tiles_left().entries();
        let ghost free = self.spec_free_places();
        let mut moves: Vec<Move> = Vec::new();
        let ghost mut tri: Seq<(int, int, int)> = Seq::empty();
        let mut a: usize = 0;
        while a < ids.len()
            invariant
                self.wf(),
                entries == self.spec_tiles_left().entries(),
                free == self.spec_free_places(),
                ids@.len() == entries.len(),
                forall|i: int| 0 <= i < ids@.len() ==> #[trigger] ids@[i].0 == entries[i].0,
                rots@ == seq![Rotation::Rot0, Rotation::Rot1, Rotation::Rot2, Rotation::Rot3],
                a <= ids@.len(),
                tri.len() == moves@.len(),
                forall|t: int| 0 <= t < tri.len() ==> 0 <= (#[trigger] tri[t]).0 < a && 0 <= tri[t].1 < free.len() && 0 <= tri[t].2 < 4,
                forall|t: int| 0 <= t < tri.len() ==> moves@[t] == nth_placement(*self, player, #[trigger] tri[t].0, tri[t].1, tri[t].2),
                forall|s: int, t: int| 0 <= s < t < tri.len() ==> lex_less(#[trigger] tri[s], #[trigger] tri[t]),
                forall|t: int| 0 <= t < tri.len() ==> placement_move(*self, player, #[trigger] moves@[t]),
                forall|x: int, y: int, z: int|
                    0 <= x < a && 0 <= y < free.len() && 0 <= z < 4 && placement_move(*self, player, #[trigger] nth_placement(*self, player, x, y, z))
                        ==> moves@.contains(nth_placement(*self, player, x, y, z)),
            decreases ids@.len() - a,
        {
            let id = ids[a];
            proof {
                assert(entries[a as int].0 < self.spec_tiles().len());
            }
            let tile = self.tiles[id.0 as usize];
            let mut b: usize = 0;
            while b < self.free_places.len()
                invariant
                    self.wf(),
                    entries == self.spec_tiles_left().entries(),
                    free == self.spec_free_places(),
                    ids@.len() == entries.len(),
                    forall|i: int| 0 <= i < ids@.len() ==> #[trigger] ids@[i].0 == entries[i].0,
                    rots@ == seq![Rotation::Rot0, Rotation::Rot1, Rotation::Rot2, Rotation::Rot3],
                    a < ids@.len(),
                    id == ids@[a as int],
                    tile == self.spec_tiles()[id.0 as int],
                    b <= free.len(),
                    tri.len() == moves@.len(),
                    forall|t: int| 0 <= t < tri.len() ==> 0 <= (#[trigger] tri[t]).0 <= a && 0 <= tri[t].1 < free.len() && 0 <= tri[t].2 < 4
                        && (tri[t].0 == a ==> tri[t].1 < b),
                    forall|t: int| 0 <= t < tri.len() ==> moves@[t] == nth_placement(*self, player, #[trigger] tri[t].0, tri[t].1, tri[t].2),
                    forall|s: int, t: int| 0 <= s < t < tri.len() ==> lex_less(#[trigger] tri[s], #[trigger] tri[t]),
                    forall|t: int| 0 <= t < tri.len() ==> placement_move(*self, player, #[trigger] moves@[t]),
                    forall|x: int, y: int, z: int|
                        0 <= x < a && 0 <= y < free.len() && 0 <= z < 4 && placement_move(*self, player, #[trigger] nth_placement(*self, player, x, y, z))
                            ==> moves@.contains(nth_placement(*self, player, x, y, z)),
                    forall|y: int, z: int|
                        0 <= y < b && 0 <= z < 4 && placement_move(*self, player, #[trigger] nth_placement(*self, player, a as int, y, z))
                            ==> moves@.contains(nth_placement(*self, player, a as int, y, z)),
                decreases free.len() - b,
            {
                let place = self.free_places[b];
                let mut c: usize = 0;
                while c < 4
                    invariant
                        self.wf(),
                        entries == self.spec_tiles_left().entries(),
                        free == self.spec_free_places(),
                        ids@.len() == entries.len(),
                        forall|i: int| 0 <= i < ids@.len() ==> #[trigger] ids@[i].0 == entries[i].0,
                        rots@ == seq![Rotation::Rot0, Rotation::Rot1, Rotation::Rot2, Rotation::Rot3],
                        a < ids@.len(),
                        id == ids@[a as int],
                        tile == self.spec_tiles()[id.0 as int],
                        b < free.len(),
                        place == free[b as int],
                        c <= 4,
                        tri.len() == moves@.len(),
                        forall|t: int| 0 <= t < tri.len() ==> 0 <= (#[trigger] tri[t]).0 <= a && 0 <= tri[t].1 < free.len() && 0 <= tri[t].2 < 4
                            && (tri[t].0 == a ==> (tri[t].1 < b || (tri[t].1 == b && tri[t].2 < c))),
                        forall|t: int| 0 <= t < tri.len() ==> moves@[t] == nth_placement(*self, player, #[trigger] tri[t].0, tri[t].1, tri[t].2),
                        forall|s: int, t: int| 0 <= s < t < tri.len() ==> lex_less(#[trigger] tri[s], #[trigger] tri[t]),
                        forall|t: int| 0 <= t < tri.len() ==> placement_move(*self, player, #[trigger] moves@[t]),
                        forall|x: int, y: int, z: int|
                            0 <= x < a && 0 <= y < free.len() && 0 <= z < 4 && placement_move(*self, player, #[trigger] nth_placement(*self, player, x, y, z))
                                ==> moves@.contains(nth_placement(*self, player, x, y, z)),
                        forall|y: int, z: int|
                            0 <= y < b && 0 <= z < 4 && placement_move(*self, player, #[trigger] nth_placement(*self, player, a as int, y, z))
                                ==> moves@.contains(nth_placement(*self, player, a as int, y, z)),
                        forall|z: int|
                            0 <= z < c && placement_move(*self, player, #[trigger] nth_placement(*self, player, a as int, b as int, z))
                                ==> moves@.contains(nth_placement(*self, player, a as int, b as int, z)),
                    decreases 4 - c,
                {
                    let rot = rots[c];
                    proof {
                        assert(rot == rot_of(c as int));
                        assert(place_writable(free[b as int]));
                    }
                    let mv = Move { move_num: self.move_num, place, tile: id, rotation: rot, follower: None, player };
                    proof {
                        assert(mv == nth_placement(*self, player, a as int, b as int, c as int));
                    }
                    if self.check_tile(&tile, &place, &rot).is_ok() {
                        proof {
                            assert(free.contains(place));
                            assert(entries[a as int].0 == mv.tile.0);
                            assert(placement_move(*self, player, mv));
                        }
                        let ghost old_moves = moves@;
                        moves.push(mv);
                        proof {
                            let nt = (a as int, b as int, c as int);
                            assert forall|s: int, t: int| 0 <= s < t < tri.len() + 1 implies lex_less(#[trigger] tri.push(nt)[s], #[trigger] tri.push(nt)[t]) by {
                                if t == tri.len() {
                                    assert(tri.push(nt)[s] == tri[s]);
                                }
                            }
                            assert forall|x: int, y: int, z: int|
                                0 <= x < a && 0 <= y < free.len() && 0 <= z < 4 && placement_move(*self, player, #[trigger] nth_placement(*self, player, x, y, z))
                                    implies moves@.contains(nth_placement(*self, player, x, y, z)) by {
                                assert(old_moves.contains(nth_placement(*self, player, x, y, z)));
                                let w = choose|w: int| 0 <= w < old_moves.len() && old_moves[w] == nth_placement(*self, player, x, y, z);
                                assert(moves@[w] == old_moves[w]);
                            }
                            assert forall|y: int, z: int|
                                0 <= y < b && 0 <= z < 4 && placement_move(*self, player, #[trigger] nth_placement(*self, player, a as int, y, z))
                                    implies moves@.contains(nth_placement(*self, player, a as int, y, z)) by {
                                assert(old_moves.contains(nth_placement(*self, player, a as int, y, z)));
                                let w = choose|w: int| 0 <= w < old_moves.len() && old_moves[w] == nth_placement(*self, player, a as int, y, z);
                                assert(moves@[w] == old_moves[w]);
                            }
                            assert forall|z: int|
                                0 <= z < c + 1 && placement_move(*self, player, #[trigger] nth_placement(*self, player, a as int, b as int, z))
                                    implies moves@.contains(nth_placement(*self, player, a as int, b as int, z)) by {
                                if z < c {
                                    assert(old_moves.contains(nth_placement(*self, player, a as int, b as int, z)));
                                    let w = choose|w: int| 0 <= w < old_moves.len() && old_moves[w] == nth_placement(*self, player, a as int, b as int, z);
                                    assert(moves@[w] == old_moves[w]);
                                } else {
                                    assert(moves@[old_moves.len() as int] == mv);
                                }
                            }
                            tri = tri.push(nt);
                        }
                    } else {
                        proof {
                            assert(!placement_move(*self, player, mv));
                        }
                    }
                    c += 1;
                }
                b += 1;
            }
            a += 1;
        }
        proof {
            assert(moves@.no_duplicates()) by {
                assert forall|s: int, t: int| 0 <= s < t < moves@.len() implies moves@[s] != moves@[t] by {
                    let p = tri[s];
                    let q = tri[t];
                    assert(lex_less(p, q));
                    if p.0 != q.0 {
                        assert(entries[p.0].0 != entries[q.0].0) by {
                            if p.0 < q.0 {
                                assert(entries[p.0].0 != entries[q.0].0);
                            }
                        }
                    } else if p.1 != q.1 {
                        assert(free[p.1] != free[q.1]);
                    }
                }
            }
            assert forall|m: Move| placement_move(*self, player, m) implies moves@.contains(m) by {
                let k = choose|k: int| 0 <= k < entries.len() && (#[trigger] entries[k]).0 == m.tile.0;
                let y = choose|y: int| 0 <= y < free.len() && free[y] == m.place;
                let z = rot_index(m.rotation);
                assert(m == nth_placement(*self, player, k, y, z));
            }
            assert forall|m: Move| moves@.contains(m) implies placement_move(*self, player, m) by {
                let w = choose|w: int| 0 <= w < moves@.len() && moves@[w] == m;
                assert(placement_move(*self, player, moves@[w]));
            }
        }
        moves
    }
}

/// The board with every place of `moves` blank.
pub open spec fn blanked(m: PixelMap, moves: Seq<Move>, i: Index) -> TilePixel {
    if exists|k: int| 0 <= k < moves.len() && (#[trigger] moves[k]).place == spec_index_place(i) {
        TilePixel::Nothing
    } else {
        m.at_index(i)
    }
}

/// `m` is the board on which move `j` of `moves` is looked at: the places of
/// the moves before it blank, and its own tile painted.
pub open spec fn considered_map(old: PixelMap, tiles: Seq<Tile>, moves: Seq<Move>, j: int, m: PixelMap) -> bool {
    let mv = moves[j];
    &&& m.wf()
    &&& forall|dx: int, dy: int|
        0 <= dx < 5 && 0 <= dy < 5 ==> #[trigger] m.at_index(pixel_of(mv.place, dx, dy)) == tile_at(
            tiles[mv.tile.0 as int],
            dy,
            dx,
            mv.rotation,
        )
    &&& forall|i: Index| spec_index_place(i) != mv.place ==> #[trigger] m.at_index(i) == blanked(old, moves.take(j), i)
}

/// `mov` with its follower put on `seed`.
pub open spec fn with_follower(mov: Move, seed: Index) -> Move {
    Move {
        move_num: mov.move_num,
        place: mov.place,
        tile: mov.tile,
        rotation: mov.rotation,
        follower: Some(seed),
        player: mov.player,
    }
}

/// For each structure of `ss` without followers (when the player has followers
/// left), `mov` with a follower on its seed, paired with the structure.
pub open spec fn follower_options(mov: Move, ss: Seq<Structure>, can: bool) -> Seq<(Move, Structure)>
    decreases ss.len(),
{
    if ss.len() == 0 {
        Seq::empty()
    } else if can && ss.last().followers_number@.len() == 0 {
        follower_options(mov, ss.drop_last(), can).push((with_follower(mov, ss.last().seed), ss.last()))
    } else {
        follower_options(mov, ss.drop_last(), can)
    }
}

/// The follower options of the first `j` moves, in order.
pub open spec fn all_options(moves: Seq<Move>, sss: Seq<Seq<Structure>>, left: Seq<u32>, j: int) -> Seq<(Move, Structure)>
    decreases j,
{
    if j <= 0 {
        Seq::empty()
    } else {
        all_options(moves, sss, left, j - 1) + follower_options(
            moves[j - 1],
            sss[j - 1],
            left[moves[j - 1].player.0 as int] > 0,
        )
    }
}

/// `acc` with `(k, v)` put in: it replaces the value of an equal key, or is added last.
pub open spec fn keyed_insert(acc: Seq<(Index, Structure)>, k: Index, v: Structure) -> Seq<(Index, Structure)> {
    if exists|a: int| 0 <= a < acc.len() && (#[trigger] acc[a]).0 == k {
        acc.update(choose|a: int| 0 <= a < acc.len() && (#[trigger] acc[a]).0 == k, (k, v))
    } else {
        acc.push((k, v))
    }
}

/// The structures of `opts` keyed by their seeds; a later structure with the same seed wins.
pub open spec fn keyed_structures(opts: Seq<(Move, Structure)>) -> Seq<(Index, Structure)>
    decreases opts.len(),
{
    if opts.len() == 0 {
        Seq::empty()
    } else {
        keyed_insert(keyed_structures(opts.drop_last()), opts.last().1.seed, opts.last().1)
    }
}

pub open spec fn distinct_keys_of(s: Seq<(Index, Structure)>) -> bool {
    forall|a: int, b: int| 0 <= a < b < s.len() ==> #[trigger] s[a].0 != #[trigger] s[b].0
}

fn keyed_put(acc: &mut Vec<(Index, Structure)>, k: Index, v: Structure)
    requires
        distinct_keys_of(old(acc)@),
    ensures
        final(acc)@ == keyed_insert(old(acc)@, k, v),
        distinct_keys_of(final(acc)@),
{
    let ghost a0 = acc@;
    let mut i: usize = 0;
    while i < acc.len()
        invariant
            acc@ == a0,
            a0 == old(acc)@,
            distinct_keys_of(a0),
            i <= a0.len(),
            forall|j: int| 0 <= j < i ==> (#[trigger] a0[j]).0 != k,
        decreases a0.len() - i,
    {
        if acc[i].0 == k {
            acc.set(i, (k, v));
            proof {
                let c = choose|c: int| 0 <= c < a0.len() && (#[trigger] a0[c]).0 == k;
                if c != i {
                    if c < i {
                        assert(a0[c].0 != a0[i as int].0);
                    } else {
                        assert(a0[i as int].0 != a0[c].0);
                    }
                }
                assert(acc@ == keyed_insert(a0, k, v));
                assert forall|a: int, b: int| 0 <= a < b < acc@.len() implies #[trigger] acc@[a].0 != #[trigger] acc@[b].0 by {
                    assert(a0[a].0 != a0[b].0);
                }
            }
            return;
        }
        i += 1;
    }
    acc.push((k, v));
    proof {
        assert forall|a: int, b: int| 0 <= a < b < acc@.len() implies #[trigger] acc@[a].0 != #[trigger] acc@[b].0 by {
            if b == a0.len() {
                assert(a0[a].0 != k);
            } else {
                assert(a0[a].0 != a0[b].0);
            }
        }
    }
}

impl Game {
    /// The structures that playing `mov` would touch; the place of `mov` is left blank.
    pub fn move_structures(&mut self, mov: &Move) -> (r: Vec<Structure>)
        requires
            old(self).wf(),
            place_writable(mov.place),
            mov.tile.0 < old(self).spec_tiles().len(),
        ensures
            final(self).wf(),
            forall|i: Index| #[trigger] final(self).spec_map().at_index(i) == (if spec_index_place(i) == mov.place {
                TilePixel::Nothing
            } else {
                old(self).spec_map().at_index(i)
            }),
            final(self).spec_move_num() == old(self).spec_move_num(),
            final(self).spec_tiles() == old(self).spec_tiles(),
            final(self).spec_tiles_left() == old(self).spec_tiles_left(),
            final(self).spec_free_places() == old(self).spec_free_places(),
            final(self).spec_followers() == old(self).spec_followers(),
            final(self).spec_followers_left() == old(self).spec_followers_left(),
            final(self).spec_score() == old(self).spec_score(),
            final(self).spec_settings() == old(self).spec_settings(),
            exists|m: PixelMap|
                painted(old(self).spec_map(), m, old(self).spec_tiles()[mov.tile.0 as int], mov.rotation, mov.place)
                    && #[trigger] structures_of(m, old(self).spec_followers(), old(self).spec_settings(), mov.place, true, r@),
    {
        let tile = self.tiles[mov.tile.0 as usize];
        self.copy_tile(&tile, mov.rotation, mov.place);
        let ghost m = self.spec_map();
        let r = self.get_structures(&mov.place, true);
        let blank = Tile::nothing();
        self.copy_tile(&blank, Rotation::Rot0, mov.place);
        proof {
            assert forall|i: Index| #[trigger] self.spec_map().at_index(i) == (if spec_index_place(i) == mov.place {
                TilePixel::Nothing
            } else {
                old(self).spec_map().at_index(i)
            }) by {
                if spec_index_place(i) == mov.place {
                    let dx = i.x - mov.place.x * 5;
                    let dy = i.y - mov.place.y * 5;
                    assert(i == pixel_of(mov.place, dx, dy));
                    assert(self.spec_map().at_index(pixel_of(mov.place, dx, dy)) == tile_at(blank, dy, dx, Rotation::Rot0));
                }
            }
        }
        r
    }
}

/// Each list `sss[j]` holds the structures move `j` of `moves` touches on the
/// board it is looked at on.
pub open spec fn moves_considered(g: Game, moves: Seq<Move>, sss: Seq<Seq<Structure>>) -> bool {
    &&& sss.len() == moves.len()
    &&& forall|j: int| 0 <= j < moves.len() ==> #[trigger] move_considered(g, moves, j, sss[j])
}

/// `ss` holds the structures move `j` of `moves` touches on the board it is looked at on.
pub open spec fn move_considered(g: Game, moves: Seq<Move>, j: int, ss: Seq<Structure>) -> bool {
    exists|m: PixelMap|
        considered_map(g.spec_map(), g.spec_tiles(), moves, j, m) && #[trigger] structures_of(
            m,
            g.spec_followers(),
            g.spec_settings(),
            moves[j].place,
            true,
            ss,
        )
}

pub open spec fn option_moves(opts: Seq<(Move, Structure)>) -> Seq<Move> {
    opts.map_values(|o: (Move, Structure)| o.0)
}

/// Every move of `moves` is one that `get_moves_structures` can look at.
pub open spec fn moves_usable(g: Game, moves: Seq<Move>) -> bool {
    forall|j: int|
        0 <= j < moves.len() ==> place_writable(#[trigger] moves[j].place) && moves[j].tile.0 < g.spec_tiles().len()
            && moves[j].player.0 < g.spec_followers_left().len()
}

impl Game {
    /// For each move, the variants that also put a follower on a structure
    /// of its tile without followers (when its player has followers left),
    /// followed by the moves themselves; and those structures by seed.
    pub fn get_moves_structures(&mut self, moves: Vec<Move>) -> (r: (Vec<Move>, Vec<(Index, Structure)>))
        requires
            old(self).wf(),
            moves_usable(*old(self), moves@),
        ensures
            final(self).wf(),
            forall|i: Index| #[trigger] final(self).spec_map().at_index(i) == blanked(old(self).spec_map(), moves@, i),
            final(self).spec_move_num() == old(self).spec_move_num(),
            final(self).spec_tiles() == old(self).spec_tiles(),
            final(self).spec_tiles_left() == old(self).spec_tiles_left(),
            final(self).spec_free_places() == old(self).spec_free_places(),
            final(self).spec_followers() == old(self).spec_followers(),
            final(self).spec_followers_left() == old(self).spec_followers_left(),
            final(self).spec_score() == old(self).spec_score(),
            final(self).spec_settings() == old(self).spec_settings(),
            distinct_keys_of(r.1@),
            moves@.len() == 0 ==> *final(self) == *old(self),
            exists|sss: Seq<Seq<Structure>>|
                #[trigger] moves_considered(*old(self), moves@, sss)
                    && r.0@ == option_moves(all_options(moves@, sss, old(self).spec_followers_left(), moves@.len() as int)) + moves@
                    && r.1@ == keyed_structures(all_options(moves@, sss, old(self).spec_followers_left(), moves@.len() as int)),
    {
        let ghost g0 = *self;
        let ghost left = self.spec_followers_left();
        let ghost mut sss: Seq<Seq<Structure>> = Seq::empty();
        let mut with_followers: Vec<Move> = Vec::new();
        let mut keyed: Vec<(Index, Structure)> = Vec::new();
        let mut j: usize = 0;
        proof {
            assert forall|i: Index| #[trigger] self.spec_map().at_index(i) == blanked(g0.spec_map(), moves@.take(0), i) by {}
        }
        while j < moves.len()
            invariant
                self.wf(),
                moves_usable(g0, moves@),
                j <= moves@.len(),
                j == 0 ==> *self == g0,
                left == g0.spec_followers_left(),
                forall|i: Index| #[trigger] self.spec_map().at_index(i) == blanked(g0.spec_map(), moves@.take(j as int), i),
                self.spec_move_num() == g0.spec_move_num(),
                self.spec_tiles() == g0.spec_tiles(),
                self.spec_tiles_left() == g0.spec_tiles_left(),
                self.spec_free_places() == g0.spec_free_places(),
                self.spec_followers() == g0.spec_followers(),
                self.spec_followers_left() == g0.spec_followers_left(),
                self.spec_score() == g0.spec_score(),
                self.spec_settings() == g0.spec_settings(),
                sss.len() == j,
                forall|jj: int| 0 <= jj < j ==> #[trigger] move_considered(g0, moves@, jj, sss[jj]),
                with_followers@ == option_moves(all_options(moves@, sss, left, j as int)),
                keyed@ == keyed_structures(all_options(moves@, sss, left, j as int)),
                distinct_keys_of(keyed@),
            decreases moves@.len() - j,
        {
            let mov = moves[j];
            let ghost before = self.spec_map();
            let mut ss = self.move_structures(&mov);
            let ghost ss_all = ss@;
            proof {
                let m = choose|m: PixelMap|
                    painted(before, m, g0.spec_tiles()[mov.tile.0 as int], mov.rotation, mov.place)
                        && #[trigger] structures_of(m, g0.spec_followers(), g0.spec_settings(), mov.place, true, ss_all);
                assert(considered_map(g0.spec_map(), g0.spec_tiles(), moves@, j as int, m)) by {
                    assert forall|i: Index| spec_index_place(i) != mov.place implies #[trigger] m.at_index(i) == blanked(g0.spec_map(), moves@.take(j as int), i) by {
                        assert(m.at_index(i) == before.at_index(i));
                    }
                }
                assert(moves@.take(j as int + 1) == moves@.take(j as int).push(mov));
                assert forall|i: Index| #[trigger] self.spec_map().at_index(i) == blanked(g0.spec_map(), moves@.take(j as int + 1), i) by {
                    if spec_index_place(i) == mov.place {
                        assert(moves@.take(j as int + 1)[j as int].place == spec_index_place(i));
                    } else {
                        if exists|k: int| 0 <= k < j + 1 && (#[trigger] moves@.take(j as int + 1)[k]).place == spec_index_place(i) {
                            let k = choose|k: int| 0 <= k < j + 1 && (#[trigger] moves@.take(j as int + 1)[k]).place == spec_index_place(i);
                            assert(moves@.take(j as int)[k].place == spec_index_place(i));
                        }
                    }
                }
                let sss2 = sss.push(ss_all);
                assert forall|jj: int| 0 <= jj < j + 1 implies #[trigger] move_considered(g0, moves@, jj, sss2[jj]) by {
                    if jj < j {
                        assert(sss2[jj] == sss[jj]);
                    } else {
                        assert(sss2[jj] == ss_all);
                        assert(considered_map(g0.spec_map(), g0.spec_tiles(), moves@, jj, m));
                    }
                }
                assert(all_options(moves@, sss2, left, j as int) == all_options(moves@, sss, left, j as int)) by {
                    lemma_all_options_prefix(moves@, sss, sss2, left, j as int);
                }
                sss = sss2;
            }
            let can = self.followers_left[mov.player.0 as usize] > 0;
            let ghost base = all_options(moves@, sss, left, j as int);
            let ghost mut q: int = 0;
            proof {
                assert(follower_options(mov, ss_all.take(0), can) =~= Seq::empty());
                assert(base + follower_options(mov, ss_all.take(0), can) == base);
            }
            while ss.len() > 0
                invariant
                    distinct_keys_of(keyed@),
                    0 <= q <= ss_all.len(),
                    ss@ == ss_all.skip(q),
                    with_followers@ == option_moves(base + follower_options(mov, ss_all.take(q), can)),
                    keyed@ == keyed_structures(base + follower_options(mov, ss_all.take(q), can)),
                decreases ss@.len(),
            {
                let s = ss.remove(0);
                proof {
                    assert(s == ss_all[q]);
                    assert(ss_all.take(q + 1).drop_last() == ss_all.take(q));
                    assert(ss_all.take(q + 1).last() == s);
                    assert(ss@ == ss_all.skip(q + 1));
                }
                let ghost prev = base + follower_options(mov, ss_all.take(q), can);
                if can && s.followers_number.len() == 0 {
                    let seed = s.seed;
                    let fm = Move {
                        move_num: mov.move_num,
                        place: mov.place,
                        tile: mov.tile,
                        rotation: mov.rotation,
                        follower: Some(seed),
                        player: mov.player,
                    };
                    proof {
                        assert(fm == with_follower(mov, s.seed));
                        let nx = prev.push((fm, s));
                        assert(base + follower_options(mov, ss_all.take(q + 1), can) == nx);
                        assert(nx.drop_last() == prev);
                        assert(option_moves(nx) == option_moves(prev).push(fm));
                    }
                    with_followers.push(fm);
                    keyed_put(&mut keyed, seed, s);
                } else {
                    proof {
                        assert(base + follower_options(mov, ss_all.take(q + 1), can) == prev);
                    }
                }
                proof {
                    q = q + 1;
                }
            }
            proof {
                assert(ss_all.take(q) == ss_all);
                assert(all_options(moves@, sss, left, j as int + 1) == base + follower_options(moves@[j as int], sss[j as int], left[moves@[j as int].player.0 as int] > 0));
            }
            j += 1;
        }
        proof {
            assert(moves@.take(moves@.len() as int) == moves@);
            assert(moves_considered(g0, moves@, sss));
        }
        let mut plain = moves;
        with_followers.append(&mut plain);
        (with_followers, keyed)
    }
}

proof fn lemma_all_options_prefix(moves: Seq<Move>, a: Seq<Seq<Structure>>, b: Seq<Seq<Structure>>, left: Seq<u32>, j: int)
    requires
        0 <= j <= a.len(),
        j <= b.len(),
        forall|k: int| 0 <= k < j ==> a[k] == b[k],
    ensures
        all_options(moves, a, left, j) == all_options(moves, b, left, j),
    decreases j,
{
    if j > 0 {
        lemma_all_options_prefix(moves, a, b, left, j - 1);
    }
}

/// The kinds in the bag of `g`, in its order.
pub open spec fn bag_kinds(g: Game) -> Seq<TileId> {
    Seq::new(g.spec_tiles_left().entries().len(), |i: int| TileId(g.spec_tiles_left().entries()[i].0))
}

/// `places` are the free places of `g` in some order, and `ids` the kinds in
/// its bag in the bag's order.
pub open spec fn draw_order(g: Game, places: Seq<Place>, ids: Seq<TileId>) -> bool {
    &&& places.to_multiset() == g.spec_free_places().to_multiset()
    &&& ids == bag_kinds(g)
}

/// The placement tried at step (`a`, `b`, `c`): kind `ids[a]` at place
/// `places[b]`, turned by rotation number `c`.
pub open spec fn drawn_placement(
    g: Game,
    player: PlayerId,
    places: Seq<Place>,
    ids: Seq<TileId>,
    a: int,
    b: int,
    c: int,
) -> Move {
    Move { move_num: g.spec_move_num(), place: places[b], tile: ids[a], rotation: rot_of(c), follower: None, player }
}

/// `p` is the first move that fits, trying the places `places` in order, for
/// each the kinds `ids` in order, then rotations in order.
pub open spec fn first_fit(g: Game, player: PlayerId, places: Seq<Place>, ids: Seq<TileId>, p: Move) -> bool {
    exists|a: int, b: int, c: int|
        0 <= a < ids.len() && 0 <= b < places.len() && 0 <= c < 4 && p == #[trigger] drawn_placement(
            g,
            player,
            places,
            ids,
            a,
            b,
            c,
        ) && placement_move(g, player, p) && forall|x: int, y: int, z: int|
            0 <= x < ids.len() && 0 <= y < places.len() && 0 <= z < 4 && lex_less((y, x, z), (b, a, c))
                ==> !placement_move(g, player, #[trigger] drawn_placement(g, player, places, ids, x, y, z))
}

proof fn lemma_first_fit(g: Game, player: PlayerId, places: Seq<Place>, ids: Seq<TileId>, a: int, b: int, c: int)
    requires
        0 <= a < ids.len(),
        0 <= b < places.len(),
        0 <= c < 4,
        placement_move(g, player, drawn_placement(g, player, places, ids, a, b, c)),
        forall|x: int, y: int, z: int|
            0 <= x < ids.len() && 0 <= y < b && 0 <= z < 4 ==> !placement_move(
                g,
                player,
                #[trigger] drawn_placement(g, player, places, ids, x, y, z),
            ),
        forall|x: int, z: int|
            0 <= x < a && 0 <= z < 4 ==> !placement_move(g, player, #[trigger] drawn_placement(g, player, places, ids, x, b, z)),
        forall|z: int| 0 <= z < c ==> !placement_move(g, player, #[trigger] drawn_placement(g, player, places, ids, a, b, z)),
    ensures
        first_fit(g, player, places, ids, drawn_placement(g, player, places, ids, a, b, c)),
{
    assert forall|x: int, y: int, z: int|
        0 <= x < ids.len() && 0 <= y < places.len() && 0 <= z < 4 && lex_less((y, x, z), (b, a, c))
            implies !placement_move(g, player, #[trigger] drawn_placement(g, player, places, ids, x, y, z)) by {
        if y < b {
        } else if x < a {
        } else {
        }
    }
}

/// A drawn place is free, and a drawn kind is in the bag.
proof fn lemma_drawn_from(g: Game, places: Seq<Place>, ids: Seq<TileId>, a: int, b: int)
    requires
        draw_order(g, places, ids),
        0 <= a < ids.len(),
        0 <= b < places.len(),
    ensures
        g.spec_free_places().contains(places[b]),
        exists|k: int| 0 <= k < g.spec_tiles_left().entries().len() && (#[trigger] g.spec_tiles_left().entries()[k]).0 == ids[a].0,
{
    broadcast use vstd::seq_lib::group_to_multiset_ensures;

    assert(places.contains(places[b]));
    assert(g.spec_free_places().to_multiset().count(places[b]) > 0);
    assert(g.spec_tiles_left().entries()[a].0 == ids[a].0);
}

/// Every placement is tried at some step of a draw.
proof fn lemma_drawn_all(g: Game, player: PlayerId, places: Seq<Place>, ids: Seq<TileId>, m: Move)
    requires
        draw_order(g, places, ids),
        placement_move(g, player, m),
    ensures
        exists|x: int, y: int|
            0 <= x < ids.len() && 0 <= y < places.len() && m == drawn_placement(g, player, places, ids, x, y, rot_index(m.rotation)),
{
    broadcast use vstd::seq_lib::group_to_multiset_ensures;

    let k = choose|k: int| 0 <= k < g.spec_tiles_left().entries().len() && (#[trigger] g.spec_tiles_left().entries()[k]).0 == m.tile.0;
    assert(bag_kinds(g)[k] == m.tile);
    assert(places.to_multiset().count(m.place) > 0);
    let x = k;
    let y = choose|y: int| 0 <= y < places.len() && places[y] == m.place;
    assert(m == drawn_placement(g, player, places, ids, x, y, rot_index(m.rotation)));
}

impl Game {
    /// Every move `player` can make: each placement with a follower on each
    /// structure of its tile without followers (when `player` has followers
    /// left), then the placements themselves; and those structures by seed.
    pub fn get_moves(&mut self, player: PlayerId) -> (r: (Vec<Move>, Vec<(Index, Structure)>))
        requires
            old(self).wf(),
            player.0 < old(self).spec_followers_left().len(),
        ensures
            final(self).wf(),
            final(self).spec_move_num() == old(self).spec_move_num(),
            final(self).spec_tiles() == old(self).spec_tiles(),
            final(self).spec_tiles_left() == old(self).spec_tiles_left(),
            final(self).spec_free_places() == old(self).spec_free_places(),
            final(self).spec_followers() == old(self).spec_followers(),
            final(self).spec_followers_left() == old(self).spec_followers_left(),
            final(self).spec_score() == old(self).spec_score(),
            final(self).spec_settings() == old(self).spec_settings(),
            distinct_keys_of(r.1@),
            forall|k: int| 0 <= k < r.0@.len() ==> #[trigger] from_placement(*old(self), player, r.0@[k]),
            (forall|m: Move| !placement_move(*old(self), player, m)) ==> *final(self) == *old(self),
            exists|pm: Seq<Move>, sss: Seq<Seq<Structure>>|
                pm.no_duplicates() && (forall|m: Move| pm.contains(m) <==> placement_move(*old(self), player, m))
                    && (forall|i: Index| #[trigger] final(self).spec_map().at_index(i) == blanked(old(self).spec_map(), pm, i))
                    && #[trigger] moves_considered(*old(self), pm, sss)
                    && r.0@ == option_moves(all_options(pm, sss, old(self).spec_followers_left(), pm.len() as int)) + pm
                    && r.1@ == keyed_structures(all_options(pm, sss, old(self).spec_followers_left(), pm.len() as int)),
    {
        let moves = self.get_moves_placement(player);
        let ghost pm = moves@;
        proof {
            if pm.len() > 0 {
                assert(pm.contains(pm[0]));
            }
        }
        proof {
            assert forall|j: int| 0 <= j < pm.len() implies place_writable(#[trigger] pm[j].place) && pm[j].tile.0 < self.spec_tiles().len()
                && pm[j].player.0 < self.spec_followers_left().len() by {
                assert(pm.contains(pm[j]));
                assert(placement_move(*self, player, pm[j]));
                let y = choose|y: int| 0 <= y < self.spec_free_places().len() && self.spec_free_places()[y] == pm[j].place;
                assert(place_writable(self.spec_free_places()[y]));
                let k = choose|k: int| 0 <= k < self.spec_tiles_left().entries().len() && (#[trigger] self.spec_tiles_left().entries()[k]).0 == pm[j].tile.0;
            }
        }
        let ghost g0 = *self;
        let r = self.get_moves_structures(moves);
        proof {
            let sss = choose|sss: Seq<Seq<Structure>>|
                #[trigger] moves_considered(g0, pm, sss)
                    && r.0@ == option_moves(all_options(pm, sss, g0.spec_followers_left(), pm.len() as int)) + pm
                    && r.1@ == keyed_structures(all_options(pm, sss, g0.spec_followers_left(), pm.len() as int));
            let opts = all_options(pm, sss, g0.spec_followers_left(), pm.len() as int);
            lemma_all_options_from(pm, sss, g0.spec_followers_left(), pm.len() as int);
            assert forall|k: int| 0 <= k < r.0@.len() implies #[trigger] from_placement(g0, player, r.0@[k]) by {
                if k < opts.len() {
                    assert(r.0@[k] == opts[k].0);
                    let t = choose|t: int| 0 <= t < pm.len() && same_placement(#[trigger] opts[k].0, pm[t])
                        && g0.spec_followers_left()[pm[t].player.0 as int] > 0 && opts[k].0.follower is Some;
                    assert(pm.contains(pm[t]));
                    assert(placement_move(g0, player, pm[t]));
                } else {
                    assert(r.0@[k] == pm[k - opts.len()]);
                    assert(pm.contains(pm[k - opts.len()]));
                    assert(placement_move(g0, player, pm[k - opts.len()]));
                    assert(same_placement(r.0@[k], pm[k - opts.len()]));
                }
            }
        }
        r
    }

    /// A random move for `player`: the first placement that fits, free places
    /// being tried in an order drawn at random and, for each, the tile kinds
    /// in the bag's order, then one of
    /// that placement's follower variants or the placement itself, chosen at
    /// random; `None` when no placement fits.
    pub fn get_random_move(&mut self, player: PlayerId) -> (r: Option<Move>)
        requires
            old(self).wf(),
            player.0 < old(self).spec_followers_left().len(),
        ensures
            final(self).wf(),
            final(self).spec_move_num() == old(self).spec_move_num(),
            final(self).spec_tiles() == old(self).spec_tiles(),
            final(self).spec_tiles_left() == old(self).spec_tiles_left(),
            final(self).spec_free_places() == old(self).spec_free_places(),
            final(self).spec_followers() == old(self).spec_followers(),
            final(self).spec_followers_left() == old(self).spec_followers_left(),
            final(self).spec_score() == old(self).spec_score(),
            final(self).spec_settings() == old(self).spec_settings(),
            r is None <==> forall|m: Move| !placement_move(*old(self), player, m),
            r matches Some(m) ==> from_placement(*old(self), player, m),
            crate::engines::cleared(old(self).spec_map(), old(self).spec_free_places(), final(self).spec_map()),
            r matches Some(m) ==> exists|p: Move, places: Seq<Place>, ids: Seq<TileId>, sss: Seq<Seq<Structure>>|
                #![trigger first_fit(*old(self), player, places, ids, p), moves_considered(*old(self), seq![p], sss)]
                draw_order(*old(self), places, ids) && first_fit(*old(self), player, places, ids, p)
                    && moves_considered(*old(self), seq![p], sss) && (m == p
                    || option_moves(all_options(seq![p], sss, old(self).spec_followers_left(), 1)).contains(m)),
    {
        let mut rng = self.rng.clone();
        let mut places = sample_all(&self.free_places, &mut rng);
        shuffle_all(&mut places, &mut rng);
        let ids = self.tiles_left.iter();
        let tile_ids = sample_all(&ids, &mut rng);
        proof {
            assert forall|i: int| 0 <= i < ids@.len() implies #[trigger] ids@[i] == bag_kinds(*self)[i] by {
                assert(ids@[i].0 == self.spec_tiles_left().entries()[i].0);
            }
            assert(ids@ =~= bag_kinds(*self));
        }
        let rots = crate::direction::Rotation::all();
        let ghost g0 = *self;
        let ghost entries = self.spec_tiles_left().entries();
        let ghost free = self.spec_free_places();
        let mut found: Option<Move> = None;
        let mut b: usize = 0;
        while b < places.len()
            invariant_except_break
                found is None,
            invariant
                self.wf(),
                entries == self.spec_tiles_left().entries(),
                free == self.spec_free_places(),
                draw_order(*self, places@, tile_ids@),
                rots@ == seq![Rotation::Rot0, Rotation::Rot1, Rotation::Rot2, Rotation::Rot3],
                b <= places@.len(),
                forall|x: int, y: int, z: int|
                    0 <= x < tile_ids@.len() && 0 <= y < b && 0 <= z < 4 ==> !placement_move(*self, player, #[trigger] drawn_placement(*self, player, places@, tile_ids@, x, y, z)),
            ensures
                found is None ==> forall|x: int, y: int, z: int|
                    0 <= x < tile_ids@.len() && 0 <= y < places@.len() && 0 <= z < 4 ==> !placement_move(*self, player, #[trigger] drawn_placement(*self, player, places@, tile_ids@, x, y, z)),
                found matches Some(p) ==> first_fit(*self, player, places@, tile_ids@, p),
                self.wf(),
            decreases places@.len() - b,
        {
            let place = places[b];
            let mut a: usize = 0;
            while a < tile_ids.len()
                invariant_except_break
                    found is None,
                invariant
                    self.wf(),
                        entries == self.spec_tiles_left().entries(),
                    free == self.spec_free_places(),
                    draw_order(*self, places@, tile_ids@),
                    rots@ == seq![Rotation::Rot0, Rotation::Rot1, Rotation::Rot2, Rotation::Rot3],
                    b < places@.len(),
                    place == places@[b as int],
                    a <= tile_ids@.len(),
                    forall|x: int, y: int, z: int|
                        0 <= x < tile_ids@.len() && 0 <= y < b && 0 <= z < 4 ==> !placement_move(*self, player, #[trigger] drawn_placement(*self, player, places@, tile_ids@, x, y, z)),
                    forall|x: int, z: int|
                        0 <= x < a && 0 <= z < 4 ==> !placement_move(*self, player, #[trigger] drawn_placement(*self, player, places@, tile_ids@, x, b as int, z)),
                ensures
                    found is None ==> forall|x: int, z: int|
                        0 <= x < tile_ids@.len() && 0 <= z < 4 ==> !placement_move(*self, player, #[trigger] drawn_placement(*self, player, places@, tile_ids@, x, b as int, z)),
                    found matches Some(p) ==> first_fit(*self, player, places@, tile_ids@, p),
                    self.wf(),
                    decreases tile_ids@.len() - a,
            {
                let id = tile_ids[a];
                proof {
                    lemma_drawn_from(*self, places@, tile_ids@, a as int, b as int);
                    let k = choose|k: int| 0 <= k < entries.len() && (#[trigger] entries[k]).0 == id.0;
                    assert(entries[k].0 < self.spec_tiles().len());
                }
                let tile = self.tiles[id.0 as usize];
                let mut c: usize = 0;
                while c < 4
                    invariant_except_break
                        found is None,
                    invariant
                        self.wf(),
                                entries == self.spec_tiles_left().entries(),
                        free == self.spec_free_places(),
                        draw_order(*self, places@, tile_ids@),
                        rots@ == seq![Rotation::Rot0, Rotation::Rot1, Rotation::Rot2, Rotation::Rot3],
                        b < places@.len(),
                        place == places@[b as int],
                        a < tile_ids@.len(),
                        id == tile_ids@[a as int],
                        tile == self.spec_tiles()[id.0 as int],
                        c <= 4,
                        forall|x: int, y: int, z: int|
                            0 <= x < tile_ids@.len() && 0 <= y < b && 0 <= z < 4 ==> !placement_move(*self, player, #[trigger] drawn_placement(*self, player, places@, tile_ids@, x, y, z)),
                        forall|x: int, z: int|
                            0 <= x < a && 0 <= z < 4 ==> !placement_move(*self, player, #[trigger] drawn_placement(*self, player, places@, tile_ids@, x, b as int, z)),
                        forall|z: int| 0 <= z < c ==> !placement_move(*self, player, #[trigger] drawn_placement(*self, player, places@, tile_ids@, a as int, b as int, z)),
                    ensures
                        found is None ==> forall|z: int| 0 <= z < 4 ==> !placement_move(*self, player, #[trigger] drawn_placement(*self, player, places@, tile_ids@, a as int, b as int, z)),
                        found matches Some(p) ==> first_fit(*self, player, places@, tile_ids@, p),
                        self.wf(),
                            decreases 4 - c,
                {
                    let rot = rots[c];
                    proof {
                        assert(rot == rot_of(c as int));
                        lemma_drawn_from(*self, places@, tile_ids@, a as int, b as int);
                        let y = choose|y: int| 0 <= y < free.len() && free[y] == place;
                        assert(place_writable(free[y]));
                    }
                    let mv = Move { move_num: self.move_num, place, tile: id, rotation: rot, follower: None, player };
                    proof {
                        assert(mv == drawn_placement(*self, player, places@, tile_ids@, a as int, b as int, c as int));
                    }
                    if self.check_tile(&tile, &place, &rot).is_ok() {
                        proof {
                            assert(free.contains(place));
                            assert(placement_move(*self, player, mv));
                            lemma_first_fit(*self, player, places@, tile_ids@, a as int, b as int, c as int);
                        }
                        found = Some(mv);
                        break;
                    }
                    c += 1;
                }
                if found.is_some() {
                    break;
                }
                a += 1;
            }
            if found.is_some() {
                break;
            }
            b += 1;
        }
        proof {
            if found is None {
                assert forall|m: Move| !placement_move(*self, player, m) by {
                    if placement_move(*self, player, m) {
                        lemma_drawn_all(*self, player, places@, tile_ids@, m);
                    }
                }
            }
        }
        match found {
            None => None,
            Some(p) => {
                proof {
                    assert(placement_move(*self, player, p)) by {
                        let (a, b, c) = choose|a: int, b: int, c: int|
                            0 <= a < tile_ids@.len() && 0 <= b < places@.len() && 0 <= c < 4
                                && p == #[trigger] drawn_placement(*self, player, places@, tile_ids@, a, b, c) && placement_move(*self, player, p) && forall|x: int, y: int, z: int|
                                0 <= x < tile_ids@.len() && 0 <= y < places@.len() && 0 <= z < 4 && lex_less(
                                    (y, x, z),
                                    (b, a, c),
                                ) ==> !placement_move(*self, player, #[trigger] drawn_placement(*self, player, places@, tile_ids@, x, y, z));
                    }
                    let y = choose|y: int| 0 <= y < free.len() && free[y] == p.place;
                    assert(place_writable(free[y]));
                    let k = choose|k: int| 0 <= k < entries.len() && (#[trigger] entries[k]).0 == p.tile.0;
                    assert(moves_usable(*self, seq![p]));
                }
                let single = vec![p];
                proof {
                    assert(single@ == seq![p]);
                }
                let (options, _) = self.get_moves_structures(single);
                let ghost opts = options@;
                proof {
                    assert forall|i: Index| #[trigger] self.spec_map().at_index(i) == g0.spec_map().at_index(i) || (
                    g0.spec_free_places().contains(spec_index_place(i)) && self.spec_map().at_index(i) == TilePixel::Nothing) by {
                        if exists|k: int| 0 <= k < 1 && (#[trigger] seq![p][k]).place == spec_index_place(i) {
                            assert(seq![p][0] == p);
                        }
                    }
                    let sss = choose|sss: Seq<Seq<Structure>>|
                        #[trigger] moves_considered(g0, seq![p], sss)
                            && opts == option_moves(all_options(seq![p], sss, g0.spec_followers_left(), 1)) + seq![p]
                            && true;
                    assert(opts.len() > 0);
                }
                let chosen = choose_one(&options, &mut rng);
                match chosen {
                    Some(m) => {
                        proof {
                            let sss = choose|sss: Seq<Seq<Structure>>|
                                #[trigger] moves_considered(g0, seq![p], sss)
                                    && opts == option_moves(all_options(seq![p], sss, g0.spec_followers_left(), 1)) + seq![p]
                                    && true;
                            let base = option_moves(all_options(seq![p], sss, g0.spec_followers_left(), 1));
                            let w = choose|w: int| 0 <= w < opts.len() && opts[w] == m;
                            if w < base.len() {
                                assert(base[w] == m);
                                assert(base.contains(m));
                                let ao = all_options(seq![p], sss, g0.spec_followers_left(), 1);
                                lemma_all_options_from(seq![p], sss, g0.spec_followers_left(), 1);
                                assert(m == ao[w].0);
                                let t = choose|t: int| 0 <= t < 1 && same_placement(#[trigger] ao[w].0, seq![p][t])
                                    && g0.spec_followers_left()[seq![p][t].player.0 as int] > 0 && ao[w].0.follower is Some;
                                assert(same_placement(m, p));
                            } else {
                                assert(m == p);
                                assert(same_placement(m, p));
                            }
                        }
                        Some(m)
                    },
                    None => None,
                }
            },
        }
    }
}

/// Putting a follower down moves it from its owner's hand to the board: for
/// every player, followers in hand plus followers on the board stay the same
/// (the pixel held no follower before).
pub proof fn lemma_placing_keeps_followers(fs: Seq<(Index, PlayerId)>, left: Seq<u32>, idx: Index, p: PlayerId, q: int)
    requires
        p.0 < left.len(),
        left[p.0 as int] > 0,
        !follower_on(fs, idx),
        0 <= q < left.len() <= u32::MAX + 1,
    ensures
        take_follower(left, p)[q] + count_of(place_follower(fs, idx, p), PlayerId(q as u32)) == left[q] + count_of(
            fs,
            PlayerId(q as u32),
        ),
{
    assert(!exists|k: int| 0 <= k < fs.len() && (#[trigger] fs[k]).0 == idx);
    fs.lemma_filter_push((idx, p), owned_by(PlayerId(q as u32)));
}

/// `mv` places a tile the way some move `player` can make now does, with a
/// follower only when `player` has followers left.
pub open spec fn from_placement(g: Game, player: PlayerId, mv: Move) -> bool {
    &&& exists|m: Move| placement_move(g, player, m) && #[trigger] same_placement(mv, m)
    &&& mv.follower is Some ==> g.spec_followers_left()[player.0 as int] > 0
}

/// `mv` is a move `player` may try now: the current move number, a kind still
/// in the bag, a free place, and a follower only when `player` has one left.
pub open spec fn move_candidate(g: Game, player: PlayerId, mv: Move) -> bool {
    &&& mv.move_num == g.spec_move_num()
    &&& mv.player == player
    &&& exists|k: int| 0 <= k < g.spec_tiles_left().entries().len() && (#[trigger] g.spec_tiles_left().entries()[k]).0 == mv.tile.0
    &&& g.spec_free_places().contains(mv.place)
    &&& mv.follower is Some ==> g.spec_followers_left()[player.0 as int] > 0
}

/// A move built from a placement `player` can make is a move it may try.
pub proof fn lemma_placement_is_candidate(g: Game, player: PlayerId, mv: Move)
    requires
        from_placement(g, player, mv),
    ensures
        move_candidate(g, player, mv),
{
    let m = choose|m: Move| placement_move(g, player, m) && #[trigger] same_placement(mv, m);
    let k = choose|k: int| 0 <= k < g.spec_tiles_left().entries().len() && (#[trigger] g.spec_tiles_left().entries()[k]).0 == m.tile.0;
}

/// `a` places the same tile, the same way, for the same player and move, as `b`.
pub open spec fn same_placement(a: Move, b: Move) -> bool {
    &&& a.move_num == b.move_num
    &&& a.place == b.place
    &&& a.tile == b.tile
    &&& a.rotation == b.rotation
    &&& a.player == b.player
}

proof fn lemma_follower_options_from(mov: Move, ss: Seq<Structure>, can: bool)
    ensures
        forall|k: int|
            0 <= k < follower_options(mov, ss, can).len() ==> same_placement(#[trigger] follower_options(mov, ss, can)[k].0, mov)
                && follower_options(mov, ss, can)[k].0.follower is Some && can,
    decreases ss.len(),
{
    if ss.len() > 0 {
        lemma_follower_options_from(mov, ss.drop_last(), can);
    }
}

pub proof fn lemma_all_options_from(moves: Seq<Move>, sss: Seq<Seq<Structure>>, left: Seq<u32>, j: int)
    requires
        0 <= j <= moves.len(),
        sss.len() == moves.len(),
    ensures
        forall|k: int|
            0 <= k < all_options(moves, sss, left, j).len() ==> exists|t: int|
                0 <= t < j && same_placement(#[trigger] all_options(moves, sss, left, j)[k].0, moves[t])
                    && left[moves[t].player.0 as int] > 0 && all_options(moves, sss, left, j)[k].0.follower is Some,
    decreases j,
{
    if j > 0 {
        lemma_all_options_from(moves, sss, left, j - 1);
        let prev = all_options(moves, sss, left, j - 1);
        let fo = follower_options(moves[j - 1], sss[j - 1], left[moves[j - 1].player.0 as int] > 0);
        lemma_follower_options_from(moves[j - 1], sss[j - 1], left[moves[j - 1].player.0 as int] > 0);
        assert forall|k: int| 0 <= k < all_options(moves, sss, left, j).len() implies exists|t: int|
            0 <= t < j && same_placement(#[trigger] all_options(moves, sss, left, j)[k].0, moves[t])
                && left[moves[t].player.0 as int] > 0 && all_options(moves, sss, left, j)[k].0.follower is Some by {
            if k < prev.len() {
                assert(all_options(moves, sss, left, j)[k] == prev[k]);
                let t = choose|t: int| 0 <= t < j - 1 && same_placement(#[trigger] prev[k].0, moves[t])
                    && left[moves[t].player.0 as int] > 0 && prev[k].0.follower is Some;
            } else {
                assert(all_options(moves, sss, left, j)[k] == fo[k - prev.len()]);
                assert(same_placement(fo[k - prev.len()].0, moves[j - 1]));
            }
        }
    }
}

/// `b` holds the same game as `a`: the same board pixels and every other part equal.
pub open spec fn same_game(a: Game, b: Game) -> bool {
    &&& a.spec_map().same_as(b.spec_map())
    &&& a.spec_move_num() == b.spec_move_num()
    &&& a.spec_tiles() == b.spec_tiles()
    &&& a.spec_tiles_left().entries() == b.spec_tiles_left().entries()
    &&& a.spec_free_places() == b.spec_free_places()
    &&& a.spec_followers() == b.spec_followers()
    &&& a.spec_followers_left() == b.spec_followers_left()
    &&& a.spec_score() == b.spec_score()
    &&& a.spec_settings() == b.spec_settings()
}

impl Clone for Game {
    fn clone(&self) -> (r: Self)
        ensures
            same_game(r, *self),
            self.wf() ==> r.wf(),
    {
        let tiles = self.tiles.clone();
        let free_places = self.free_places.clone();
        let mut followers: Vec<(Index, PlayerId)> = Vec::new();
        let mut i: usize = 0;
        while i < self.followers.len()
            invariant
                i <= self.followers@.len(),
                followers@ == self.followers@.take(i as int),
            decreases self.followers@.len() - i,
        {
            followers.push(self.followers[i]);
            proof {
                assert(self.followers@.take(i as int + 1) == self.followers@.take(i as int).push(self.followers@[i as int]));
            }
            i += 1;
        }
        let followers_left = self.followers_left.clone();
        let score = self.score.clone();
        proof {
            assert(tiles@ =~= self.tiles@);
            assert(free_places@ =~= self.free_places@);
            assert(self.followers@.take(self.followers@.len() as int) == self.followers@);
            assert(followers_left@ =~= self.followers_left@);
            assert(score@ =~= self.score@);
        }
        Game {
            move_num: self.move_num,
            map: self.map.clone(),
            tiles,
            tiles_left: self.tiles_left.clone(),
            free_places,
            followers,
            followers_left,
            score,
            settings: self.settings,
            rng: self.rng.clone(),
        }
    }
}

/// Whether a tile may be played on `place` (see `place_playable`).
pub fn is_playable(place: &Place) -> (r: bool)
    ensures
        r == place_playable(*place),
{
    let x = place.x as i128;
    let y = place.y as i128;
    let ax = if x < 0 { -x } else { x };
    let ay = if y < 0 { -y } else { y };
    ax + ay <= 815
}

impl Game {
    /// Whether every follower stands on a pixel that scores.
    pub fn followers_on_scoring_now(&self) -> (r: bool)
        requires
            self.wf(),
        ensures
            r == followers_on_scoring(self.spec_map(), self.spec_settings(), self.spec_followers()),
    {
        let mut i: usize = 0;
        while i < self.followers.len()
            invariant
                self.wf(),
                i <= self.followers@.len(),
                forall|k: int| 0 <= k < i ==> crate::tile_pixel::spec_is_scoring(
                    self.map.at_index(#[trigger] self.followers@[k].0),
                    self.settings.farmers_enabled,
                ),
            decreases self.followers@.len() - i,
        {
            let p = self.map.get_index(self.followers[i].0);
            if !crate::tile_pixel::is_scoring(p, self.settings.farmers_enabled) {
                return false;
            }
            i += 1;
        }
        true
    }
}

/// The pixels that hold a follower.
pub open spec fn follower_pixels(fs: Seq<(Index, PlayerId)>) -> Seq<Index> {
    fs.map_values(|e: (Index, PlayerId)| e.0)
}

impl Game {
    /// The board drawn as text, each follower marked on its pixel.
    pub fn board_text(&self) -> (r: Vec<char>)
        requires
            self.wf(),
        ensures
            crate::map::map_blank(self.spec_map()) ==> r@ == seq!['e', 'm', 'p', 't', 'y', '\n'] + crate::map::framed(
                self.spec_map(),
                follower_pixels(self.spec_followers()),
                0,
                0,
                0,
                0,
            ),
            !crate::map::map_blank(self.spec_map()) ==> exists|y0: int, y1: int, x0: int, x1: int|
                #[trigger] crate::map::is_bbox(self.spec_map(), y0, y1, x0, x1) && r@ == crate::map::framed(
                    self.spec_map(),
                    follower_pixels(self.spec_followers()),
                    y0 - 1,
                    y1 + 2,
                    x0 - 1,
                    x1 + 2,
                ),
    {
        let mut pixels: Vec<Index> = Vec::new();
        let mut i: usize = 0;
        while i < self.followers.len()
            invariant
                i <= self.followers@.len(),
                pixels@ == follower_pixels(self.followers@.take(i as int)),
            decreases self.followers@.len() - i,
        {
            pixels.push(self.followers[i].0);
            proof {
                assert(self.followers@.take(i as int + 1) == self.followers@.take(i as int).push(self.followers@[i as int]));
                assert(follower_pixels(self.followers@.take(i as int + 1)) =~= follower_pixels(self.followers@.take(i as int)).push(self.followers@[i as int].0));
            }
            i += 1;
        }
        proof {
            assert(self.followers@.take(self.followers@.len() as int) == self.followers@);
        }
        self.map.to_display_string(&pixels)
    }
}

} // verus!
