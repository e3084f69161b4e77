use vstd::prelude::*;
use crate::tile_pixel::{TILE_SIZE, TilePixel};
use crate::map::pixel_chars;

verus! {

/// A set of tile kinds: a picture and a number of copies for each name,
/// and the name of the tile that starts the game.
pub struct TileSet {
    pub name: String,
    pub starting_tile: String,
    pub tiles: Vec<(String, [[TilePixel; TILE_SIZE]; TILE_SIZE])>,
    pub tile_numbers: Vec<(String, u32)>,
}

/// The tile set a game can be started from: names are distinct, each tile has
/// a number of copies, the starting tile is one of the tiles, and every kind
/// can be numbered by a `u32`.
pub open spec fn tileset_usable(ts: &TileSet) -> bool {
    &&& ts.tiles@.len() <= u32::MAX
    &&& forall|i: int, j: int|
        0 <= i < j < ts.tiles@.len() ==> #[trigger] ts.tiles@[i].0@ != #[trigger] ts.tiles@[j].0@
    &&& forall|i: int, j: int|
        0 <= i < j < ts.tile_numbers@.len() ==> #[trigger] ts.tile_numbers@[i].0@
            != #[trigger] ts.tile_numbers@[j].0@
    &&& forall|i: int|
        0 <= i < ts.tiles@.len() ==> exists|j: int|
            0 <= j < ts.tile_numbers@.len() && ts.tile_numbers@[j].0@ == (#[trigger] ts.tiles@[i]).0@
    &&& exists|i: int| 0 <= i < ts.tiles@.len() && (#[trigger] ts.tiles@[i]).0@ == ts.starting_tile@
}

/// The number of copies listed for the tile called `name`.
pub open spec fn number_for(ts: &TileSet, name: Seq<char>) -> u32 {
    let j = choose|j: int| 0 <= j < ts.tile_numbers@.len() && ts.tile_numbers@[j].0@ == name;
    ts.tile_numbers@[j].1
}

/// The position of the starting tile among the tiles.
pub open spec fn starting_position(ts: &TileSet) -> int {
    choose|i: int| 0 <= i < ts.tiles@.len() && ts.tiles@[i].0@ == ts.starting_tile@
}

/// Why a tile picture could not be read.
#[derive(Debug, Clone)]
pub struct ParseError {
    pub path: Vec<char>,
}

impl ParseError {
    pub fn new(path: Vec<char>) -> (r: Self)
        ensures
            r.path@ == path@,
    {
        ParseError { path }
    }
}

/// The pixel written as the two characters `a`, `b`, if any.
pub open spec fn spec_pixel_of_chars(a: char, b: char) -> Option<TilePixel> {
    if a == '\u{b7}' && b == '\u{b7}' {
        Some(TilePixel::Field)
    } else if a == '\u{2591}' && b == '\u{2591}' {
        Some(TilePixel::Road)
    } else if a == '\u{2592}' && b == '\u{2592}' {
        Some(TilePixel::City)
    } else if a == '\u{2593}' && b == '\u{2593}' {
        Some(TilePixel::PennantCity)
    } else if a == '\u{2588}' && b == '\u{2588}' {
        Some(TilePixel::Blockade)
    } else if a == '\u{271d}' && b == '\u{2302}' {
        Some(TilePixel::Cloister)
    } else if a == '\u{29bb}' && b == '\u{29bb}' {
        Some(TilePixel::Nothing)
    } else {
        None
    }
}

/// Whether `data` begins with a tile picture: five rows of five two-character
/// pixels, each row ended by a newline; the picture read is `t`.
pub open spec fn spec_tile_text(data: Seq<char>, t: [[TilePixel; TILE_SIZE]; TILE_SIZE]) -> bool {
    &&& data.len() >= 55
    &&& forall|row: int, col: int|
        0 <= row < 5 && 0 <= col < 5 ==> spec_pixel_of_chars(
            data[row * 11 + col * 2],
            data[row * 11 + col * 2 + 1],
        ) == Some(#[trigger] t[row][col])
    &&& forall|row: int| 0 <= row < 5 ==> #[trigger] data[row * 11 + 10] == '\n'
}

spec fn cell_ok(data: Seq<char>, t: [[TilePixel; TILE_SIZE]; TILE_SIZE], r2: int, c2: int) -> bool {
    data.len() > r2 * 11 + c2 * 2 + 1 && spec_pixel_of_chars(
        data[r2 * 11 + c2 * 2],
        data[r2 * 11 + c2 * 2 + 1],
    ) == Some(t[r2][c2])
}

/// Every pixel before (`row`, `column`) in reading order was read correctly.
spec fn cells_ok(data: Seq<char>, t: [[TilePixel; TILE_SIZE]; TILE_SIZE], row: int, column: int) -> bool {
    forall|r2: int, c2: int|
        (0 <= r2 < row && 0 <= c2 < 5) || (r2 == row && 0 <= c2 < column) ==> #[trigger] cell_ok(
            data,
            t,
            r2,
            c2,
        )
}

spec fn row_end_ok(data: Seq<char>, r2: int) -> bool {
    data.len() > r2 * 11 + 10 && data[r2 * 11 + 10] == '\n'
}

spec fn rows_end_ok(data: Seq<char>, row: int) -> bool {
    forall|r2: int| 0 <= r2 < row ==> #[trigger] row_end_ok(data, r2)
}

fn copy_chars(v: &Vec<char>) -> (r: Vec<char>)
    ensures
        r@ == v@,
{
    let mut r: Vec<char> = Vec::new();
    let mut i: usize = 0;
    while i < v.len()
        invariant
            i <= v@.len(),
            r@ == v@.take(i as int),
        decreases v@.len() - i,
    {
        r.push(v[i]);
        proof {
            assert(v@.take(i as int + 1) == v@.take(i as int).push(v@[i as int]));
        }
        i += 1;
    }
    proof {
        assert(v@.take(v@.len() as int) == v@);
    }
    r
}

fn pixel_of_chars(a: char, b: char) -> (r: Option<TilePixel>)
    ensures
        r == spec_pixel_of_chars(a, b),
{
    if a == '\u{b7}' && b == '\u{b7}' {
        Some(TilePixel::Field)
    } else if a == '\u{2591}' && b == '\u{2591}' {
        Some(TilePixel::Road)
    } else if a == '\u{2592}' && b == '\u{2592}' {
        Some(TilePixel::City)
    } else if a == '\u{2593}' && b == '\u{2593}' {
        Some(TilePixel::PennantCity)
    } else if a == '\u{2588}' && b == '\u{2588}' {
        Some(TilePixel::Blockade)
    } else if a == '\u{271d}' && b == '\u{2302}' {
        Some(TilePixel::Cloister)
    } else if a == '\u{29bb}' && b == '\u{29bb}' {
        Some(TilePixel::Nothing)
    } else {
        None
    }
}

/// Reads a tile picture from the characters of a tile file; `path` names the
/// file in the error.
pub fn parse_tile(data: &Vec<char>, path: &Vec<char>) -> (r: Result<
    [[TilePixel; TILE_SIZE]; TILE_SIZE],
    ParseError,
>)
    ensures
        r matches Ok(t) ==> spec_tile_text(data@, t),
        r is Err <==> !(exists|t: [[TilePixel; TILE_SIZE]; TILE_SIZE]| spec_tile_text(data@, t)),
        r matches Err(e) ==> e.path@ == path@,
{
    let mut pixels = [[TilePixel::Nothing; TILE_SIZE]; TILE_SIZE];
    let mut row: usize = 0;
    while row < TILE_SIZE
        invariant
            row <= 5,
            cells_ok(data@, pixels, row as int, 0),
            rows_end_ok(data@, row as int),
        decreases 5 - row,
    {
        let mut column: usize = 0;
        while column < TILE_SIZE
            invariant
                row < 5,
                column <= 5,
                cells_ok(data@, pixels, row as int, column as int),
                rows_end_ok(data@, row as int),
            decreases 5 - column,
        {
            let pos = row * 11 + column * 2;
            if pos + 1 >= data.len() {
                proof {
                    assert forall|t: [[TilePixel; TILE_SIZE]; TILE_SIZE]| !spec_tile_text(data@, t) by {
                        if spec_tile_text(data@, t) {
                            assert(data@.len() >= 55);
                        }
                    }
                }
                return Err(ParseError::new(copy_chars(path)));
            }
            match pixel_of_chars(data[pos], data[pos + 1]) {
                Some(p) => {
                    let ghost before = pixels;
                    pixels[row][column] = p;
                    proof {
                        assert forall|r2: int, c2: int|
                            (0 <= r2 < row && 0 <= c2 < 5) || (r2 == row && 0 <= c2 < column + 1)
                                implies cell_ok(data@, pixels, r2, c2) by {
                            if !(r2 == row && c2 == column) {
                                assert(cell_ok(data@, before, r2, c2));
                            }
                        }
                    }
                },
                None => {
                    proof {
                        assert forall|t: [[TilePixel; TILE_SIZE]; TILE_SIZE]| !spec_tile_text(data@, t) by {
                            if spec_tile_text(data@, t) {
                                assert(spec_pixel_of_chars(
                                    data@[row * 11 + column * 2],
                                    data@[row * 11 + column * 2 + 1],
                                ) == Some(t[row as int][column as int]));
                            }
                        }
                    }
                    return Err(ParseError::new(copy_chars(path)));
                },
            }
            column += 1;
        }
        proof {
            assert(cells_ok(data@, pixels, row as int + 1, 0)) by {
                assert forall|r2: int, c2: int|
                    (0 <= r2 < row + 1 && 0 <= c2 < 5) implies cell_ok(data@, pixels, r2, c2) by {
                    assert((0 <= r2 < row && 0 <= c2 < 5) || (r2 == row && 0 <= c2 < 5));
                }
            }
        }
        let pos = row * 11 + 10;
        if pos >= data.len() || data[pos] != '\n' {
            proof {
                assert forall|t: [[TilePixel; TILE_SIZE]; TILE_SIZE]| !spec_tile_text(data@, t) by {
                    if spec_tile_text(data@, t) {
                        assert(data@[row * 11 + 10] == '\n');
                    }
                }
            }
            return Err(ParseError::new(copy_chars(path)));
        }
        proof {
            assert(rows_end_ok(data@, row as int + 1)) by {
                assert forall|r2: int| 0 <= r2 < row + 1 implies row_end_ok(data@, r2) by {
                    if r2 < row {
                        assert(row_end_ok(data@, r2));
                    }
                }
            }
        }
        row += 1;
    }
    proof {
        assert forall|r2: int, c2: int| 0 <= r2 < 5 && 0 <= c2 < 5 implies spec_pixel_of_chars(
            data@[r2 * 11 + c2 * 2],
            data@[r2 * 11 + c2 * 2 + 1],
        ) == Some(#[trigger] pixels[r2][c2]) by {
            assert(cell_ok(data@, pixels, r2, c2));
        }
        assert forall|r2: int| 0 <= r2 < 5 implies #[trigger] data@[r2 * 11 + 10] == '\n' by {
            assert(row_end_ok(data@, r2));
        }
        assert(row_end_ok(data@, 4));
        assert(spec_tile_text(data@, pixels));
    }
    Ok(pixels)
}

/// Every tile file before `k` reads as a picture.
pub open spec fn files_parse_upto(files: Seq<(String, Vec<char>, Vec<char>)>, k: int) -> bool {
    forall|i: int| 0 <= i < k ==> #[trigger] text_parses(files[i].1@)
}

/// `data` holds a tile picture.
pub open spec fn text_parses(data: Seq<char>) -> bool {
    exists|t: [[TilePixel; TILE_SIZE]; TILE_SIZE]| spec_tile_text(data, t)
}

/// Builds a tile set from its name, its starting tile, each tile's name with
/// the text of its file and the file's path, and each tile's number of copies.
/// The first file that does not hold a tile picture gives the error.
pub fn parse_tilesets(
    name: String,
    starting_tile: String,
    files: Vec<(String, Vec<char>, Vec<char>)>,
    tile_numbers: Vec<(String, u32)>,
) -> (r: Result<TileSet, ParseError>)
    ensures
        r is Ok <==> files_parse_upto(files@, files@.len() as int),
        r matches Ok(ts) ==> {
            &&& ts.name@ == name@
            &&& ts.starting_tile@ == starting_tile@
            &&& ts.tile_numbers@ == tile_numbers@
            &&& ts.tiles@.len() == files@.len()
            &&& forall|i: int|
                0 <= i < files@.len() ==> (#[trigger] ts.tiles@[i]).0@ == files@[i].0@ && spec_tile_text(
                    files@[i].1@,
                    ts.tiles@[i].1,
                )
        },
        r matches Err(e) ==> exists|k: int|
            0 <= k < files@.len() && files_parse_upto(files@, k) && !#[trigger] text_parses(files@[k].1@) && e.path@
                == files@[k].2@,
{
    let mut tiles: Vec<(String, [[TilePixel; TILE_SIZE]; TILE_SIZE])> = Vec::new();
    let mut i: usize = 0;
    while i < files.len()
        invariant
            i <= files@.len(),
            files_parse_upto(files@, i as int),
            tiles@.len() == i,
            forall|j: int|
                0 <= j < i ==> (#[trigger] tiles@[j]).0@ == files@[j].0@ && spec_tile_text(files@[j].1@, tiles@[j].1),
        decreases files@.len() - i,
    {
        let entry = &files[i];
        match parse_tile(&entry.1, &entry.2) {
            Ok(t) => {
                let n = entry.0.clone();
                tiles.push((n, t));
                proof {
                    assert(entry.1@ == files@[i as int].1@);
                    assert(spec_tile_text(files@[i as int].1@, t));
                    assert(text_parses(files@[i as int].1@));
                }
            },
            Err(e) => {
                proof {
                    assert(!text_parses(files@[i as int].1@));
                }
                return Err(e);
            },
        }
        i += 1;
    }
    Ok(TileSet { name, starting_tile, tiles, tile_numbers })
}

/// The tile kinds a plain game is played with.
pub open spec fn plain_kind(name: Seq<char>) -> bool {
    name == "CRFR"@ || name == "FFRR"@ || name == "FRRR_DISCONNECTED"@
}

/// The copies of kind `name` in the bag of a plain game: none of the
/// starting kind, 36 of each other.
pub open spec fn plain_count(name: Seq<char>) -> u32 {
    if name == "CRFR"@ {
        0
    } else {
        36
    }
}

/// Tile pictures of a plain kind.
pub open spec fn plain_tile() -> spec_fn((String, [[TilePixel; TILE_SIZE]; TILE_SIZE])) -> bool {
    |e: (String, [[TilePixel; TILE_SIZE]; TILE_SIZE])| plain_kind(e.0@)
}

/// Numbers of copies of a plain kind.
pub open spec fn plain_number() -> spec_fn((String, u32)) -> bool {
    |e: (String, u32)| plain_kind(e.0@)
}

fn is_plain_kind(name: &String) -> (r: bool)
    ensures
        r == plain_kind(name@),
{
    let crfr = "CRFR".to_owned();
    let ffrr = "FFRR".to_owned();
    let frrr = "FRRR_DISCONNECTED".to_owned();
    *name == crfr || *name == ffrr || *name == frrr
}

/// The tile set of a plain game: only the kinds CRFR, FFRR and
/// FRRR_DISCONNECTED are kept, none of CRFR goes in the bag (it only starts
/// the game) and 36 copies of each of the others do.
pub fn plain_tileset(ts: &TileSet) -> (r: TileSet)
    ensures
        r.name == ts.name,
        r.starting_tile == ts.starting_tile,
        r.tiles@ == ts.tiles@.filter(plain_tile()),
        r.tile_numbers@ == ts.tile_numbers@.filter(plain_number()).map_values(
            |e: (String, u32)| (e.0, plain_count(e.0@)),
        ),
{
    let mut tiles: Vec<(String, [[TilePixel; TILE_SIZE]; TILE_SIZE])> = Vec::new();
    let mut i: usize = 0;
    while i < ts.tiles.len()
        invariant
            i <= ts.tiles@.len(),
            tiles@ == ts.tiles@.take(i as int).filter(plain_tile()),
        decreases ts.tiles@.len() - i,
    {
        let keep = is_plain_kind(&ts.tiles[i].0);
        proof {
            assert(ts.tiles@.take(i as int + 1) == ts.tiles@.take(i as int).push(ts.tiles@[i as int]));
            ts.tiles@.take(i as int).lemma_filter_push(ts.tiles@[i as int], plain_tile());
        }
        if keep {
            tiles.push((ts.tiles[i].0.clone(), ts.tiles[i].1));
        }
        i += 1;
    }
    proof {
        assert(ts.tiles@.take(ts.tiles@.len() as int) == ts.tiles@);
    }
    let crfr = "CRFR".to_owned();
    let mut numbers: Vec<(String, u32)> = Vec::new();
    let mut j: usize = 0;
    while j < ts.tile_numbers.len()
        invariant
            j <= ts.tile_numbers@.len(),
            crfr@ == "CRFR"@,
            numbers@ == ts.tile_numbers@.take(j as int).filter(plain_number()).map_values(
                |e: (String, u32)| (e.0, plain_count(e.0@)),
            ),
        decreases ts.tile_numbers@.len() - j,
    {
        let keep = is_plain_kind(&ts.tile_numbers[j].0);
        let ghost before = ts.tile_numbers@.take(j as int).filter(plain_number());
        proof {
            assert(ts.tile_numbers@.take(j as int + 1) == ts.tile_numbers@.take(j as int).push(ts.tile_numbers@[j as int]));
            ts.tile_numbers@.take(j as int).lemma_filter_push(ts.tile_numbers@[j as int], plain_number());
        }
        if keep {
            let name = ts.tile_numbers[j].0.clone();
            let count: u32 = if name == crfr { 0 } else { 36 };
            numbers.push((name, count));
            proof {
                let f = |e: (String, u32)| (e.0, plain_count(e.0@));
                assert(before.push(ts.tile_numbers@[j as int]).map_values(f) =~= before.map_values(f).push(
                    f(ts.tile_numbers@[j as int]),
                ));
            }
        }
        j += 1;
    }
    proof {
        assert(ts.tile_numbers@.take(ts.tile_numbers@.len() as int) == ts.tile_numbers@);
    }
    TileSet { name: ts.name.clone(), starting_tile: ts.starting_tile.clone(), tiles, tile_numbers: numbers }
}

/// The copies of each kind left once a game on `ts` has started: as many as
/// the tile set lists, one fewer (but not below none) of the starting kind.
pub fn initial_counts(ts: &TileSet) -> (r: Vec<(String, u32)>)
    ensures
        r@.len() == ts.tile_numbers@.len(),
        forall|k: int|
            0 <= k < r@.len() ==> (#[trigger] r@[k]).0 == ts.tile_numbers@[k].0 && r@[k].1 == if ts.tile_numbers@[k].0@
                == ts.starting_tile@ {
                if ts.tile_numbers@[k].1 == 0 { 0 } else { (ts.tile_numbers@[k].1 - 1) as u32 }
            } else {
                ts.tile_numbers@[k].1
            },
{
    let mut r: Vec<(String, u32)> = Vec::new();
    let mut k: usize = 0;
    while k < ts.tile_numbers.len()
        invariant
            k <= ts.tile_numbers@.len(),
            r@.len() == k,
            forall|a: int|
                0 <= a < k ==> (#[trigger] r@[a]).0 == ts.tile_numbers@[a].0 && r@[a].1 == if ts.tile_numbers@[a].0@
                    == ts.starting_tile@ {
                    if ts.tile_numbers@[a].1 == 0 { 0 } else { (ts.tile_numbers@[a].1 - 1) as u32 }
                } else {
                    ts.tile_numbers@[a].1
                },
        decreases ts.tile_numbers@.len() - k,
    {
        let name = ts.tile_numbers[k].0.clone();
        let count = ts.tile_numbers[k].1;
        let left: u32 = if name == ts.starting_tile { count.saturating_sub(1) } else { count };
        r.push((name, left));
        k += 1;
    }
    r
}

/// The tile-picture code of every pixel, pair by pair: '··' field, '░░'
/// road, '▒▒' city, '▓▓' pennant city, '██' blockade, '✝⌂' cloister, '⦻⦻'
/// nothing. Reading the two characters a pixel is drawn with on the board
/// gives that pixel back, no other pair of characters is read as a pixel,
/// and no two pixels share a code.
pub proof fn lemma_pixel_codes()
    ensures
        spec_pixel_of_chars('\u{b7}', '\u{b7}') == Some(TilePixel::Field),
        spec_pixel_of_chars('\u{2591}', '\u{2591}') == Some(TilePixel::Road),
        spec_pixel_of_chars('\u{2592}', '\u{2592}') == Some(TilePixel::City),
        spec_pixel_of_chars('\u{2593}', '\u{2593}') == Some(TilePixel::PennantCity),
        spec_pixel_of_chars('\u{2588}', '\u{2588}') == Some(TilePixel::Blockade),
        spec_pixel_of_chars('\u{271d}', '\u{2302}') == Some(TilePixel::Cloister),
        spec_pixel_of_chars('\u{29bb}', '\u{29bb}') == Some(TilePixel::Nothing),
        forall|p: TilePixel| #[trigger] spec_pixel_of_chars(pixel_chars(p)[0], pixel_chars(p)[1]) == Some(p),
        forall|a: char, b: char|
            #[trigger] spec_pixel_of_chars(a, b) matches Some(p) ==> a == pixel_chars(p)[0] && b == pixel_chars(p)[1],
        forall|a: char, b: char, c: char, d: char|
            #[trigger] spec_pixel_of_chars(a, b) is Some && spec_pixel_of_chars(a, b) == #[trigger] spec_pixel_of_chars(c, d)
                ==> a == c && b == d,
{
}

} // verus!
