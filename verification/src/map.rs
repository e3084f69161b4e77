use vstd::prelude::*;
use crate::index::Index;
use crate::tile_pixel::TilePixel;
use crate::flood_fill::contains_index;

verus! {

/// The largest side length that a map grows to; nine times its square fits in a `u32`.
pub const MAX_SIDE: usize = 0x4000;

/// A square grid of pixels centred on (0, 0) that grows when written near its edge.
pub struct PixelMap {
    data: Vec<TilePixel>,
    size: usize,
}

pub open spec fn abs_int(a: int) -> int {
    if a < 0 { -a } else { a }
}

/// The side length that guarantees a write at (row, column) lands strictly inside.
pub open spec fn needed_side(row: int, column: int) -> int {
    2 * (abs_int(row) + abs_int(column) + 2)
}

/// `size` doubled `k` times.
pub open spec fn doubled(size: int, k: nat) -> int
    decreases k,
{
    if k == 0 {
        size
    } else {
        2 * doubled(size, (k - 1) as nat)
    }
}

/// A grid of side `size` holds (`row`, `column`) away from its edge.
pub open spec fn interior_at(size: int, row: int, column: int) -> bool {
    -(size / 2) < row < size - size / 2 - 1 && -(size / 2) < column < size - size / 2 - 1
}

impl PixelMap {
    pub closed spec fn spec_size(&self) -> int {
        self.size as int
    }

    pub open spec fn center(&self) -> int {
        self.spec_size() / 2
    }

    pub open spec fn min_index(&self) -> int {
        -self.center()
    }

    pub open spec fn max_index(&self) -> int {
        self.spec_size() - self.center() - 1
    }

    pub open spec fn in_range(&self, row: int, column: int) -> bool {
        self.min_index() <= row <= self.max_index() && self.min_index() <= column
            <= self.max_index()
    }

    pub open spec fn in_interior(&self, row: int, column: int) -> bool {
        self.min_index() < row < self.max_index() && self.min_index() < column
            < self.max_index()
    }

    pub closed spec fn wf(&self) -> bool {
        &&& self.size <= MAX_SIDE
        &&& self.data@.len() == self.size * self.size
    }

    /// The pixel stored at (row, column); everything outside the grid is `Nothing`.
    pub closed spec fn at(&self, row: int, column: int) -> TilePixel {
        if self.in_range(row, column) {
            self.data@[(row + self.center()) * self.spec_size() + (column + self.center())]
        } else {
            TilePixel::Nothing
        }
    }

    /// The pixel at a board index (`y` is the row, `x` the column).
    pub open spec fn at_index(&self, idx: Index) -> TilePixel {
        self.at(idx.y as int, idx.x as int)
    }

    proof fn lemma_flat_in_bounds(&self, row: int, column: int)
        requires
            self.wf(),
            self.in_range(row, column),
        ensures
            0 <= (row + self.center()) * self.spec_size() + (column + self.center())
                < self.data@.len(),
            self.data@.len() <= MAX_SIDE * MAX_SIDE,
            0 <= (row + self.center()) * self.spec_size() <= MAX_SIDE * MAX_SIDE,
    {
        let s = self.spec_size();
        let a = row + self.center();
        let b = column + self.center();
        assert(0 <= a < s && 0 <= b < s);
        assert(0 <= a * s + b < s * s) by (nonlinear_arith)
            requires
                0 <= a < s,
                0 <= b < s,
        ;
        assert(s * s <= MAX_SIDE * MAX_SIDE) by (nonlinear_arith)
            requires
                0 <= s <= MAX_SIDE,
        ;
    }

    /// A map of `size` by `size` empty pixels.
    pub fn new(size: usize) -> (r: Self)
        requires
            size <= MAX_SIDE,
        ensures
            r.wf(),
            r.spec_size() == size,
            forall|row: int, column: int| #[trigger] r.at(row, column) == TilePixel::Nothing,
    {
        assert(size * size <= MAX_SIDE * MAX_SIDE) by (nonlinear_arith)
            requires
                size <= MAX_SIDE,
        ;
        let vec_size = size * size;
        let mut data: Vec<TilePixel> = Vec::new();
        let mut i: usize = 0;
        while i < vec_size
            invariant
                i <= vec_size,
                data@.len() == i,
                forall|k: int| 0 <= k < i ==> data@[k] == TilePixel::Nothing,
            decreases vec_size - i,
        {
            data.push(TilePixel::Nothing);
            i += 1;
        }
        let m = PixelMap { data, size };
        proof {
            assert forall|row: int, column: int| #[trigger] m.at(row, column) == TilePixel::Nothing by {
                if m.in_range(row, column) {
                    m.lemma_flat_in_bounds(row, column);
                }
            }
        }
        m
    }

    /// Side length of the grid.
    pub fn size(&self) -> (r: usize)
        ensures
            r == self.spec_size(),
    {
        self.size
    }

    /// The pixel at (row, column), `Nothing` outside the grid.
    pub fn get(&self, row: isize, column: isize) -> (r: TilePixel)
        requires
            self.wf(),
        ensures
            r == self.at(row as int, column as int),
    {
        let center = self.size / 2;
        let size = self.size;
        let in_range = (row as i128) >= -(center as i128) && (row as i128) <= (size as i128)
            - (center as i128) - 1 && (column as i128) >= -(center as i128) && (column as i128)
            <= (size as i128) - (center as i128) - 1;
        if !in_range {
            return TilePixel::Nothing;
        }
        proof {
            self.lemma_flat_in_bounds(row as int, column as int);
        }
        let a = (row + center as isize) as usize;
        let b = (column + center as isize) as usize;
        self.data[a * size + b]
    }

    /// The pixel at a board index, `Nothing` outside the grid.
    pub fn get_index(&self, idx: Index) -> (r: TilePixel)
        requires
            self.wf(),
        ensures
            r == self.at_index(idx),
    {
        self.get(idx.y, idx.x)
    }

    /// Doubles the side length, keeping (0, 0) in the centre and every pixel in place.
    fn grow(&mut self)
        requires
            old(self).wf(),
            1 <= old(self).spec_size(),
            2 * old(self).spec_size() <= MAX_SIDE,
        ensures
            final(self).wf(),
            final(self).spec_size() == 2 * old(self).spec_size(),
            forall|row: int, column: int| #[trigger]
                final(self).at(row, column) == old(self).at(row, column),
    {
        let s = self.size;
        let ns = s * 2;
        let lp = ns / 2 - s / 2;
        assert(ns * ns <= MAX_SIDE * MAX_SIDE) by (nonlinear_arith)
            requires
                ns <= MAX_SIDE,
        ;
        let mut new_data: Vec<TilePixel> = Vec::new();
        let mut r: usize = 0;
        while r < ns
            invariant
                s == self.size,
                self.wf(),
                ns == 2 * s,
                lp == s - s / 2,
                ns * ns <= MAX_SIDE * MAX_SIDE,
                r <= ns,
                new_data@.len() == r * ns,
                forall|rr: int, cc: int|
                    0 <= rr < r && 0 <= cc < ns ==> #[trigger] new_data@[rr * ns + cc] == (
                    if lp <= rr < lp + s && lp <= cc < lp + s {
                        self.data@[(rr - lp) * s + (cc - lp)]
                    } else {
                        TilePixel::Nothing
                    }),
            decreases ns - r,
        {
            let mut c: usize = 0;
            while c < ns
                invariant
                    s == self.size,
                    self.wf(),
                    ns == 2 * s,
                    lp == s - s / 2,
                    ns * ns <= MAX_SIDE * MAX_SIDE,
                    r < ns,
                    c <= ns,
                    new_data@.len() == r * ns + c,
                    forall|rr: int, cc: int|
                        ((0 <= rr < r && 0 <= cc < ns) || (rr == r && 0 <= cc < c))
                            ==> #[trigger] new_data@[rr * ns + cc] == (
                        if lp <= rr < lp + s && lp <= cc < lp + s {
                            self.data@[(rr - lp) * s + (cc - lp)]
                        } else {
                            TilePixel::Nothing
                        }),
                decreases ns - c,
            {
                proof {
                    assert(r * ns + c < ns * ns) by (nonlinear_arith)
                        requires
                            r < ns,
                            c < ns,
                    ;
                }
                let v = if lp <= r && r < lp + s && lp <= c && c < lp + s {
                    proof {
                        let a = (r - lp) as int;
                        let b = (c - lp) as int;
                        assert(0 <= a * s + b < s * s && a * s <= s * s) by (nonlinear_arith)
                            requires
                                0 <= a < s,
                                0 <= b < s,
                        ;
                        assert(s * s <= MAX_SIDE * MAX_SIDE) by (nonlinear_arith)
                            requires
                                0 <= s <= MAX_SIDE,
                        ;
                        assert(MAX_SIDE * MAX_SIDE <= usize::MAX);
                    }
                    self.data[(r - lp) * s + (c - lp)]
                } else {
                    TilePixel::Nothing
                };
                let ghost before = new_data@;
                new_data.push(v);
                proof {
                    assert forall|rr: int, cc: int|
                        ((0 <= rr < r && 0 <= cc < ns) || (rr == r && 0 <= cc < c + 1))
                            implies #[trigger] new_data@[rr * ns + cc] == (
                        if lp <= rr < lp + s && lp <= cc < lp + s {
                            self.data@[(rr - lp) * s + (cc - lp)]
                        } else {
                            TilePixel::Nothing
                        }) by {
                        if rr == r && cc == c {
                        } else {
                            assert(rr * ns + cc < r * ns + c) by (nonlinear_arith)
                                requires
                                    (0 <= rr < r && 0 <= cc < ns) || (rr == r && 0 <= cc < c),
                            ;
                            assert(new_data@[rr * ns + cc] == before[rr * ns + cc]);
                        }
                    }
                }
                c += 1;
            }
            proof {
                assert((r + 1) * ns == r * ns + ns) by (nonlinear_arith);
            }
            r += 1;
        }
        let ghost old_map = *self;
        self.data = new_data;
        self.size = ns;
        proof {
            assert forall|row: int, column: int| #[trigger]
                self.at(row, column) == old_map.at(row, column) by {
                if old_map.in_range(row, column) {
                    let a = row + s;
                    let b = column + s;
                    assert(self.in_range(row, column));
                    assert(lp <= a < lp + s && lp <= b < lp + s);
                    assert(a - lp == row + old_map.center());
                    assert(b - lp == column + old_map.center());
                } else if self.in_range(row, column) {
                    let a = row + s;
                    let b = column + s;
                    assert(0 <= a < ns && 0 <= b < ns);
                    assert(!(lp <= a < lp + s && lp <= b < lp + s));
                }
            }
        }
    }

    /// Writes `el` at (row, column), growing the grid first when the position
    /// is on or beyond its edge: its side is doubled as few times as it takes
    /// to hold the position away from the edge.
    pub fn insert(&mut self, row: isize, column: isize, el: TilePixel)
        requires
            old(self).wf(),
            1 <= old(self).spec_size(),
            2 * needed_side(row as int, column as int) <= MAX_SIDE,
        ensures
            final(self).wf(),
            final(self).spec_size() >= old(self).spec_size(),
            exists|k: nat| final(self).spec_size() == #[trigger] doubled(old(self).spec_size(), k),
            final(self).spec_size() == old(self).spec_size() || !interior_at(final(self).spec_size() / 2, row as int, column as int),
            final(self).in_interior(row as int, column as int),
            final(self).at(row as int, column as int) == el,
            forall|r: int, c: int|
                !(r == row && c == column) ==> #[trigger] final(self).at(r, c) == old(self).at(r, c),
    {
        let ghost orig = *self;
        let ghost bound = needed_side(row as int, column as int);
        let ghost mut k: nat = 0;
        loop
            invariant_except_break
                self.wf(),
                1 <= orig.spec_size(),
                self.spec_size() >= orig.spec_size(),
                self.spec_size() == doubled(orig.spec_size(), k),
                self.spec_size() == orig.spec_size() || !interior_at(self.spec_size() / 2, row as int, column as int),
                bound == needed_side(row as int, column as int),
                2 * bound <= MAX_SIDE,
                forall|r: int, c: int| #[trigger] self.at(r, c) == orig.at(r, c),
            ensures
                self.wf(),
                self.spec_size() >= orig.spec_size(),
                self.spec_size() == doubled(orig.spec_size(), k),
                self.spec_size() == orig.spec_size() || !interior_at(self.spec_size() / 2, row as int, column as int),
                self.in_interior(row as int, column as int),
                forall|r: int, c: int| #[trigger] self.at(r, c) == orig.at(r, c),
            decreases (if self.spec_size() < bound { bound - self.spec_size() } else { 0 }),
        {
            let center = self.size / 2;
            let size = self.size;
            let inside = (row as i128) > -(center as i128) && (row as i128) < (size as i128)
                - (center as i128) - 1 && (column as i128) > -(center as i128) && (column as i128)
                < (size as i128) - (center as i128) - 1;
            if inside {
                break;
            }
            assert(self.spec_size() < bound);
            assert(!interior_at(self.spec_size(), row as int, column as int));
            self.grow();
            proof {
                k = k + 1;
            }
        }
        let center = self.size / 2;
        let size = self.size;
        proof {
            self.lemma_flat_in_bounds(row as int, column as int);
        }
        let a = (row + center as isize) as usize;
        let b = (column + center as isize) as usize;
        let ghost before = *self;
        self.data.set(a * size + b, el);
        proof {
            assert forall|r: int, c: int|
                !(r == row && c == column) implies #[trigger] self.at(r, c) == before.at(r, c) by {
                if self.in_range(r, c) {
                    before.lemma_flat_in_bounds(r, c);
                    let ra = r + center;
                    let cb = c + center;
                    assert(ra * size + cb != a * size + b) by (nonlinear_arith)
                        requires
                            0 <= ra < size,
                            0 <= cb < size,
                            0 <= a < size,
                            0 <= b < size,
                            ra != a || cb != b,
                    ;
                }
            }
        }
    }

    /// Writes `el` at a board index.
    pub fn set_index(&mut self, idx: Index, el: TilePixel)
        requires
            old(self).wf(),
            1 <= old(self).spec_size(),
            2 * needed_side(idx.y as int, idx.x as int) <= MAX_SIDE,
        ensures
            final(self).wf(),
            final(self).spec_size() >= old(self).spec_size(),
            final(self).at_index(idx) == el,
            forall|i: Index| i != idx ==> #[trigger] final(self).at_index(i) == old(self).at_index(i),
    {
        self.insert(idx.y, idx.x, el);
    }
}

/// A write is read back, and leaves every other position as it was.
pub proof fn lemma_read_after_write(before: PixelMap, after: PixelMap, row: int, column: int, el: TilePixel, r: int, c: int)
    requires
        after.at(row, column) == el,
        forall|r2: int, c2: int|
            !(r2 == row && c2 == column) ==> #[trigger] after.at(r2, c2) == before.at(r2, c2),
    ensures
        after.at(r, c) == if r == row && c == column { el } else { before.at(r, c) },
{
}

/// A pixel that is not `Nothing` lies inside the grid, whose side is at most `MAX_SIDE`.
pub proof fn lemma_nonempty_in_range(m: PixelMap, row: int, column: int)
    requires
        m.wf(),
        m.at(row, column) != TilePixel::Nothing,
    ensures
        m.in_range(row, column),
        -(MAX_SIDE as int) <= row <= MAX_SIDE,
        -(MAX_SIDE as int) <= column <= MAX_SIDE,
{
}

/// Distinct positions holding a pixel are at most as many as the grid's cells.
pub proof fn lemma_distinct_nonempty_bounded(m: PixelMap, s: Seq<Index>)
    requires
        m.wf(),
        s.no_duplicates(),
        forall|k: int| 0 <= k < s.len() ==> m.at_index(#[trigger] s[k]) != TilePixel::Nothing,
    ensures
        s.len() <= m.spec_size() * m.spec_size(),
        s.len() <= MAX_SIDE * MAX_SIDE,
{
    let w = m.spec_size();
    let lo = m.min_index();
    let f = |i: Index| (i.y - lo) * w + (i.x - lo);
    let keys = s.map_values(f);
    assert forall|a: int, b: int| 0 <= a < b < keys.len() implies keys[a] != keys[b] by {
        let ia = s[a];
        let ib = s[b];
        assert(m.in_range(ia.y as int, ia.x as int));
        assert(m.in_range(ib.y as int, ib.x as int));
        let ya = ia.y - lo;
        let xa = ia.x - lo;
        let yb = ib.y - lo;
        let xb = ib.x - lo;
        assert(ia != ib);
        assert(ya * w + xa != yb * w + xb) by (nonlinear_arith)
            requires
                0 <= xa < w,
                0 <= xb < w,
                0 <= ya,
                0 <= yb,
                ya != yb || xa != xb,
        {
            if ya < yb {
                assert(ya * w + w <= yb * w);
            } else if yb < ya {
                assert(yb * w + w <= ya * w);
            }
        }
    }
    assert(keys.no_duplicates());
    keys.unique_seq_to_set();
    vstd::set_lib::lemma_int_range(0, w * w);
    assert forall|v: int| keys.to_set().contains(v) implies vstd::set_lib::set_int_range(0, w * w).contains(v) by {
        let k = choose|k: int| 0 <= k < keys.len() && keys[k] == v;
        let i = s[k];
        assert(m.in_range(i.y as int, i.x as int));
        let a = i.y - lo;
        let b = i.x - lo;
        assert(0 <= a * w + b < w * w) by (nonlinear_arith)
            requires
                0 <= a < w,
                0 <= b < w,
        ;
    }
    vstd::set_lib::lemma_len_subset(keys.to_set(), vstd::set_lib::set_int_range(0, w * w));
    assert(w * w <= MAX_SIDE * MAX_SIDE) by (nonlinear_arith)
        requires
            0 <= w <= MAX_SIDE,
    ;
}

impl PixelMap {
    /// Two maps of the same size holding the same pixels.
    pub open spec fn same_as(&self, other: PixelMap) -> bool {
        &&& self.wf() == other.wf()
        &&& self.spec_size() == other.spec_size()
        &&& forall|r: int, c: int| #[trigger] self.at(r, c) == other.at(r, c)
    }
}

impl Clone for PixelMap {
    fn clone(&self) -> (r: Self)
        ensures
            r.same_as(*self),
    {
        let data = self.data.clone();
        proof {
            assert(data@ =~= self.data@);
        }
        PixelMap { data, size: self.size }
    }
}

/// The two characters a pixel is drawn with.
pub open spec fn pixel_chars(p: TilePixel) -> Seq<char> {
    match p {
        TilePixel::Nothing => seq!['\u{29bb}', '\u{29bb}'],
        TilePixel::Blockade => seq!['\u{2588}', '\u{2588}'],
        TilePixel::Field => seq!['\u{b7}', '\u{b7}'],
        TilePixel::Road => seq!['\u{2591}', '\u{2591}'],
        TilePixel::Cloister => seq!['\u{271d}', '\u{2302}'],
        TilePixel::City => seq!['\u{2592}', '\u{2592}'],
        TilePixel::PennantCity => seq!['\u{2593}', '\u{2593}'],
    }
}

/// The characters for the pixel at (`row`, `col`); a follower there replaces the second one.
pub open spec fn cell_chars(m: PixelMap, fs: Seq<Index>, row: int, col: int) -> Seq<char> {
    let pc = pixel_chars(m.at(row, col));
    if fs.contains(Index { x: col as isize, y: row as isize }) {
        seq![pc[0], '\u{1fbc5}']
    } else {
        pc
    }
}

/// The cells of row `row` for the columns `c0..c1`.
pub open spec fn row_cells(m: PixelMap, fs: Seq<Index>, row: int, c0: int, c1: int) -> Seq<char>
    decreases c1 - c0,
{
    if c1 <= c0 {
        Seq::empty()
    } else {
        row_cells(m, fs, row, c0, c1 - 1) + cell_chars(m, fs, row, c1 - 1)
    }
}

/// The margin mark of a row or column: `00` at 0, blank elsewhere.
pub open spec fn axis_mark(i: int) -> Seq<char> {
    if i == 0 { seq!['0', '0'] } else { seq![' ', ' '] }
}

/// The marks of the columns `c0..c1`.
pub open spec fn column_marks(c0: int, c1: int) -> Seq<char>
    decreases c1 - c0,
{
    if c1 <= c0 {
        Seq::empty()
    } else {
        column_marks(c0, c1 - 1) + axis_mark(c1 - 1)
    }
}

/// The rows `r0..r1`, each with its mark, its cells for the columns `c0..c1` and a newline.
pub open spec fn rows_text(m: PixelMap, fs: Seq<Index>, r0: int, r1: int, c0: int, c1: int) -> Seq<char>
    decreases r1 - r0,
{
    if r1 <= r0 {
        Seq::empty()
    } else {
        rows_text(m, fs, r0, r1 - 1, c0, c1) + axis_mark(r1 - 1) + row_cells(m, fs, r1 - 1, c0, c1) + seq!['\n']
    }
}

/// The drawing of the rows `r0..r1` and columns `c0..c1`, under a line of column marks.
pub open spec fn framed(m: PixelMap, fs: Seq<Index>, r0: int, r1: int, c0: int, c1: int) -> Seq<char> {
    seq![' ', ' '] + column_marks(c0, c1) + seq!['\n'] + rows_text(m, fs, r0, r1, c0, c1)
}

/// No pixel of the map is set.
pub open spec fn map_blank(m: PixelMap) -> bool {
    forall|r: int, c: int| #[trigger] m.at(r, c) == TilePixel::Nothing
}

/// Rows `y0..=y1` and columns `x0..=x1` are the smallest box holding every set pixel.
pub open spec fn is_bbox(m: PixelMap, y0: int, y1: int, x0: int, x1: int) -> bool {
    &&& forall|r: int, c: int| #[trigger] m.at(r, c) != TilePixel::Nothing ==> y0 <= r <= y1 && x0 <= c <= x1
    &&& exists|c: int| m.at(y0, c) != TilePixel::Nothing
    &&& exists|c: int| m.at(y1, c) != TilePixel::Nothing
    &&& exists|r: int| m.at(r, x0) != TilePixel::Nothing
    &&& exists|r: int| m.at(r, x1) != TilePixel::Nothing
}

fn push_chars(buf: &mut Vec<char>, a: char, b: char)
    ensures
        final(buf)@ == old(buf)@ + seq![a, b],
{
    buf.push(a);
    buf.push(b);
    proof {
        assert(final(buf)@ =~= old(buf)@ + seq![a, b]);
    }
}

fn pixel_glyphs(p: TilePixel) -> (r: (char, char))
    ensures
        seq![r.0, r.1] == pixel_chars(p),
{
    match p {
        TilePixel::Nothing => ('\u{29bb}', '\u{29bb}'),
        TilePixel::Blockade => ('\u{2588}', '\u{2588}'),
        TilePixel::Field => ('\u{b7}', '\u{b7}'),
        TilePixel::Road => ('\u{2591}', '\u{2591}'),
        TilePixel::Cloister => ('\u{271d}', '\u{2302}'),
        TilePixel::City => ('\u{2592}', '\u{2592}'),
        TilePixel::PennantCity => ('\u{2593}', '\u{2593}'),
    }
}

impl PixelMap {
    /// Draws the part of the board that holds tiles, with one blank ring
    /// around it, the row and column through (0, 0) marked `00`, and a
    /// follower mark on each pixel of `followers`. An empty board is drawn
    /// as `empty` over an empty frame.
    pub fn to_display_string(&self, followers: &Vec<Index>) -> (r: Vec<char>)
        requires
            self.wf(),
        ensures
            map_blank(*self) ==> r@ == seq!['e', 'm', 'p', 't', 'y', '\n'] + framed(*self, followers@, 0, 0, 0, 0),
            !map_blank(*self) ==> exists|y0: int, y1: int, x0: int, x1: int|
                #[trigger] is_bbox(*self, y0, y1, x0, x1) && r@ == framed(*self, followers@, y0 - 1, y1 + 2, x0 - 1, x1 + 2),
    {
        let center = self.size / 2;
        let lo: isize = -(center as isize);
        let hi: isize = (self.size as isize) - (center as isize) - 1;
        let mut found = false;
        let mut min_x: isize = 0;
        let mut max_x: isize = 0;
        let mut min_y: isize = 0;
        let mut max_y: isize = 0;
        let mut y: isize = lo;
        while y <= hi
            invariant
                self.wf(),
                lo == self.min_index(),
                hi == self.max_index(),
                lo <= y <= hi + 1,
                !found ==> forall|r: int, c: int| r < y ==> #[trigger] self.at(r, c) == TilePixel::Nothing,
                found ==> forall|r: int, c: int| r < y && #[trigger] self.at(r, c) != TilePixel::Nothing
                    ==> min_y <= r <= max_y && min_x <= c <= max_x,
                found ==> lo <= min_y <= max_y <= hi && lo <= min_x <= max_x <= hi,
                found ==> exists|c: int| self.at(min_y as int, c) != TilePixel::Nothing,
                found ==> exists|c: int| self.at(max_y as int, c) != TilePixel::Nothing,
                found ==> exists|r: int| self.at(r, min_x as int) != TilePixel::Nothing,
                found ==> exists|r: int| self.at(r, max_x as int) != TilePixel::Nothing,
            decreases hi + 1 - y,
        {
            let mut x: isize = lo;
            while x <= hi
                invariant
                    self.wf(),
                    lo == self.min_index(),
                    hi == self.max_index(),
                    lo <= y <= hi,
                    lo <= x <= hi + 1,
                    !found ==> forall|r: int, c: int| (r < y || (r == y && c < x)) ==> #[trigger] self.at(r, c) == TilePixel::Nothing,
                    found ==> forall|r: int, c: int| (r < y || (r == y && c < x)) && #[trigger] self.at(r, c) != TilePixel::Nothing
                        ==> min_y <= r <= max_y && min_x <= c <= max_x,
                    found ==> lo <= min_y <= max_y <= hi && lo <= min_x <= max_x <= hi,
                    found ==> exists|c: int| self.at(min_y as int, c) != TilePixel::Nothing,
                    found ==> exists|c: int| self.at(max_y as int, c) != TilePixel::Nothing,
                    found ==> exists|r: int| self.at(r, min_x as int) != TilePixel::Nothing,
                    found ==> exists|r: int| self.at(r, max_x as int) != TilePixel::Nothing,
                decreases hi + 1 - x,
            {
                if self.get(y, x) != TilePixel::Nothing {
                    proof {
                        assert(self.at(y as int, x as int) != TilePixel::Nothing);
                    }
                    if !found {
                        found = true;
                        min_x = x;
                        max_x = x;
                        min_y = y;
                        max_y = y;
                    } else {
                        if x < min_x {
                            min_x = x;
                        }
                        if x > max_x {
                            max_x = x;
                        }
                        if y < min_y {
                            min_y = y;
                        }
                        if y > max_y {
                            max_y = y;
                        }
                    }
                }
                x += 1;
            }
            y += 1;
        }
        proof {
            assert forall|r: int, c: int| #[trigger] self.at(r, c) != TilePixel::Nothing implies r <= hi by {
                lemma_nonempty_in_range(*self, r, c);
            }
        }
        let mut buf: Vec<char> = Vec::new();
        let (c0, c1, r0, r1) = if found {
            (min_x - 1, max_x + 2, min_y - 1, max_y + 2)
        } else {
            push_chars(&mut buf, 'e', 'm');
            push_chars(&mut buf, 'p', 't');
            push_chars(&mut buf, 'y', '\n');
            (0, 0, 0, 0)
        };
        let ghost prefix = buf@;
        proof {
            if !found {
                assert(prefix =~= seq!['e', 'm', 'p', 't', 'y', '\n']);
                assert forall|r: int, c: int| #[trigger] self.at(r, c) == TilePixel::Nothing by {
                    if self.at(r, c) != TilePixel::Nothing {
                        lemma_nonempty_in_range(*self, r, c);
                    }
                }
            } else {
                assert(prefix =~= Seq::<char>::empty());
                assert(is_bbox(*self, min_y as int, max_y as int, min_x as int, max_x as int)) by {
                    assert forall|r: int, c: int| #[trigger] self.at(r, c) != TilePixel::Nothing implies min_y <= r <= max_y && min_x <= c <= max_x by {
                        lemma_nonempty_in_range(*self, r, c);
                    }
                }
            }
        }
        push_chars(&mut buf, ' ', ' ');
        let mut c = c0;
        while c < c1
            invariant
                c0 <= c <= c1 || (c1 <= c0 && c == c0),
                buf@ == prefix + seq![' ', ' '] + column_marks(c0 as int, c as int),
            decreases c1 - c,
        {
            if c == 0 {
                push_chars(&mut buf, '0', '0');
            } else {
                push_chars(&mut buf, ' ', ' ');
            }
            c += 1;
        }
        buf.push('\n');
        proof {
            assert(column_marks(c0 as int, c1 as int) == column_marks(c0 as int, c as int)) by {
                if c1 < c0 {
                    assert(column_marks(c0 as int, c1 as int) == Seq::<char>::empty());
                }
            }
        }
        let ghost head = buf@;
        proof {
            assert(head =~= prefix + (seq![' ', ' '] + column_marks(c0 as int, c1 as int) + seq!['\n']));
        }
        let mut row = r0;
        while row < r1
            invariant
                self.wf(),
                r0 <= row <= r1 || (r1 <= r0 && row == r0),
                c0 <= c1,
                -(MAX_SIDE as int) - 2 <= r0,
                r1 <= MAX_SIDE as int + 2,
                -(MAX_SIDE as int) - 2 <= c0,
                c1 <= MAX_SIDE as int + 2,
                buf@ == head + rows_text(*self, followers@, r0 as int, row as int, c0 as int, c1 as int),
            decreases r1 - row,
        {
            if row == 0 {
                push_chars(&mut buf, '0', '0');
            } else {
                push_chars(&mut buf, ' ', ' ');
            }
            let ghost line_start = buf@;
            let mut col = c0;
            while col < c1
                invariant
                    self.wf(),
                    c0 <= col <= c1,
                    -(MAX_SIDE as int) - 2 <= c0,
                    c1 <= MAX_SIDE as int + 2,
                    buf@ == line_start + row_cells(*self, followers@, row as int, c0 as int, col as int),
                decreases c1 - col,
            {
                let (a, b) = pixel_glyphs(self.get(row, col));
                if contains_index(followers, Index { x: col, y: row }) {
                    push_chars(&mut buf, a, '\u{1fbc5}');
                } else {
                    push_chars(&mut buf, a, b);
                }
                proof {
                    assert(buf@ =~= line_start + row_cells(*self, followers@, row as int, c0 as int, col as int + 1));
                }
                col += 1;
            }
            buf.push('\n');
            proof {
                assert(buf@ =~= head + rows_text(*self, followers@, r0 as int, row as int + 1, c0 as int, c1 as int));
            }
            row += 1;
        }
        proof {
            if r1 < r0 {
                assert(rows_text(*self, followers@, r0 as int, r1 as int, c0 as int, c1 as int) == Seq::<char>::empty());
            }
            assert(buf@ =~= prefix + framed(*self, followers@, r0 as int, r1 as int, c0 as int, c1 as int));
        }
        buf
    }
}

} // verus!
