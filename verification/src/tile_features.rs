use vstd::prelude::*;
use crate::direction::{OrdinalDirection, Rotation, ord_index, rot_index};
use crate::rel_direction::{RelDirection, rel_index, is_edge};
use crate::small_tables::{EdgeTable, edge_entries, edge_table_new, edge_table_insert, has_key, key_at, unique_keys};

verus! {

/// What a tile shows along one of its edges.
#[derive(Debug, Clone, Copy, PartialEq, Eq, Structural, Hash, PartialOrd, Ord)]
pub enum Feature {
    City,
    Road,
    Field,
}

/// The digit of a feature in the order of edge patterns.
pub open spec fn feature_value(f: Feature) -> int {
    match f {
        Feature::City => 0,
        Feature::Road => 1,
        Feature::Field => 2,
    }
}

/// An edge pattern read as a base-3 number, first edge most significant.
pub open spec fn order_value_of(fs: Seq<Feature>) -> int {
    27 * feature_value(fs[0]) + 9 * feature_value(fs[1]) + 3 * feature_value(fs[2]) + feature_value(fs[3])
}

/// The edge pattern read from edge `k` on, clockwise.
pub open spec fn rotated(fs: Seq<Feature>, k: int) -> Seq<Feature> {
    seq![fs[k % 4], fs[(k + 1) % 4], fs[(k + 2) % 4], fs[(k + 3) % 4]]
}

/// The first of the rotations `0..=k` whose pattern has the smallest value.
pub open spec fn best_rotation_upto(fs: Seq<Feature>, k: int) -> int
    decreases k,
{
    if k <= 0 {
        0
    } else {
        let b = best_rotation_upto(fs, k - 1);
        if order_value_of(rotated(fs, k)) < order_value_of(rotated(fs, b)) {
            k
        } else {
            b
        }
    }
}

/// The canonical form of an edge pattern: its rotation with the smallest value.
pub open spec fn canonical(fs: Seq<Feature>) -> Seq<Feature> {
    rotated(fs, best_rotation_upto(fs, 3))
}

/// The value of an edge pattern in the order of patterns.
pub fn order_value(features: &[Feature; 4]) -> (r: i32)
    ensures
        r == order_value_of(features@),
{
    let v0 = feature_digit(features[0]);
    let v1 = feature_digit(features[1]);
    let v2 = feature_digit(features[2]);
    let v3 = feature_digit(features[3]);
    27 * v0 + 9 * v1 + 3 * v2 + v3
}

fn feature_digit(f: Feature) -> (r: i32)
    ensures
        r == feature_value(f),
{
    match f {
        Feature::City => 0,
        Feature::Road => 1,
        Feature::Field => 2,
    }
}

/// The letter that names a feature in tile names.
pub open spec fn feature_letter(f: Feature) -> char {
    match f {
        Feature::City => 'C',
        Feature::Road => 'R',
        Feature::Field => 'F',
    }
}

impl Feature {
    /// The picture a feature is shown with.
    pub fn symbol(&self) -> (r: &'static str)
        ensures
            r@ == match *self {
                Feature::City => "\u{1f3f0}"@,
                Feature::Road => "\u{3030}\u{fe0f}"@,
                Feature::Field => "\u{1f33e}"@,
            },
    {
        match self {
            Feature::City => "\u{1f3f0}",
            Feature::Road => "\u{3030}\u{fe0f}",
            Feature::Field => "\u{1f33e}",
        }
    }

    /// The letter that names this feature in tile names.
    pub fn letter(&self) -> (r: char)
        ensures
            r == feature_letter(*self),
    {
        match self {
            Feature::City => 'C',
            Feature::Road => 'R',
            Feature::Field => 'F',
        }
    }
}

/// The features along the four edges of a tile, stored in canonical
/// rotation so that equal tiles turned differently compare equal.
#[derive(Debug, PartialEq, Eq, Hash, Clone, Copy)]
pub struct TileFeatures {
    features: [Feature; 4],
}

impl TileFeatures {
    /// The features, clockwise from the first edge of the canonical rotation.
    pub closed spec fn spec_features(&self) -> Seq<Feature> {
        self.features@
    }

    /// The features are kept in their canonical rotation.
    #[verifier::type_invariant]
    spec fn kept_canonical(self) -> bool {
        self.features@ == canonical(self.features@)
    }

    /// There are always four features, one per edge.
    pub proof fn lemma_four(&self)
        ensures
            self.spec_features().len() == 4,
    {
    }

    /// The features `n`, `e`, `s`, `w` (clockwise from north), turned to
    /// their canonical rotation.
    pub fn new(n: Feature, e: Feature, s: Feature, w: Feature) -> (r: Self)
        ensures
            r.spec_features() == canonical(seq![n, e, s, w]),
    {
        let orders = [[n, e, s, w], [e, s, w, n], [s, w, n, e], [w, n, e, s]];
        let ghost fs = seq![n, e, s, w];
        proof {
            assert(orders@[0]@ == rotated(fs, 0));
            assert(orders@[1]@ == rotated(fs, 1));
            assert(orders@[2]@ == rotated(fs, 2));
            assert(orders@[3]@ == rotated(fs, 3));
        }
        let mut best: usize = 0;
        let mut best_value = order_value(&orders[0]);
        let mut k: usize = 1;
        while k < 4
            invariant
                1 <= k <= 4,
                best < 4,
                fs == seq![n, e, s, w],
                forall|j: int| 0 <= j < 4 ==> (#[trigger] orders@[j])@ == rotated(fs, j),
                best == best_rotation_upto(fs, k - 1),
                best_value == order_value_of(rotated(fs, best as int)),
            decreases 4 - k,
        {
            let v = order_value(&orders[k]);
            if v < best_value {
                best = k;
                best_value = v;
            }
            k += 1;
        }
        proof {
            assert(orders[best as int]@ == rotated(fs, best as int));
            lemma_canonical_idempotent(fs);
        }
        let r = TileFeatures { features: orders[best] };
        r
    }

    /// The four features.
    pub fn get(&self) -> (r: &[Feature])
        ensures
            r@ == self.spec_features(),
    {
        self.features.as_slice()
    }

    /// The four features, in order.
    pub fn iter(&self) -> (r: Vec<Feature>)
        ensures
            r@ == self.spec_features(),
    {
        let mut r: Vec<Feature> = Vec::new();
        let mut i: usize = 0;
        while i < 4
            invariant
                i <= 4,
                self.features@.len() == 4,
                r@ == self.features@.take(i as int),
            decreases 4 - i,
        {
            r.push(self.features[i]);
            proof {
                assert(self.features@.take(i as int + 1) == self.features@.take(i as int).push(self.features@[i as int]));
            }
            i += 1;
        }
        proof {
            assert(self.features@.take(4) == self.features@);
        }
        r
    }

    /// The feature along edge `dir` (up, right, down or left).
    pub fn get_feature(&self, dir: &RelDirection) -> (r: Feature)
        requires
            is_edge(*dir),
        ensures
            r == self.spec_features()[rel_index(*dir) / 2],
    {
        match *dir {
            RelDirection::Up => self.features[0],
            RelDirection::Right => self.features[1],
            RelDirection::Down => self.features[2],
            _ => self.features[3],
        }
    }

    /// The four feature letters in order, such as `CRFR`.
    pub fn code(&self) -> (r: Vec<char>)
        ensures
            r@ == self.spec_features().map_values(|f: Feature| feature_letter(f)),
    {
        let mut r: Vec<char> = Vec::new();
        let mut i: usize = 0;
        while i < 4
            invariant
                i <= 4,
                self.features@.len() == 4,
                r@ == self.features@.take(i as int).map_values(|f: Feature| feature_letter(f)),
            decreases 4 - i,
        {
            r.push(self.features[i].letter());
            proof {
                assert(self.features@.take(i as int + 1) == self.features@.take(i as int).push(self.features@[i as int]));
            }
            i += 1;
        }
        proof {
            assert(self.features@.take(4) == self.features@);
        }
        r
    }

    /// The feature along each edge once the tile is turned by `rot`, keyed by
    /// the absolute direction (a compass position) the edge then faces, in the
    /// order of the edges.
    pub fn fix_rotation(&self, rot: &Rotation) -> (r: EdgeTable)
        ensures
            edge_entries(r) == Seq::new(
                4,
                |i: int| ((((2 * i + 2 * rot_index(*rot)) % 8) as u8), self.spec_features()[i]),
            ),
            canonical(self.spec_features()) == self.spec_features(),
    {
        proof {
            use_type_invariant(self);
        }
        let mut table = edge_table_new();
        let ghost want = Seq::new(
            4,
            |i: int| ((((2 * i + 2 * rot_index(*rot)) % 8) as u8), self.spec_features()[i]),
        );
        let mut i: usize = 0;
        while i < 4
            invariant
                i <= 4,
                self.features@.len() == 4,
                want == Seq::new(4, |i: int| ((((2 * i + 2 * rot_index(*rot)) % 8) as u8), self.spec_features()[i])),
                edge_entries(table) == want.take(i as int),
                unique_keys(edge_entries(table)),
            decreases 4 - i,
        {
            let dir = RelDirection::from_index((i * 2) as u8).to_abs(rot);
            let k: u8 = match dir {
                OrdinalDirection::North => 0,
                OrdinalDirection::NorthEast => 1,
                OrdinalDirection::East => 2,
                OrdinalDirection::SouthEast => 3,
                OrdinalDirection::South => 4,
                OrdinalDirection::SouthWest => 5,
                OrdinalDirection::West => 6,
                OrdinalDirection::NorthWest => 7,
            };
            proof {
                let before = edge_entries(table);
                assert(k == want[i as int].0);
                if has_key(before, k) {
                    let q = key_at(before, k);
                    assert(before[q] == want[q]);
                    assert(want[q].0 == k);
                    assert(q == i as int);
                }
            }
            let _ = edge_table_insert(&mut table, k, self.features[i]);
            proof {
                assert(want.take(i as int + 1) == want.take(i as int).push(want[i as int]));
            }
            i += 1;
        }
        proof {
            assert(want.take(4) == want);
        }
        table
    }
}

/// A tile described by its edges and what it holds.
#[derive(Debug, Clone, Copy, PartialEq, Eq, Hash)]
pub struct Tile {
    pub features: TileFeatures,
    pub cloister: bool,
    pub pennant: bool,
    pub cities_connected: bool,
    pub roads_connected: bool,
    pub city_road: bool,
}

/// The name of a tile: its feature letters, then `_CLOISTER`, `_PENNANT` and
/// `_DISCONNECTED` for what it holds.
pub open spec fn tile_name(t: Tile) -> Seq<char> {
    t.features.spec_features().map_values(|f: Feature| feature_letter(f)) + (if t.cloister {
        "_CLOISTER"@
    } else {
        Seq::empty()
    }) + (if t.pennant {
        "_PENNANT"@
    } else {
        Seq::empty()
    }) + (if !t.cities_connected || !t.roads_connected {
        "_DISCONNECTED"@
    } else {
        Seq::empty()
    })
}

fn push_str_chars(buf: &mut Vec<char>, s: &str)
    requires
        s.is_ascii(),
    ensures
        final(buf)@ == old(buf)@ + s@,
{
    let n = s.unicode_len();
    let mut i: usize = 0;
    while i < n
        invariant
            s.is_ascii(),
            n == s@.len(),
            i <= n,
            buf@ == old(buf)@ + s@.take(i as int),
        decreases n - i,
    {
        buf.push(s.get_char(i));
        proof {
            assert(s@.take(i as int + 1) == s@.take(i as int).push(s@[i as int]));
        }
        i += 1;
    }
    proof {
        assert(s@.take(n as int) == s@);
    }
}

impl Tile {
    /// The tile's name, such as `CRFR` or `RFFF_CLOISTER`.
    pub fn name(&self) -> (r: Vec<char>)
        ensures
            r@ == tile_name(*self),
    {
        let mut r = self.features.code();
        proof {
            reveal_strlit("_CLOISTER");
            reveal_strlit("_PENNANT");
            reveal_strlit("_DISCONNECTED");
        }
        if self.cloister {
            push_str_chars(&mut r, "_CLOISTER");
        }
        if self.pennant {
            push_str_chars(&mut r, "_PENNANT");
        }
        if !self.cities_connected || !self.roads_connected {
            push_str_chars(&mut r, "_DISCONNECTED");
        }
        proof {
            assert(r@ == tile_name(*self));
        }
        r
    }
}

proof fn lemma_value_injective(a: Seq<Feature>, b: Seq<Feature>)
    requires
        a.len() == 4,
        b.len() == 4,
        order_value_of(a) == order_value_of(b),
    ensures
        a == b,
{
    assert(feature_value(a[0]) == feature_value(b[0]));
    assert(feature_value(a[1]) == feature_value(b[1]));
    assert(feature_value(a[2]) == feature_value(b[2]));
    assert(feature_value(a[3]) == feature_value(b[3]));
    assert(a =~= b);
}

proof fn lemma_best_is_least(fs: Seq<Feature>, k: int)
    requires
        0 <= k <= 3,
    ensures
        0 <= best_rotation_upto(fs, k) <= k,
        forall|j: int| 0 <= j <= k ==> order_value_of(rotated(fs, best_rotation_upto(fs, k))) <= order_value_of(#[trigger] rotated(fs, j)),
    decreases k,
{
    if k > 0 {
        lemma_best_is_least(fs, k - 1);
    }
}

/// Turning a tile's edges does not change their canonical form: the four
/// rotations of an edge pattern share one canonical pattern.
pub proof fn lemma_canonical_rotation_invariant(n: Feature, e: Feature, s: Feature, w: Feature)
    ensures
        canonical(seq![e, s, w, n]) == canonical(seq![n, e, s, w]),
{
    let a = seq![n, e, s, w];
    let b = seq![e, s, w, n];
    lemma_best_is_least(a, 3);
    lemma_best_is_least(b, 3);
    assert(rotated(b, 0) =~= rotated(a, 1));
    assert(rotated(b, 1) =~= rotated(a, 2));
    assert(rotated(b, 2) =~= rotated(a, 3));
    assert(rotated(b, 3) =~= rotated(a, 0));
    let ca = canonical(a);
    let cb = canonical(b);
    assert(order_value_of(ca) <= order_value_of(cb)) by {
        let bb = best_rotation_upto(b, 3);
        if bb == 0 {
            assert(order_value_of(ca) <= order_value_of(rotated(a, 1)));
        } else if bb == 1 {
            assert(order_value_of(ca) <= order_value_of(rotated(a, 2)));
        } else if bb == 2 {
            assert(order_value_of(ca) <= order_value_of(rotated(a, 3)));
        } else {
            assert(order_value_of(ca) <= order_value_of(rotated(a, 0)));
        }
    }
    assert(order_value_of(cb) <= order_value_of(ca)) by {
        let ba = best_rotation_upto(a, 3);
        if ba == 0 {
            assert(order_value_of(cb) <= order_value_of(rotated(b, 3)));
        } else if ba == 1 {
            assert(order_value_of(cb) <= order_value_of(rotated(b, 0)));
        } else if ba == 2 {
            assert(order_value_of(cb) <= order_value_of(rotated(b, 1)));
        } else {
            assert(order_value_of(cb) <= order_value_of(rotated(b, 2)));
        }
    }
    lemma_value_injective(ca, cb);
}

/// Turning an edge pattern any number of quarter turns leaves its canonical
/// form unchanged.
pub proof fn lemma_canonical_of_rotated(fs: Seq<Feature>, k: int)
    requires
        fs.len() == 4,
        0 <= k < 4,
    ensures
        canonical(rotated(fs, k)) == canonical(fs),
    decreases k,
{
    assert(fs == seq![fs[0], fs[1], fs[2], fs[3]]);
    if k > 0 {
        lemma_canonical_of_rotated(fs, k - 1);
        let p = rotated(fs, k - 1);
        lemma_canonical_rotation_invariant(p[0], p[1], p[2], p[3]);
        assert(seq![p[0], p[1], p[2], p[3]] == p);
        assert(seq![p[1], p[2], p[3], p[0]] == rotated(fs, k));
    }
}

/// The canonical form of an edge pattern is its own canonical form.
pub proof fn lemma_canonical_idempotent(fs: Seq<Feature>)
    requires
        fs.len() == 4,
    ensures
        canonical(canonical(fs)) == canonical(fs),
{
    lemma_best_is_least(fs, 3);
    lemma_canonical_of_rotated(fs, best_rotation_upto(fs, 3));
}

} // verus!
