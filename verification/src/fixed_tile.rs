//! A tile fixed in one rotation, as it lies on the board.

use vstd::prelude::*;
use crate::direction::{OrdinalDirection, Rotation, rot_index};
use crate::small_tables::{EdgeTable, edge_entries, edge_table_values, has_key, lookup};
use crate::structure_links::{RelStructureLinks, StructureLinks, turned, turned_items};
use crate::tile_features::{Feature, Tile, TileFeatures, canonical};

verus! {

/// A tile turned into place: the feature along each absolute edge, its
/// structure links in absolute directions, and what it holds.
#[derive(Debug)]
pub struct FixedTile {
    pub edges: EdgeTable,
    pub structure_links: StructureLinks,
    pub cloister: bool,
    pub pennant: bool,
    pub cities_connected: bool,
    pub roads_connected: bool,
    pub city_road: bool,
}

/// The features of the edges of a fixed tile, in the order of the tile's edges.
pub open spec fn edge_features(t: EdgeTable) -> Seq<Feature> {
    edge_entries(t).map_values(|e: (u8, Feature)| e.1)
}

impl Tile {
    /// The tile turned by `rotation`, with `links` (the structure links of
    /// this tile) turned with it.
    pub fn fix_rotation(&self, rotation: &Rotation, links: &RelStructureLinks) -> (r: FixedTile)
        requires
            links.wf(),
        ensures
            edge_entries(r.edges) == Seq::new(
                4,
                |i: int| ((((2 * i + 2 * rot_index(*rotation)) % 8) as u8), self.features.spec_features()[i]),
            ),
            edge_features(r.edges) == self.features.spec_features(),
            canonical(edge_features(r.edges)) == edge_features(r.edges),
            r.structure_links.structures_view() == links.structures_view(),
            r.structure_links.internal_view() == links.internal_view().map_values(
                |e: (u8, usize)| (turned(e.0, *rotation), e.1),
            ),
            r.structure_links.external_view() == links.external_view().map_values(
                |e: (usize, Seq<u8>)| (e.0, turned_items(e.1, *rotation)),
            ),
            r.structure_links.cloister_view() == links.cloister_view(),
            r.cloister == self.cloister,
            r.pennant == self.pennant,
            r.cities_connected == self.cities_connected,
            r.roads_connected == self.roads_connected,
            r.city_road == self.city_road,
    {
        proof {
            self.features.lemma_four();
        }
        let edges = self.features.fix_rotation(rotation);
        proof {
            assert(edge_features(edges) =~= self.features.spec_features());
        }
        FixedTile {
            edges,
            structure_links: links.to_abs(rotation),
            cloister: self.cloister,
            pennant: self.pennant,
            cities_connected: self.cities_connected,
            roads_connected: self.roads_connected,
            city_road: self.city_road,
        }
    }
}

impl FixedTile {
    /// The tile itself, its rotation forgotten: the edge features, taken in
    /// order, in their canonical rotation.
    pub fn to_tile(&self) -> (r: Tile)
        requires
            edge_entries(self.edges).len() >= 4,
        ensures
            r.features.spec_features() == canonical(edge_features(self.edges).take(4)),
            r.cloister == self.cloister,
            r.pennant == self.pennant,
            r.cities_connected == self.cities_connected,
            r.roads_connected == self.roads_connected,
            r.city_road == self.city_road,
    {
        let values = edge_table_values(&self.edges);
        proof {
            assert(edge_features(self.edges).take(4) =~= seq![values@[0], values@[1], values@[2], values@[3]]);
        }
        Tile {
            features: TileFeatures::new(values[0], values[1], values[2], values[3]),
            cloister: self.cloister,
            pennant: self.pennant,
            cities_connected: self.cities_connected,
            roads_connected: self.roads_connected,
            city_road: self.city_road,
        }
    }
}

/// The picture of a feature, as characters.
pub open spec fn feature_picture(f: Feature) -> Seq<char> {
    match f {
        Feature::City => seq!['\u{1f3f0}'],
        Feature::Road => seq!['\u{3030}', '\u{fe0f}'],
        Feature::Field => seq!['\u{1f33e}'],
    }
}

/// The mark in the middle of a drawn tile: a cross for a cloister, a shield
/// for a pennant, blank otherwise (or when it has both).
pub open spec fn centre_mark(cloister: bool, pennant: bool) -> char {
    if cloister && !pennant {
        '\u{271d}'
    } else if pennant && !cloister {
        '\u{1f6e1}'
    } else {
        ' '
    }
}

/// A fixed tile drawn in three lines: the north edge, then the west edge,
/// the centre mark, a ring when its cities or roads are not connected and
/// the east edge, then the south edge.
pub open spec fn fixed_tile_text(t: FixedTile) -> Seq<char> {
    let e = edge_entries(t.edges);
    let ring = if !t.cities_connected || !t.roads_connected { '\u{25ef}' } else { ' ' };
    edge_line('\u{2554}', lookup(e, 0), '\u{2557}') + middle_line(
        lookup(e, 6),
        centre_mark(t.cloister, t.pennant),
        ring,
        lookup(e, 2),
    ) + edge_line('\u{255a}', lookup(e, 4), '\u{255d}')
}

fn push_picture(buf: &mut Vec<char>, f: Feature)
    ensures
        final(buf)@ == old(buf)@ + feature_picture(f),
{
    match f {
        Feature::City => buf.push('\u{1f3f0}'),
        Feature::Road => {
            buf.push('\u{3030}');
            buf.push('\u{fe0f}');
        },
        Feature::Field => buf.push('\u{1f33e}'),
    }
    proof {
        assert(final(buf)@ =~= old(buf)@ + feature_picture(f));
    }
}

/// The top or bottom line of a drawn tile: a corner, the edge, a corner.
pub open spec fn edge_line(left: char, f: Feature, right: char) -> Seq<char> {
    seq![left, ' '] + feature_picture(f) + seq![' ', right, '\n']
}

/// The middle line of a drawn tile.
pub open spec fn middle_line(west: Feature, centre: char, ring: char, east: Feature) -> Seq<char> {
    feature_picture(west) + seq![centre, ring] + feature_picture(east) + seq!['\n']
}

fn push_edge_line(buf: &mut Vec<char>, left: char, f: Feature, right: char)
    ensures
        final(buf)@ == old(buf)@ + edge_line(left, f, right),
{
    let ghost b0 = buf@;
    buf.push(left);
    buf.push(' ');
    let ghost b1 = buf@;
    push_picture(buf, f);
    let ghost b2 = buf@;
    buf.push(' ');
    buf.push(right);
    buf.push('\n');
    proof {
        assert(b1 == b0 + seq![left, ' ']);
        assert(buf@ == b2 + seq![' ', right, '\n']);
        assert(buf@ =~= b0 + edge_line(left, f, right));
    }
}

fn push_middle_line(buf: &mut Vec<char>, west: Feature, centre: char, ring: char, east: Feature)
    ensures
        final(buf)@ == old(buf)@ + middle_line(west, centre, ring, east),
{
    let ghost b0 = buf@;
    push_picture(buf, west);
    let ghost b1 = buf@;
    buf.push(centre);
    buf.push(ring);
    let ghost b2 = buf@;
    push_picture(buf, east);
    let ghost b3 = buf@;
    buf.push('\n');
    proof {
        assert(b2 == b1 + seq![centre, ring]);
        assert(buf@ == b3 + seq!['\n']);
        assert(buf@ =~= b0 + middle_line(west, centre, ring, east));
    }
}

impl FixedTile {
    /// The tile drawn as text (see `fixed_tile_text`).
    pub fn to_text(&self) -> (r: Vec<char>)
        requires
            has_key(edge_entries(self.edges), 0),
            has_key(edge_entries(self.edges), 2),
            has_key(edge_entries(self.edges), 4),
            has_key(edge_entries(self.edges), 6),
        ensures
            r@ == fixed_tile_text(*self),
    {
        let centre = match (self.cloister, self.pennant) {
            (true, false) => '\u{271d}',
            (false, true) => '\u{1f6e1}',
            _ => ' ',
        };
        let ring = if !self.cities_connected || !self.roads_connected {
            '\u{25ef}'
        } else {
            ' '
        };
        let mut buf: Vec<char> = Vec::new();
        push_edge_line(&mut buf, '\u{2554}', self.edges.get(&OrdinalDirection::North), '\u{2557}');
        push_middle_line(
            &mut buf,
            self.edges.get(&OrdinalDirection::West),
            centre,
            ring,
            self.edges.get(&OrdinalDirection::East),
        );
        push_edge_line(&mut buf, '\u{255a}', self.edges.get(&OrdinalDirection::South), '\u{255d}');
        proof {
            assert(centre == centre_mark(self.cloister, self.pennant));
        }
        buf
    }
}

/// Fixing a tile in a rotation and taking the tile back gives its own edges:
/// for an edge pattern in canonical form (as every tile's is), fixed in any
/// rotation, the features read back in order and put in canonical rotation
/// are the pattern itself.
pub proof fn lemma_fix_then_unfix(fs: Seq<Feature>, rot: Rotation)
    requires
        fs.len() == 4,
        canonical(fs) == fs,
    ensures
        canonical(
            Seq::new(4, |i: int| ((((2 * i + 2 * rot_index(rot)) % 8) as u8), fs[i])).map_values(
                |e: (u8, Feature)| e.1,
            ).take(4),
        ) == fs,
{
    let e = Seq::new(4, |i: int| ((((2 * i + 2 * rot_index(rot)) % 8) as u8), fs[i]));
    assert(e.map_values(|x: (u8, Feature)| x.1).take(4) =~= fs);
}

} // verus!
