//! The structures of a single tile and how they link its edges and corners:
//! which road, city, field or cloister each direction belongs to, and through
//! which edges each structure continues onto the neighbouring tiles.

use vstd::prelude::*;
use crate::direction::{OrdinalDirection, Rotation, ord_index, rot_index};
use crate::rel_direction::{RelDirection, rel_index, rel_from_index};
use crate::tile_features::{Feature, Tile, TileFeatures};
use crate::small_tables::{
    has_key, key_at, unique_keys, put, lookup, lemma_put, union_items,
    StructureTable, structure_entries, structure_table_new, structure_table_insert,
    structure_table_get, structure_table_values, structure_table_clone,
    DirectionTable, direction_entries, direction_table_new, direction_table_insert,
    direction_table_get, direction_table_iter,
    DirectionSet, set_items, direction_set_new, direction_set_insert, direction_set_union,
    direction_set_iter,
    ConnectionTable, connection_entries, connection_table_new, connection_table_insert,
    connection_table_get, connection_table_set, connection_table_iter,
    DirectionList, list_items, direction_list_new, direction_list_push, direction_list_iter,
};

verus! {

/// What kind of structure a part of a tile is.
#[derive(Clone, Copy, Debug, PartialEq, Eq, Structural, Hash)]
pub enum StructureType {
    Feature(Feature),
    Cloister,
}

/// One structure of a tile, with the id the tile's links know it by.
#[derive(Clone, Copy, Debug, PartialEq, Eq, Structural, Hash)]
pub struct Structure {
    pub id: usize,
    pub structure_type: StructureType,
}

// ---------------------------------------------------------------------------
// The model: what the links of a tile hold.

/// The contents of a tile's links while they are built: the structures by id,
/// the structure id of each direction (a compass position), the edges each
/// structure reaches, the cloister's id, and the next free id.
pub struct LinksModel {
    pub structures: Seq<(usize, Structure)>,
    pub internal: Seq<(u8, usize)>,
    pub external: Seq<(usize, Seq<u8>)>,
    pub cloister: Option<usize>,
    pub next_id: nat,
}

/// Links with nothing in them; ids start from zero.
pub open spec fn empty_links() -> LinksModel {
    LinksModel {
        structures: Seq::empty(),
        internal: Seq::empty(),
        external: Seq::empty(),
        cloister: None,
        next_id: 0,
    }
}

/// A new structure of kind `ty` under the next free id.
pub open spec fn add_structure(m: LinksModel, ty: StructureType) -> LinksModel {
    LinksModel {
        structures: put(
            m.structures,
            m.next_id as usize,
            Structure { id: m.next_id as usize, structure_type: ty },
        ),
        next_id: m.next_id + 1,
        ..m
    }
}

/// Edge `e` (compass position `2e`) in the pass that links the edges showing
/// `f`. Connected edges all join the structure made for the first of them,
/// whose id is `first_id`; otherwise each such edge gets a structure of its
/// own. The structure then reaches exactly this edge.
pub open spec fn link_edge(
    m: LinksModel,
    fs: Seq<Feature>,
    f: Feature,
    connected: bool,
    first_id: nat,
    e: int,
) -> LinksModel {
    if fs[e] != f {
        m
    } else {
        let dir = (2 * e) as u8;
        let m1 = if !connected || m.next_id == first_id {
            add_structure(m, StructureType::Feature(f))
        } else {
            m
        };
        let id = (if connected { first_id } else { m.next_id }) as usize;
        LinksModel {
            internal: put(m1.internal, dir, id),
            external: put(m1.external, id, seq![dir]),
            ..m1
        }
    }
}

/// The pass for feature `f` over the first `n` edges.
pub open spec fn link_edges(
    m: LinksModel,
    fs: Seq<Feature>,
    f: Feature,
    connected: bool,
    first_id: nat,
    n: nat,
) -> LinksModel
    decreases n,
{
    if n == 0 {
        m
    } else {
        link_edge(link_edges(m, fs, f, connected, first_id, (n - 1) as nat), fs, f, connected, first_id, n - 1)
    }
}

/// The first edge showing a road (the corner clockwise of it starts the
/// walk around the fields), or the top edge when there is none.
pub open spec fn first_road(fs: Seq<Feature>) -> int {
    if fs[0] == Feature::Road {
        0
    } else if fs[1] == Feature::Road {
        1
    } else if fs[2] == Feature::Road {
        2
    } else if fs[3] == Feature::Road {
        3
    } else {
        0
    }
}

/// Corner `j` (compass position `2j + 1`) lies between edge `j`
/// counter-clockwise and edge `j + 1` clockwise; it holds a field unless both
/// of those edges are city.
pub open spec fn corner_kept(fs: Seq<Feature>, j: int) -> bool {
    !(fs[(j + 1) % 4] == Feature::City && fs[j] == Feature::City)
}

/// The edges beside corner `j` that are not city, counter-clockwise one first.
pub open spec fn corner_edges(fs: Seq<Feature>, j: int) -> Seq<u8> {
    let ccw: Seq<u8> = if fs[j] != Feature::City { seq![(2 * j) as u8] } else { Seq::empty() };
    let cw = (j + 1) % 4;
    if fs[cw] != Feature::City {
        ccw.push((2 * cw) as u8)
    } else {
        ccw
    }
}

/// Whether the field ends at the edge clockwise of corner `j`: a road always
/// cuts it, a city only where `city_road` says so.
pub open spec fn field_cut(fs: Seq<Feature>, city_road: bool, j: int) -> bool {
    let cw = (j + 1) % 4;
    fs[cw] == Feature::Road || (fs[cw] == Feature::City && city_road)
}

/// The corners that hold a field, as compass positions, in the order of the
/// walk clockwise from corner `start`, over its first `n` steps.
pub open spec fn kept_corners(fs: Seq<Feature>, start: int, n: nat) -> Seq<u8>
    decreases n,
{
    if n == 0 {
        Seq::empty()
    } else {
        let p = kept_corners(fs, start, (n - 1) as nat);
        let j = (start + n - 1) % 4;
        if corner_kept(fs, j) {
            p.push((2 * j + 1) as u8)
        } else {
            p
        }
    }
}

/// The corner at compass position `dir` in the walk around the fields;
/// `new_slot` says whether it opens a new field. The corner joins the current
/// field (the newest structure), which then reaches the non-city edges beside
/// the corner as well. The result also says whether the next corner opens a
/// new field.
pub open spec fn link_corner(
    m: LinksModel,
    new_slot: bool,
    fs: Seq<Feature>,
    city_road: bool,
    dir: u8,
) -> (LinksModel, bool) {
    let j = (dir as int - 1) / 2;
    let m1 = if new_slot {
        let a = add_structure(m, StructureType::Feature(Feature::Field));
        LinksModel { external: put(a.external, m.next_id as usize, Seq::<u8>::empty()), ..a }
    } else {
        m
    };
    let id = (m1.next_id - 1) as usize;
    let reach = union_items(lookup(m1.external, id), corner_edges(fs, j));
    (
        LinksModel { internal: put(m1.internal, dir, id), external: put(m1.external, id, reach), ..m1 },
        field_cut(fs, city_road, j),
    )
}

/// The first `n` corners of `dirs` in the walk around the fields.
pub open spec fn link_fields(
    m: LinksModel,
    fs: Seq<Feature>,
    city_road: bool,
    dirs: Seq<u8>,
    n: nat,
) -> (LinksModel, bool)
    decreases n,
{
    if n == 0 {
        (m, true)
    } else {
        let prev = link_fields(m, fs, city_road, dirs, (n - 1) as nat);
        link_corner(prev.0, prev.1, fs, city_road, dirs[n - 1])
    }
}

/// The cloister, when the tile has one.
pub open spec fn link_cloister(m: LinksModel, cloister: bool) -> LinksModel {
    if cloister {
        LinksModel { cloister: Some(m.next_id as usize), ..add_structure(m, StructureType::Cloister) }
    } else {
        m
    }
}

/// The links of a tile: its roads, then its cities, then its fields, then
/// its cloister, ids counted up from zero in that order.
pub open spec fn links_of(tile: Tile) -> LinksModel {
    let fs = tile.features.spec_features();
    let roads = link_edges(empty_links(), fs, Feature::Road, tile.roads_connected, 0, 4);
    let cities = link_edges(roads, fs, Feature::City, tile.cities_connected, roads.next_id, 4);
    let dirs = kept_corners(fs, first_road(fs), 4);
    let fields = link_fields(cities, fs, tile.city_road, dirs, dirs.len()).0;
    link_cloister(fields, tile.cloister)
}

/// How many of the first `n` edges show `f`.
pub open spec fn count_feature(fs: Seq<Feature>, f: Feature, n: int) -> int
    decreases n,
{
    if n <= 0 {
        0
    } else {
        count_feature(fs, f, n - 1) + if fs[n - 1] == f { 1int } else { 0int }
    }
}

proof fn lemma_count_bounds(fs: Seq<Feature>, n: int)
    requires
        0 <= n,
    ensures
        0 <= count_feature(fs, Feature::Road, n),
        0 <= count_feature(fs, Feature::City, n),
        count_feature(fs, Feature::Road, n) + count_feature(fs, Feature::City, n) <= n,
    decreases n,
{
    if n > 0 {
        lemma_count_bounds(fs, n - 1);
    }
}

// ---------------------------------------------------------------------------
// Counting distinct keys.

proof fn lemma_distinct_below(s: Seq<int>, n: int, d: int)
    requires
        s.no_duplicates(),
        0 <= d < n,
        forall|i: int| 0 <= i < s.len() ==> 0 <= #[trigger] s[i] < n && s[i] != d,
    ensures
        s.len() < n,
{
    s.unique_seq_to_set();
    let r = vstd::set_lib::set_int_range(0, n).remove(d);
    assert(s.to_set().subset_of(r));
    vstd::set_lib::lemma_int_range(0, n);
    vstd::set_lib::lemma_len_subset(s.to_set(), r);
}

/// A table with unique keys below `n` that lacks key `d < n` has fewer than `n` entries.
proof fn lemma_room_u8<V>(s: Seq<(u8, V)>, n: int, d: u8)
    requires
        unique_keys(s),
        d < n,
        !has_key(s, d),
        forall|i: int| 0 <= i < s.len() ==> (#[trigger] s[i]).0 < n,
    ensures
        s.len() < n,
{
    let ks = s.map_values(|e: (u8, V)| e.0 as int);
    assert forall|i: int| 0 <= i < ks.len() implies 0 <= #[trigger] ks[i] < n && ks[i] != d by {
        assert(s[i].0 < n);
        if s[i].0 == d {
            assert(has_key(s, d));
        }
    }
    assert(ks.no_duplicates()) by {
        assert forall|i: int, j: int| 0 <= i < ks.len() && 0 <= j < ks.len() && i != j implies ks[i] != ks[j] by {
            if ks[i] == ks[j] {
                assert(s[i].0 == s[j].0);
            }
        }
    }
    lemma_distinct_below(ks, n, d as int);
}

/// A table with unique keys below `n` that lacks key `d < n` has fewer than `n` entries.
proof fn lemma_room_usize<V>(s: Seq<(usize, V)>, n: int, d: usize)
    requires
        unique_keys(s),
        d < n,
        !has_key(s, d),
        forall|i: int| 0 <= i < s.len() ==> (#[trigger] s[i]).0 < n,
    ensures
        s.len() < n,
{
    let ks = s.map_values(|e: (usize, V)| e.0 as int);
    assert forall|i: int| 0 <= i < ks.len() implies 0 <= #[trigger] ks[i] < n && ks[i] != d by {
        assert(s[i].0 < n);
        if s[i].0 == d {
            assert(has_key(s, d));
        }
    }
    assert(ks.no_duplicates()) by {
        assert forall|i: int, j: int| 0 <= i < ks.len() && 0 <= j < ks.len() && i != j implies ks[i] != ks[j] by {
            if ks[i] == ks[j] {
                assert(s[i].0 == s[j].0);
            }
        }
    }
    lemma_distinct_below(ks, n, d as int);
}

/// Edges are the even compass positions.
pub open spec fn edge_items(s: Seq<u8>) -> bool {
    &&& s.no_duplicates()
    &&& forall|i: int| 0 <= i < s.len() ==> #[trigger] s[i] < 8 && s[i] % 2 == 0
}

/// Distinct edges number at most four.
proof fn lemma_edge_items_len(s: Seq<u8>)
    requires
        edge_items(s),
    ensures
        s.len() <= 4,
{
    let ks = s.map_values(|x: u8| (x / 2) as int);
    assert forall|i: int| 0 <= i < ks.len() implies 0 <= #[trigger] ks[i] < 5 && ks[i] != 4 by {
        assert(s[i] < 8);
    }
    assert(ks.no_duplicates()) by {
        assert forall|i: int, j: int| 0 <= i < ks.len() && 0 <= j < ks.len() && i != j implies ks[i] != ks[j] by {
            assert(s[i] != s[j]);
            assert(s[i] % 2 == 0 && s[j] % 2 == 0);
        }
    }
    lemma_distinct_below(ks, 5, 4);
}

/// The union of two edge lists is an edge list.
proof fn lemma_union_edges(a: Seq<u8>, b: Seq<u8>)
    requires
        edge_items(a),
        forall|i: int| 0 <= i < b.len() ==> #[trigger] b[i] < 8 && b[i] % 2 == 0,
    ensures
        edge_items(union_items(a, b)),
        union_items(a, b).len() <= 4,
    decreases b.len(),
{
    if b.len() > 0 {
        let c = b.drop_last();
        assert forall|i: int| 0 <= i < c.len() implies #[trigger] c[i] < 8 && c[i] % 2 == 0 by {
            assert(c[i] == b[i]);
        }
        lemma_union_edges(a, c);
        let u = union_items(a, c);
        let x = b.last();
        assert(b[b.len() - 1] < 8 && b[b.len() - 1] % 2 == 0);
        if !u.contains(x) {
            let w = u.push(x);
            assert forall|i: int, j: int| 0 <= i < w.len() && 0 <= j < w.len() && i != j implies w[i] != w[j] by {
                if i == u.len() {
                    assert(u.contains(u[j]));
                } else if j == u.len() {
                    assert(u.contains(u[i]));
                }
            }
            assert forall|i: int| 0 <= i < w.len() implies #[trigger] w[i] < 8 && w[i] % 2 == 0 by {
                if i < u.len() {
                    assert(w[i] == u[i]);
                }
            }
        }
    }
    lemma_edge_items_len(union_items(a, b));
}

/// The kind of structure direction `k` (a compass position) belongs to: an
/// edge's own feature, a field for a corner.
pub open spec fn expected_type(fs: Seq<Feature>, k: u8) -> StructureType {
    if k % 2 == 0 {
        StructureType::Feature(fs[k as int / 2])
    } else {
        StructureType::Feature(Feature::Field)
    }
}

/// Every direction in the links names a structure of the kind it shows, and
/// no field edge is among them.
pub open spec fn typed(m: LinksModel, fs: Seq<Feature>) -> bool {
    forall|p: int|
        0 <= p < m.internal.len() ==> {
            &&& ((#[trigger] m.internal[p]).1 as int) < m.structures.len()
            &&& m.structures[m.internal[p].1 as int].1.structure_type == expected_type(fs, m.internal[p].0)
            &&& m.internal[p].0 % 2 == 0 ==> fs[m.internal[p].0 as int / 2] != Feature::Field
        }
}

proof fn lemma_typed_grow(m: LinksModel, s2: Seq<(usize, Structure)>, fs: Seq<Feature>)
    requires
        typed(m, fs),
        s2.len() >= m.structures.len(),
        forall|i: int| 0 <= i < m.structures.len() ==> s2[i] == m.structures[i],
    ensures
        typed(LinksModel { structures: s2, ..m }, fs),
{
    assert forall|p: int| 0 <= p < m.internal.len() implies ((#[trigger] m.internal[p]).1 as int) < s2.len()
        && s2[m.internal[p].1 as int].1.structure_type == expected_type(fs, m.internal[p].0) by {
        assert(s2[m.internal[p].1 as int] == m.structures[m.internal[p].1 as int]);
    }
}

proof fn lemma_typed_put(m: LinksModel, fs: Seq<Feature>, dir: u8, id: usize)
    requires
        typed(m, fs),
        unique_keys(m.internal),
        (id as int) < m.structures.len(),
        m.structures[id as int].1.structure_type == expected_type(fs, dir),
        dir % 2 == 0 ==> fs[dir as int / 2] != Feature::Field,
    ensures
        typed(LinksModel { internal: put(m.internal, dir, id), ..m }, fs),
{
    lemma_put(m.internal, dir, id);
    let t = put(m.internal, dir, id);
    assert forall|p: int| 0 <= p < t.len() implies {
        &&& ((#[trigger] t[p]).1 as int) < m.structures.len()
        &&& m.structures[t[p].1 as int].1.structure_type == expected_type(fs, t[p].0)
        &&& t[p].0 % 2 == 0 ==> fs[t[p].0 as int / 2] != Feature::Field
    } by {
        assert(t[p] == (dir, id) || (p < m.internal.len() && t[p] == m.internal[p]));
    }
}

// ---------------------------------------------------------------------------
// The links of an unrotated tile.

/// What the pass linking the edges that show `f` does to the directions:
/// every such edge is linked (all to `first_id` when they are connected),
/// every other direction keeps its structure, and nothing else is added.
#[verifier::opaque]
pub open spec fn edge_pass(
    before: Seq<(u8, usize)>,
    after: Seq<(u8, usize)>,
    fs: Seq<Feature>,
    f: Feature,
    connected: bool,
    first_id: usize,
) -> bool {
    &&& forall|e: int|
        0 <= e < 4 && fs[e] == f ==> has_key(after, (2 * e) as u8) && (connected ==> lookup(after, (2 * e) as u8)
            == first_id)
    &&& forall|k: u8|
        has_key(before, k) && !(k % 2 == 0 && k < 8 && fs[k as int / 2] == f) ==> has_key(after, k) && lookup(
            after,
            k,
        ) == lookup(before, k)
    &&& forall|k: u8| has_key(after, k) ==> has_key(before, k) || (k % 2 == 0 && k < 8 && fs[k as int / 2] == f)
}

/// What the walk round the fields does to the directions: the edges keep
/// their structures, every corner holding a field is linked, and nothing
/// else is added.
#[verifier::opaque]
pub open spec fn field_pass(before: Seq<(u8, usize)>, after: Seq<(u8, usize)>, fs: Seq<Feature>) -> bool {
    &&& forall|k: u8|
        has_key(before, k) && k % 2 == 0 ==> has_key(after, k) && lookup(after, k) == lookup(before, k)
    &&& forall|j: int| 0 <= j < 4 && corner_kept(fs, j) ==> has_key(after, (2 * j + 1) as u8)
    &&& forall|k: u8|
        has_key(after, k) ==> has_key(before, k) || (k % 2 == 1 && k < 8 && corner_kept(fs, (k as int - 1) / 2))
}

/// While the links are built: the structures so far are stored in id order
/// under ids `0..next_id`, directions are compass positions naming existing
/// structures, and each reach is a list of distinct edges.
pub open spec fn building(m: LinksModel) -> bool {
    &&& m.structures.len() == m.next_id
    &&& forall|i: int|
        0 <= i < m.structures.len() ==> (#[trigger] m.structures[i]).0 == i && m.structures[i].1.id == i
    &&& unique_keys(m.internal)
    &&& m.internal.len() <= 8
    &&& forall|i: int|
        0 <= i < m.internal.len() ==> (#[trigger] m.internal[i]).0 < 8 && m.internal[i].1 < m.next_id
    &&& unique_keys(m.external)
    &&& m.external.len() <= 8
    &&& forall|i: int|
        0 <= i < m.external.len() ==> (#[trigger] m.external[i]).0 < m.next_id && edge_items(
            m.external[i].1,
        )
    &&& m.cloister matches Some(c) ==> c < m.next_id
}

/// The structures of one unrotated tile, the structure of each edge and
/// corner, and the edges through which each structure leaves the tile.
#[derive(Debug)]
pub struct RelStructureLinks {
    structures: StructureTable,
    internal_connections: DirectionTable,
    external_connections: ConnectionTable,
    cloister: Option<usize>,
}

impl RelStructureLinks {
    /// The structures by id, in the order they were made.
    pub closed spec fn structures_view(&self) -> Seq<(usize, Structure)> {
        structure_entries(self.structures)
    }

    /// The structure id of each direction (a compass position) that has one.
    pub closed spec fn internal_view(&self) -> Seq<(u8, usize)> {
        direction_entries(self.internal_connections)
    }

    /// For each structure id, the edges (compass positions) it leaves the tile through.
    pub closed spec fn external_view(&self) -> Seq<(usize, Seq<u8>)> {
        connection_entries(self.external_connections)
    }

    /// The id of the cloister, if the tile has one.
    pub closed spec fn cloister_view(&self) -> Option<usize> {
        self.cloister
    }

    /// The links as a model whose next free id is `next_id`.
    pub open spec fn model(&self, next_id: nat) -> LinksModel {
        LinksModel {
            structures: self.structures_view(),
            internal: self.internal_view(),
            external: self.external_view(),
            cloister: self.cloister_view(),
            next_id,
        }
    }

    /// Every id that a direction, a reach or the cloister names is a structure,
    /// and no table holds a key twice.
    pub open spec fn wf(&self) -> bool {
        &&& unique_keys(self.structures_view())
        &&& unique_keys(self.internal_view())
        &&& unique_keys(self.external_view())
        &&& forall|i: int|
            0 <= i < self.internal_view().len() ==> has_key(
                self.structures_view(),
                (#[trigger] self.internal_view()[i]).1,
            )
        &&& forall|i: int|
            0 <= i < self.external_view().len() ==> has_key(
                self.structures_view(),
                (#[trigger] self.external_view()[i]).0,
            )
        &&& self.cloister_view() matches Some(c) ==> has_key(self.structures_view(), c)
        &&& self.internal_view().len() <= 8
        &&& self.external_view().len() <= 8
        &&& forall|i: int| 0 <= i < self.internal_view().len() ==> (#[trigger] self.internal_view()[i]).0 < 8
        &&& forall|i: int| 0 <= i < self.external_view().len() ==> edge_items((#[trigger] self.external_view()[i]).1)
    }

    proof fn lemma_building_wf(&self, next_id: nat)
        requires
            building(self.model(next_id)),
        ensures
            self.wf(),
    {
        let s = self.structures_view();
        assert(unique_keys(s)) by {
            assert forall|i: int, j: int|
                0 <= i < s.len() && 0 <= j < s.len() && #[trigger] s[i].0 == #[trigger] s[j].0 implies i == j by {
                assert(s[i].0 == i && s[j].0 == j);
            }
        }
        assert forall|k: usize| k < next_id implies has_key(s, k) by {
            assert(s[k as int].0 == k);
        }
        assert forall|i: int| 0 <= i < self.internal_view().len() implies has_key(
            s,
            (#[trigger] self.internal_view()[i]).1,
        ) by {
            let k = self.internal_view()[i].1;
            assert(s[k as int].0 == k);
        }
        assert forall|i: int| 0 <= i < self.external_view().len() implies has_key(
            s,
            (#[trigger] self.external_view()[i]).0,
        ) by {
            let k = self.external_view()[i].0;
            assert(s[k as int].0 == k);
        }
        if let Some(c) = self.cloister_view() {
            assert(s[c as int].0 == c);
        }
    }

    /// Adds a structure of kind `ty` under the next free id.
    fn push_structure(&mut self, next_id: &mut usize, ty: StructureType)
        requires
            building(old(self).model(*old(next_id) as nat)),
            *old(next_id) < 16,
        ensures
            building(final(self).model(*final(next_id) as nat)),
            final(self).model(*final(next_id) as nat) == add_structure(
                old(self).model(*old(next_id) as nat),
                ty,
            ),
            *final(next_id) == *old(next_id) + 1,
            final(self).structures_view() == old(self).structures_view().push(
                (*old(next_id), Structure { id: *old(next_id), structure_type: ty }),
            ),
            final(self).internal_view() == old(self).internal_view(),
    {
        let ghost m = self.model(*next_id as nat);
        let id = *next_id;
        proof {
            if has_key(m.structures, id) {
                let i = key_at(m.structures, id);
                assert(m.structures[i].0 == i);
            }
        }
        let r = structure_table_insert(&mut self.structures, id, Structure { id, structure_type: ty });
        *next_id = id + 1;
        proof {
            let m2 = add_structure(m, ty);
            assert(self.model(*next_id as nat) == m2);
            assert(m2.structures == m.structures.push((id, Structure { id, structure_type: ty })));
        }
    }

    /// Puts direction `dir` into the structure `id`.
    fn link_direction(&mut self, next_id: usize, dir: u8, id: usize)
        requires
            building(old(self).model(next_id as nat)),
            dir < 8,
            id < next_id,
        ensures
            building(final(self).model(next_id as nat)),
            final(self).model(next_id as nat) == (LinksModel {
                internal: put(old(self).internal_view(), dir, id),
                ..old(self).model(next_id as nat)
            }),
    {
        let ghost m = self.model(next_id as nat);
        proof {
            if !has_key(m.internal, dir) {
                lemma_room_u8(m.internal, 8, dir);
            }
            lemma_put(m.internal, dir, id);
        }
        let r = direction_table_insert(&mut self.internal_connections, dir, id);
        proof {
            let t = put(m.internal, dir, id);
            assert forall|i: int| 0 <= i < t.len() implies (#[trigger] t[i]).0 < 8 && t[i].1 < next_id by {
                assert(t[i] == (dir, id) || (i < m.internal.len() && t[i] == m.internal[i]));
            }
            assert(self.model(next_id as nat) == (LinksModel { internal: t, ..m }));
        }
    }

    /// Sets the reach of structure `id` to `reach`.
    fn set_reach(&mut self, next_id: usize, id: usize, reach: DirectionSet)
        requires
            building(old(self).model(next_id as nat)),
            id < next_id <= 8,
            edge_items(set_items(reach)),
        ensures
            building(final(self).model(next_id as nat)),
            final(self).model(next_id as nat) == (LinksModel {
                external: put(old(self).external_view(), id, set_items(reach)),
                ..old(self).model(next_id as nat)
            }),
    {
        let ghost m = self.model(next_id as nat);
        let ghost items = set_items(reach);
        proof {
            if !has_key(m.external, id) {
                lemma_room_usize(m.external, next_id as int, id);
            }
            lemma_put(m.external, id, items);
        }
        let ok = connection_table_insert(&mut self.external_connections, id, reach);
        proof {
            let t = put(m.external, id, items);
            assert forall|i: int| 0 <= i < t.len() implies (#[trigger] t[i]).0 < next_id && edge_items(
                t[i].1,
            ) by {
                assert(t[i] == (id, items) || (i < m.external.len() && t[i] == m.external[i]));
            }
            assert(self.model(next_id as nat) == (LinksModel { external: t, ..m }));
        }
    }
}

impl RelStructureLinks {
    /// Links the edges that show `f`: connected ones into one structure,
    /// otherwise each into its own.
    fn link_edges_of(&mut self, next_id: &mut usize, features: &TileFeatures, f: Feature, connected: bool)
        requires
            building(old(self).model(*old(next_id) as nat)),
            typed(old(self).model(*old(next_id) as nat), features.spec_features()),
            f != Feature::Field,
            *old(next_id) + count_feature(features.spec_features(), f, 4) <= 8,
        ensures
            building(final(self).model(*final(next_id) as nat)),
            typed(final(self).model(*final(next_id) as nat), features.spec_features()),
            final(self).model(*final(next_id) as nat) == link_edges(
                old(self).model(*old(next_id) as nat),
                features.spec_features(),
                f,
                connected,
                *old(next_id) as nat,
                4,
            ),
            *final(next_id) <= *old(next_id) + count_feature(features.spec_features(), f, 4),
            edge_pass(
                old(self).internal_view(),
                final(self).internal_view(),
                features.spec_features(),
                f,
                connected,
                *old(next_id),
            ),
    {
        let ghost m0 = self.model(*next_id as nat);
        let ghost fs = features.spec_features();
        proof {
            features.lemma_four();
        }
        let first_id = *next_id;
        let edges = RelDirection::edges();
        let mut current_id: usize = first_id;
        let mut i: usize = 0;
        while i < 4
            invariant
                i <= 4,
                fs == features.spec_features(),
                fs.len() == 4,
                f != Feature::Field,
                edges@ == seq![RelDirection::Up, RelDirection::Right, RelDirection::Down, RelDirection::Left],
                building(self.model(*next_id as nat)),
                typed(self.model(*next_id as nat), fs),
                self.model(*next_id as nat) == link_edges(m0, fs, f, connected, first_id as nat, i as nat),
                first_id == m0.next_id,
                first_id <= *next_id <= first_id + count_feature(fs, f, i as int),
                first_id + count_feature(fs, f, 4) <= 8,
                connected ==> *next_id <= first_id + 1,
                connected ==> current_id == first_id,
                connected && *next_id > first_id ==> self.structures_view()[first_id as int].1.structure_type
                    == StructureType::Feature(f),
                forall|e: int|
                    0 <= e < i && fs[e] == f ==> has_key(self.internal_view(), (2 * e) as u8) && (connected
                        ==> lookup(self.internal_view(), (2 * e) as u8) == first_id),
                forall|k: u8|
                    has_key(m0.internal, k) && !(k % 2 == 0 && k < 8 && fs[k as int / 2] == f) ==> has_key(
                        self.internal_view(),
                        k,
                    ) && lookup(self.internal_view(), k) == lookup(m0.internal, k),
                forall|k: u8|
                    has_key(self.internal_view(), k) ==> has_key(m0.internal, k) || (k % 2 == 0 && k < 8
                        && fs[k as int / 2] == f),
            decreases 4 - i,
        {
            let dir = edges[i];
            proof {
                lemma_count_mono(fs, f, i as int + 1, 4);
            }
            if features.get_feature(&dir) == f {
                let ghost before = self.internal_view();
                let d = dir.index();
                proof {
                    assert(d == (2 * i) as u8);
                }
                current_id = self.link_edge_at(next_id, features, f, connected, first_id, d, current_id);
                proof {
                    lemma_put(before, d, current_id);
                    assert forall|e: int|
                        0 <= e < i + 1 && fs[e] == f implies has_key(self.internal_view(), (2 * e) as u8) && (
                        connected ==> lookup(self.internal_view(), (2 * e) as u8) == first_id) by {
                        if e < i {
                            assert((2 * e) as u8 != d);
                        }
                    }
                    assert forall|k: u8|
                        has_key(m0.internal, k) && !(k % 2 == 0 && k < 8 && fs[k as int / 2] == f) implies has_key(
                        self.internal_view(),
                        k,
                    ) && lookup(self.internal_view(), k) == lookup(m0.internal, k) by {
                        assert(k != d);
                    }
                    assert forall|k: u8| has_key(self.internal_view(), k) implies has_key(m0.internal, k) || (k
                        % 2 == 0 && k < 8 && fs[k as int / 2] == f) by {
                        if k == d {
                            assert(k as int / 2 == i);
                        }
                    }
                }
            }
            i += 1;
        }
        proof {
            reveal(edge_pass);
        }
    }

    /// The edge at compass position `d`, which shows `f`, in the pass that
    /// links the edges showing `f`: it opens a structure unless it is
    /// connected to an earlier one (`first_id`). Returns the structure it joins.
    fn link_edge_at(
        &mut self,
        next_id: &mut usize,
        features: &TileFeatures,
        f: Feature,
        connected: bool,
        first_id: usize,
        d: u8,
        current_id: usize,
    ) -> (r: usize)
        requires
            building(old(self).model(*old(next_id) as nat)),
            typed(old(self).model(*old(next_id) as nat), features.spec_features()),
            f != Feature::Field,
            d % 2 == 0,
            d < 8,
            features.spec_features()[d as int / 2] == f,
            first_id <= *old(next_id) <= 8,
            (!connected || *old(next_id) == first_id) ==> *old(next_id) < 8,
            connected ==> *old(next_id) <= first_id + 1 && current_id == first_id,
            connected && *old(next_id) > first_id ==> old(self).structures_view()[first_id as int].1.structure_type
                == StructureType::Feature(f),
        ensures
            building(final(self).model(*final(next_id) as nat)),
            typed(final(self).model(*final(next_id) as nat), features.spec_features()),
            final(self).model(*final(next_id) as nat) == link_edge(
                old(self).model(*old(next_id) as nat),
                features.spec_features(),
                f,
                connected,
                first_id as nat,
                d as int / 2,
            ),
            *final(next_id) == *old(next_id) + if !connected || *old(next_id) == first_id { 1int } else { 0int },
            r == if connected { first_id } else { *old(next_id) },
            final(self).internal_view() == put(old(self).internal_view(), d, r),
            connected ==> final(self).structures_view()[first_id as int].1.structure_type == StructureType::Feature(f),
    {
        let ghost fs = features.spec_features();
        let ghost prev = self.model(*next_id as nat);
        let mut id = current_id;
        if connected {
            if *next_id == first_id {
                self.push_structure(next_id, StructureType::Feature(f));
                proof {
                    lemma_typed_grow(prev, self.structures_view(), fs);
                }
            }
        } else {
            id = *next_id;
            self.push_structure(next_id, StructureType::Feature(f));
            proof {
                lemma_typed_grow(prev, self.structures_view(), fs);
            }
        }
        let ghost before = self.model(*next_id as nat);
        proof {
            assert(before.structures[id as int].1.structure_type == StructureType::Feature(f));
            lemma_typed_put(before, fs, d, id);
        }
        self.link_direction(*next_id, d, id);
        let mut reach = direction_set_new();
        let _ = direction_set_insert(&mut reach, d);
        proof {
            assert(set_items(reach) == seq![d]);
        }
        self.set_reach(*next_id, id, reach);
        proof {
            assert(self.model(*next_id as nat) == link_edge(prev, fs, f, connected, first_id as nat, d as int / 2));
        }
        id
    }
}

impl RelStructureLinks {
    /// Adds the edges in `extra` to the reach of structure `id`.
    fn merge_reach(&mut self, next_id: usize, id: usize, extra: &DirectionSet)
        requires
            building(old(self).model(next_id as nat)),
            has_key(old(self).external_view(), id),
            id < next_id,
            edge_items(set_items(*extra)),
        ensures
            building(final(self).model(next_id as nat)),
            final(self).model(next_id as nat) == (LinksModel {
                external: put(
                    old(self).external_view(),
                    id,
                    union_items(lookup(old(self).external_view(), id), set_items(*extra)),
                ),
                ..old(self).model(next_id as nat)
            }),
    {
        let ghost m = self.model(next_id as nat);
        let existing = connection_table_get(&self.external_connections, id);
        let ghost u = union_items(set_items(existing), set_items(*extra));
        proof {
            let p = key_at(m.external, id);
            assert(edge_items(m.external[p].1));
            lemma_union_edges(set_items(existing), set_items(*extra));
        }
        let merged = direction_set_union(&existing, extra);
        connection_table_set(&mut self.external_connections, id, merged);
        proof {
            lemma_put(m.external, id, u);
            let t = put(m.external, id, u);
            assert forall|i: int| 0 <= i < t.len() implies (#[trigger] t[i]).0 < next_id && edge_items(t[i].1) by {
                assert(t[i] == (id, u) || (i < m.external.len() && t[i] == m.external[i]));
            }
            assert(self.model(next_id as nat) == (LinksModel { external: t, ..m }));
        }
    }

    /// Links the corners into fields. The walk goes clockwise from the corner
    /// after the first road edge (or from the top right) and skips corners
    /// between two city edges; a road, or a city where `city_road` says so,
    /// ends one field, and the next corner starts another.
    fn link_fields_of(&mut self, next_id: &mut usize, features: &TileFeatures, city_road: bool)
        requires
            building(old(self).model(*old(next_id) as nat)),
            typed(old(self).model(*old(next_id) as nat), features.spec_features()),
            *old(next_id) <= 4,
        ensures
            building(final(self).model(*final(next_id) as nat)),
            typed(final(self).model(*final(next_id) as nat), features.spec_features()),
            field_pass(old(self).internal_view(), final(self).internal_view(), features.spec_features()),
            final(self).model(*final(next_id) as nat) == link_fields(
                old(self).model(*old(next_id) as nat),
                features.spec_features(),
                city_road,
                kept_corners(features.spec_features(), first_road(features.spec_features()), 4),
                kept_corners(features.spec_features(), first_road(features.spec_features()), 4).len(),
            ).0,
            *final(next_id) <= *old(next_id) + 4,
    {
        let ghost m0 = self.model(*next_id as nat);
        let ghost fs = features.spec_features();
        proof {
            features.lemma_four();
        }
        let corners = RelDirection::corners();
        let mut starting_dir = RelDirection::UpRight;
        let mut found = false;
        let mut k: usize = 0;
        while k < 4
            invariant
                k <= 4,
                fs == features.spec_features(),
                fs.len() == 4,
                corners@ == seq![
                    RelDirection::UpRight,
                    RelDirection::DownRight,
                    RelDirection::DownLeft,
                    RelDirection::UpLeft,
                ],
                found ==> rel_index(starting_dir) == 2 * first_road(fs) + 1,
                !found ==> starting_dir == RelDirection::UpRight,
                !found ==> forall|q: int| 0 <= q < k ==> fs[q] != Feature::Road,
            decreases 4 - k,
        {
            if !found && features.get_feature(&corners[k].ccw_neighbour_edge()) == Feature::Road {
                starting_dir = corners[k];
                found = true;
            }
            k += 1;
        }
        let ghost start = first_road(fs);
        assert(rel_index(starting_dir) == 2 * start + 1);

        let mut filtered = direction_list_new();
        let mut current = starting_dir;
        let mut t: usize = 0;
        while t < 4
            invariant
                t <= 4,
                fs == features.spec_features(),
                fs.len() == 4,
                0 <= start < 4,
                rel_index(current) == 2 * ((start + t) % 4) + 1,
                list_items(filtered) == kept_corners(fs, start, t as nat),
                list_items(filtered).len() <= t,
            decreases 4 - t,
        {
            let ghost j = (start + t) % 4;
            proof {
                lemma_corner(j);
            }
            let ccw = features.get_feature(&current.ccw_neighbour_edge());
            let cw = features.get_feature(&current.cw_neighbour_edge());
            if !(cw == Feature::City && ccw == Feature::City) {
                let _ = direction_list_push(&mut filtered, current.index());
            }
            current = current.cw_neighbour();
            proof {
                assert((start + t + 1) % 4 == (j + 1) % 4);
            }
            t += 1;
        }

        let dirs = direction_list_iter(&filtered);
        let ghost first = *next_id;
        let mut new_slot = true;
        let mut current_id: usize = 0;
        let mut t: usize = 0;
        proof {
            lemma_kept_corners(fs, start, 4);
        }
        while t < dirs.len()
            invariant
                t <= dirs@.len() <= 4,
                fs == features.spec_features(),
                fs.len() == 4,
                dirs@ == kept_corners(fs, start, 4),
                forall|q: int|
                    0 <= q < dirs@.len() ==> (#[trigger] dirs@[q]) % 2 == 1 && dirs@[q] < 8,
                building(self.model(*next_id as nat)),
                typed(self.model(*next_id as nat), fs),
                t > 0 ==> self.structures_view()[current_id as int].1.structure_type == StructureType::Feature(
                    Feature::Field,
                ),
                forall|k: u8|
                    has_key(m0.internal, k) && k % 2 == 0 ==> has_key(self.internal_view(), k) && lookup(
                        self.internal_view(),
                        k,
                    ) == lookup(m0.internal, k),
                forall|q: int| 0 <= q < t ==> has_key(self.internal_view(), #[trigger] dirs@[q]),
                forall|k: u8|
                    has_key(self.internal_view(), k) ==> has_key(m0.internal, k) || exists|q: int|
                        0 <= q < t && #[trigger] dirs@[q] == k,
                self.model(*next_id as nat) == link_fields(m0, fs, city_road, dirs@, t as nat).0,
                new_slot == link_fields(m0, fs, city_road, dirs@, t as nat).1,
                first == m0.next_id,
                first <= 4,
                first <= *next_id <= first + t,
                t == 0 ==> new_slot,
                t > 0 ==> *next_id > first && current_id == *next_id - 1 && has_key(
                    self.external_view(),
                    current_id,
                ),
            decreases dirs@.len() - t,
        {
            let d = dirs[t];
            let ghost before = self.internal_view();
            let step = self.link_corner_at(next_id, features, city_road, d, new_slot, current_id);
            new_slot = step.0;
            current_id = step.1;
            proof {
                lemma_put(before, d, current_id);
                assert forall|k: u8| has_key(m0.internal, k) && k % 2 == 0 implies has_key(self.internal_view(), k)
                    && lookup(self.internal_view(), k) == lookup(m0.internal, k) by {
                    assert(k != d);
                }
                assert forall|k: u8| has_key(self.internal_view(), k) implies has_key(m0.internal, k) || exists|q: int|
                    0 <= q < t + 1 && #[trigger] dirs@[q] == k by {
                    if k == d {
                        assert(dirs@[t as int] == k);
                    } else if !has_key(m0.internal, k) {
                        assert(has_key(before, k));
                        let q = choose|q: int| 0 <= q < t && #[trigger] dirs@[q] == k;
                        assert(dirs@[q] == k);
                    }
                }
            }
            t += 1;
        }
        proof {
            assert forall|j: int| 0 <= j < 4 && corner_kept(fs, j) implies has_key(
                self.internal_view(),
                (2 * j + 1) as u8,
            ) by {
                lemma_kept_corners_exact(fs, start, 4, j);
                let q = choose|q: int| 0 <= q < dirs@.len() && dirs@[q] == (2 * j + 1) as u8;
                assert(has_key(self.internal_view(), dirs@[q]));
            }
            assert forall|k: u8| has_key(self.internal_view(), k) implies has_key(m0.internal, k) || (k % 2 == 1
                && k < 8 && corner_kept(fs, (k as int - 1) / 2)) by {
                if !has_key(m0.internal, k) {
                    let q = choose|q: int| 0 <= q < dirs@.len() && #[trigger] dirs@[q] == k;
                    assert(dirs@[q] % 2 == 1 && dirs@[q] < 8);
                    let j = (k as int - 1) / 2;
                    assert((2 * j + 1) as u8 == k);
                    assert(dirs@.contains(k));
                    lemma_kept_corners_exact(fs, start, 4, j);
                }
            }
            reveal(field_pass);
        }
    }

    /// One corner of the walk round the fields: it opens a new field when
    /// `new_slot` says so, joins the current field (`current_id` otherwise),
    /// and adds the non-city edges beside it to that field's reach. Returns
    /// whether the next corner opens a new field, and the current field.
    fn link_corner_at(
        &mut self,
        next_id: &mut usize,
        features: &TileFeatures,
        city_road: bool,
        d: u8,
        new_slot: bool,
        current_id: usize,
    ) -> (r: (bool, usize))
        requires
            building(old(self).model(*old(next_id) as nat)),
            typed(old(self).model(*old(next_id) as nat), features.spec_features()),
            !new_slot ==> old(self).structures_view()[current_id as int].1.structure_type
                == StructureType::Feature(Feature::Field),
            d % 2 == 1,
            d < 8,
            *old(next_id) < 8,
            !new_slot ==> *old(next_id) > 0 && current_id == *old(next_id) - 1 && has_key(
                old(self).external_view(),
                current_id,
            ),
        ensures
            building(final(self).model(*final(next_id) as nat)),
            final(self).model(*final(next_id) as nat) == link_corner(
                old(self).model(*old(next_id) as nat),
                new_slot,
                features.spec_features(),
                city_road,
                d,
            ).0,
            r.0 == link_corner(
                old(self).model(*old(next_id) as nat),
                new_slot,
                features.spec_features(),
                city_road,
                d,
            ).1,
            *final(next_id) == *old(next_id) + if new_slot { 1int } else { 0int },
            r.1 == *final(next_id) - 1,
            has_key(final(self).external_view(), r.1),
            typed(final(self).model(*final(next_id) as nat), features.spec_features()),
            final(self).structures_view()[r.1 as int].1.structure_type == StructureType::Feature(Feature::Field),
            final(self).internal_view() == put(old(self).internal_view(), d, r.1),
    {
        let ghost fs = features.spec_features();
        proof {
            features.lemma_four();
        }
        let dir = RelDirection::from_index(d);
        let ghost j = (d as int - 1) / 2;
        proof {
            lemma_corner(j);
        }
        let mut connections = direction_set_new();
        let ccw_edge = dir.ccw_neighbour_edge();
        if features.get_feature(&ccw_edge) != Feature::City {
            let _ = direction_set_insert(&mut connections, ccw_edge.index());
        }
        let cw_edge = dir.cw_neighbour_edge();
        if features.get_feature(&cw_edge) != Feature::City {
            let _ = direction_set_insert(&mut connections, cw_edge.index());
        }
        proof {
            assert(set_items(connections) == corner_edges(fs, j));
        }
        let ghost prev = self.model(*next_id as nat);
        let mut id = current_id;
        if new_slot {
            id = *next_id;
            self.push_structure(next_id, StructureType::Feature(Feature::Field));
            proof {
                lemma_typed_grow(prev, self.structures_view(), fs);
            }
            self.set_reach(*next_id, id, direction_set_new());
            proof {
                lemma_put(prev.external, id, Seq::<u8>::empty());
            }
        }
        let ghost m1 = self.model(*next_id as nat);
        proof {
            lemma_typed_put(m1, fs, d, id);
        }
        self.link_direction(*next_id, d, id);
        self.merge_reach(*next_id, id, &connections);
        let cw_feature = features.get_feature(&cw_edge);
        let next_slot = cw_feature == Feature::Road || (cw_feature == Feature::City && city_road);
        proof {
            let r = link_corner(prev, new_slot, fs, city_road, d);
            assert(self.model(*next_id as nat) == r.0);
            lemma_put(m1.external, id, union_items(lookup(m1.external, id), corner_edges(fs, j)));
        }
        (next_slot, id)
    }
}

impl RelStructureLinks {
    /// The links of `tile`: a structure for each road and city (one per
    /// group where the tile connects them), the fields between them found by
    /// walking round the corners, and the cloister.
    pub fn new(tile: &Tile) -> (r: Self)
        ensures
            r.wf(),
            r.structures_view() == links_of(*tile).structures,
            r.internal_view() == links_of(*tile).internal,
            r.external_view() == links_of(*tile).external,
            r.cloister_view() == links_of(*tile).cloister,
            forall|k: u8|
                has_key(r.internal_view(), k) ==> k < 8 && lookup(
                    r.structures_view(),
                    #[trigger] lookup(r.internal_view(), k),
                ).structure_type == expected_type(tile.features.spec_features(), k),
            forall|e: int|
                0 <= e < 4 ==> (has_key(r.internal_view(), (2 * e) as u8)
                    <==> tile.features.spec_features()[e] != Feature::Field),
            forall|j: int|
                0 <= j < 4 ==> (has_key(r.internal_view(), (2 * j + 1) as u8)
                    <==> corner_kept(tile.features.spec_features(), j)),
            tile.roads_connected ==> forall|e1: int, e2: int|
                0 <= e1 < 4 && 0 <= e2 < 4 && tile.features.spec_features()[e1] == Feature::Road
                    && tile.features.spec_features()[e2] == Feature::Road ==> lookup(
                    r.internal_view(),
                    (2 * e1) as u8,
                ) == lookup(r.internal_view(), (2 * e2) as u8),
            tile.cities_connected ==> forall|e1: int, e2: int|
                0 <= e1 < 4 && 0 <= e2 < 4 && tile.features.spec_features()[e1] == Feature::City
                    && tile.features.spec_features()[e2] == Feature::City ==> lookup(
                    r.internal_view(),
                    (2 * e1) as u8,
                ) == lookup(r.internal_view(), (2 * e2) as u8),
    {
        let mut links = RelStructureLinks {
            structures: structure_table_new(),
            internal_connections: direction_table_new(),
            external_connections: connection_table_new(),
            cloister: None,
        };
        let mut next_id: usize = 0;
        let ghost fs = tile.features.spec_features();
        proof {
            lemma_count_bounds(fs, 4);
            tile.features.lemma_four();
            assert(links.model(0) == empty_links());
        }
        // Roads and cities.
        links.link_edges_of(&mut next_id, &tile.features, Feature::Road, tile.roads_connected);
        let ghost after_roads = links.internal_view();
        let ghost city_id = next_id;
        links.link_edges_of(&mut next_id, &tile.features, Feature::City, tile.cities_connected);
        let ghost after_cities = links.internal_view();
        // Fields.
        links.link_fields_of(&mut next_id, &tile.features, tile.city_road);
        // Cloister.
        if tile.cloister {
            let id = next_id;
            let ghost prev = links.model(next_id as nat);
            links.push_structure(&mut next_id, StructureType::Cloister);
            proof {
                lemma_typed_grow(prev, links.structures_view(), fs);
            }
            links.cloister = Some(id);
        }
        proof {
            links.lemma_building_wf(next_id as nat);
            let m = links.model(next_id as nat);
            lemma_links_law(m, fs, after_roads, after_cities, city_id, tile.roads_connected, tile.cities_connected);
        }
        links
    }

    /// The structures, in the order they were made.
    pub fn get_structures(&self) -> (r: Vec<Structure>)
        ensures
            r@ == self.structures_view().map_values(|e: (usize, Structure)| e.1),
    {
        structure_table_values(&self.structures)
    }

    /// The structure that direction `dir` belongs to.
    pub fn get_structure(&self, dir: &RelDirection) -> (r: Structure)
        requires
            self.wf(),
            has_key(self.internal_view(), rel_index(*dir) as u8),
        ensures
            r == lookup(self.structures_view(), lookup(self.internal_view(), rel_index(*dir) as u8)),
    {
        let structure_id = direction_table_get(&self.internal_connections, dir.index());
        proof {
            let p = key_at(self.internal_view(), rel_index(*dir) as u8);
            assert(has_key(self.structures_view(), self.internal_view()[p].1));
        }
        structure_table_get(&self.structures, structure_id)
    }

    /// The cloister, if the tile has one.
    pub fn get_cloister(&self) -> (r: Option<Structure>)
        requires
            self.wf(),
        ensures
            r == match self.cloister_view() {
                Some(c) => Some(lookup(self.structures_view(), c)),
                None => None,
            },
    {
        match self.cloister {
            Some(c) => Some(structure_table_get(&self.structures, c)),
            None => None,
        }
    }

    /// The edges through which `structure` leaves the tile.
    pub fn connects_to(&self, structure: &Structure) -> (r: Vec<RelDirection>)
        requires
            has_key(self.external_view(), structure.id),
        ensures
            r@ == lookup(self.external_view(), structure.id).map_values(|x: u8| rel_from_index(x as int)),
    {
        let set = connection_table_get(&self.external_connections, structure.id);
        let items = direction_set_iter(&set);
        let mut r: Vec<RelDirection> = Vec::new();
        let mut i: usize = 0;
        while i < items.len()
            invariant
                i <= items@.len(),
                r@ == items@.take(i as int).map_values(|x: u8| rel_from_index(x as int)),
            decreases items@.len() - i,
        {
            r.push(RelDirection::from_index(items[i]));
            proof {
                assert(items@.take(i as int + 1) == items@.take(i as int).push(items@[i as int]));
            }
            i += 1;
        }
        proof {
            assert(items@.take(items@.len() as int) == items@);
        }
        r
    }
}

/// Compass position `x` once the tile is turned `rot` quarter turns clockwise.
pub open spec fn turned(x: u8, rot: Rotation) -> u8 {
    ((x + 2 * rot_index(rot)) % 8) as u8
}

/// The compass position of an absolute direction.
fn ord_position(d: OrdinalDirection) -> (r: u8)
    ensures
        r == ord_index(d),
{
    match d {
        OrdinalDirection::North => 0,
        OrdinalDirection::NorthEast => 1,
        OrdinalDirection::East => 2,
        OrdinalDirection::SouthEast => 3,
        OrdinalDirection::South => 4,
        OrdinalDirection::SouthWest => 5,
        OrdinalDirection::West => 6,
        OrdinalDirection::NorthWest => 7,
    }
}

proof fn lemma_turned_injective(a: u8, b: u8, rot: Rotation)
    requires
        a < 8,
        b < 8,
        turned(a, rot) == turned(b, rot),
    ensures
        a == b,
{
}

/// The links of a placed tile: the same structures, with every direction an
/// absolute compass position.
#[derive(Debug)]
pub struct StructureLinks {
    structures: StructureTable,
    internal_connections: DirectionTable,
    external_connections: ConnectionTable,
    cloister: Option<usize>,
}

impl StructureLinks {
    /// The structures by id, in the order they were made.
    pub closed spec fn structures_view(&self) -> Seq<(usize, Structure)> {
        structure_entries(self.structures)
    }

    /// The structure id of each absolute direction that has one.
    pub closed spec fn internal_view(&self) -> Seq<(u8, usize)> {
        direction_entries(self.internal_connections)
    }

    /// For each structure id, the absolute edges it leaves the tile through.
    pub closed spec fn external_view(&self) -> Seq<(usize, Seq<u8>)> {
        connection_entries(self.external_connections)
    }

    /// The id of the cloister, if the tile has one.
    pub closed spec fn cloister_view(&self) -> Option<usize> {
        self.cloister
    }
}

/// Turning links by no rotation leaves every direction where it was.
pub proof fn lemma_no_turn(links: RelStructureLinks)
    requires
        links.wf(),
    ensures
        links.internal_view().map_values(|e: (u8, usize)| (turned(e.0, Rotation::Rot0), e.1))
            == links.internal_view(),
        links.external_view().map_values(|e: (usize, Seq<u8>)| (e.0, turned_items(e.1, Rotation::Rot0)))
            == links.external_view(),
{
    let iv = links.internal_view();
    assert(iv.map_values(|e: (u8, usize)| (turned(e.0, Rotation::Rot0), e.1)) =~= iv) by {
        assert forall|i: int| 0 <= i < iv.len() implies #[trigger] iv[i].0 < 8 by {}
    }
    let ev = links.external_view();
    assert forall|i: int| 0 <= i < ev.len() implies turned_items(#[trigger] ev[i].1, Rotation::Rot0) == ev[i].1 by {
        let s = ev[i].1;
        assert(edge_items(s));
        assert(turned_items(s, Rotation::Rot0) =~= s);
    }
    assert(ev.map_values(|e: (usize, Seq<u8>)| (e.0, turned_items(e.1, Rotation::Rot0))) =~= ev);
}

/// A reach turned by `rot`.
pub open spec fn turned_items(s: Seq<u8>, rot: Rotation) -> Seq<u8> {
    s.map_values(|x: u8| turned(x, rot))
}

impl RelStructureLinks {
    /// The same links for the tile turned by `rot`: each direction replaced by
    /// the absolute one it then faces.
    pub fn to_abs(&self, rot: &Rotation) -> (r: StructureLinks)
        requires
            self.wf(),
        ensures
            r.structures_view() == self.structures_view(),
            r.internal_view() == self.internal_view().map_values(
                |e: (u8, usize)| (turned(e.0, *rot), e.1),
            ),
            r.external_view() == self.external_view().map_values(
                |e: (usize, Seq<u8>)| (e.0, turned_items(e.1, *rot)),
            ),
            r.cloister_view() == self.cloister_view(),
    {
        let entries = direction_table_iter(&self.internal_connections);
        let mut abs_internal = direction_table_new();
        let mut i: usize = 0;
        while i < entries.len()
            invariant
                i <= entries@.len(),
                entries@ == self.internal_view(),
                self.wf(),
                direction_entries(abs_internal) == entries@.take(i as int).map_values(
                    |e: (u8, usize)| (turned(e.0, *rot), e.1),
                ),
                unique_keys(direction_entries(abs_internal)),
            decreases entries@.len() - i,
        {
            let (k, v) = entries[i];
            let ghost before = direction_entries(abs_internal);
            let a = RelDirection::from_index(k).to_abs(rot);
            let key = ord_position(a);
            proof {
                assert(entries@[i as int].0 < 8);
                assert(key == turned(k, *rot));
                if has_key(before, key) {
                    let q = key_at(before, key);
                    assert(before[q] == (turned(entries@[q].0, *rot), entries@[q].1));
                    assert(entries@[q].0 < 8);
                    lemma_turned_injective(entries@[q].0, k, *rot);
                    assert(entries@[q].0 == entries@[i as int].0);
                }
            }
            let _ = direction_table_insert(&mut abs_internal, key, v);
            proof {
                assert(entries@.take(i as int + 1) == entries@.take(i as int).push(entries@[i as int]));
            }
            i += 1;
        }
        proof {
            assert(entries@.take(entries@.len() as int) == entries@);
        }

        let reaches = connection_table_iter(&self.external_connections);
        let mut abs_external = connection_table_new();
        let mut i: usize = 0;
        while i < reaches.len()
            invariant
                i <= reaches@.len(),
                reaches@.len() == self.external_view().len(),
                forall|q: int|
                    0 <= q < reaches@.len() ==> (#[trigger] reaches@[q]).0 == self.external_view()[q].0
                        && set_items(reaches@[q].1) == self.external_view()[q].1,
                self.wf(),
                connection_entries(abs_external) == self.external_view().take(i as int).map_values(
                    |e: (usize, Seq<u8>)| (e.0, turned_items(e.1, *rot)),
                ),
                unique_keys(connection_entries(abs_external)),
            decreases reaches@.len() - i,
        {
            let id = reaches[i].0;
            let items = direction_set_iter(&reaches[i].1);
            let ghost src = self.external_view()[i as int].1;
            assert(edge_items(src));
            proof {
                lemma_edge_items_len(src);
            }
            let mut abs_set = direction_set_new();
            let mut k: usize = 0;
            while k < items.len()
                invariant
                    k <= items@.len() <= 4,
                    items@ == src,
                    edge_items(src),
                    set_items(abs_set) == turned_items(src.take(k as int), *rot),
                    set_items(abs_set).no_duplicates(),
                decreases items@.len() - k,
            {
                let x = items[k];
                let turned_x = ord_position(RelDirection::from_index(x).to_abs(rot));
                proof {
                    assert(src[k as int] < 8);
                    assert(turned_x == turned(x, *rot));
                    let cur = set_items(abs_set);
                    if cur.contains(turned_x) {
                        let q = choose|q: int| 0 <= q < cur.len() && cur[q] == turned_x;
                        assert(cur[q] == turned(src[q], *rot));
                        assert(src[q] < 8);
                        lemma_turned_injective(src[q], x, *rot);
                    }
                }
                let _ = direction_set_insert(&mut abs_set, turned_x);
                proof {
                    assert(src.take(k as int + 1) == src.take(k as int).push(src[k as int]));
                }
                k += 1;
            }
            proof {
                assert(src.take(items@.len() as int) == src);
            }
            let ghost before = connection_entries(abs_external);
            proof {
                if has_key(before, id) {
                    let q = key_at(before, id);
                    assert(before[q].0 == self.external_view()[q].0);
                    assert(self.external_view()[q].0 == self.external_view()[i as int].0);
                }
            }
            let _ = connection_table_insert(&mut abs_external, id, abs_set);
            proof {
                let ext = self.external_view();
                assert(ext.take(i as int + 1) == ext.take(i as int).push(ext[i as int]));
            }
            i += 1;
        }
        proof {
            let ext = self.external_view();
            assert(ext.take(ext.len() as int) == ext);
        }
        StructureLinks {
            structures: structure_table_clone(&self.structures),
            internal_connections: abs_internal,
            external_connections: abs_external,
            cloister: self.cloister,
        }
    }
}

/// What the finished links say of the tile's edges and corners, from what
/// each pass left behind: the road pass (`roads`), the city pass (`cities`)
/// and the rest, which only adds corners and the cloister.
proof fn lemma_links_law(
    m: LinksModel,
    fs: Seq<Feature>,
    roads: Seq<(u8, usize)>,
    cities: Seq<(u8, usize)>,
    city_id: usize,
    roads_connected: bool,
    cities_connected: bool,
)
    requires
        building(m),
        typed(m, fs),
        fs.len() == 4,
        edge_pass(Seq::empty(), roads, fs, Feature::Road, roads_connected, 0),
        edge_pass(roads, cities, fs, Feature::City, cities_connected, city_id),
        field_pass(cities, m.internal, fs),
    ensures
        forall|j: int| 0 <= j < 4 ==> (has_key(m.internal, (2 * j + 1) as u8) <==> corner_kept(fs, j)),
        forall|k: u8|
            has_key(m.internal, k) ==> k < 8 && lookup(m.structures, #[trigger] lookup(m.internal, k)).structure_type
                == expected_type(fs, k),
        forall|e: int| 0 <= e < 4 ==> (has_key(m.internal, (2 * e) as u8) <==> fs[e] != Feature::Field),
        roads_connected ==> forall|e1: int, e2: int|
            0 <= e1 < 4 && 0 <= e2 < 4 && fs[e1] == Feature::Road && fs[e2] == Feature::Road ==> lookup(
                m.internal,
                (2 * e1) as u8,
            ) == lookup(m.internal, (2 * e2) as u8),
        cities_connected ==> forall|e1: int, e2: int|
            0 <= e1 < 4 && 0 <= e2 < 4 && fs[e1] == Feature::City && fs[e2] == Feature::City ==> lookup(
                m.internal,
                (2 * e1) as u8,
            ) == lookup(m.internal, (2 * e2) as u8),
{
    reveal(edge_pass);
    reveal(field_pass);
    assert forall|k: u8| has_key(cities, k) implies k % 2 == 0 by {
        if !(k % 2 == 0) {
            assert(has_key(roads, k));
            assert(has_key(Seq::<(u8, usize)>::empty(), k));
        }
    }
    assert forall|e: int| 0 <= e < 4 && fs[e] == Feature::Road implies has_key(m.internal, (2 * e) as u8)
        && lookup(m.internal, (2 * e) as u8) == lookup(roads, (2 * e) as u8) by {
        assert(((2 * e) as u8) as int / 2 == e);
        assert(has_key(roads, (2 * e) as u8));
        assert(has_key(cities, (2 * e) as u8));
    }
    assert forall|e: int| 0 <= e < 4 && fs[e] == Feature::City implies has_key(m.internal, (2 * e) as u8)
        && lookup(m.internal, (2 * e) as u8) == lookup(cities, (2 * e) as u8) by {
        assert(has_key(cities, (2 * e) as u8));
    }
    assert forall|k: u8| has_key(m.internal, k) implies k < 8 && lookup(
        m.structures,
        #[trigger] lookup(m.internal, k),
    ).structure_type == expected_type(fs, k) by {
        let p = key_at(m.internal, k);
        assert(m.internal[p].0 == k);
        let id = m.internal[p].1;
        assert(m.structures[id as int].0 == id);
        assert(has_key(m.structures, id));
        let q = key_at(m.structures, id);
        assert(m.structures[q].0 == id);
        assert(q == id as int);
    }
    assert forall|j: int| 0 <= j < 4 implies (has_key(m.internal, (2 * j + 1) as u8) <==> corner_kept(fs, j)) by {
        let k = (2 * j + 1) as u8;
        if has_key(m.internal, k) {
            assert(!has_key(cities, k));
            assert((k as int - 1) / 2 == j);
        }
    }
    assert forall|e: int| 0 <= e < 4 implies (has_key(m.internal, (2 * e) as u8) <==> fs[e] != Feature::Field) by {
        if has_key(m.internal, (2 * e) as u8) {
            let p = key_at(m.internal, (2 * e) as u8);
            assert(m.internal[p].0 == (2 * e) as u8);
            assert(((2 * e) as u8) as int / 2 == e);
        }
    }
}

/// The two edges beside corner `j` in compass positions.
proof fn lemma_corner(j: int)
    requires
        0 <= j < 4,
    ensures
        (2 * j + 1 + 7) % 8 == 2 * j,
        (2 * j + 1 + 1) % 8 == 2 * ((j + 1) % 4),
        (2 * j + 1 + 2) % 8 == 2 * ((j + 1) % 4) + 1,
        ((2 * j + 1) - 1) / 2 == j,
        2 * j != 2 * ((j + 1) % 4),
{
}

/// The kept corners are odd compass positions, at most one per step.
proof fn lemma_kept_corners(fs: Seq<Feature>, start: int, n: nat)
    requires
        0 <= start < 4,
    ensures
        kept_corners(fs, start, n).len() <= n,
        forall|q: int|
            0 <= q < kept_corners(fs, start, n).len() ==> (#[trigger] kept_corners(fs, start, n)[q]) % 2 == 1
                && kept_corners(fs, start, n)[q] < 8,
    decreases n,
{
    if n > 0 {
        lemma_kept_corners(fs, start, (n - 1) as nat);
    }
}

/// The step of the walk from corner `start` at which corner `j` is reached.
pub open spec fn walk_step(start: int, j: int) -> int {
    (j - start + 4) % 4
}

/// The walk round the fields visits every corner once: over its first `n`
/// steps the kept corners hold corner `j` exactly when it holds a field and
/// has been reached.
proof fn lemma_kept_corners_exact(fs: Seq<Feature>, start: int, n: nat, j: int)
    requires
        0 <= start < 4,
        n <= 4,
        0 <= j < 4,
    ensures
        kept_corners(fs, start, n).contains((2 * j + 1) as u8) <==> (corner_kept(fs, j) && walk_step(start, j)
            < n),
    decreases n,
{
    if n > 0 {
        lemma_kept_corners_exact(fs, start, (n - 1) as nat, j);
        let p = kept_corners(fs, start, (n - 1) as nat);
        let jn = (start + n - 1) % 4;
        let x = (2 * j + 1) as u8;
        assert(walk_step(start, j) == n - 1 <==> j == jn);
        assert(x == (2 * jn + 1) as u8 <==> j == jn);
        if corner_kept(fs, jn) {
            let k = p.push((2 * jn + 1) as u8);
            assert(kept_corners(fs, start, n) == k);
            if k.contains(x) && !p.contains(x) {
                let q = choose|q: int| 0 <= q < k.len() && k[q] == x;
                if q < p.len() {
                    assert(p[q] == x);
                }
            }
            if j == jn {
                assert(k[p.len() as int] == x);
            }
            if p.contains(x) {
                let q = choose|q: int| 0 <= q < p.len() && p[q] == x;
                assert(k[q] == x);
            }
        } else {
            assert(kept_corners(fs, start, n) == p);
        }
    }
}

proof fn lemma_count_mono(fs: Seq<Feature>, f: Feature, a: int, b: int)
    requires
        0 <= a <= b,
    ensures
        count_feature(fs, f, a) <= count_feature(fs, f, b),
    decreases b - a,
{
    if a < b {
        lemma_count_mono(fs, f, a, b - 1);
    }
}

} // verus!
