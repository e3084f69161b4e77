//! Fixed-capacity tables from `heapless`, as the structure links of a tile use them.
//!
//! Each table holds a `heapless` map or set in a private field. Verus sees the
//! contents through a name (the entries in insertion order) and through the
//! contract of each wrapper, which states what the crate's source does to them.

use vstd::prelude::*;
use heapless::index_map::FnvIndexMap;
use heapless::index_set::FnvIndexSet;
use heapless::Vec as ArrayVec;
use crate::direction::{OrdinalDirection, ord_index};
use crate::structure_links::Structure;
use crate::tile_features::Feature;

verus! {

/// Whether some entry has key `k`.
pub open spec fn has_key<K, V>(s: Seq<(K, V)>, k: K) -> bool {
    exists|i: int| 0 <= i < s.len() && #[trigger] s[i].0 == k
}

/// The position of the entry with key `k` (meaningful when there is one).
pub open spec fn key_at<K, V>(s: Seq<(K, V)>, k: K) -> int {
    choose|i: int| 0 <= i < s.len() && #[trigger] s[i].0 == k
}

/// No two entries share a key.
pub open spec fn unique_keys<K, V>(s: Seq<(K, V)>) -> bool {
    forall|i: int, j: int| 0 <= i < s.len() && 0 <= j < s.len() && #[trigger] s[i].0 == #[trigger] s[j].0 ==> i == j
}

/// The entries after inserting `(k, v)`: an existing key keeps its place and
/// takes the new value, a new key goes last.
pub open spec fn put<K, V>(s: Seq<(K, V)>, k: K, v: V) -> Seq<(K, V)> {
    if has_key(s, k) {
        s.update(key_at(s, k), (k, v))
    } else {
        s.push((k, v))
    }
}

/// The value under key `k`.
pub open spec fn lookup<K, V>(s: Seq<(K, V)>, k: K) -> V {
    s[key_at(s, k)].1
}

/// Facts about `put` on a map with unique keys.
pub proof fn lemma_put<K, V>(s: Seq<(K, V)>, k: K, v: V)
    requires
        unique_keys(s),
    ensures
        unique_keys(put(s, k, v)),
        has_key(put(s, k, v), k),
        lookup(put(s, k, v), k) == v,
        forall|x: K| #[trigger] has_key(put(s, k, v), x) <==> (has_key(s, x) || x == k),
        forall|x: K| x != k && has_key(s, x) ==> #[trigger] lookup(put(s, k, v), x) == lookup(s, x),
        put(s, k, v).len() == if has_key(s, k) { s.len() } else { s.len() + 1 },
        forall|i: int|
            0 <= i < put(s, k, v).len() ==> #[trigger] put(s, k, v)[i] == (k, v) || (i < s.len()
                && put(s, k, v)[i] == s[i]),
{
    let t = put(s, k, v);
    if has_key(s, k) {
        let p = key_at(s, k);
        assert(t[p].0 == k);
        assert forall|x: K| #[trigger] has_key(t, x) <==> (has_key(s, x) || x == k) by {
            if has_key(s, x) {
                let i = key_at(s, x);
                if i == p {
                    assert(t[p].0 == x);
                } else {
                    assert(t[i].0 == x);
                }
            }
            if has_key(t, x) {
                let i = key_at(t, x);
                if i != p {
                    assert(s[i].0 == x);
                }
            }
        }
        assert(unique_keys(t)) by {
            assert forall|i: int, j: int|
                0 <= i < t.len() && 0 <= j < t.len() && #[trigger] t[i].0 == #[trigger] t[j].0 implies i == j by {
                if i != p && j != p {
                    assert(s[i].0 == s[j].0);
                } else if i == p && j != p {
                    assert(s[j].0 == k);
                    assert(s[p].0 == k);
                } else if j == p && i != p {
                    assert(s[i].0 == k);
                    assert(s[p].0 == k);
                }
            }
        }
        assert(has_key(t, k));
        assert(key_at(t, k) == p);
        assert forall|x: K| x != k && has_key(s, x) implies #[trigger] lookup(t, x) == lookup(s, x) by {
            let i = key_at(s, x);
            assert(t[i].0 == x);
            assert(key_at(t, x) == i);
        }
    } else {
        let n = s.len() as int;
        assert(t[n].0 == k);
        assert forall|x: K| #[trigger] has_key(t, x) <==> (has_key(s, x) || x == k) by {
            if has_key(s, x) {
                let i = key_at(s, x);
                assert(t[i].0 == x);
            }
            if has_key(t, x) {
                let i = key_at(t, x);
                if i != n {
                    assert(s[i].0 == x);
                }
            }
        }
        assert(unique_keys(t)) by {
            assert forall|i: int, j: int|
                0 <= i < t.len() && 0 <= j < t.len() && #[trigger] t[i].0 == #[trigger] t[j].0 implies i == j by {
                if i != n && j != n {
                    assert(s[i].0 == s[j].0);
                } else if i == n && j != n {
                    assert(s[j].0 == k);
                } else if j == n && i != n {
                    assert(s[i].0 == k);
                }
            }
        }
        assert(has_key(t, k));
        assert(key_at(t, k) == n);
        assert forall|x: K| x != k && has_key(s, x) implies #[trigger] lookup(t, x) == lookup(s, x) by {
            let i = key_at(s, x);
            assert(t[i].0 == x);
            assert(key_at(t, x) == i);
        }
    }
}

// ---------------------------------------------------------------------------
// Structures by id: `FnvIndexMap<usize, Structure, 16>`.

/// A tile's structures by id, at most 16, in the order they were added.
#[verifier::external_body]
#[derive(Debug)]
pub struct StructureTable {
    inner: FnvIndexMap<usize, Structure, 16>,
}

/// The entries of a structure table, in order.
pub uninterp spec fn structure_entries(t: StructureTable) -> Seq<(usize, Structure)>;

/// Calls `FnvIndexMap::new`: an empty map.
#[verifier::external_body]
pub(crate) fn structure_table_new() -> (r: StructureTable)
    ensures
        structure_entries(r) == Seq::<(usize, Structure)>::empty(),
{
    StructureTable { inner: FnvIndexMap::new() }
}

/// Calls `IndexMap::insert`. Its source: an existing key keeps its place and
/// takes the new value; a new key goes last, unless the map already holds 16
/// entries, when the pair is handed back as an error and nothing changes.
#[verifier::external_body]
pub(crate) fn structure_table_insert(t: &mut StructureTable, k: usize, v: Structure) -> (r: Result<
    Option<Structure>,
    (usize, Structure),
>)
    ensures
        unique_keys(structure_entries(*old(t))) ==> unique_keys(structure_entries(*final(t))),
        structure_entries(*final(t)).len() <= 16,
        r is Err <==> (!has_key(structure_entries(*old(t)), k) && structure_entries(*old(t)).len()
            >= 16),
        r is Err ==> structure_entries(*final(t)) == structure_entries(*old(t)),
        r is Ok ==> structure_entries(*final(t)) == put(structure_entries(*old(t)), k, v),
{
    t.inner.insert(k, v)
}

/// Indexes an `IndexMap` by key (its `Index` impl, which panics on a missing key).
#[verifier::external_body]
pub(crate) fn structure_table_get(t: &StructureTable, k: usize) -> (r: Structure)
    requires
        has_key(structure_entries(*t), k),
    ensures
        r == lookup(structure_entries(*t), k),
{
    t.inner[&k]
}

/// Calls `IndexMap::values`: the values in order, copied out.
#[verifier::external_body]
pub(crate) fn structure_table_values(t: &StructureTable) -> (r: Vec<Structure>)
    ensures
        r@ == structure_entries(*t).map_values(|e: (usize, Structure)| e.1),
{
    t.inner.values().copied().collect()
}

/// Calls `IndexMap::clone`, which copies the entries in order.
#[verifier::external_body]
pub(crate) fn structure_table_clone(t: &StructureTable) -> (r: StructureTable)
    ensures
        structure_entries(r) == structure_entries(*t),
{
    StructureTable { inner: t.inner.clone() }
}

// ---------------------------------------------------------------------------
// Directions to structure ids: `FnvIndexMap<u8, usize, 8>`, a direction
// written as its compass position.

/// Structure ids by direction (a compass position `0..8`), at most 8, in the
/// order they were added.
#[verifier::external_body]
#[derive(Debug)]
pub struct DirectionTable {
    inner: FnvIndexMap<u8, usize, 8>,
}

/// The entries of a direction table, in order.
pub uninterp spec fn direction_entries(t: DirectionTable) -> Seq<(u8, usize)>;

/// Calls `FnvIndexMap::new`: an empty map.
#[verifier::external_body]
pub(crate) fn direction_table_new() -> (r: DirectionTable)
    ensures
        direction_entries(r) == Seq::<(u8, usize)>::empty(),
{
    DirectionTable { inner: FnvIndexMap::new() }
}

/// Calls `IndexMap::insert`, as for the structure table, with room for 8 entries.
#[verifier::external_body]
pub(crate) fn direction_table_insert(t: &mut DirectionTable, k: u8, v: usize) -> (r: Result<
    Option<usize>,
    (u8, usize),
>)
    ensures
        unique_keys(direction_entries(*old(t))) ==> unique_keys(direction_entries(*final(t))),
        direction_entries(*final(t)).len() <= 8,
        r is Err <==> (!has_key(direction_entries(*old(t)), k) && direction_entries(*old(t)).len()
            >= 8),
        r is Err ==> direction_entries(*final(t)) == direction_entries(*old(t)),
        r is Ok ==> direction_entries(*final(t)) == put(direction_entries(*old(t)), k, v),
{
    t.inner.insert(k, v)
}

/// Indexes an `IndexMap` by key (its `Index` impl, which panics on a missing key).
#[verifier::external_body]
pub(crate) fn direction_table_get(t: &DirectionTable, k: u8) -> (r: usize)
    requires
        has_key(direction_entries(*t), k),
    ensures
        r == lookup(direction_entries(*t), k),
{
    t.inner[&k]
}

/// Calls `IndexMap::iter`: the entries in order, copied out.
#[verifier::external_body]
pub(crate) fn direction_table_iter(t: &DirectionTable) -> (r: Vec<(u8, usize)>)
    ensures
        r@ == direction_entries(*t),
{
    t.inner.iter().map(|(k, v)| (*k, *v)).collect()
}

// ---------------------------------------------------------------------------
// Sets of edges: `FnvIndexSet<u8, 4>`, an edge written as its compass position.

/// A set of at most 4 directions (compass positions), in the order they were added.
#[verifier::external_body]
#[derive(Debug)]
pub struct DirectionSet {
    inner: FnvIndexSet<u8, 4>,
}

/// The items of a direction set, in order.
pub uninterp spec fn set_items(s: DirectionSet) -> Seq<u8>;

/// Calls `FnvIndexSet::new`: an empty set.
#[verifier::external_body]
pub(crate) fn direction_set_new() -> (r: DirectionSet)
    ensures
        set_items(r) == Seq::<u8>::empty(),
{
    DirectionSet { inner: FnvIndexSet::new() }
}

/// Calls `IndexSet::insert`. Its source: a value already there changes
/// nothing; a new one goes last, unless the set already holds 4 values, when
/// it is handed back as an error.
#[verifier::external_body]
pub(crate) fn direction_set_insert(s: &mut DirectionSet, x: u8) -> (r: Result<bool, u8>)
    ensures
        set_items(*old(s)).no_duplicates() ==> set_items(*final(s)).no_duplicates(),
        set_items(*final(s)).len() <= 4,
        r is Err <==> (!set_items(*old(s)).contains(x) && set_items(*old(s)).len() >= 4),
        r is Err ==> set_items(*final(s)) == set_items(*old(s)),
        r is Ok ==> set_items(*final(s)) == if set_items(*old(s)).contains(x) {
            set_items(*old(s))
        } else {
            set_items(*old(s)).push(x)
        },
        r == Ok::<bool, u8>(true) <==> (r is Ok && !set_items(*old(s)).contains(x)),
{
    s.inner.insert(x)
}

/// The items of `a` followed by those of `b` that are not there yet, in order.
pub open spec fn union_items(a: Seq<u8>, b: Seq<u8>) -> Seq<u8>
    decreases b.len(),
{
    if b.len() == 0 {
        a
    } else {
        let u = union_items(a, b.drop_last());
        if u.contains(b.last()) {
            u
        } else {
            u.push(b.last())
        }
    }
}

/// Calls `IndexSet::union` and collects it into a new set: its source chains
/// the items of `a` with those of `b` not in `a`. Collecting panics past 4
/// items, which `requires` rules out.
#[verifier::external_body]
pub(crate) fn direction_set_union(a: &DirectionSet, b: &DirectionSet) -> (r: DirectionSet)
    requires
        set_items(*a).no_duplicates(),
        set_items(*b).no_duplicates(),
        union_items(set_items(*a), set_items(*b)).len() <= 4,
    ensures
        set_items(r) == union_items(set_items(*a), set_items(*b)),
{
    DirectionSet { inner: a.inner.union(&b.inner).copied().collect() }
}

/// Calls `IndexSet::iter`: the items in order, copied out.
#[verifier::external_body]
pub(crate) fn direction_set_iter(s: &DirectionSet) -> (r: Vec<u8>)
    ensures
        r@ == set_items(*s),
{
    s.inner.iter().copied().collect()
}

// ---------------------------------------------------------------------------
// Structure ids to the edges they reach: `FnvIndexMap<usize, FnvIndexSet<u8, 4>, 8>`.

/// For each structure id (at most 8), the set of edges through which it
/// continues onto the neighbouring tiles.
#[verifier::external_body]
#[derive(Debug)]
pub struct ConnectionTable {
    inner: FnvIndexMap<usize, FnvIndexSet<u8, 4>, 8>,
}

/// The entries of a connection table, in order, each set given by its items.
pub uninterp spec fn connection_entries(t: ConnectionTable) -> Seq<(usize, Seq<u8>)>;

/// Calls `FnvIndexMap::new`: an empty map.
#[verifier::external_body]
pub(crate) fn connection_table_new() -> (r: ConnectionTable)
    ensures
        connection_entries(r) == Seq::<(usize, Seq<u8>)>::empty(),
{
    ConnectionTable { inner: FnvIndexMap::new() }
}

/// Calls `IndexMap::insert`, as for the structure table, with room for 8 entries.
#[verifier::external_body]
pub(crate) fn connection_table_insert(t: &mut ConnectionTable, k: usize, v: DirectionSet) -> (r: bool)
    ensures
        unique_keys(connection_entries(*old(t))) ==> unique_keys(connection_entries(*final(t))),
        connection_entries(*final(t)).len() <= 8,
        !r <==> (!has_key(connection_entries(*old(t)), k) && connection_entries(*old(t)).len() >= 8),
        !r ==> connection_entries(*final(t)) == connection_entries(*old(t)),
        r ==> connection_entries(*final(t)) == put(connection_entries(*old(t)), k, set_items(v)),
{
    t.inner.insert(k, v.inner).is_ok()
}

/// Indexes an `IndexMap` by key (its `Index` impl, which panics on a missing
/// key) and clones the set found there.
#[verifier::external_body]
pub(crate) fn connection_table_get(t: &ConnectionTable, k: usize) -> (r: DirectionSet)
    requires
        has_key(connection_entries(*t), k),
    ensures
        set_items(r) == lookup(connection_entries(*t), k),
{
    DirectionSet { inner: t.inner[&k].clone() }
}

/// Assigns through `IndexMap`'s `IndexMut` (which panics on a missing key):
/// the entry keeps its place and takes the new set.
#[verifier::external_body]
pub(crate) fn connection_table_set(t: &mut ConnectionTable, k: usize, v: DirectionSet)
    requires
        has_key(connection_entries(*old(t)), k),
    ensures
        unique_keys(connection_entries(*old(t))) ==> unique_keys(connection_entries(*final(t))),
        connection_entries(*final(t)) == put(connection_entries(*old(t)), k, set_items(v)),
{
    t.inner[&k] = v.inner;
}

/// Calls `IndexMap::iter`: the entries in order, each set cloned.
#[verifier::external_body]
pub(crate) fn connection_table_iter(t: &ConnectionTable) -> (r: Vec<(usize, DirectionSet)>)
    ensures
        r@.len() == connection_entries(*t).len(),
        forall|i: int|
            0 <= i < r@.len() ==> (#[trigger] r@[i]).0 == connection_entries(*t)[i].0 && set_items(r@[i].1)
                == connection_entries(*t)[i].1,
{
    t.inner.iter().map(|(k, s)| (*k, DirectionSet { inner: s.clone() })).collect()
}

// ---------------------------------------------------------------------------
// A short list of directions: `heapless::Vec<u8, 4>`.

/// At most 4 directions (compass positions), in the order they were pushed.
#[verifier::external_body]
#[derive(Debug)]
pub struct DirectionList {
    inner: ArrayVec<u8, 4>,
}

/// The items of a direction list, in order.
pub uninterp spec fn list_items(l: DirectionList) -> Seq<u8>;

/// Calls `heapless::Vec::new`: an empty list.
#[verifier::external_body]
pub(crate) fn direction_list_new() -> (r: DirectionList)
    ensures
        list_items(r) == Seq::<u8>::empty(),
{
    DirectionList { inner: ArrayVec::new() }
}

/// Calls `heapless::Vec::push`: the item goes last, unless the list already
/// holds 4, when it is handed back as an error.
#[verifier::external_body]
pub(crate) fn direction_list_push(l: &mut DirectionList, x: u8) -> (r: Result<(), u8>)
    ensures
        list_items(*final(l)).len() <= 4,
        r is Err <==> list_items(*old(l)).len() >= 4,
        r is Err ==> list_items(*final(l)) == list_items(*old(l)),
        r is Ok ==> list_items(*final(l)) == list_items(*old(l)).push(x),
{
    l.inner.push(x)
}

/// Calls `heapless::Vec::iter`: the items in order, copied out.
#[verifier::external_body]
pub(crate) fn direction_list_iter(l: &DirectionList) -> (r: Vec<u8>)
    ensures
        r@ == list_items(*l),
{
    l.inner.iter().copied().collect()
}

// ---------------------------------------------------------------------------
// The feature along each absolute edge: `FnvIndexMap<u8, Feature, 4>`, an
// edge written as its compass position.

/// The feature along each edge of a placed tile (a compass position), at most
/// 4, in the order they were added.
#[verifier::external_body]
#[derive(Debug)]
pub struct EdgeTable {
    inner: FnvIndexMap<u8, Feature, 4>,
}

/// The entries of an edge table, in order.
pub uninterp spec fn edge_entries(t: EdgeTable) -> Seq<(u8, Feature)>;

/// Calls `FnvIndexMap::new`: an empty map.
#[verifier::external_body]
pub(crate) fn edge_table_new() -> (r: EdgeTable)
    ensures
        edge_entries(r) == Seq::<(u8, Feature)>::empty(),
{
    EdgeTable { inner: FnvIndexMap::new() }
}

/// Calls `IndexMap::insert`, as for the structure table, with room for 4 entries.
#[verifier::external_body]
pub(crate) fn edge_table_insert(t: &mut EdgeTable, k: u8, v: Feature) -> (r: bool)
    ensures
        unique_keys(edge_entries(*old(t))) ==> unique_keys(edge_entries(*final(t))),
        edge_entries(*final(t)).len() <= 4,
        !r <==> (!has_key(edge_entries(*old(t)), k) && edge_entries(*old(t)).len() >= 4),
        !r ==> edge_entries(*final(t)) == edge_entries(*old(t)),
        r ==> edge_entries(*final(t)) == put(edge_entries(*old(t)), k, v),
{
    t.inner.insert(k, v).is_ok()
}

/// Calls `IndexMap::values`: the features in order, copied out.
#[verifier::external_body]
pub(crate) fn edge_table_values(t: &EdgeTable) -> (r: Vec<Feature>)
    ensures
        r@ == edge_entries(*t).map_values(|e: (u8, Feature)| e.1),
{
    t.inner.values().copied().collect()
}

/// Indexes an `IndexMap` by key (its `Index` impl, which panics on a missing key).
#[verifier::external_body]
fn edge_table_get(t: &EdgeTable, k: u8) -> (r: Feature)
    requires
        has_key(edge_entries(*t), k),
    ensures
        r == lookup(edge_entries(*t), k),
{
    t.inner[&k]
}

impl EdgeTable {
    /// The feature along the edge facing `dir`.
    pub fn get(&self, dir: &OrdinalDirection) -> (r: Feature)
        requires
            has_key(edge_entries(*self), ord_index(*dir) as u8),
        ensures
            r == lookup(edge_entries(*self), ord_index(*dir) as u8),
    {
        let k: u8 = match dir {
            OrdinalDirection::North => 0,
            OrdinalDirection::NorthEast => 1,
            OrdinalDirection::East => 2,
            OrdinalDirection::SouthEast => 3,
            OrdinalDirection::South => 4,
            OrdinalDirection::SouthWest => 5,
            OrdinalDirection::West => 6,
            OrdinalDirection::NorthWest => 7,
        };
        edge_table_get(self, k)
    }
}

} // verus!
