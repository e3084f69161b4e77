use vstd::prelude::*;
use indexmap::IndexMap;
use rand::rngs::ThreadRng;
use rapidhash::fast::RandomState;
use crate::random::random_below;
use crate::tile::TileId;

verus! {

/// `indexmap`'s insertion-ordered hash map, carried through opaque.
#[verifier::external_type_specification]
#[verifier::external_body]
#[verifier::reject_recursive_types(K)]
#[verifier::reject_recursive_types(V)]
#[verifier::reject_recursive_types(S)]
pub struct ExIndexMap<K, V, S>(IndexMap<K, V, S>);

/// `rapidhash`'s seeded hasher builder, carried through opaque.
#[verifier::external_type_specification]
#[verifier::external_body]
pub struct ExRapidRandomState<
    const AVALANCHE: bool,
    const SPONGE: bool,
    const COMPACT: bool,
    const PROTECTED: bool,
>(rapidhash::inner::RandomState<AVALANCHE, SPONGE, COMPACT, PROTECTED>);

/// The entries of an index map, in its order: (key, value) pairs.
pub uninterp spec fn index_map_entries(m: IndexMap<u32, u32, RandomState>) -> Seq<(u32, u32)>;

/// Calls `IndexMap::clone`. Its source clones the entry list in order, key
/// and value each (here `u32` copies), and the hasher: the copy has the same
/// entries in the same order.
#[verifier::external_body]
fn map_clone(m: &IndexMap<u32, u32, RandomState>) -> (r: IndexMap<u32, u32, RandomState>)
    ensures
        index_map_entries(r) == index_map_entries(*m),
{
    m.clone()
}

/// Position of the entry with key `k`, if any.
pub open spec fn key_position(s: Seq<(u32, u32)>, k: u32) -> Option<int> {
    if exists|i: int| 0 <= i < s.len() && #[trigger] s[i].0 == k {
        Some(choose|i: int| 0 <= i < s.len() && #[trigger] s[i].0 == k)
    } else {
        None
    }
}

pub open spec fn distinct_keys(s: Seq<(u32, u32)>) -> bool {
    forall|i: int, j: int| 0 <= i < j < s.len() ==> #[trigger] s[i].0 != #[trigger] s[j].0
}

/// Calls `IndexMap::default()`: an empty map.
#[verifier::external_body]
fn map_new() -> (r: IndexMap<u32, u32, RandomState>)
    ensures
        index_map_entries(r) == Seq::<(u32, u32)>::empty(),
{
    IndexMap::default()
}

/// Calls `IndexMap::insert`: an existing key keeps its place and takes the new
/// value; a new key is appended last.
#[verifier::external_body]
fn map_insert(m: &mut IndexMap<u32, u32, RandomState>, k: u32, v: u32)
    ensures
        index_map_entries(*final(m)) == match key_position(index_map_entries(*old(m)), k) {
            Some(i) => index_map_entries(*old(m)).update(i, (k, v)),
            None => index_map_entries(*old(m)).push((k, v)),
        },
{
    m.insert(k, v);
}

/// Calls `IndexMap::get`: the value stored under `k`, if any.
#[verifier::external_body]
fn map_get(m: &IndexMap<u32, u32, RandomState>, k: u32) -> (r: Option<u32>)
    ensures
        r == match key_position(index_map_entries(*m), k) {
            Some(i) => Some(index_map_entries(*m)[i].1),
            None => None::<u32>,
        },
{
    m.get(&k).copied()
}

/// Calls `IndexMap::swap_remove`: the entry with key `k` is replaced by the
/// last entry, which is popped; nothing changes when `k` is absent.
#[verifier::external_body]
fn map_swap_remove(m: &mut IndexMap<u32, u32, RandomState>, k: u32)
    ensures
        index_map_entries(*final(m)) == match key_position(index_map_entries(*old(m)), k) {
            Some(i) => index_map_entries(*old(m)).update(
                i,
                index_map_entries(*old(m)).last(),
            ).drop_last(),
            None => index_map_entries(*old(m)),
        },
{
    m.swap_remove(&k);
}

/// Calls `IndexMap::len`.
#[verifier::external_body]
fn map_len(m: &IndexMap<u32, u32, RandomState>) -> (r: usize)
    ensures
        r == index_map_entries(*m).len(),
{
    m.len()
}

/// Calls `IndexMap::get_index`: the key and value at position `i`.
#[verifier::external_body]
fn map_get_index(m: &IndexMap<u32, u32, RandomState>, i: usize) -> (r: (u32, u32))
    requires
        i < index_map_entries(*m).len(),
    ensures
        r == index_map_entries(*m)[i as int],
{
    let (k, v) = m.get_index(i).unwrap();
    (*k, *v)
}

/// The entries after one `k` is taken out: its count drops by one, and a
/// kind whose count reaches zero is replaced by the last kind.
pub open spec fn spec_take(s: Seq<(u32, u32)>, k: u32) -> Seq<(u32, u32)> {
    match key_position(s, k) {
        Some(i) => if s[i].1 <= 1 {
            s.update(i, s.last()).drop_last()
        } else {
            s.update(i, (k, (s[i].1 - 1) as u32))
        },
        None => s,
    }
}

/// A bag of tile kinds with a count per kind, in the order kinds were first added.
pub struct MultiHashSet {
    elements: IndexMap<u32, u32, RandomState>,
}

impl MultiHashSet {
    /// The (tile id, count) entries in order.
    pub closed spec fn entries(&self) -> Seq<(u32, u32)> {
        index_map_entries(self.elements)
    }

    pub open spec fn wf(&self) -> bool {
        distinct_keys(self.entries())
    }

    /// How many of tile `k` the bag holds (0 when absent).
    pub open spec fn count(&self, k: u32) -> u32 {
        match key_position(self.entries(), k) {
            Some(i) => self.entries()[i].1,
            None => 0,
        }
    }

    proof fn lemma_position(s: Seq<(u32, u32)>, k: u32, i: int)
        requires
            distinct_keys(s),
            0 <= i < s.len(),
            s[i].0 == k,
        ensures
            key_position(s, k) == Some(i),
    {
    }

    pub fn new() -> (r: Self)
        ensures
            r.wf(),
            r.entries() == Seq::<(u32, u32)>::empty(),
    {
        MultiHashSet { elements: map_new() }
    }

    /// Sets the count of `k` to `v`, adding `k` last when absent.
    pub fn set(&mut self, k: TileId, v: u32)
        requires
            old(self).wf(),
        ensures
            final(self).wf(),
            final(self).entries() == match key_position(old(self).entries(), k.0) {
                Some(i) => old(self).entries().update(i, (k.0, v)),
                None => old(self).entries().push((k.0, v)),
            },
    {
        map_insert(&mut self.elements, k.0, v);
        proof {
            let o = old(self).entries();
            let n = self.entries();
            match key_position(o, k.0) {
                Some(i) => {
                    assert(distinct_keys(n));
                },
                None => {
                    assert forall|i: int, j: int| 0 <= i < j < n.len() implies #[trigger] n[i].0
                        != #[trigger] n[j].0 by {
                        if j == o.len() {
                            assert(o[i].0 != k.0);
                        }
                    }
                },
            }
        }
    }

    /// Adds one `el`.
    pub fn put(&mut self, el: TileId)
        requires
            old(self).wf(),
            old(self).count(el.0) < u32::MAX,
        ensures
            final(self).wf(),
            final(self).entries() == match key_position(old(self).entries(), el.0) {
                Some(i) => old(self).entries().update(i, (el.0, (old(self).entries()[i].1 + 1) as u32)),
                None => old(self).entries().push((el.0, 1u32)),
            },
    {
        match map_get(&self.elements, el.0) {
            Some(c) => self.set(el, c + 1),
            None => self.set(el, 1),
        }
    }

    /// Removes one `el`; a kind whose count drops to zero leaves the bag,
    /// its place taken by the last kind.
    pub fn take(&mut self, el: &TileId)
        requires
            old(self).wf(),
        ensures
            final(self).wf(),
            final(self).entries() == spec_take(old(self).entries(), el.0),
    {
        let ghost o = self.entries();
        if let Some(c) = map_get(&self.elements, el.0) {
            self.set(*el, c.saturating_sub(1));
        }
        if map_get(&self.elements, el.0) == Some(0u32) {
            let ghost mid = self.entries();
            map_swap_remove(&mut self.elements, el.0);
            proof {
                let i = key_position(o, el.0)->0;
                assert(key_position(mid, el.0) == Some(i)) by {
                    Self::lemma_position(mid, el.0, i);
                }
                let n = self.entries();
                assert forall|a: int, b: int| 0 <= a < b < n.len() implies #[trigger] n[a].0
                    != #[trigger] n[b].0 by {
                    if a == i {
                        assert(mid[mid.len() - 1].0 != mid[b].0);
                    } else if b == i {
                        assert(mid[a].0 != mid[mid.len() - 1].0);
                    }
                }
                assert(n =~= o.update(i, o.last()).drop_last());
            }
        } else {
            proof {
                match key_position(o, el.0) {
                    Some(i) => {
                        Self::lemma_position(self.entries(), el.0, i);
                    },
                    None => {},
                }
            }
        }
    }

    /// The tile kinds in the bag, in order.
    pub fn elements(&self) -> (r: Vec<TileId>)
        ensures
            r@.len() == self.entries().len(),
            forall|i: int| 0 <= i < r@.len() ==> #[trigger] r@[i].0 == self.entries()[i].0,
    {
        let n = map_len(&self.elements);
        let mut r: Vec<TileId> = Vec::new();
        let mut i: usize = 0;
        while i < n
            invariant
                n == self.entries().len(),
                i <= n,
                r@.len() == i,
                forall|j: int| 0 <= j < i ==> #[trigger] r@[j].0 == self.entries()[j].0,
            decreases n - i,
        {
            let (k, _) = map_get_index(&self.elements, i);
            r.push(TileId(k));
            i += 1;
        }
        r
    }

    /// Number of distinct tile kinds in the bag.
    pub fn len(&self) -> (r: usize)
        ensures
            r == self.entries().len(),
    {
        map_len(&self.elements)
    }

    /// The tile kinds in the bag, in order.
    pub fn iter(&self) -> (r: Vec<TileId>)
        ensures
            r@.len() == self.entries().len(),
            forall|i: int| 0 <= i < r@.len() ==> #[trigger] r@[i].0 == self.entries()[i].0,
    {
        self.elements()
    }

    /// A tile kind of the bag chosen at random.
    pub fn get_random(&self, rng: &mut ThreadRng) -> (r: TileId)
        requires
            self.entries().len() > 0,
        ensures
            exists|i: int| 0 <= i < self.entries().len() && self.entries()[i].0 == r.0,
    {
        let n = map_len(&self.elements);
        let idx = random_below(rng, n);
        let (k, _) = map_get_index(&self.elements, idx);
        TileId(k)
    }

    /// How many of `k` the bag holds.
    pub fn get(&self, k: TileId) -> (r: u32)
        requires
            self.wf(),
        ensures
            r == self.count(k.0),
    {
        match map_get(&self.elements, k.0) {
            Some(c) => c,
            None => 0,
        }
    }
}

impl Clone for MultiHashSet {
    fn clone(&self) -> (r: Self)
        ensures
            r.entries() == self.entries(),
    {
        MultiHashSet { elements: map_clone(&self.elements) }
    }
}

} // verus!
