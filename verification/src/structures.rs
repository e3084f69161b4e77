use vstd::prelude::*;
use crate::flood_fill::{adjacent, flood_fill, has_parent, is_filled_region, linked, strictly_inside, contains_index};
use crate::game::{GameSettings, PlayerId, Place, spec_index_place, spec_neighbour_count, index_place, count_neighbours, pixel_of, spec_place_index, spec_neighbour, place_index, distinct_follower_positions, ord_dir};
use crate::direction::{OrdinalDirection, ord_index};
use crate::index::Index;
use crate::map::{PixelMap, lemma_nonempty_in_range, lemma_distinct_nonempty_bounded, MAX_SIDE};
use crate::tile_pixel::{TilePixel, TilePixelExt, spec_connects, spec_score, spec_is_scoring, is_scoring};

verus! {

/// The positions whose pixel connects to `t`.
pub open spec fn region(m: PixelMap, t: TilePixel) -> spec_fn(Index) -> bool {
    |i: Index| spec_connects(m.at_index(i), t)
}

/// The positions whose pixel does not connect to `t`.
pub open spec fn not_region(m: PixelMap, t: TilePixel) -> spec_fn(Index) -> bool {
    |i: Index| !spec_connects(m.at_index(i), t)
}

/// Whether `q` is a filled region for the predicate `p` (with complement `np`),
/// grown from some position, and holds `x`.
pub open spec fn pred_holding(p: spec_fn(Index) -> bool, np: spec_fn(Index) -> bool, q: Seq<Index>, x: Index) -> bool {
    (exists|a: Index| is_filled_region(q, a, p, np)) && q.contains(x)
}

/// The positions of the filled region for `p` that holds `x` (empty when there is none).
pub open spec fn filled_component(p: spec_fn(Index) -> bool, np: spec_fn(Index) -> bool, x: Index) -> Set<Index> {
    if exists|q: Seq<Index>| pred_holding(p, np, q, x) {
        (choose|q: Seq<Index>| pred_holding(p, np, q, x)).to_set()
    } else {
        Set::empty()
    }
}

/// The connected region of pixels connecting to `t` that holds `x`
/// (empty when `x`'s own pixel does not connect to `t`).
pub open spec fn component(m: PixelMap, t: TilePixel, x: Index) -> Set<Index> {
    filled_component(region(m, t), not_region(m, t), x)
}

/// A filled region of `a` that holds `b` lies within any filled region grown from `b`'s...
/// formally: if `qb` is a filled region and its seed lies in the closed region `qa`,
/// every position of `qb` lies in `qa`.
proof fn lemma_region_within(qa: Seq<Index>, a: Index, qb: Seq<Index>, b: Index, p: spec_fn(Index) -> bool, np: spec_fn(Index) -> bool, k: int)
    requires
        is_filled_region(qa, a, p, np),
        is_filled_region(qb, b, p, np),
        forall|i: Index| !(#[trigger] p(i) && np(i)),
        qa.contains(b),
        0 <= k < qb.len(),
    ensures
        qa.contains(qb[k]),
    decreases k,
{
    if k > 0 {
        assert(has_parent(qb, k));
        let j = choose|j: int| 0 <= j < k && #[trigger] adjacent(qb[j], qb[k]);
        lemma_region_within(qa, a, qb, b, p, np, j);
        let ja = choose|ja: int| 0 <= ja < qa.len() && qa[ja] == qb[j];
        assert(adjacent(qa[ja], qb[k]));
        assert(p(qb[k]));
    }
}

/// Walking back along the parents of a filled region from a position inside a
/// closed region `qb` reaches the seed.
proof fn lemma_seed_within(qa: Seq<Index>, a: Index, qb: Seq<Index>, b: Index, p: spec_fn(Index) -> bool, np: spec_fn(Index) -> bool, k: int)
    requires
        is_filled_region(qa, a, p, np),
        is_filled_region(qb, b, p, np),
        forall|i: Index| !(#[trigger] p(i) && np(i)),
        0 <= k < qa.len(),
        qb.contains(qa[k]),
    ensures
        qb.contains(a),
    decreases k,
{
    if k > 0 {
        assert(has_parent(qa, k));
        let j = choose|j: int| 0 <= j < k && #[trigger] adjacent(qa[j], qa[k]);
        let kb = choose|kb: int| 0 <= kb < qb.len() && qb[kb] == qa[k];
        assert(adjacent(qa[k], qa[j]));
        assert(adjacent(qb[kb], qa[j]));
        assert(p(qa[j]));
        lemma_seed_within(qa, a, qb, b, p, np, j);
    }
}

/// Two filled regions for one predicate that share a position hold the same positions.
pub proof fn lemma_regions_equal(qa: Seq<Index>, a: Index, qb: Seq<Index>, b: Index, p: spec_fn(Index) -> bool, np: spec_fn(Index) -> bool)
    requires
        is_filled_region(qa, a, p, np),
        is_filled_region(qb, b, p, np),
        forall|i: Index| !(#[trigger] p(i) && np(i)),
        qa.contains(b),
    ensures
        qa.to_set() == qb.to_set(),
{
    let kb = choose|k: int| 0 <= k < qa.len() && qa[k] == b;
    lemma_seed_within(qa, a, qb, b, p, np, kb);
    assert forall|x: Index| qb.to_set().contains(x) implies qa.to_set().contains(x) by {
        let k = choose|k: int| 0 <= k < qb.len() && qb[k] == x;
        lemma_region_within(qa, a, qb, b, p, np, k);
    }
    assert forall|x: Index| qa.to_set().contains(x) implies qb.to_set().contains(x) by {
        let k = choose|k: int| 0 <= k < qa.len() && qa[k] == x;
        lemma_region_within(qb, b, qa, a, p, np, k);
    }
    assert(qa.to_set() =~= qb.to_set());
}

/// Two filled regions for one predicate that share a position hold the same positions.
pub proof fn lemma_sharing_regions_equal(qa: Seq<Index>, a: Index, qb: Seq<Index>, b: Index, p: spec_fn(Index) -> bool, np: spec_fn(Index) -> bool, x: Index)
    requires
        is_filled_region(qa, a, p, np),
        is_filled_region(qb, b, p, np),
        forall|i: Index| !(#[trigger] p(i) && np(i)),
        qa.contains(x),
        qb.contains(x),
    ensures
        qa.to_set() == qb.to_set(),
{
    let k = choose|k: int| 0 <= k < qb.len() && qb[k] == x;
    lemma_seed_within(qb, b, qa, a, p, np, k);
    lemma_regions_equal(qa, a, qb, b, p, np);
}

/// A filled region is the component of every position in it.
pub proof fn lemma_component_of_region(m: PixelMap, t: TilePixel, q: Seq<Index>, seed: Index, x: Index)
    requires
        is_filled_region(q, seed, region(m, t), not_region(m, t)),
        q.contains(x),
    ensures
        component(m, t, x) == q.to_set(),
{
    assert(pred_holding(region(m, t), not_region(m, t), q, x));
    let c = choose|c: Seq<Index>| pred_holding(region(m, t), not_region(m, t), c, x);
    let a = choose|a: Index| is_filled_region(c, a, region(m, t), not_region(m, t));
    lemma_sharing_regions_equal(q, seed, c, a, region(m, t), not_region(m, t), x);
}

/// No position is a part of a region whose pixel does not connect; a position
/// outside every filled region has an empty component.
pub proof fn lemma_component_empty(m: PixelMap, t: TilePixel, x: Index)
    requires
        !spec_connects(m.at_index(x), t),
    ensures
        component(m, t, x) == Set::<Index>::empty(),
{
    if exists|q: Seq<Index>| pred_holding(region(m, t), not_region(m, t), q, x) {
        let q = choose|q: Seq<Index>| pred_holding(region(m, t), not_region(m, t), q, x);
        let a = choose|a: Index| is_filled_region(q, a, region(m, t), not_region(m, t));
        let k = choose|k: int| 0 <= k < q.len() && q[k] == x;
        assert(region(m, t)(q[k]));
    }
}

/// A filled region for observed answers stays one for any answers that extend them.
proof fn lemma_filled_mono(
    q: Seq<Index>,
    seed: Index,
    yes: spec_fn(Index) -> bool,
    no: spec_fn(Index) -> bool,
    yes2: spec_fn(Index) -> bool,
    no2: spec_fn(Index) -> bool,
)
    requires
        is_filled_region(q, seed, yes, no),
        forall|i: Index| #[trigger] yes(i) ==> yes2(i),
        forall|i: Index| #[trigger] no(i) ==> no2(i),
    ensures
        is_filled_region(q, seed, yes2, no2),
{
    assert forall|k: int| 0 <= k < q.len() implies #[trigger] yes2(q[k]) by {
        assert(yes(q[k]));
    }
    assert forall|k: int, n: Index| 0 <= k < q.len() && #[trigger] adjacent(q[k], n) implies q.contains(n)
        || no2(n) by {
        if !q.contains(n) {
            assert(no(n));
        }
    }
}

/// The component of `seed` for pixels connecting to `t`, seed first.
pub fn component_of(map: &PixelMap, seed: Index, t: TilePixel) -> (r: Vec<Index>)
    requires
        map.wf(),
        t != TilePixel::Nothing,
    ensures
        r@.len() == 0 <==> !spec_connects(map.at_index(seed), t),
        r@.len() > 0 ==> is_filled_region(r@, seed, region(*map, t), not_region(*map, t)),
        r@.to_set() == component(*map, t, seed),
        forall|k: int| 0 <= k < r@.len() ==> component(*map, t, #[trigger] r@[k]) == r@.to_set(),
{
    let inside = |i: Index| -> (b: bool)
        requires
            map.wf(),
        ensures
            b == spec_connects(map.at_index(i), t),
        { map.get_index(i).connects(&t) };
    proof {
        assert forall|i: Index| #[trigger] inside.ensures((i,), true) implies strictly_inside(i) by {
            assert(spec_connects(map.at_index(i), t));
            crate::tile_pixel::lemma_nothing_never_connects(t);
            lemma_nonempty_in_range(*map, i.y as int, i.x as int);
        }
    }
    let r = flood_fill(seed, inside);
    proof {
        if r@.len() == 0 {
            assert(inside.ensures((seed,), false));
            assert(!spec_connects(map.at_index(seed), t));
            lemma_component_empty(*map, t, seed);
            assert(r@.to_set() =~= Set::<Index>::empty());
        } else {
            lemma_filled_mono(
                r@,
                seed,
                |i: Index| inside.ensures((i,), true),
                |i: Index| inside.ensures((i,), false),
                region(*map, t),
                not_region(*map, t),
            );
            assert(region(*map, t)(r@[0]));
            lemma_component_of_region(*map, t, r@, seed, seed);
            assert forall|k: int| 0 <= k < r@.len() implies component(*map, t, #[trigger] r@[k]) == r@.to_set() by {
                lemma_component_of_region(*map, t, r@, seed, r@[k]);
            }
        }
    }
    r
}

/// No pixel next to the region is empty: the structure is closed.
pub open spec fn no_empty_neighbour(m: PixelMap, s: Set<Index>) -> bool {
    forall|i: Index, n: Index| s.contains(i) && #[trigger] adjacent(i, n) ==> m.at_index(n) != TilePixel::Nothing
}

spec fn closed_upto(m: PixelMap, q: Seq<Index>, k: int) -> bool {
    forall|j: int, n: Index| 0 <= j < k && #[trigger] adjacent(q[j], n) ==> m.at_index(n) != TilePixel::Nothing
}

/// Whether no pixel next to the region is empty.
pub fn is_closed(map: &PixelMap, comp: &Vec<Index>) -> (r: bool)
    requires
        map.wf(),
        forall|k: int| 0 <= k < comp@.len() ==> strictly_inside(#[trigger] comp@[k]),
    ensures
        r == no_empty_neighbour(*map, comp@.to_set()),
{
    let mut k: usize = 0;
    while k < comp.len()
        invariant
            map.wf(),
            forall|k: int| 0 <= k < comp@.len() ==> strictly_inside(#[trigger] comp@[k]),
            k <= comp@.len(),
            closed_upto(*map, comp@, k as int),
        decreases comp@.len() - k,
    {
        let c = comp[k];
        proof {
            assert(strictly_inside(comp@[k as int]));
        }
        let ns = [
            Index { x: c.x + 1, y: c.y },
            Index { x: c.x, y: c.y + 1 },
            Index { x: c.x - 1, y: c.y },
            Index { x: c.x, y: c.y - 1 },
        ];
        let mut t: usize = 0;
        while t < 4
            invariant
                map.wf(),
                t <= 4,
                k < comp@.len(),
                c == comp@[k as int],
                ns@.len() == 4,
                forall|q: int| 0 <= q < 4 ==> adjacent(c, #[trigger] ns@[q]),
                forall|q: int| 0 <= q < t ==> map.at_index(#[trigger] ns@[q]) != TilePixel::Nothing,
            decreases 4 - t,
        {
            if map.get_index(ns[t]) == TilePixel::Nothing {
                proof {
                    assert(adjacent(comp@[k as int], ns@[t as int]));
                    assert(comp@.to_set().contains(comp@[k as int]));
                }
                return false;
            }
            t += 1;
        }
        proof {
            assert forall|j: int, n: Index| 0 <= j < k + 1 && #[trigger] adjacent(comp@[j], n) implies map.at_index(n)
                != TilePixel::Nothing by {
                if j == k {
                    assert(n == ns@[0] || n == ns@[1] || n == ns@[2] || n == ns@[3]);
                }
            }
        }
        k += 1;
    }
    proof {
        assert forall|i: Index, n: Index| comp@.to_set().contains(i) && #[trigger] adjacent(i, n) implies map.at_index(n)
            != TilePixel::Nothing by {
            let j = choose|j: int| 0 <= j < comp@.len() && comp@[j] == i;
            assert(adjacent(comp@[j], n));
        }
    }
    true
}

/// The followers standing in region `s`, in board order.
pub open spec fn followers_within(fs: Seq<(Index, PlayerId)>, s: Set<Index>) -> Seq<(Index, PlayerId)> {
    fs.filter(|e: (Index, PlayerId)| s.contains(e.0))
}

/// How many of `fs` belong to player `p`.
pub open spec fn count_of(fs: Seq<(Index, PlayerId)>, p: PlayerId) -> nat {
    fs.filter(owned_by(p)).len()
}

/// The followers of player `p`.
pub open spec fn owned_by(p: PlayerId) -> spec_fn((Index, PlayerId)) -> bool {
    |e: (Index, PlayerId)| e.1 == p
}

/// The opposite test.
pub open spec fn negated(q: spec_fn((Index, PlayerId)) -> bool) -> spec_fn((Index, PlayerId)) -> bool {
    |e: (Index, PlayerId)| !q(e)
}

/// `list` gives, once per player, each player's positive follower count in `fs`.
pub open spec fn counts_match(list: Seq<(PlayerId, u32)>, fs: Seq<(Index, PlayerId)>) -> bool {
    &&& forall|a: int, b: int| 0 <= a < b < list.len() ==> #[trigger] list[a].0 != #[trigger] list[b].0
    &&& forall|a: int| 0 <= a < list.len() ==> #[trigger] list[a].1 == count_of(fs, list[a].0) && list[a].1 > 0
    &&& forall|p: PlayerId| count_of(fs, p) > 0 ==> exists|a: int| 0 <= a < list.len() && #[trigger] list[a].0 == p
}

fn find_player(numbers: &Vec<(PlayerId, u32)>, p: PlayerId) -> (r: Option<usize>)
    ensures
        r matches Some(a) ==> a < numbers@.len() && numbers@[a as int].0 == p,
        r is None ==> forall|b: int| 0 <= b < numbers@.len() ==> #[trigger] numbers@[b].0 != p,
{
    let mut a: usize = 0;
    while a < numbers.len()
        invariant
            a <= numbers@.len(),
            forall|b: int| 0 <= b < a ==> #[trigger] numbers@[b].0 != p,
        decreases numbers@.len() - a,
    {
        if numbers[a].0 == p {
            return Some(a);
        }
        a += 1;
    }
    None
}

/// The followers standing in `comp`: each player's count, and their positions in board order.
pub fn followers_in(fs: &Vec<(Index, PlayerId)>, comp: &Vec<Index>) -> (r: (Vec<(PlayerId, u32)>, Vec<Index>))
    requires
        fs@.len() <= u32::MAX,
    ensures
        counts_match(r.0@, followers_within(fs@, comp@.to_set())),
        r.1@ == followers_within(fs@, comp@.to_set()).map_values(|e: (Index, PlayerId)| e.0),
{
    let ghost s = comp@.to_set();
    let ghost sel = |e: (Index, PlayerId)| s.contains(e.0);
    let mut numbers: Vec<(PlayerId, u32)> = Vec::new();
    let mut idxs: Vec<Index> = Vec::new();
    let mut i: usize = 0;
    while i < fs.len()
        invariant
            fs@.len() <= u32::MAX,
            s == comp@.to_set(),
            sel == (|e: (Index, PlayerId)| s.contains(e.0)),
            i <= fs@.len(),
            counts_match(numbers@, fs@.take(i as int).filter(sel)),
            idxs@ == fs@.take(i as int).filter(sel).map_values(|e: (Index, PlayerId)| e.0),
            fs@.take(i as int).filter(sel).len() <= i,
        decreases fs@.len() - i,
    {
        let e = fs[i];
        let ghost prev = fs@.take(i as int).filter(sel);
        proof {
            assert(fs@.take(i as int + 1) == fs@.take(i as int).push(e));
            fs@.take(i as int).lemma_filter_push(e, sel);
        }
        if contains_index(comp, e.0) {
            proof {
                assert(sel(e));
                assert(fs@.take(i as int + 1).filter(sel) == prev.push(e));
                prev.lemma_filter_push(e, owned_by(e.1));
                assert forall|p: PlayerId| p != e.1 implies count_of(prev.push(e), p) == count_of(prev, p) by {
                    prev.lemma_filter_push(e, owned_by(p));
                }
            }
            idxs.push(e.0);
            let ghost old_numbers = numbers@;
            let pos = find_player(&numbers, e.1);
            if let Some(a) = pos {
                let c = numbers[a].1;
                proof {
                    assert(c == count_of(prev, e.1));
                    assert(count_of(prev, e.1) <= prev.len()) by {
                        prev.lemma_filter_len(owned_by(e.1));
                    }
                }
                numbers.set(a, (e.1, c + 1));
                proof {
                    let np = fs@.take(i as int + 1).filter(sel);
                    assert forall|p: PlayerId| count_of(np, p) > 0 implies exists|b: int|
                        0 <= b < numbers@.len() && #[trigger] numbers@[b].0 == p by {
                        if p == e.1 {
                            assert(numbers@[a as int].0 == p);
                        } else {
                            assert(count_of(prev, p) > 0);
                            let b = choose|b: int| 0 <= b < old_numbers.len() && #[trigger] old_numbers[b].0 == p;
                            assert(numbers@[b].0 == p);
                        }
                    }
                }
            } else {
                numbers.push((e.1, 1));
                proof {
                    assert(count_of(prev, e.1) == 0);
                    let np = fs@.take(i as int + 1).filter(sel);
                    assert forall|p: PlayerId| count_of(np, p) > 0 implies exists|b: int|
                        0 <= b < numbers@.len() && #[trigger] numbers@[b].0 == p by {
                        if p == e.1 {
                            assert(numbers@[numbers@.len() - 1].0 == p);
                        } else {
                            assert(count_of(prev, p) > 0);
                            let b = choose|b: int| 0 <= b < old_numbers.len() && #[trigger] old_numbers[b].0 == p;
                            assert(numbers@[b].0 == p);
                        }
                    }
                }
            }
            proof {
                let np = fs@.take(i as int + 1).filter(sel);
                assert(np == prev.push(e));
                assert(idxs@ =~= np.map_values(|x: (Index, PlayerId)| x.0));
            }
        } else {
            proof {
                assert(!sel(e));
                assert(fs@.take(i as int + 1).filter(sel) == prev);
            }
        }
        i += 1;
    }
    proof {
        assert(fs@.take(fs@.len() as int) == fs@);
    }
    (numbers, idxs)
}

/// What a pixel contributes to a structure's score: the pixel and the place it lies in.
pub open spec fn scoring_key(m: PixelMap, i: Index) -> (TilePixel, Place) {
    (m.at_index(i), spec_index_place(i))
}

/// The points one (pixel, place) pair is worth: roads and cities by their
/// pixel value, a cloister one point for its place and one per neighbouring tile.
pub open spec fn key_value(m: PixelMap, key: (TilePixel, Place), in_game: bool) -> int {
    match key.0 {
        TilePixel::Road | TilePixel::City | TilePixel::PennantCity => spec_score(key.0, in_game) as int,
        TilePixel::Cloister => spec_neighbour_count(m, key.1) + 1,
        _ => 0,
    }
}

pub open spec fn add_key_value(m: PixelMap, in_game: bool) -> spec_fn(int, (TilePixel, Place)) -> int {
    |acc: int, key: (TilePixel, Place)| acc + key_value(m, key, in_game)
}

/// The distinct (pixel, place) pairs of the positions in `s`.
pub open spec fn structure_keys(m: PixelMap, s: Set<Index>) -> Set<(TilePixel, Place)> {
    s.map(|i: Index| scoring_key(m, i))
}

/// The score of the positions `s`: each distinct (pixel, place) pair counts once.
pub open spec fn structure_score(m: PixelMap, s: Set<Index>, in_game: bool) -> int {
    structure_keys(m, s).fold(0, add_key_value(m, in_game))
}

proof fn lemma_keys_insert(m: PixelMap, s: Set<Index>, i: Index)
    ensures
        structure_keys(m, s.insert(i)) == structure_keys(m, s).insert(scoring_key(m, i)),
{
    let a = structure_keys(m, s.insert(i));
    let b = structure_keys(m, s).insert(scoring_key(m, i));
    assert forall|k: (TilePixel, Place)| a.contains(k) implies b.contains(k) by {
        let x = choose|x: Index| s.insert(i).contains(x) && k == scoring_key(m, x);
        if x != i {
            assert(s.contains(x));
        }
    }
    assert forall|k: (TilePixel, Place)| b.contains(k) implies a.contains(k) by {
        if k != scoring_key(m, i) {
            let x = choose|x: Index| s.contains(x) && k == scoring_key(m, x);
            assert(s.insert(i).contains(x));
        } else {
            assert(s.insert(i).contains(i));
        }
    }
    assert(a =~= b);
}

fn contains_key(v: &Vec<(TilePixel, Place)>, key: (TilePixel, Place)) -> (r: bool)
    ensures
        r == v@.contains(key),
{
    let mut k: usize = 0;
    while k < v.len()
        invariant
            k <= v@.len(),
            forall|j: int| 0 <= j < k ==> v@[j] != key,
        decreases v@.len() - k,
    {
        let e = v[k];
        if e.0 == key.0 && e.1.x == key.1.x && e.1.y == key.1.y {
            proof {
                assert(v@[k as int] == key);
            }
            return true;
        }
        k += 1;
    }
    false
}

/// The points of the structure made of the positions `tiles`.
#[verifier::rlimit(40)]
pub fn get_structure_score(map: &PixelMap, tiles: &Vec<Index>, in_game: bool) -> (r: u32)
    requires
        map.wf(),
        tiles@.no_duplicates(),
        forall|k: int| 0 <= k < tiles@.len() ==> map.at_index(#[trigger] tiles@[k]) != TilePixel::Nothing,
    ensures
        r == structure_score(*map, tiles@.to_set(), in_game),
{
    let ghost f = add_key_value(*map, in_game);
    proof {
        lemma_distinct_nonempty_bounded(*map, tiles@);
        assert(vstd::set::fold::is_fun_commutative(f));
        vstd::set::fold::lemma_fold_empty(0int, f);
        assert(structure_keys(*map, tiles@.take(0).to_set()) =~= Set::empty());
    }
    let mut seen: Vec<(TilePixel, Place)> = Vec::new();
    proof {
        assert(seen@.to_set() =~= Set::empty());
    }
    let mut acc: u32 = 0;
    let mut k: usize = 0;
    while k < tiles.len()
        invariant
            map.wf(),
            f == add_key_value(*map, in_game),
            vstd::set::fold::is_fun_commutative(f),
            forall|j: int| 0 <= j < tiles@.len() ==> map.at_index(#[trigger] tiles@[j]) != TilePixel::Nothing,
            tiles@.len() <= MAX_SIDE * MAX_SIDE,
            k <= tiles@.len(),
            seen@.no_duplicates(),
            seen@.len() <= k,
            seen@.to_set() == structure_keys(*map, tiles@.take(k as int).to_set()),
            acc == seen@.to_set().fold(0, f),
            acc <= 9 * seen@.len(),
        decreases tiles@.len() - k,
    {
        let idx = tiles[k];
        let pixel = map.get_index(idx);
        let place = index_place(&idx);
        let key = (pixel, place);
        let ghost before = seen@.to_set();
        proof {
            assert(tiles@.take(k as int + 1) == tiles@.take(k as int).push(idx));
            tiles@.take(k as int).lemma_push_to_set_commute(idx);
            lemma_keys_insert(*map, tiles@.take(k as int).to_set(), idx);
            assert(key == scoring_key(*map, idx));
        }
        if !contains_key(&seen, key) {
            let value: u32 = match pixel {
                TilePixel::Road | TilePixel::City | TilePixel::PennantCity => pixel.score(in_game),
                TilePixel::Cloister => {
                    proof {
                        lemma_nonempty_in_range(*map, idx.y as int, idx.x as int);
                    }
                    count_neighbours(map, &place) + 1
                },
                _ => 0,
            };
            proof {
                assert(value == key_value(*map, key, in_game));
                assert(!before.contains(key));
                assert(seen@.push(key).to_set() == before.insert(key) && before.insert(key).fold(0, f) == acc + value)
                    by {
                    vstd::set::fold::lemma_fold_insert(before, 0int, f, key);
                    seen@.lemma_push_to_set_commute(key);
                }
            }
            acc = acc + value;
            seen.push(key);
        } else {
            proof {
                assert(before.insert(key) =~= before);
            }
        }
        k += 1;
    }
    proof {
        assert(tiles@.take(tiles@.len() as int) == tiles@);
    }
    acc
}

/// City and pennant pixels make up cities.
pub open spec fn is_city_pixel(p: TilePixel) -> bool {
    p == TilePixel::City || p == TilePixel::PennantCity
}

/// The cities touching the region `f` along an edge.
pub open spec fn bordering_cities(m: PixelMap, f: Set<Index>) -> Set<Set<Index>> {
    Set::new(
        |c: Set<Index>|
            exists|i: Index, n: Index|
                #![trigger f.contains(i), adjacent(i, n)]
                f.contains(i) && adjacent(i, n) && is_city_pixel(m.at_index(n)) && c == component(
                    m,
                    TilePixel::City,
                    n,
                ),
    )
}

pub open spec fn city_closed(m: PixelMap) -> spec_fn(Set<Index>) -> bool {
    |c: Set<Index>| no_empty_neighbour(m, c)
}

/// The points of the field holding `seed`: three for each completed city it touches.
pub open spec fn field_score(m: PixelMap, seed: Index) -> int {
    3 * (bordering_cities(m, component(m, TilePixel::Field, seed)).filter(city_closed(m)).len() as int)
}

/// Every pair of a field position before `k` and a neighbouring city pixel is listed in `cands`.
spec fn cands_cover(m: PixelMap, field: Seq<Index>, k: int, cands: Seq<Index>) -> bool {
    forall|j: int, n: Index|
        0 <= j < k && #[trigger] adjacent(field[j], n) && is_city_pixel(m.at_index(n)) ==> cands.contains(n)
}

spec fn cands_sound(m: PixelMap, field: Seq<Index>, cands: Seq<Index>) -> bool {
    forall|c: int|
        0 <= c < cands.len() ==> is_city_pixel(m.at_index(#[trigger] cands[c])) && exists|j: int|
            0 <= j < field.len() && #[trigger] adjacent(field[j], cands[c])
}

/// The components of the first `j` candidates.
spec fn components_upto(m: PixelMap, cands: Seq<Index>, j: int) -> Set<Set<Index>> {
    Set::new(|c: Set<Index>| exists|a: int| 0 <= a < j && c == component(m, TilePixel::City, #[trigger] cands[a]))
}

/// The points of the field holding `seed`: three for each completed city it touches.
pub fn get_field_score(map: &PixelMap, seed: Index) -> (r: u32)
    requires
        map.wf(),
    ensures
        r == field_score(*map, seed),
{
    let field = component_of(map, seed, TilePixel::Field);
    let ghost fs = field@.to_set();
    proof {
        assert forall|k: int| 0 <= k < field@.len() implies map.at_index(#[trigger] field@[k]) != TilePixel::Nothing by {
            assert(region(*map, TilePixel::Field)(field@[k]));
        }
        if field@.len() > 0 {
            lemma_distinct_nonempty_bounded(*map, field@);
        }
    }
    let mut cands: Vec<Index> = Vec::new();
    let mut k: usize = 0;
    while k < field.len()
        invariant
            map.wf(),
            forall|k: int| 0 <= k < field@.len() ==> map.at_index(#[trigger] field@[k]) != TilePixel::Nothing,
            field@.len() <= MAX_SIDE * MAX_SIDE,
            k <= field@.len(),
            cands@.len() <= 4 * k,
            cands_cover(*map, field@, k as int, cands@),
            cands_sound(*map, field@, cands@),
        decreases field@.len() - k,
    {
        let c = field[k];
        proof {
            lemma_nonempty_in_range(*map, c.y as int, c.x as int);
        }
        let ns = [
            Index { x: c.x + 1, y: c.y },
            Index { x: c.x, y: c.y + 1 },
            Index { x: c.x - 1, y: c.y },
            Index { x: c.x, y: c.y - 1 },
        ];
        let ghost start = cands@;
        let mut t: usize = 0;
        while t < 4
            invariant
                map.wf(),
                t <= 4,
                k < field@.len(),
                c == field@[k as int],
                ns@.len() == 4,
                forall|q: int| 0 <= q < 4 ==> adjacent(c, #[trigger] ns@[q]),
                cands@.len() <= start.len() + t,
                forall|x: Index| start.contains(x) ==> cands@.contains(x),
                forall|q: int| 0 <= q < t && is_city_pixel(map.at_index(#[trigger] ns@[q])) ==> cands@.contains(ns@[q]),
                cands_sound(*map, field@, cands@),
            decreases 4 - t,
        {
            let n = ns[t];
            let p = map.get_index(n);
            if p == TilePixel::City || p == TilePixel::PennantCity {
                proof {
                    assert(adjacent(field@[k as int], n));
                }
                let ghost prevc = cands@;
                cands.push(n);
                proof {
                    assert(cands@.last() == n);
                    assert forall|x: Index| start.contains(x) implies cands@.contains(x) by {
                        assert(prevc.contains(x));
                        let w = choose|w: int| 0 <= w < prevc.len() && prevc[w] == x;
                        assert(cands@[w] == x);
                    }
                    assert forall|q: int| 0 <= q < t + 1 && is_city_pixel(map.at_index(#[trigger] ns@[q])) implies cands@.contains(ns@[q]) by {
                        if q < t {
                            assert(prevc.contains(ns@[q]));
                            let w = choose|w: int| 0 <= w < prevc.len() && prevc[w] == ns@[q];
                            assert(cands@[w] == ns@[q]);
                        } else {
                            assert(cands@[cands@.len() - 1] == ns@[q]);
                        }
                    }
                }
            }
            t += 1;
        }
        proof {
            assert forall|j: int, n: Index|
                0 <= j < k + 1 && #[trigger] adjacent(field@[j], n) && is_city_pixel(map.at_index(n)) implies cands@.contains(n) by {
                if j == k {
                    assert(n == ns@[0] || n == ns@[1] || n == ns@[2] || n == ns@[3]);
                } else {
                    assert(start.contains(n));
                }
            }
        }
        k += 1;
    }
    let ghost mut processed: Set<Set<Index>> = Set::empty();
    let mut done: Vec<Index> = Vec::new();
    let mut score: u32 = 0;
    let mut j: usize = 0;
    proof {
        assert(processed =~= components_upto(*map, cands@, 0));
        processed.lemma_len_filter(city_closed(*map));
        assert(processed.filter(city_closed(*map)) =~= Set::empty());
    }
    while j < cands.len()
        invariant
            map.wf(),
            cands@.len() <= 4 * (MAX_SIDE * MAX_SIDE),
            cands_sound(*map, field@, cands@),
            j <= cands@.len(),
            processed == components_upto(*map, cands@, j as int),
            processed.finite(),
            processed.len() <= j,
            forall|x: Index| done@.contains(x) <==> exists|c: Set<Index>| #[trigger] processed.contains(c) && c.contains(x),
            forall|c: Set<Index>, x: Index| #![trigger processed.contains(c), c.contains(x)] processed.contains(c) && c.contains(x) ==> component(*map, TilePixel::City, x) == c,
            score == 3 * processed.filter(city_closed(*map)).len(),
            processed.filter(city_closed(*map)).len() <= processed.len(),
        decreases cands@.len() - j,
    {
        let c = cands[j];
        proof {
            assert(is_city_pixel(map.at_index(cands@[j as int])));
        }
        let ghost before = processed;
        if !contains_index(&done, c) {
            let comp = component_of(map, c, TilePixel::City);
            let ghost cs = comp@.to_set();
            proof {
                assert(spec_connects(map.at_index(c), TilePixel::City));
                assert(comp@[0] == c);
                assert(cs.contains(c));
                assert(!before.contains(cs)) by {
                    if before.contains(cs) {
                        assert(done@.contains(c));
                    }
                }
                assert forall|k: int| 0 <= k < comp@.len() implies strictly_inside(#[trigger] comp@[k]) by {
                    assert(region(*map, TilePixel::City)(comp@[k]));
                    crate::tile_pixel::lemma_nothing_never_connects(TilePixel::City);
                    lemma_nonempty_in_range(*map, comp@[k].y as int, comp@[k].x as int);
                }
            }
            let closed = is_closed(map, &comp);
            if closed {
                score = score + 3;
            }
            let mut q: usize = 0;
            let ghost done0 = done@;
            while q < comp.len()
                invariant
                    q <= comp@.len(),
                    done@ == done0 + comp@.take(q as int),
                decreases comp@.len() - q,
            {
                done.push(comp[q]);
                proof {
                    assert(comp@.take(q as int + 1) == comp@.take(q as int).push(comp@[q as int]));
                }
                q += 1;
            }
            proof {
                assert(comp@.take(comp@.len() as int) == comp@);
                processed = processed.insert(cs);
                assert(processed =~= components_upto(*map, cands@, j as int + 1)) by {
                    assert forall|x: Set<Index>| components_upto(*map, cands@, j as int + 1).contains(x) implies processed.contains(x) by {
                        let a = choose|a: int| 0 <= a < j + 1 && x == component(*map, TilePixel::City, #[trigger] cands@[a]);
                        if a < j {
                            assert(before.contains(x));
                        }
                    }
                    assert forall|x: Set<Index>| processed.contains(x) implies components_upto(*map, cands@, j as int + 1).contains(x) by {
                        if x != cs {
                            let a = choose|a: int| 0 <= a < j && x == component(*map, TilePixel::City, #[trigger] cands@[a]);
                            assert(0 <= a < j + 1);
                        } else {
                            assert(x == component(*map, TilePixel::City, cands@[j as int]));
                        }
                    }
                }
                assert forall|x: Index| done@.contains(x) <==> exists|c: Set<Index>| #[trigger] processed.contains(c) && c.contains(x) by {
                    if done@.contains(x) {
                        let w = choose|w: int| 0 <= w < done@.len() && done@[w] == x;
                        if w < done0.len() {
                            assert(done0.contains(x));
                            let c2 = choose|c2: Set<Index>| #[trigger] before.contains(c2) && c2.contains(x);
                            assert(processed.contains(c2));
                        } else {
                            assert(comp@[w - done0.len()] == x);
                            assert(cs.contains(x));
                            assert(processed.contains(cs));
                        }
                    }
                    if exists|c: Set<Index>| #[trigger] processed.contains(c) && c.contains(x) {
                        let c2 = choose|c2: Set<Index>| #[trigger] processed.contains(c2) && c2.contains(x);
                        if c2 == cs {
                            let w = choose|w: int| 0 <= w < comp@.len() && comp@[w] == x;
                            assert(done@[done0.len() + w] == x);
                        } else {
                            assert(before.contains(c2));
                            assert(done0.contains(x));
                            let w = choose|w: int| 0 <= w < done0.len() && done0[w] == x;
                            assert(done@[w] == x);
                        }
                    }
                }
                assert forall|c2: Set<Index>, x: Index| #![trigger processed.contains(c2), c2.contains(x)] processed.contains(c2) && c2.contains(x) implies component(*map, TilePixel::City, x) == c2 by {
                    if c2 == cs {
                        let w = choose|w: int| 0 <= w < comp@.len() && comp@[w] == x;
                        assert(component(*map, TilePixel::City, comp@[w]) == cs);
                    } else {
                        assert(before.contains(c2));
                    }
                }
                let f = city_closed(*map);
                before.lemma_len_filter(f);
                if closed {
                    assert(processed.filter(f) =~= before.filter(f).insert(cs));
                    assert(!before.filter(f).contains(cs));
                } else {
                    assert(processed.filter(f) =~= before.filter(f));
                }
                processed.lemma_len_filter(f);
            }
        } else {
            proof {
                let c2 = choose|c2: Set<Index>| #[trigger] processed.contains(c2) && c2.contains(c);
                assert(component(*map, TilePixel::City, c) == c2);
                assert(processed =~= components_upto(*map, cands@, j as int + 1)) by {
                    assert forall|x: Set<Index>| components_upto(*map, cands@, j as int + 1).contains(x) implies processed.contains(x) by {
                        let a = choose|a: int| 0 <= a < j + 1 && x == component(*map, TilePixel::City, #[trigger] cands@[a]);
                        if a < j {
                            assert(before.contains(x));
                        }
                    }
                    assert forall|x: Set<Index>| processed.contains(x) implies components_upto(*map, cands@, j as int + 1).contains(x) by {
                        let a = choose|a: int| 0 <= a < j && x == component(*map, TilePixel::City, #[trigger] cands@[a]);
                        assert(0 <= a < j + 1);
                    }
                }
            }
        }
        j += 1;
    }
    proof {
        let m = *map;
        let bc = bordering_cities(m, component(m, TilePixel::Field, seed));
        assert(field@.to_set() == component(m, TilePixel::Field, seed));
        assert forall|x: Set<Index>| bc.contains(x) implies processed.contains(x) by {
            let (i, n) = choose|i: Index, n: Index|
                #![trigger fs.contains(i), adjacent(i, n)]
                fs.contains(i) && adjacent(i, n) && is_city_pixel(m.at_index(n)) && x == component(m, TilePixel::City, n);
            let jj = choose|jj: int| 0 <= jj < field@.len() && field@[jj] == i;
            assert(adjacent(field@[jj], n));
            assert(cands@.contains(n));
            let a = choose|a: int| 0 <= a < cands@.len() && cands@[a] == n;
            assert(x == component(m, TilePixel::City, cands@[a]));
        }
        assert forall|x: Set<Index>| processed.contains(x) implies bc.contains(x) by {
            let a = choose|a: int| 0 <= a < cands@.len() && x == component(m, TilePixel::City, #[trigger] cands@[a]);
            let n = cands@[a];
            assert(is_city_pixel(m.at_index(n)));
            let jj = choose|jj: int| 0 <= jj < field@.len() && #[trigger] adjacent(field@[jj], cands@[a]);
            let i = field@[jj];
            assert(fs.contains(i));
            assert(adjacent(i, n));
        }
        assert(processed =~= bc);
    }
    score
}

/// A structure touched by a tile: whether it is completed, what it is worth,
/// the followers on it, and the pixel it was found from.
#[derive(Debug)]
pub struct Structure {
    pub completed: bool,
    pub points: u32,
    /// Each player with followers on the structure, and how many.
    pub followers_number: Vec<(PlayerId, u32)>,
    /// The pixels of the structure that hold a follower.
    pub followers_idx: Vec<Index>,
    pub seed: Index,
}

/// A position in the component of a position has that same component.
pub proof fn lemma_component_member(m: PixelMap, t: TilePixel, y: Index, x: Index)
    requires
        component(m, t, y).contains(x),
    ensures
        component(m, t, x) == component(m, t, y),
{
    let q = choose|q: Seq<Index>| pred_holding(region(m, t), not_region(m, t), q, y);
    let a = choose|a: Index| is_filled_region(q, a, region(m, t), not_region(m, t));
    lemma_component_of_region(m, t, q, a, x);
}

/// Pixels that connect to each other grow the same components.
pub proof fn lemma_component_kind(m: PixelMap, t1: TilePixel, t2: TilePixel, x: Index)
    requires
        spec_connects(t2, t1),
    ensures
        component(m, t1, x) == component(m, t2, x),
{
    assert(region(m, t1) =~= region(m, t2));
    assert(not_region(m, t1) =~= not_region(m, t2));
}

/// The `k`-th pixel of the tile at `place`, column by column.
pub open spec fn tile_pixel_at(place: Place, k: int) -> Index {
    pixel_of(place, k / 5, k % 5)
}

/// The component of the pixel at `i`, grown for that pixel's kind.
pub open spec fn own_component(m: PixelMap, i: Index) -> Set<Index> {
    component(m, m.at_index(i), i)
}

/// Position `x` lies in the structure of one of the first `k` scoring pixels of the tile.
pub open spec fn covered_before(m: PixelMap, st: GameSettings, place: Place, k: int, x: Index) -> bool {
    exists|j: int|
        #![trigger tile_pixel_at(place, j)]
        0 <= j < k && spec_is_scoring(m.at_index(tile_pixel_at(place, j)), st.farmers_enabled)
            && own_component(m, tile_pixel_at(place, j)).contains(x)
}

/// The `k`-th pixel of the tile starts a structure: it scores and lies in no
/// structure of an earlier pixel.
pub open spec fn is_seed(m: PixelMap, st: GameSettings, place: Place, k: int) -> bool {
    spec_is_scoring(m.at_index(tile_pixel_at(place, k)), st.farmers_enabled) && !covered_before(
        m,
        st,
        place,
        k,
        tile_pixel_at(place, k),
    )
}

/// The seeds among the first `k` pixels of the tile.
pub open spec fn tile_seeds(m: PixelMap, st: GameSettings, place: Place, k: int) -> Seq<Index>
    decreases k,
{
    if k <= 0 {
        Seq::empty()
    } else if is_seed(m, st, place, k - 1) {
        tile_seeds(m, st, place, k - 1).push(tile_pixel_at(place, k - 1))
    } else {
        tile_seeds(m, st, place, k - 1)
    }
}

/// `s` describes the structure grown from `seed`.
pub open spec fn structure_for(m: PixelMap, fs: Seq<(Index, PlayerId)>, st: GameSettings, in_game: bool, seed: Index, s: Structure) -> bool {
    let t = m.at_index(seed);
    let c = component(m, t, seed);
    &&& s.seed == seed
    &&& counts_match(s.followers_number@, followers_within(fs, c))
    &&& s.followers_idx@ == followers_within(fs, c).map_values(|e: (Index, PlayerId)| e.0)
    &&& s.points == (if t == TilePixel::Field {
        if st.calculate_move_score_field { field_score(m, seed) } else { 0 }
    } else {
        structure_score(m, c, in_game)
    })
    &&& s.completed == (if t == TilePixel::Cloister { s.points == 9 } else { no_empty_neighbour(m, c) })
}

/// The centre pixel of the place next to `place` in direction `d`.
pub open spec fn cloister_index(place: Place, d: OrdinalDirection) -> Index {
    let p = spec_place_index(spec_neighbour(place, d));
    Index { x: (p.x + 2) as isize, y: (p.y + 2) as isize }
}

/// A follower stands on `idx`.
pub open spec fn follower_on(fs: Seq<(Index, PlayerId)>, idx: Index) -> bool {
    exists|k: int| 0 <= k < fs.len() && (#[trigger] fs[k]).0 == idx
}

/// The owner of the follower standing on `idx`.
pub open spec fn owner_of(fs: Seq<(Index, PlayerId)>, idx: Index) -> PlayerId {
    fs[choose|k: int| 0 <= k < fs.len() && (#[trigger] fs[k]).0 == idx].1
}

/// The neighbouring place in direction `d` holds a cloister with a follower,
/// now surrounded on all sides.
pub open spec fn completes_cloister(m: PixelMap, fs: Seq<(Index, PlayerId)>, place: Place, in_game: bool, d: OrdinalDirection) -> bool {
    let ci = cloister_index(place, d);
    &&& m.at_index(ci) == TilePixel::Cloister
    &&& follower_on(fs, ci)
    &&& structure_score(m, set![ci], in_game) == 9
}

/// The completed cloisters among the first `k` neighbouring places, clockwise from north.
pub open spec fn cloister_seeds(m: PixelMap, fs: Seq<(Index, PlayerId)>, place: Place, in_game: bool, k: int) -> Seq<Index>
    decreases k,
{
    if k <= 0 {
        Seq::empty()
    } else if completes_cloister(m, fs, place, in_game, ord_dir(k - 1)) {
        cloister_seeds(m, fs, place, in_game, k - 1).push(cloister_index(place, ord_dir(k - 1)))
    } else {
        cloister_seeds(m, fs, place, in_game, k - 1)
    }
}

/// `s` describes the completed cloister at `idx`.
pub open spec fn cloister_structure(fs: Seq<(Index, PlayerId)>, idx: Index, s: Structure) -> bool {
    &&& s.completed
    &&& s.points == 9
    &&& s.seed == idx
    &&& s.followers_idx@ == seq![idx]
    &&& s.followers_number@ == seq![(owner_of(fs, idx), 1u32)]
}

/// `ss` lists the structures touched by the tile at `place`: first those grown
/// from the tile's seeds, in order, then the completed neighbouring cloisters.
pub open spec fn structures_of(
    m: PixelMap,
    fs: Seq<(Index, PlayerId)>,
    st: GameSettings,
    place: Place,
    in_game: bool,
    ss: Seq<Structure>,
) -> bool {
    let ts = tile_seeds(m, st, place, 25);
    let cs = cloister_seeds(m, fs, place, in_game, 8);
    &&& ss.len() == ts.len() + cs.len()
    &&& forall|j: int| 0 <= j < ts.len() ==> structure_for(m, fs, st, in_game, #[trigger] ts[j], ss[j])
    &&& forall|j: int| 0 <= j < cs.len() ==> cloister_structure(fs, #[trigger] cs[j], ss[ts.len() + j])
}

/// The owner of the follower standing on `idx`, if any.
pub fn find_follower(fs: &Vec<(Index, PlayerId)>, idx: Index) -> (r: Option<PlayerId>)
    requires
        distinct_follower_positions(fs@),
    ensures
        r is Some <==> follower_on(fs@, idx),
        r matches Some(p) ==> p == owner_of(fs@, idx),
{
    let mut k: usize = 0;
    while k < fs.len()
        invariant
            distinct_follower_positions(fs@),
            k <= fs@.len(),
            forall|j: int| 0 <= j < k ==> (#[trigger] fs@[j]).0 != idx,
        decreases fs@.len() - k,
    {
        if fs[k].0 == idx {
            proof {
                let c = choose|c: int| 0 <= c < fs@.len() && (#[trigger] fs@[c]).0 == idx;
                if c != k {
                    if c < k {
                        assert(fs@[c].0 != fs@[k as int].0);
                    } else {
                        assert(fs@[k as int].0 != fs@[c].0);
                    }
                }
            }
            return Some(fs[k].1);
        }
        k += 1;
    }
    None
}

/// The structure grown from `seed`, and its pixels.
pub fn structure_from(
    map: &PixelMap,
    fs: &Vec<(Index, PlayerId)>,
    settings: &GameSettings,
    seed: Index,
    in_game: bool,
) -> (r: (Structure, Vec<Index>))
    requires
        map.wf(),
        fs@.len() <= u32::MAX,
        map.at_index(seed) != TilePixel::Nothing,
    ensures
        structure_for(*map, fs@, *settings, in_game, seed, r.0),
        r.1@.to_set() == own_component(*map, seed),
        r.1@.len() > 0,
        own_component(*map, seed).contains(seed),
        forall|k: int| 0 <= k < r.1@.len() ==> own_component(*map, #[trigger] r.1@[k]) == own_component(*map, seed),
{
    let pix = map.get_index(seed);
    let comp = component_of(map, seed, pix);
    proof {
        assert(spec_connects(pix, pix));
        assert(comp@[0] == seed);
        assert(spec_connects(pix, pix));
        assert forall|k: int| 0 <= k < comp@.len() implies strictly_inside(#[trigger] comp@[k])
            && map.at_index(comp@[k]) != TilePixel::Nothing by {
            assert(region(*map, pix)(comp@[k]));
            crate::tile_pixel::lemma_nothing_never_connects(pix);
            lemma_nonempty_in_range(*map, comp@[k].y as int, comp@[k].x as int);
        }
        assert forall|k: int| 0 <= k < comp@.len() implies own_component(*map, #[trigger] comp@[k]) == own_component(*map, seed) by {
            let x = comp@[k];
            assert(region(*map, pix)(x));
            assert(component(*map, pix, x) == comp@.to_set());
            lemma_component_kind(*map, pix, map.at_index(x), x);
        }
    }
    let closed = is_closed(map, &comp);
    let (numbers, idxs) = followers_in(fs, &comp);
    let points: u32 = if pix == TilePixel::Field {
        if settings.calculate_move_score_field {
            get_field_score(map, seed)
        } else {
            0
        }
    } else {
        get_structure_score(map, &comp, in_game)
    };
    let completed = if pix == TilePixel::Cloister {
        points == 9
    } else {
        closed
    };
    (Structure { completed, points, followers_number: numbers, followers_idx: idxs, seed }, comp)
}

/// The structures touched by the tile at `place`: one for each structure that
/// one of its scoring pixels lies in, then each neighbouring cloister with a
/// follower that the tile completes.
pub fn get_structures(
    map: &PixelMap,
    fs: &Vec<(Index, PlayerId)>,
    settings: &GameSettings,
    place: &Place,
    in_game: bool,
) -> (r: Vec<Structure>)
    requires
        map.wf(),
        fs@.len() <= u32::MAX,
        distinct_follower_positions(fs@),
        -0xFFFFF <= place.x <= 0xFFFFF,
        -0xFFFFF <= place.y <= 0xFFFFF,
    ensures
        structures_of(*map, fs@, *settings, *place, in_game, r@),
{
    let upper = place_index(place);
    let mut covered: Vec<Index> = Vec::new();
    let mut structures: Vec<Structure> = Vec::new();
    let mut k: usize = 0;
    while k < 25
        invariant
            map.wf(),
            fs@.len() <= u32::MAX,
            -0xFFFFF <= place.x <= 0xFFFFF,
            -0xFFFFF <= place.y <= 0xFFFFF,
            upper == spec_place_index(*place),
            k <= 25,
            forall|x: Index| covered@.contains(x) <==> covered_before(*map, *settings, *place, k as int, x),
            structures@.len() == tile_seeds(*map, *settings, *place, k as int).len(),
            forall|j: int| 0 <= j < structures@.len() ==>
                structure_for(*map, fs@, *settings, in_game, #[trigger] tile_seeds(*map, *settings, *place, k as int)[j], structures@[j]),
        decreases 25 - k,
    {
        let idx = Index { x: upper.x + (k / 5) as isize, y: upper.y + (k % 5) as isize };
        let ghost kk = k as int;
        proof {
            assert(idx == tile_pixel_at(*place, kk));
        }
        let pix = map.get_index(idx);
        let ghost prev_structures = structures@;
        if is_scoring(pix, settings.farmers_enabled) && !contains_index(&covered, idx) {
            proof {
                assert(pix != TilePixel::Nothing) by {
                    reveal_with_fuel(vstd::seq::Seq::contains, 1);
                    if pix == TilePixel::Nothing {
                        assert(!crate::tile_pixel::spec_scoring_tiles(settings.farmers_enabled).contains(TilePixel::Nothing));
                    }
                }
                assert(is_seed(*map, *settings, *place, kk));
            }
            let (st, comp) = structure_from(map, fs, settings, idx, in_game);
            let ghost cov0 = covered@;
            let mut q: usize = 0;
            while q < comp.len()
                invariant
                    q <= comp@.len(),
                    covered@ == cov0 + comp@.take(q as int),
                decreases comp@.len() - q,
            {
                covered.push(comp[q]);
                proof {
                    assert(comp@.take(q as int + 1) == comp@.take(q as int).push(comp@[q as int]));
                }
                q += 1;
            }
            structures.push(st);
            proof {
                assert(comp@.take(comp@.len() as int) == comp@);
                assert forall|x: Index| covered@.contains(x) <==> covered_before(*map, *settings, *place, kk + 1, x) by {
                    if covered@.contains(x) {
                        let w = choose|w: int| 0 <= w < covered@.len() && covered@[w] == x;
                        if w < cov0.len() {
                            assert(cov0.contains(x));
                            let j = choose|j: int|
                                #![trigger tile_pixel_at(*place, j)]
                                0 <= j < kk && spec_is_scoring(map.at_index(tile_pixel_at(*place, j)), settings.farmers_enabled)
                                    && own_component(*map, tile_pixel_at(*place, j)).contains(x);
                            assert(0 <= j < kk + 1);
                        } else {
                            assert(comp@[w - cov0.len()] == x);
                            assert(own_component(*map, tile_pixel_at(*place, kk)).contains(x));
                        }
                    }
                    if covered_before(*map, *settings, *place, kk + 1, x) {
                        let j = choose|j: int|
                            #![trigger tile_pixel_at(*place, j)]
                            0 <= j < kk + 1 && spec_is_scoring(map.at_index(tile_pixel_at(*place, j)), settings.farmers_enabled)
                                && own_component(*map, tile_pixel_at(*place, j)).contains(x);
                        if j < kk {
                            assert(covered_before(*map, *settings, *place, kk, x));
                            assert(cov0.contains(x));
                            let w = choose|w: int| 0 <= w < cov0.len() && cov0[w] == x;
                            assert(covered@[w] == x);
                        } else {
                            assert(comp@.to_set().contains(x));
                            let w = choose|w: int| 0 <= w < comp@.len() && comp@[w] == x;
                            assert(covered@[cov0.len() + w] == x);
                        }
                    }
                }
                assert(tile_seeds(*map, *settings, *place, kk + 1) == tile_seeds(*map, *settings, *place, kk).push(idx));
                assert forall|j: int| 0 <= j < structures@.len() implies
                    structure_for(*map, fs@, *settings, in_game, #[trigger] tile_seeds(*map, *settings, *place, kk + 1)[j], structures@[j]) by {
                    if j < prev_structures.len() {
                        assert(structures@[j] == prev_structures[j]);
                        assert(tile_seeds(*map, *settings, *place, kk + 1)[j] == tile_seeds(*map, *settings, *place, kk)[j]);
                    }
                }
            }
        } else {
            proof {
                if spec_is_scoring(pix, settings.farmers_enabled) {
                    assert(covered@.contains(idx));
                    assert(covered_before(*map, *settings, *place, kk, idx));
                    let j = choose|j: int|
                        #![trigger tile_pixel_at(*place, j)]
                        0 <= j < kk && spec_is_scoring(map.at_index(tile_pixel_at(*place, j)), settings.farmers_enabled)
                            && own_component(*map, tile_pixel_at(*place, j)).contains(idx);
                    lemma_component_member(*map, map.at_index(tile_pixel_at(*place, j)), tile_pixel_at(*place, j), idx);
                    assert(region(*map, map.at_index(tile_pixel_at(*place, j)))(idx)) by {
                        let y = tile_pixel_at(*place, j);
                        let t = map.at_index(y);
                        let q = choose|q: Seq<Index>| pred_holding(region(*map, t), not_region(*map, t), q, y);
                        let a = choose|a: Index| is_filled_region(q, a, region(*map, t), not_region(*map, t));
                        let w = choose|w: int| 0 <= w < q.len() && q[w] == idx;
                        assert(region(*map, t)(q[w]));
                    }
                    lemma_component_kind(*map, map.at_index(tile_pixel_at(*place, j)), pix, idx);
                }
                assert forall|x: Index| covered@.contains(x) <==> covered_before(*map, *settings, *place, kk + 1, x) by {
                    if covered_before(*map, *settings, *place, kk + 1, x) {
                        let j = choose|j: int|
                            #![trigger tile_pixel_at(*place, j)]
                            0 <= j < kk + 1 && spec_is_scoring(map.at_index(tile_pixel_at(*place, j)), settings.farmers_enabled)
                                && own_component(*map, tile_pixel_at(*place, j)).contains(x);
                        if j == kk {
                            let j2 = choose|j2: int|
                                #![trigger tile_pixel_at(*place, j2)]
                                0 <= j2 < kk && spec_is_scoring(map.at_index(tile_pixel_at(*place, j2)), settings.farmers_enabled)
                                    && own_component(*map, tile_pixel_at(*place, j2)).contains(idx);
                            assert(own_component(*map, tile_pixel_at(*place, j2)).contains(x));
                        }
                        assert(covered_before(*map, *settings, *place, kk, x));
                    }
                    if covered@.contains(x) {
                        assert(covered_before(*map, *settings, *place, kk, x));
                        let j = choose|j: int|
                            #![trigger tile_pixel_at(*place, j)]
                            0 <= j < kk && spec_is_scoring(map.at_index(tile_pixel_at(*place, j)), settings.farmers_enabled)
                                && own_component(*map, tile_pixel_at(*place, j)).contains(x);
                        assert(0 <= j < kk + 1);
                    }
                }
                assert(!is_seed(*map, *settings, *place, kk));
                assert(tile_seeds(*map, *settings, *place, kk + 1) == tile_seeds(*map, *settings, *place, kk));
            }
        }
        k += 1;
    }
    let ghost n_tile = structures@.len();
    let dirs = OrdinalDirection::all();
    let mut d: usize = 0;
    while d < 8
        invariant
            map.wf(),
            distinct_follower_positions(fs@),
            -0xFFFFF <= place.x <= 0xFFFFF,
            -0xFFFFF <= place.y <= 0xFFFFF,
            d <= 8,
            dirs@.len() == 8,
            forall|i: int| 0 <= i < 8 ==> ord_index(#[trigger] dirs@[i]) == i,
            n_tile == tile_seeds(*map, *settings, *place, 25).len(),
            structures@.len() == n_tile + cloister_seeds(*map, fs@, *place, in_game, d as int).len(),
            forall|j: int| 0 <= j < n_tile ==>
                structure_for(*map, fs@, *settings, in_game, #[trigger] tile_seeds(*map, *settings, *place, 25)[j], structures@[j]),
            forall|j: int| 0 <= j < cloister_seeds(*map, fs@, *place, in_game, d as int).len() ==>
                cloister_structure(fs@, #[trigger] cloister_seeds(*map, fs@, *place, in_game, d as int)[j], structures@[n_tile + j]),
        decreases 8 - d,
    {
        let dir = dirs[d];
        let ghost dd = d as int;
        proof {
            assert(dir == ord_dir(dd));
        }
        let np = place.neighbour(&dir);
        let ul = place_index(&np);
        let ci = Index { x: ul.x + 2, y: ul.y + 2 };
        proof {
            assert(ci == cloister_index(*place, ord_dir(dd)));
        }
        let ghost prev_structures = structures@;
        let mut added = false;
        if map.get_index(ci) == TilePixel::Cloister {
            if let Some(owner) = find_follower(fs, ci) {
                let single = vec![ci];
                proof {
                    assert(single@.no_duplicates());
                    assert(single@.to_set() =~= set![ci]);
                }
                let score = get_structure_score(map, &single, in_game);
                if score == 9 {
                    let st = Structure {
                        completed: true,
                        points: 9,
                        followers_number: vec![(owner, 1u32)],
                        followers_idx: vec![ci],
                        seed: ci,
                    };
                    proof {
                        assert(st.followers_number@ =~= seq![(owner, 1u32)]);
                        assert(st.followers_idx@ =~= seq![ci]);
                    }
                    structures.push(st);
                    added = true;
                }
            }
        }
        proof {
            assert(added == completes_cloister(*map, fs@, *place, in_game, ord_dir(dd)));
            if added {
                assert(cloister_seeds(*map, fs@, *place, in_game, dd + 1) == cloister_seeds(*map, fs@, *place, in_game, dd).push(ci));
                assert forall|j: int| 0 <= j < cloister_seeds(*map, fs@, *place, in_game, dd + 1).len() implies
                    cloister_structure(fs@, #[trigger] cloister_seeds(*map, fs@, *place, in_game, dd + 1)[j], structures@[n_tile + j]) by {
                    if j < cloister_seeds(*map, fs@, *place, in_game, dd).len() {
                        assert(structures@[n_tile + j] == prev_structures[n_tile + j]);
                    }
                }
            } else {
                assert(cloister_seeds(*map, fs@, *place, in_game, dd + 1) == cloister_seeds(*map, fs@, *place, in_game, dd));
            }
            assert forall|j: int| 0 <= j < n_tile implies
                structure_for(*map, fs@, *settings, in_game, #[trigger] tile_seeds(*map, *settings, *place, 25)[j], structures@[j]) by {
                assert(structures@[j] == prev_structures[j]);
            }
        }
        d += 1;
    }
    structures
}

/// The largest follower count in `l` (0 for an empty list).
pub open spec fn max_count(l: Seq<(PlayerId, u32)>) -> int
    decreases l.len(),
{
    if l.len() == 0 {
        0
    } else if l.last().1 > max_count(l.drop_last()) {
        l.last().1 as int
    } else {
        max_count(l.drop_last())
    }
}

/// Player `p` has the most followers on the structure (ties included).
pub open spec fn is_top_player(l: Seq<(PlayerId, u32)>, p: u32) -> bool {
    exists|k: int| 0 <= k < l.len() && (#[trigger] l[k]).0 == PlayerId(p) && l[k].1 == max_count(l)
}

/// How many followers player `p` has on the structure.
pub open spec fn count_for(l: Seq<(PlayerId, u32)>, p: u32) -> int {
    if exists|k: int| 0 <= k < l.len() && (#[trigger] l[k]).0 == PlayerId(p) {
        l[choose|k: int| 0 <= k < l.len() && (#[trigger] l[k]).0 == PlayerId(p)].1 as int
    } else {
        0
    }
}

/// Addition that stops at `u32::MAX`.
pub open spec fn sat_add(a: u32, b: int) -> u32 {
    if a + b > u32::MAX { u32::MAX } else { (a + b) as u32 }
}

/// No player is listed twice.
pub open spec fn distinct_players(l: Seq<(PlayerId, u32)>) -> bool {
    forall|a: int, b: int| 0 <= a < b < l.len() ==> #[trigger] l[a].0 != #[trigger] l[b].0
}

/// The scores after structure `s` is scored: each top player gains its points.
pub open spec fn scores_after(score: Seq<u32>, s: Structure) -> Seq<u32> {
    Seq::new(
        score.len(),
        |p: int|
            if is_top_player(s.followers_number@, p as u32) {
                sat_add(score[p], s.points as int)
            } else {
                score[p]
            },
    )
}

/// The followers in hand after structure `s` is scored: each player takes back its followers.
pub open spec fn left_after(left: Seq<u32>, s: Structure) -> Seq<u32> {
    Seq::new(left.len(), |p: int| sat_add(left[p], count_for(s.followers_number@, p as u32)))
}

/// The followers on the board after structure `s` is scored: those on it leave.
pub open spec fn followers_after(fs: Seq<(Index, PlayerId)>, s: Structure) -> Seq<(Index, PlayerId)> {
    fs.filter(|e: (Index, PlayerId)| !s.followers_idx@.contains(e.0))
}

fn max_of_counts(l: &Vec<(PlayerId, u32)>) -> (r: u32)
    ensures
        r == max_count(l@),
        forall|k: int| 0 <= k < l@.len() ==> (#[trigger] l@[k]).1 <= r,
{
    let mut m: u32 = 0;
    let mut i: usize = 0;
    while i < l.len()
        invariant
            i <= l@.len(),
            m == max_count(l@.take(i as int)),
            forall|k: int| 0 <= k < i ==> (#[trigger] l@[k]).1 <= m,
        decreases l@.len() - i,
    {
        proof {
            assert(l@.take(i as int + 1).drop_last() == l@.take(i as int));
        }
        if l[i].1 > m {
            m = l[i].1;
        }
        i += 1;
    }
    proof {
        assert(l@.take(l@.len() as int) == l@);
    }
    m
}

/// Scores structure `s`: the players with the most followers on it gain its
/// points, every follower on it returns to its owner, and leaves the board.
/// Scores and follower counts stop at `u32::MAX`.
pub fn apply_structure(
    score: &mut Vec<u32>,
    left: &mut Vec<u32>,
    fs: &mut Vec<(Index, PlayerId)>,
    s: &Structure,
)
    requires
        distinct_players(s.followers_number@),
        old(score)@.len() <= u32::MAX,
        old(left)@.len() <= u32::MAX,
    ensures
        final(score)@ == scores_after(old(score)@, *s),
        final(left)@ == left_after(old(left)@, *s),
        final(fs)@ == followers_after(old(fs)@, *s),
{
    let l = &s.followers_number;
    let best = max_of_counts(l);
    let ghost score0 = score@;
    let ghost left0 = left@;
    let mut i: usize = 0;
    while i < l.len()
        invariant
            distinct_players(l@),
            best == max_count(l@),
            i <= l@.len(),
            score@.len() == score0.len(),
            left@.len() == left0.len(),
            score0.len() <= u32::MAX,
            left0.len() <= u32::MAX,
            forall|p: int| 0 <= p < score0.len() ==> #[trigger] score@[p] == (if exists|k: int| 0 <= k < i && (#[trigger] l@[k]).0 == PlayerId(p as u32) && l@[k].1 == best {
                sat_add(score0[p], s.points as int)
            } else {
                score0[p]
            }),
            forall|p: int| 0 <= p < left0.len() ==> #[trigger] left@[p] == (if exists|k: int| 0 <= k < i && (#[trigger] l@[k]).0 == PlayerId(p as u32) {
                sat_add(left0[p], l@[choose|k: int| 0 <= k < i && (#[trigger] l@[k]).0 == PlayerId(p as u32)].1 as int)
            } else {
                left0[p]
            }),
        decreases l@.len() - i,
    {
        let (player, n) = l[i];
        let pi = player.0 as usize;
        proof {
            assert forall|k: int| 0 <= k < i implies (#[trigger] l@[k]).0 != player by {
                assert(l@[k].0 != l@[i as int].0);
            }
        }
        if pi < score.len() && n == best {
            let v = score[pi].saturating_add(s.points);
            score.set(pi, v);
        }
        if pi < left.len() {
            let v = left[pi].saturating_add(n);
            left.set(pi, v);
        }
        proof {
            assert forall|p: int| 0 <= p < score0.len() implies #[trigger] score@[p] == (if exists|k: int| 0 <= k < i + 1 && (#[trigger] l@[k]).0 == PlayerId(p as u32) && l@[k].1 == best {
                sat_add(score0[p], s.points as int)
            } else {
                score0[p]
            }) by {
                if p == pi {
                    assert(l@[i as int].0 == PlayerId(p as u32));
                    assert(!exists|k: int| 0 <= k < i && (#[trigger] l@[k]).0 == PlayerId(p as u32));
                } else {
                    assert(l@[i as int].0 != PlayerId(p as u32));
                }
            }
            assert forall|p: int| 0 <= p < left0.len() implies #[trigger] left@[p] == (if exists|k: int| 0 <= k < i + 1 && (#[trigger] l@[k]).0 == PlayerId(p as u32) {
                sat_add(left0[p], l@[choose|k: int| 0 <= k < i + 1 && (#[trigger] l@[k]).0 == PlayerId(p as u32)].1 as int)
            } else {
                left0[p]
            }) by {
                if p == pi {
                    assert(l@[i as int].0 == PlayerId(p as u32));
                    assert(!exists|k: int| 0 <= k < i && (#[trigger] l@[k]).0 == PlayerId(p as u32));
                    let c = choose|k: int| 0 <= k < i + 1 && (#[trigger] l@[k]).0 == PlayerId(p as u32);
                    assert(c == i);
                } else {
                    assert(l@[i as int].0 != PlayerId(p as u32));
                    if exists|k: int| 0 <= k < i && (#[trigger] l@[k]).0 == PlayerId(p as u32) {
                        let c1 = choose|k: int| 0 <= k < i && (#[trigger] l@[k]).0 == PlayerId(p as u32);
                        let c2 = choose|k: int| 0 <= k < i + 1 && (#[trigger] l@[k]).0 == PlayerId(p as u32);
                        if c1 != c2 {
                            if c1 < c2 {
                                assert(l@[c1].0 != l@[c2].0);
                            } else {
                                assert(l@[c2].0 != l@[c1].0);
                            }
                        }
                    }
                }
            }
        }
        i += 1;
    }
    proof {
        assert(score@ =~= scores_after(score0, *s)) by {
            assert forall|p: int| 0 <= p < score0.len() implies score@[p] == scores_after(score0, *s)[p] by {
                assert(score@[p] == (if exists|k: int| 0 <= k < l@.len() && (#[trigger] l@[k]).0 == PlayerId(p as u32) && l@[k].1 == best {
                    sat_add(score0[p], s.points as int)
                } else {
                    score0[p]
                }));
            }
        }
        assert(left@ =~= left_after(left0, *s)) by {
            assert forall|p: int| 0 <= p < left0.len() implies left@[p] == left_after(left0, *s)[p] by {
                assert(left@[p] == (if exists|k: int| 0 <= k < l@.len() && (#[trigger] l@[k]).0 == PlayerId(p as u32) {
                    sat_add(left0[p], l@[choose|k: int| 0 <= k < l@.len() && (#[trigger] l@[k]).0 == PlayerId(p as u32)].1 as int)
                } else {
                    left0[p]
                }));
            }
        }
    }
    let ghost fs0 = fs@;
    let ghost keep = |e: (Index, PlayerId)| !s.followers_idx@.contains(e.0);
    let mut kept: Vec<(Index, PlayerId)> = Vec::new();
    let mut j: usize = 0;
    while j < fs.len()
        invariant
            fs@ == fs0,
            keep == (|e: (Index, PlayerId)| !s.followers_idx@.contains(e.0)),
            j <= fs0.len(),
            kept@ == fs0.take(j as int).filter(keep),
        decreases fs0.len() - j,
    {
        let e = fs[j];
        proof {
            assert(fs0.take(j as int + 1) == fs0.take(j as int).push(e));
            fs0.take(j as int).lemma_filter_push(e, keep);
        }
        if !contains_index(&s.followers_idx, e.0) {
            kept.push(e);
        }
        j += 1;
    }
    proof {
        assert(fs0.take(fs0.len() as int) == fs0);
    }
    *fs = kept;
}

/// Every structure touched by a tile lists each player at most once.
pub proof fn lemma_structures_distinct(
    m: PixelMap,
    fs: Seq<(Index, PlayerId)>,
    st: GameSettings,
    place: Place,
    in_game: bool,
    ss: Seq<Structure>,
    i: int,
)
    requires
        structures_of(m, fs, st, place, in_game, ss),
        0 <= i < ss.len(),
    ensures
        distinct_players(ss[i].followers_number@),
{
    let ts = tile_seeds(m, st, place, 25);
    let cs = cloister_seeds(m, fs, place, in_game, 8);
    if i < ts.len() {
        assert(structure_for(m, fs, st, in_game, ts[i], ss[i]));
    } else {
        assert(cloister_structure(fs, cs[i - ts.len()], ss[ts.len() + (i - ts.len())]));
    }
}

/// A structure grown from a seed lists each player at most once.
pub proof fn lemma_structures_distinct_one(m: PixelMap, fs: Seq<(Index, PlayerId)>, st: GameSettings, seed: Index, s: Structure)
    requires
        structure_for(m, fs, st, false, seed, s),
    ensures
        distinct_players(s.followers_number@),
{
}

proof fn lemma_count_split(fs: Seq<(Index, PlayerId)>, q: spec_fn((Index, PlayerId)) -> bool, p: PlayerId)
    ensures
        count_of(fs, p) == count_of(fs.filter(q), p) + count_of(fs.filter(negated(q)), p),
    decreases fs.len(),
{
    reveal(Seq::filter);
    let nq = negated(q);
    let isp = owned_by(p);
    if fs.len() == 0 {
        assert(fs.filter(q) =~= Seq::empty());
        assert(fs.filter(nq) =~= Seq::empty());
        assert(fs.filter(isp) =~= Seq::empty());
        assert(fs.filter(q).filter(isp) =~= Seq::empty());
        assert(fs.filter(nq).filter(isp) =~= Seq::empty());
    } else {
        let init = fs.drop_last();
        let e = fs.last();
        lemma_count_split(init, q, p);
        assert(fs == init.push(e));
        init.lemma_filter_push(e, isp);
        init.lemma_filter_push(e, q);
        init.lemma_filter_push(e, nq);
        if q(e) {
            init.filter(q).lemma_filter_push(e, isp);
            assert(fs.filter(nq) == init.filter(nq));
        } else {
            init.filter(nq).lemma_filter_push(e, isp);
            assert(fs.filter(q) == init.filter(q));
        }
    }
}

pub proof fn lemma_filter_congruent(fs: Seq<(Index, PlayerId)>, f: spec_fn((Index, PlayerId)) -> bool, g: spec_fn((Index, PlayerId)) -> bool)
    requires
        forall|k: int| 0 <= k < fs.len() ==> f(#[trigger] fs[k]) == g(fs[k]),
    ensures
        fs.filter(f) == fs.filter(g),
    decreases fs.len(),
{
    reveal(Seq::filter);
    if fs.len() > 0 {
        let init = fs.drop_last();
        assert forall|k: int| 0 <= k < init.len() implies f(#[trigger] init[k]) == g(init[k]) by {
            assert(init[k] == fs[k]);
        }
        lemma_filter_congruent(init, f, g);
        assert(f(fs[fs.len() - 1]) == g(fs[fs.len() - 1]));
    }
}

/// Structure `s` takes the followers of `fs` that stand on the positions
/// `x`: it lists their positions, and each owner's number of them.
pub open spec fn takes(fs: Seq<(Index, PlayerId)>, x: Set<Index>, s: Structure) -> bool {
    &&& counts_match(s.followers_number@, followers_within(fs, x))
    &&& s.followers_idx@ == followers_within(fs, x).map_values(|e: (Index, PlayerId)| e.0)
}

/// Scoring a structure hands every follower on it back to its owner: for
/// each player, followers in hand plus followers on the board stay the same
/// (as long as the count in hand does not reach `u32::MAX`).
pub proof fn lemma_scoring_returns_followers(
    m: PixelMap,
    fs: Seq<(Index, PlayerId)>,
    st: GameSettings,
    in_game: bool,
    seed: Index,
    s: Structure,
    left: Seq<u32>,
    p: int,
)
    requires
        structure_for(m, fs, st, in_game, seed, s),
        0 <= p < left.len() <= u32::MAX + 1,
        left[p] + count_of(fs, PlayerId(p as u32)) <= u32::MAX,
    ensures
        left_after(left, s)[p] + count_of(followers_after(fs, s), PlayerId(p as u32)) == left[p] + count_of(
            fs,
            PlayerId(p as u32),
        ),
{
    lemma_taking_returns_followers(fs, component(m, m.at_index(seed), seed), s, left, p);
}

/// A structure that takes the followers on some positions hands each back
/// to its owner: for each player, followers in hand plus followers on the
/// board stay the same (while that sum fits in a `u32`).
pub proof fn lemma_taking_returns_followers(
    fs: Seq<(Index, PlayerId)>,
    x: Set<Index>,
    s: Structure,
    left: Seq<u32>,
    p: int,
)
    requires
        takes(fs, x, s),
        0 <= p < left.len() <= u32::MAX + 1,
        left[p] + count_of(fs, PlayerId(p as u32)) <= u32::MAX,
    ensures
        left_after(left, s)[p] + count_of(followers_after(fs, s), PlayerId(p as u32)) == left[p] + count_of(
            fs,
            PlayerId(p as u32),
        ),
{
    let c = x;
    let pl = PlayerId(p as u32);
    let within = followers_within(fs, c);
    let inc = |e: (Index, PlayerId)| c.contains(e.0);
    let keep = |e: (Index, PlayerId)| !s.followers_idx@.contains(e.0);
    assert(s.followers_idx@ == within.map_values(|e: (Index, PlayerId)| e.0));
    assert forall|k: int| 0 <= k < fs.len() implies keep(#[trigger] fs[k]) == negated(inc)(fs[k]) by {
        let e = fs[k];
        if inc(e) {
            broadcast use vstd::seq_lib::group_filter_ensures;

            assert(within.contains(e));
            let w = choose|w: int| 0 <= w < within.len() && within[w] == e;
            assert(s.followers_idx@[w] == e.0);
            assert(s.followers_idx@.contains(e.0));
        }
        if s.followers_idx@.contains(e.0) {
            let w = choose|w: int| 0 <= w < s.followers_idx@.len() && s.followers_idx@[w] == e.0;
            assert(within[w].0 == e.0);
            assert(within.contains(within[w]));
            fs.lemma_filter_contains_rev(inc, within[w]);
            assert(inc(within[w]));
        }
    }
    lemma_filter_congruent(fs, keep, negated(inc));
    lemma_count_split(fs, inc, pl);
    let l = s.followers_number@;
    assert(count_for(l, p as u32) == count_of(within, pl)) by {
        if count_of(within, pl) > 0 {
            let a = choose|a: int| 0 <= a < l.len() && #[trigger] l[a].0 == pl;
            let k = choose|k: int| 0 <= k < l.len() && (#[trigger] l[k]).0 == PlayerId(p as u32);
            if k != a {
                if k < a {
                    assert(l[k].0 != l[a].0);
                } else {
                    assert(l[a].0 != l[k].0);
                }
            }
        } else {
            if exists|k: int| 0 <= k < l.len() && (#[trigger] l[k]).0 == PlayerId(p as u32) {
                let k = choose|k: int| 0 <= k < l.len() && (#[trigger] l[k]).0 == PlayerId(p as u32);
                assert(l[k].1 == count_of(within, l[k].0));
            }
        }
    }
}

proof fn lemma_tile_seeds_len(m: PixelMap, st: GameSettings, place: Place, k: int)
    requires
        k >= 0,
    ensures
        tile_seeds(m, st, place, k).len() <= k,
    decreases k,
{
    if k > 0 {
        lemma_tile_seeds_len(m, st, place, k - 1);
    }
}

proof fn lemma_cloister_seeds_len(m: PixelMap, fs: Seq<(Index, PlayerId)>, place: Place, in_game: bool, k: int)
    requires
        k >= 0,
    ensures
        cloister_seeds(m, fs, place, in_game, k).len() <= k,
    decreases k,
{
    if k > 0 {
        lemma_cloister_seeds_len(m, fs, place, in_game, k - 1);
    }
}

/// A tile touches at most 33 structures: one per pixel, one per neighbouring cloister.
pub proof fn lemma_structures_bounded(
    m: PixelMap,
    fs: Seq<(Index, PlayerId)>,
    st: GameSettings,
    place: Place,
    in_game: bool,
    ss: Seq<Structure>,
)
    requires
        structures_of(m, fs, st, place, in_game, ss),
    ensures
        ss.len() <= 33,
        forall|i: int| 0 <= i < ss.len() ==> distinct_players(#[trigger] ss[i].followers_number@),
{
    lemma_tile_seeds_len(m, st, place, 25);
    lemma_cloister_seeds_len(m, fs, place, in_game, 8);
    assert forall|i: int| 0 <= i < ss.len() implies distinct_players(#[trigger] ss[i].followers_number@) by {
        lemma_structures_distinct(m, fs, st, place, in_game, ss, i);
    }
}


/// The largest count of a list is one of its counts (0 for an empty list),
/// and no count exceeds it.
proof fn lemma_max_count(l: Seq<(PlayerId, u32)>)
    ensures
        forall|k: int| 0 <= k < l.len() ==> (#[trigger] l[k]).1 <= max_count(l),
        l.len() == 0 ==> max_count(l) == 0,
        l.len() > 0 ==> exists|k: int| 0 <= k < l.len() && (#[trigger] l[k]).1 == max_count(l),
    decreases l.len(),
{
    if l.len() > 0 {
        let d = l.drop_last();
        lemma_max_count(d);
        assert forall|k: int| 0 <= k < l.len() implies (#[trigger] l[k]).1 <= max_count(l) by {
            if k < l.len() - 1 {
                assert(d[k] == l[k]);
            }
        }
        if l.last().1 > max_count(d) {
            assert(l[l.len() - 1].1 == max_count(l));
        } else if d.len() > 0 {
            let k = choose|k: int| 0 <= k < d.len() && (#[trigger] d[k]).1 == max_count(d);
            assert(l[k] == d[k]);
        } else {
            assert(l[0].1 == max_count(l));
        }
    }
}

/// A list matching the followers `fs` gives each player its number of
/// followers there.
proof fn lemma_count_for_matches(l: Seq<(PlayerId, u32)>, fs: Seq<(Index, PlayerId)>, p: u32)
    requires
        counts_match(l, fs),
    ensures
        count_for(l, p) == count_of(fs, PlayerId(p)),
{
    if !exists|k: int| 0 <= k < l.len() && (#[trigger] l[k]).0 == PlayerId(p) {
        if count_of(fs, PlayerId(p)) > 0 {
            let a = choose|a: int| 0 <= a < l.len() && #[trigger] l[a].0 == PlayerId(p);
            assert(l[a].0 == PlayerId(p));
        }
    }
}

/// Every count of a list matching `fs` is found, for the same player, in
/// any other list matching `fs`.
proof fn lemma_counts_within(l1: Seq<(PlayerId, u32)>, l2: Seq<(PlayerId, u32)>, fs: Seq<(Index, PlayerId)>, k: int)
    requires
        counts_match(l1, fs),
        counts_match(l2, fs),
        0 <= k < l1.len(),
    ensures
        exists|a: int| 0 <= a < l2.len() && #[trigger] l2[a] == l1[k],
{
    assert(l1[k].1 == count_of(fs, l1[k].0) && l1[k].1 > 0);
    let a = choose|a: int| 0 <= a < l2.len() && #[trigger] l2[a].0 == l1[k].0;
    assert(l2[a].1 == count_of(fs, l2[a].0));
    assert(l2[a] == l1[k]);
}

proof fn lemma_max_within(l1: Seq<(PlayerId, u32)>, l2: Seq<(PlayerId, u32)>, fs: Seq<(Index, PlayerId)>)
    requires
        counts_match(l1, fs),
        counts_match(l2, fs),
    ensures
        max_count(l1) <= max_count(l2),
{
    lemma_max_count(l1);
    lemma_max_count(l2);
    if l1.len() > 0 {
        let k = choose|k: int| 0 <= k < l1.len() && (#[trigger] l1[k]).1 == max_count(l1);
        lemma_counts_within(l1, l2, fs, k);
        let a = choose|a: int| 0 <= a < l2.len() && #[trigger] l2[a] == l1[k];
        assert(l2[a].1 <= max_count(l2));
    } else if l2.len() > 0 {
        assert(l2[0].1 <= max_count(l2));
    }
}

/// Two lists of follower counts that both match the followers `fs` give
/// every player the same count and the same top players, whatever their
/// order.
pub proof fn lemma_counts_agree(l1: Seq<(PlayerId, u32)>, l2: Seq<(PlayerId, u32)>, fs: Seq<(Index, PlayerId)>)
    requires
        counts_match(l1, fs),
        counts_match(l2, fs),
    ensures
        forall|p: u32| #[trigger] count_for(l1, p) == count_for(l2, p),
        max_count(l1) == max_count(l2),
        forall|p: u32| #[trigger] is_top_player(l1, p) == is_top_player(l2, p),
{
    assert forall|p: u32| #[trigger] count_for(l1, p) == count_for(l2, p) by {
        lemma_count_for_matches(l1, fs, p);
        lemma_count_for_matches(l2, fs, p);
    }
    lemma_max_within(l1, l2, fs);
    lemma_max_within(l2, l1, fs);
    assert forall|p: u32| #[trigger] is_top_player(l1, p) == is_top_player(l2, p) by {
        if is_top_player(l1, p) {
            let k = choose|k: int| 0 <= k < l1.len() && (#[trigger] l1[k]).0 == PlayerId(p) && l1[k].1 == max_count(l1);
            lemma_counts_within(l1, l2, fs, k);
            let a = choose|a: int| 0 <= a < l2.len() && #[trigger] l2[a] == l1[k];
            assert(l2[a].0 == PlayerId(p) && l2[a].1 == max_count(l2));
        }
        if is_top_player(l2, p) {
            let k = choose|k: int| 0 <= k < l2.len() && (#[trigger] l2[k]).0 == PlayerId(p) && l2[k].1 == max_count(l2);
            lemma_counts_within(l2, l1, fs, k);
            let a = choose|a: int| 0 <= a < l1.len() && #[trigger] l1[a] == l2[k];
            assert(l1[a].0 == PlayerId(p) && l1[a].1 == max_count(l1));
        }
    }
}

/// Two descriptions of the structure grown from one seed, on one board with
/// one set of followers, score alike: the same points to the same players,
/// the same followers back, the same followers left on the board.
pub proof fn lemma_same_structure_scores(
    m: PixelMap,
    fs: Seq<(Index, PlayerId)>,
    st: GameSettings,
    in_game: bool,
    seed: Index,
    s1: Structure,
    s2: Structure,
    score: Seq<u32>,
    left: Seq<u32>,
    others: Seq<(Index, PlayerId)>,
)
    requires
        structure_for(m, fs, st, in_game, seed, s1),
        structure_for(m, fs, st, in_game, seed, s2),
    ensures
        scores_after(score, s1) == scores_after(score, s2),
        left_after(left, s1) == left_after(left, s2),
        followers_after(others, s1) == followers_after(others, s2),
{
    let c = component(m, m.at_index(seed), seed);
    lemma_counts_agree(s1.followers_number@, s2.followers_number@, followers_within(fs, c));
    assert(scores_after(score, s1) =~= scores_after(score, s2)) by {
        assert forall|p: int| 0 <= p < score.len() implies #[trigger] scores_after(score, s1)[p] == scores_after(score, s2)[p] by {
            assert(is_top_player(s1.followers_number@, p as u32) == is_top_player(s2.followers_number@, p as u32));
        }
    }
    assert(left_after(left, s1) =~= left_after(left, s2)) by {
        assert forall|p: int| 0 <= p < left.len() implies #[trigger] left_after(left, s1)[p] == left_after(left, s2)[p] by {
            assert(count_for(s1.followers_number@, p as u32) == count_for(s2.followers_number@, p as u32));
        }
    }
    assert(s1.followers_idx@ == s2.followers_idx@);
    assert(followers_after(others, s1) =~= followers_after(others, s2));
}


/// Boards `a` and `b` hold the same pixel at every position.
pub open spec fn same_pixels(a: PixelMap, b: PixelMap) -> bool {
    forall|i: Index| #[trigger] a.at_index(i) == b.at_index(i)
}

/// Regions, and so components, are the same on boards holding the same pixels.
proof fn lemma_same_pixels_component(m1: PixelMap, m2: PixelMap, t: TilePixel)
    requires
        same_pixels(m1, m2),
    ensures
        region(m1, t) == region(m2, t),
        not_region(m1, t) == not_region(m2, t),
        forall|x: Index| #[trigger] component(m1, t, x) == component(m2, t, x),
{
    assert(region(m1, t) =~= region(m2, t)) by {
        assert forall|i: Index| #[trigger] region(m1, t)(i) == region(m2, t)(i) by {
            assert(m1.at_index(i) == m2.at_index(i));
        }
    }
    assert(not_region(m1, t) =~= not_region(m2, t)) by {
        assert forall|i: Index| #[trigger] not_region(m1, t)(i) == not_region(m2, t)(i) by {
            assert(m1.at_index(i) == m2.at_index(i));
        }
    }
}

/// A structure's description reads the board only through its pixels.
pub proof fn lemma_same_pixels_structure(
    m1: PixelMap,
    m2: PixelMap,
    fs: Seq<(Index, PlayerId)>,
    st: GameSettings,
    in_game: bool,
    seed: Index,
    s: Structure,
)
    requires
        same_pixels(m1, m2),
        structure_for(m1, fs, st, in_game, seed, s),
    ensures
        structure_for(m2, fs, st, in_game, seed, s),
{
    let t = m1.at_index(seed);
    assert(m2.at_index(seed) == t);
    lemma_same_pixels_component(m1, m2, t);
    lemma_same_pixels_component(m1, m2, TilePixel::City);
    lemma_same_pixels_component(m1, m2, TilePixel::Field);
    let c = component(m1, t, seed);
    assert(component(m2, t, seed) == c);
    assert(structure_keys(m1, c) =~= structure_keys(m2, c)) by {
        assert forall|k: (TilePixel, Place)| structure_keys(m1, c).contains(k) implies structure_keys(m2, c).contains(k) by {
            let i = choose|i: Index| c.contains(i) && scoring_key(m1, i) == k;
            assert(m1.at_index(i) == m2.at_index(i));
            assert(scoring_key(m2, i) == k);
        }
        assert forall|k: (TilePixel, Place)| structure_keys(m2, c).contains(k) implies structure_keys(m1, c).contains(k) by {
            let i = choose|i: Index| c.contains(i) && scoring_key(m2, i) == k;
            assert(m1.at_index(i) == m2.at_index(i));
            assert(scoring_key(m1, i) == k);
        }
    }
    assert(add_key_value(m1, in_game) =~= add_key_value(m2, in_game)) by {
        assert forall|acc: int, key: (TilePixel, Place)| #[trigger] add_key_value(m1, in_game)(acc, key) == add_key_value(
            m2,
            in_game,
        )(acc, key) by {
            assert(spec_neighbour_count(m1, key.1) == spec_neighbour_count(m2, key.1));
        }
    }
    assert(structure_score(m1, c, in_game) == structure_score(m2, c, in_game));
    assert(no_empty_neighbour(m1, c) == no_empty_neighbour(m2, c));
    let f = component(m1, TilePixel::Field, seed);
    assert(component(m2, TilePixel::Field, seed) == f);
    assert(bordering_cities(m1, f) =~= bordering_cities(m2, f)) by {
        assert forall|cc: Set<Index>| bordering_cities(m1, f).contains(cc) implies bordering_cities(m2, f).contains(cc) by {
            let (i, n) = choose|i: Index, n: Index|
                #![trigger f.contains(i), adjacent(i, n)]
                f.contains(i) && adjacent(i, n) && is_city_pixel(m1.at_index(n)) && cc == component(m1, TilePixel::City, n);
            assert(m1.at_index(n) == m2.at_index(n));
            assert(component(m1, TilePixel::City, n) == component(m2, TilePixel::City, n));
        }
        assert forall|cc: Set<Index>| bordering_cities(m2, f).contains(cc) implies bordering_cities(m1, f).contains(cc) by {
            let (i, n) = choose|i: Index, n: Index|
                #![trigger f.contains(i), adjacent(i, n)]
                f.contains(i) && adjacent(i, n) && is_city_pixel(m2.at_index(n)) && cc == component(m2, TilePixel::City, n);
            assert(m1.at_index(n) == m2.at_index(n));
            assert(component(m1, TilePixel::City, n) == component(m2, TilePixel::City, n));
        }
    }
    assert(city_closed(m1) =~= city_closed(m2)) by {
        assert forall|cc: Set<Index>| #[trigger] city_closed(m1)(cc) == city_closed(m2)(cc) by {
            assert(no_empty_neighbour(m1, cc) == no_empty_neighbour(m2, cc));
        }
    }
    assert(field_score(m1, seed) == field_score(m2, seed));
}


/// A position of a component connects to the component's kind, and a
/// non-empty component holds the position it was grown from.
pub proof fn lemma_in_component(m: PixelMap, t: TilePixel, x: Index, y: Index)
    requires
        component(m, t, x).contains(y),
    ensures
        spec_connects(m.at_index(y), t),
        component(m, t, x).contains(x),
{
    let p = region(m, t);
    let np = not_region(m, t);
    let q = choose|q: Seq<Index>| pred_holding(p, np, q, x);
    let a = choose|a: Index| is_filled_region(q, a, p, np);
    assert(q.to_set().contains(y));
    let k = choose|k: int| 0 <= k < q.len() && q[k] == y;
    assert(p(q[k]));
    assert(q.contains(x));
    assert(q.to_set().contains(x));
}

/// Two components that share a position are the same, and each holds the
/// other's starting position.
pub proof fn lemma_components_meet(m: PixelMap, t1: TilePixel, x1: Index, t2: TilePixel, x2: Index, y: Index)
    requires
        component(m, t1, x1).contains(y),
        component(m, t2, x2).contains(y),
    ensures
        component(m, t1, x1) == component(m, t2, x2),
        component(m, t1, x1).contains(x2),
{
    lemma_in_component(m, t1, x1, y);
    lemma_in_component(m, t2, x2, y);
    lemma_component_member(m, t1, x1, y);
    lemma_component_member(m, t2, x2, y);
    assert(spec_connects(t2, t1));
    lemma_component_kind(m, t1, t2, y);
}

/// Each seed of a tile is one of its first `k` pixels, and one that scores.
proof fn lemma_tile_seeds_from(m: PixelMap, st: GameSettings, place: Place, k: int)
    ensures
        forall|i: int|
            0 <= i < tile_seeds(m, st, place, k).len() ==> exists|a: int|
                0 <= a < k && #[trigger] tile_seeds(m, st, place, k)[i] == tile_pixel_at(place, a) && spec_is_scoring(
                    m.at_index(tile_pixel_at(place, a)),
                    st.farmers_enabled,
                ),
    decreases k,
{
    if k > 0 {
        lemma_tile_seeds_from(m, st, place, k - 1);
        let prev = tile_seeds(m, st, place, k - 1);
        let ts = tile_seeds(m, st, place, k);
        assert forall|i: int| 0 <= i < ts.len() implies exists|a: int|
            0 <= a < k && #[trigger] ts[i] == tile_pixel_at(place, a) && spec_is_scoring(
                m.at_index(tile_pixel_at(place, a)),
                st.farmers_enabled,
            ) by {
            if i < prev.len() {
                assert(ts[i] == prev[i]);
                let a = choose|a: int|
                    0 <= a < k - 1 && #[trigger] prev[i] == tile_pixel_at(place, a) && spec_is_scoring(
                        m.at_index(tile_pixel_at(place, a)),
                        st.farmers_enabled,
                    );
            } else {
                assert(ts[i] == tile_pixel_at(place, k - 1));
            }
        }
    }
}

/// The structures grown from two seeds of a tile share no position.
pub proof fn lemma_tile_seeds_apart(m: PixelMap, st: GameSettings, place: Place, k: int, i: int, j: int, y: Index)
    requires
        0 <= i < j < tile_seeds(m, st, place, k).len(),
    ensures
        !(own_component(m, tile_seeds(m, st, place, k)[i]).contains(y) && own_component(
            m,
            tile_seeds(m, st, place, k)[j],
        ).contains(y)),
    decreases k,
{
    if k > 0 {
        let prev = tile_seeds(m, st, place, k - 1);
        let ts = tile_seeds(m, st, place, k);
        if j < prev.len() {
            assert(ts[i] == prev[i] && ts[j] == prev[j]);
            lemma_tile_seeds_apart(m, st, place, k - 1, i, j, y);
        } else {
            assert(ts[j] == tile_pixel_at(place, k - 1));
            assert(is_seed(m, st, place, k - 1));
            assert(ts[i] == prev[i]);
            lemma_tile_seeds_from(m, st, place, k - 1);
            let a = choose|a: int|
                0 <= a < k - 1 && #[trigger] prev[i] == tile_pixel_at(place, a) && spec_is_scoring(
                    m.at_index(tile_pixel_at(place, a)),
                    st.farmers_enabled,
                );
            if own_component(m, ts[i]).contains(y) && own_component(m, ts[j]).contains(y) {
                lemma_components_meet(m, m.at_index(ts[i]), ts[i], m.at_index(ts[j]), ts[j], y);
                assert(own_component(m, tile_pixel_at(place, a)).contains(ts[j]));
                assert(covered_before(m, st, place, k - 1, tile_pixel_at(place, k - 1)));
            }
        }
    }
}


/// Each completed cloister found around `place` is the centre of the
/// neighbouring place in one of the first `k` directions, with a follower.
pub proof fn lemma_cloister_seeds_from(m: PixelMap, fs: Seq<(Index, PlayerId)>, place: Place, in_game: bool, k: int)
    ensures
        forall|i: int|
            0 <= i < cloister_seeds(m, fs, place, in_game, k).len() ==> exists|a: int|
                0 <= a < k && #[trigger] cloister_seeds(m, fs, place, in_game, k)[i] == cloister_index(place, ord_dir(a))
                    && follower_on(fs, cloister_index(place, ord_dir(a))),
    decreases k,
{
    if k > 0 {
        lemma_cloister_seeds_from(m, fs, place, in_game, k - 1);
        let prev = cloister_seeds(m, fs, place, in_game, k - 1);
        let cs = cloister_seeds(m, fs, place, in_game, k);
        assert forall|i: int| 0 <= i < cs.len() implies exists|a: int|
            0 <= a < k && #[trigger] cs[i] == cloister_index(place, ord_dir(a)) && follower_on(
                fs,
                cloister_index(place, ord_dir(a)),
            ) by {
            if i < prev.len() {
                assert(cs[i] == prev[i]);
                let a = choose|a: int|
                    0 <= a < k - 1 && #[trigger] prev[i] == cloister_index(place, ord_dir(a)) && follower_on(
                        fs,
                        cloister_index(place, ord_dir(a)),
                    );
            } else {
                assert(cs[i] == cloister_index(place, ord_dir(k - 1)));
            }
        }
    }
}

/// The centres of two different neighbouring places differ.
proof fn lemma_cloister_index_apart(place: Place, a: int, b: int)
    requires
        -0x100000 <= place.x <= 0x100000,
        -0x100000 <= place.y <= 0x100000,
        0 <= a < b < 8,
    ensures
        cloister_index(place, ord_dir(a)) != cloister_index(place, ord_dir(b)),
{
    assert(ord_dir(a) != ord_dir(b));
}

/// The completed cloisters found around `place` are at different positions.
pub proof fn lemma_cloister_seeds_apart(
    m: PixelMap,
    fs: Seq<(Index, PlayerId)>,
    place: Place,
    in_game: bool,
    k: int,
    i: int,
    j: int,
)
    requires
        -0x100000 <= place.x <= 0x100000,
        -0x100000 <= place.y <= 0x100000,
        k <= 8,
        0 <= i < j < cloister_seeds(m, fs, place, in_game, k).len(),
    ensures
        cloister_seeds(m, fs, place, in_game, k)[i] != cloister_seeds(m, fs, place, in_game, k)[j],
    decreases k,
{
    if k > 0 {
        let prev = cloister_seeds(m, fs, place, in_game, k - 1);
        let cs = cloister_seeds(m, fs, place, in_game, k);
        if j < prev.len() {
            assert(cs[i] == prev[i] && cs[j] == prev[j]);
            lemma_cloister_seeds_apart(m, fs, place, in_game, k - 1, i, j);
        } else {
            assert(cs[j] == cloister_index(place, ord_dir(k - 1)));
            assert(cs[i] == prev[i]);
            lemma_cloister_seeds_from(m, fs, place, in_game, k - 1);
            let a = choose|a: int|
                0 <= a < k - 1 && #[trigger] prev[i] == cloister_index(place, ord_dir(a)) && follower_on(
                    fs,
                    cloister_index(place, ord_dir(a)),
                );
            lemma_cloister_index_apart(place, a, k - 1);
        }
    }
}

/// With no follower on `idx`, none stands within `{idx}`.
proof fn lemma_within_none(fs: Seq<(Index, PlayerId)>, idx: Index)
    requires
        !follower_on(fs, idx),
    ensures
        followers_within(fs, set![idx]) == Seq::<(Index, PlayerId)>::empty(),
    decreases fs.len(),
{
    reveal(Seq::filter);
    if fs.len() > 0 {
        let d = fs.drop_last();
        assert(!follower_on(d, idx)) by {
            if follower_on(d, idx) {
                let k = choose|k: int| 0 <= k < d.len() && (#[trigger] d[k]).0 == idx;
                assert(fs[k] == d[k]);
            }
        }
        lemma_within_none(d, idx);
        assert(fs[fs.len() - 1].0 != idx);
    }
}

/// With followers on distinct positions, one of them on `idx`, exactly that
/// one stands within `{idx}`.
proof fn lemma_within_single(fs: Seq<(Index, PlayerId)>, idx: Index, k0: int)
    requires
        distinct_follower_positions(fs),
        0 <= k0 < fs.len(),
        fs[k0].0 == idx,
    ensures
        followers_within(fs, set![idx]) == seq![fs[k0]],
    decreases fs.len(),
{
    reveal(Seq::filter);
    let d = fs.drop_last();
    assert forall|i: int, j: int| 0 <= i < j < d.len() implies #[trigger] d[i].0 != #[trigger] d[j].0 by {
        assert(d[i] == fs[i] && d[j] == fs[j]);
    }
    if k0 == fs.len() - 1 {
        assert(!follower_on(d, idx)) by {
            if follower_on(d, idx) {
                let k = choose|k: int| 0 <= k < d.len() && (#[trigger] d[k]).0 == idx;
                assert(fs[k] == d[k]);
            }
        }
        lemma_within_none(d, idx);
        assert(Seq::<(Index, PlayerId)>::empty().push(fs[k0]) =~= seq![fs[k0]]);
    } else {
        assert(d[k0] == fs[k0]);
        lemma_within_single(d, idx, k0);
        assert(fs[fs.len() - 1].0 != idx);
    }
}

/// One follower, counted by owner.
proof fn lemma_count_one(e: (Index, PlayerId), p: PlayerId)
    ensures
        count_of(seq![e], p) == if p == e.1 { 1nat } else { 0nat },
{
    reveal(Seq::filter);
    let f = owned_by(p);
    let one = seq![e];
    assert(one.drop_last() =~= Seq::<(Index, PlayerId)>::empty());
    assert(one.drop_last().filter(f) =~= Seq::<(Index, PlayerId)>::empty());
    assert(one.last() == e);
    assert(f(e) == (e.1 == p));
    if e.1 == p {
        assert(one.filter(f) == one.drop_last().filter(f).push(e));
    } else {
        assert(one.filter(f) == one.drop_last().filter(f));
    }
}

/// A completed cloister takes the one follower on its centre.
pub proof fn lemma_cloister_takes(fs: Seq<(Index, PlayerId)>, idx: Index, s: Structure)
    requires
        distinct_follower_positions(fs),
        follower_on(fs, idx),
        cloister_structure(fs, idx, s),
    ensures
        takes(fs, set![idx], s),
{
    let k0 = choose|k: int| 0 <= k < fs.len() && (#[trigger] fs[k]).0 == idx;
    let e = fs[k0];
    lemma_within_single(fs, idx, k0);
    let w = followers_within(fs, set![idx]);
    assert(owner_of(fs, idx) == e.1) by {
        let k = choose|k: int| 0 <= k < fs.len() && (#[trigger] fs[k]).0 == idx;
        if k != k0 {
            if k < k0 {
                assert(fs[k].0 != fs[k0].0);
            } else {
                assert(fs[k0].0 != fs[k].0);
            }
        }
    }
    assert(w.map_values(|e: (Index, PlayerId)| e.0) =~= seq![idx]);
    assert forall|p: PlayerId| #[trigger] count_of(w, p) == if p == e.1 { 1nat } else { 0nat } by {
        lemma_count_one(e, p);
    }
    let l = s.followers_number@;
    assert(l[0].1 == count_of(w, l[0].0));
    assert forall|p: PlayerId| count_of(w, p) > 0 implies exists|a: int| 0 <= a < l.len() && #[trigger] l[a].0 == p by {
        assert(l[0].0 == p);
    }
}


/// A cloister on its own is worth one point for its own place and one for
/// each of the eight surrounding places that holds a tile.
pub proof fn lemma_cloister_score(m: PixelMap, ci: Index, in_game: bool)
    requires
        m.at_index(ci) == TilePixel::Cloister,
    ensures
        structure_score(m, set![ci], in_game) == spec_neighbour_count(m, spec_index_place(ci)) + 1,
{
    let key = (TilePixel::Cloister, spec_index_place(ci));
    let f = add_key_value(m, in_game);
    assert(structure_keys(m, set![ci]) =~= Set::<(TilePixel, Place)>::empty().insert(key)) by {
        assert(scoring_key(m, ci) == key);
        assert(set![ci].contains(ci));
        assert forall|k: (TilePixel, Place)| structure_keys(m, set![ci]).contains(k) implies k == key by {
            let i = choose|i: Index| set![ci].contains(i) && scoring_key(m, i) == k;
            assert(i == ci);
        }
        assert(structure_keys(m, set![ci]).contains(key));
    }
    assert(vstd::set::fold::is_fun_commutative(f));
    vstd::set::fold::lemma_fold_empty(0int, f);
    vstd::set::fold::lemma_fold_insert(Set::<(TilePixel, Place)>::empty(), 0int, f, key);
}

} // verus!
