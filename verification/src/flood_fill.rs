use vstd::prelude::*;
use crate::index::Index;

verus! {

/// Two positions touch along an edge.
pub open spec fn adjacent(a: Index, b: Index) -> bool {
    ||| (a.y == b.y && (a.x == b.x + 1 || b.x == a.x + 1))
    ||| (a.x == b.x && (a.y == b.y + 1 || b.y == a.y + 1))
}

/// Position `k` of `seq` touches an earlier position.
pub open spec fn has_parent(seq: Seq<Index>, k: int) -> bool {
    exists|j: int| 0 <= j < k && #[trigger] adjacent(seq[j], seq[k])
}

/// Every position after the first touches an earlier one.
pub open spec fn linked(seq: Seq<Index>) -> bool {
    forall|k: int| 0 < k < seq.len() ==> #[trigger] has_parent(seq, k)
}

proof fn lemma_linked_push(s: Seq<Index>, n: Index, j: int)
    requires
        linked(s),
        0 <= j < s.len(),
        adjacent(s[j], n),
    ensures
        linked(s.push(n)),
{
    let t = s.push(n);
    assert forall|k: int| 0 < k < t.len() implies #[trigger] has_parent(t, k) by {
        if k == s.len() {
            assert(adjacent(t[j], t[k]));
        } else {
            assert(s[k] == t[k]);
            assert(has_parent(s, k));
            let i = choose|i: int| 0 <= i < k && #[trigger] adjacent(s[i], s[k]);
            assert(adjacent(t[i], t[k]));
        }
    }
    assert(linked(t));
}

/// Both coordinates lie strictly between the extremes of `isize`, so every
/// neighbour of the position can be computed.
pub open spec fn strictly_inside(i: Index) -> bool {
    isize::MIN < i.x < isize::MAX && isize::MIN < i.y < isize::MAX
}

/// The number of `isize` values.
pub open spec fn isize_count() -> int {
    isize::MAX - isize::MIN + 1
}

pub open spec fn index_key(i: Index) -> int {
    (i.x - isize::MIN) * isize_count() + (i.y - isize::MIN)
}

/// `seq` is the set of positions a flood fill from `seed` must return for a
/// predicate whose observed answers `yes` and `no` describe:
/// the seed first, no repeats, only positions answered `true`, each after
/// one of its neighbours, and every neighbour of the region either in it or
/// answered `false`.
pub open spec fn is_filled_region(
    seq: Seq<Index>,
    seed: Index,
    yes: spec_fn(Index) -> bool,
    no: spec_fn(Index) -> bool,
) -> bool {
    &&& seq.len() > 0
    &&& seq[0] == seed
    &&& seq.no_duplicates()
    &&& forall|k: int| 0 <= k < seq.len() ==> #[trigger] yes(seq[k])
    &&& linked(seq)
    &&& forall|k: int, n: Index|
        0 <= k < seq.len() && #[trigger] adjacent(seq[k], n) ==> seq.contains(n) || no(n)
}

proof fn lemma_key_injective()
    ensures
        vstd::relations::injective(|i: Index| index_key(i)),
{
    assert forall|a: Index, b: Index| #[trigger] index_key(a) == #[trigger] index_key(b) implies a == b by {
        let w = isize_count();
        let a1 = a.x - isize::MIN;
        let b1 = a.y - isize::MIN;
        let a2 = b.x - isize::MIN;
        let b2 = b.y - isize::MIN;
        assert(a1 == a2 && b1 == b2) by (nonlinear_arith)
            requires
                0 <= b1 < w,
                0 <= b2 < w,
                0 <= a1,
                0 <= a2,
                a1 * w + b1 == a2 * w + b2,
        {
            if a1 < a2 {
                assert(a1 * w + w <= a2 * w);
            } else if a2 < a1 {
                assert(a2 * w + w <= a1 * w);
            }
        }
    }
}

/// A list of distinct positions has at most one entry per position of the plane.
proof fn lemma_distinct_bounded(s: Seq<Index>)
    requires
        s.no_duplicates(),
    ensures
        s.len() <= isize_count() * isize_count(),
{
    let f = |i: Index| index_key(i);
    lemma_key_injective();
    s.lemma_no_duplicates_injective(f);
    let m = s.map_values(f);
    m.unique_seq_to_set();
    let w = isize_count();
    vstd::set_lib::lemma_int_range(0, w * w);
    assert forall|v: int| m.to_set().contains(v) implies vstd::set_lib::set_int_range(0, w * w).contains(v) by {
        let k = choose|k: int| 0 <= k < m.len() && m[k] == v;
        let i = s[k];
        let a = i.x - isize::MIN;
        let b = i.y - isize::MIN;
        assert(0 <= a * w + b < w * w) by (nonlinear_arith)
            requires
                0 <= a < w,
                0 <= b < w,
        ;
    }
    vstd::set_lib::lemma_len_subset(m.to_set(), vstd::set_lib::set_int_range(0, w * w));
}

/// Whether `v` holds `i`.
pub fn contains_index(v: &Vec<Index>, i: Index) -> (r: bool)
    ensures
        r == v@.contains(i),
{
    let mut k: usize = 0;
    while k < v.len()
        invariant
            k <= v@.len(),
            forall|j: int| 0 <= j < k ==> v@[j] != i,
        decreases v@.len() - k,
    {
        if v[k] == i {
            return true;
        }
        k += 1;
    }
    false
}

/// The region of positions reachable from `seed` through edge-adjacent
/// positions for which `inside` holds, seed first; empty when `inside(seed)`
/// does not hold.
pub fn flood_fill<F: Fn(Index) -> bool>(seed: Index, inside: F) -> (r: Vec<Index>)
    requires
        forall|i: Index| #[trigger] inside.requires((i,)),
        forall|i: Index| #[trigger] inside.ensures((i,), true) ==> strictly_inside(i),
    ensures
        r@.len() == 0 ==> inside.ensures((seed,), false),
        r@.len() > 0 ==> is_filled_region(
            r@,
            seed,
            |i: Index| inside.ensures((i,), true),
            |i: Index| inside.ensures((i,), false),
        ),
{
    let ghost yes = |i: Index| inside.ensures((i,), true);
    let ghost no = |i: Index| inside.ensures((i,), false);
    if !inside(seed) {
        return Vec::new();
    }
    let mut visited: Vec<Index> = Vec::new();
    visited.push(seed);
    let mut stack: Vec<Index> = Vec::new();
    stack.push(seed);
    proof {
        lemma_distinct_bounded(visited@);
    }
    while stack.len() > 0
        invariant
            forall|i: Index| #[trigger] inside.requires((i,)),
            forall|i: Index| #[trigger] inside.ensures((i,), true) ==> strictly_inside(i),
            yes == (|i: Index| inside.ensures((i,), true)),
            no == (|i: Index| inside.ensures((i,), false)),
            visited@.len() > 0,
            visited@[0] == seed,
            visited@.no_duplicates(),
            visited@.len() <= isize_count() * isize_count(),
            forall|k: int| 0 <= k < visited@.len() ==> #[trigger] yes(visited@[k]),
            linked(visited@),
            stack@.no_duplicates(),
            forall|k: int| 0 <= k < stack@.len() ==> visited@.contains(#[trigger] stack@[k]),
            forall|k: int, n: Index|
                0 <= k < visited@.len() && !stack@.contains(visited@[k]) && #[trigger] adjacent(
                    visited@[k],
                    n,
                ) ==> visited@.contains(n) || no(n),
        decreases 2 * (isize_count() * isize_count() - visited@.len()) + stack@.len(),
    {
        let ghost stack_before_pop = stack@;
        let current = stack.pop().unwrap();
        let ghost stack_after_pop = stack@;
        assert(stack_before_pop == stack_after_pop.push(current));
        assert forall|x: Index| !stack_after_pop.contains(x) && x != current implies !stack_before_pop.contains(x) by {
            if stack_before_pop.contains(x) {
                let j = choose|j: int| 0 <= j < stack_before_pop.len() && stack_before_pop[j] == x;
                if j < stack_after_pop.len() {
                    assert(stack_after_pop[j] == x);
                }
            }
        }
        assert(visited@.contains(current));
        assert(yes(current));
        let ghost visited_before = visited@;
        let ghost cur_k = choose|k: int| 0 <= k < visited@.len() && visited@[k] == current;
        let neighbours = [
            Index { x: current.x + 1, y: current.y },
            Index { x: current.x, y: current.y + 1 },
            Index { x: current.x - 1, y: current.y },
            Index { x: current.x, y: current.y - 1 },
        ];
        let mut t: usize = 0;
        while t < 4
            invariant
                forall|i: Index| #[trigger] inside.requires((i,)),
                forall|i: Index| #[trigger] inside.ensures((i,), true) ==> strictly_inside(i),
                yes == (|i: Index| inside.ensures((i,), true)),
                no == (|i: Index| inside.ensures((i,), false)),
                0 <= t <= 4,
                neighbours@.len() == 4,
                forall|q: int| 0 <= q < 4 ==> adjacent(current, #[trigger] neighbours@[q]),
                forall|n: Index|
                    adjacent(current, n) ==> n == neighbours@[0] || n == neighbours@[1] || n
                        == neighbours@[2] || n == neighbours@[3],
                0 <= cur_k < visited_before.len(),
                visited_before[cur_k] == current,
                visited@.len() >= visited_before.len(),
                visited@.subrange(0, visited_before.len() as int) == visited_before,
                visited@.len() > 0,
                visited@[0] == seed,
                visited@.no_duplicates(),
                visited@.len() <= isize_count() * isize_count(),
                forall|k: int| 0 <= k < visited@.len() ==> #[trigger] yes(visited@[k]),
                linked(visited@),
                stack@.no_duplicates(),
                stack@.len() == stack_after_pop.len() + (visited@.len() - visited_before.len()),
                !stack@.contains(current),
                forall|k: int| 0 <= k < stack@.len() ==> visited@.contains(#[trigger] stack@[k]),
                forall|k: int|
                    visited_before.len() <= k < visited@.len() ==> stack@.contains(
                        #[trigger] visited@[k],
                    ),
                forall|k: int|
                    0 <= k < visited_before.len() && !stack@.contains(visited_before[k])
                        && visited_before[k] != current ==> !stack_after_pop.contains(
                        visited_before[k],
                    ),
                forall|k: int, n: Index|
                    0 <= k < visited_before.len() && !stack_after_pop.contains(visited_before[k])
                        && visited_before[k] != current && #[trigger] adjacent(
                        visited_before[k],
                        n,
                    ) ==> visited_before.contains(n) || no(n),
                forall|q: int|
                    0 <= q < t ==> visited@.contains(#[trigger] neighbours@[q]) || no(
                        neighbours@[q],
                    ),
            decreases 4 - t,
        {
            let n = neighbours[t];
            if inside(n) && !contains_index(&visited, n) {
                let ghost vb = visited@;
                let ghost sb = stack@;
                visited.push(n);
                stack.push(n);
                proof {
                    lemma_distinct_bounded(visited@);
                    assert(visited@.subrange(0, visited_before.len() as int) =~= visited_before) by {
                        assert(vb.subrange(0, visited_before.len() as int) == visited_before);
                    }
                    assert(vb[cur_k] == current);
                    lemma_linked_push(vb, n, cur_k);
                    assert forall|k: int| 0 <= k < stack@.len() implies visited@.contains(
                        #[trigger] stack@[k],
                    ) by {
                        if k < sb.len() {
                            assert(vb.contains(sb[k]));
                            let j = choose|j: int| 0 <= j < vb.len() && vb[j] == sb[k];
                            assert(visited@[j] == sb[k]);
                        } else {
                            assert(visited@[visited@.len() - 1] == n);
                        }
                    }
                    assert forall|k: int|
                        visited_before.len() <= k < visited@.len() implies stack@.contains(
                        #[trigger] visited@[k],
                    ) by {
                        if k < vb.len() {
                            assert(sb.contains(vb[k]));
                            let j = choose|j: int| 0 <= j < sb.len() && sb[j] == vb[k];
                            assert(stack@[j] == vb[k]);
                        } else {
                            assert(stack@[stack@.len() - 1] == n);
                        }
                    }
                    assert forall|k: int|
                        0 <= k < visited_before.len() && !stack@.contains(visited_before[k])
                            && visited_before[k] != current implies !stack_after_pop.contains(
                        visited_before[k],
                    ) by {
                        if sb.contains(visited_before[k]) {
                            let j = choose|j: int| 0 <= j < sb.len() && sb[j] == visited_before[k];
                            assert(stack@[j] == visited_before[k]);
                        }
                    }
                    assert(!stack@.contains(current)) by {
                        if stack@.contains(current) {
                            let j = choose|j: int| 0 <= j < stack@.len() && stack@[j] == current;
                            if j < sb.len() {
                                assert(sb.contains(current));
                            } else {
                                assert(n == current);
                                assert(vb.contains(current)) by {
                                    assert(vb[cur_k] == current);
                                }
                            }
                        }
                    }
                    assert forall|q: int| 0 <= q < t + 1 implies visited@.contains(
                        #[trigger] neighbours@[q],
                    ) || no(neighbours@[q]) by {
                        if q < t {
                            if vb.contains(neighbours@[q]) {
                                let j = choose|j: int| 0 <= j < vb.len() && vb[j] == neighbours@[q];
                                assert(visited@[j] == neighbours@[q]);
                            }
                        } else {
                            assert(visited@[visited@.len() - 1] == n);
                        }
                    }
                }
            }
            t += 1;
        }
        proof {
            assert forall|k: int, n: Index|
                0 <= k < visited@.len() && !stack@.contains(visited@[k]) && #[trigger] adjacent(
                    visited@[k],
                    n,
                ) implies visited@.contains(n) || no(n) by {
                if k >= visited_before.len() {
                    assert(stack@.contains(visited@[k]));
                } else {
                    assert(visited@[k] == visited_before[k]);
                    if visited_before[k] == current {
                        assert(n == neighbours@[0] || n == neighbours@[1] || n == neighbours@[2]
                            || n == neighbours@[3]);
                    } else {
                        assert(!stack_after_pop.contains(visited_before[k]));
                        if visited_before.contains(n) {
                            let j = choose|j: int| 0 <= j < visited_before.len() && visited_before[j] == n;
                            assert(visited@[j] == n);
                        }
                    }
                }
            }
        }
    }
    proof {
        assert(is_filled_region(visited@, seed, yes, no));
    }
    visited
}

} // verus!
