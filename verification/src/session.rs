use vstd::prelude::*;
use crate::direction::Rotation;
use crate::game::{Move, Place};
use crate::index::Index;
use crate::tile::TileId;
use crate::tile_pixel::TilePixel;

verus! {

/// The name the web page gives the structure a pixel belongs to.
pub open spec fn spec_structure_type(p: TilePixel) -> Seq<char> {
    match p {
        TilePixel::City | TilePixel::PennantCity => "City"@,
        TilePixel::Road => "Road"@,
        TilePixel::Field => "Field"@,
        TilePixel::Cloister => "Cloister"@,
        _ => "Unknown"@,
    }
}

/// The name the web page gives the structure a pixel belongs to.
pub fn pixel_to_structure_type(pixel: TilePixel) -> (r: &'static str)
    ensures
        r@ == spec_structure_type(pixel),
{
    match pixel {
        TilePixel::City | TilePixel::PennantCity => "City",
        TilePixel::Road => "Road",
        TilePixel::Field => "Field",
        TilePixel::Cloister => "Cloister",
        _ => "Unknown",
    }
}

/// Who won a finished game between a person and the bot.
#[derive(Debug, Clone, Copy, PartialEq, Eq, Structural)]
pub enum Winner {
    Human,
    Bot,
    Tie,
}

/// The winner: whoever has more points, or a tie.
pub fn winner(human: u32, bot: u32) -> (r: Winner)
    ensures
        r == (if human > bot { Winner::Human } else if bot > human { Winner::Bot } else { Winner::Tie }),
{
    if human > bot {
        Winner::Human
    } else if bot > human {
        Winner::Bot
    } else {
        Winner::Tie
    }
}

/// `m` puts tile `tile` on `place` turned by `rotation`.
pub open spec fn places_as(m: Move, tile: TileId, place: Place, rotation: Rotation) -> bool {
    m.tile == tile && m.place == place && m.rotation == rotation
}

/// The moves of `ms` with a follower, keeping only the first for each follower pixel.
pub open spec fn follower_variants(ms: Seq<Move>) -> Seq<Move>
    decreases ms.len(),
{
    if ms.len() == 0 {
        Seq::empty()
    } else {
        let prev = follower_variants(ms.drop_last());
        match ms.last().follower {
            Some(f) => if prev.map_values(|m: Move| m.follower).contains(Some(f)) {
                prev
            } else {
                prev.push(ms.last())
            },
            None => prev,
        }
    }
}

/// The moves of `moves` that put `tile` on `place` turned by `rotation`.
pub open spec fn matching_moves(moves: Seq<Move>, tile: TileId, place: Place, rotation: Rotation) -> Seq<Move> {
    moves.filter(|m: Move| places_as(m, tile, place, rotation))
}

fn has_follower_on(v: &Vec<Move>, f: Index) -> (r: bool)
    ensures
        r == v@.map_values(|m: Move| m.follower).contains(Some(f)),
{
    let mut i: usize = 0;
    while i < v.len()
        invariant
            i <= v@.len(),
            forall|j: int| 0 <= j < i ==> v@[j].follower != Some(f),
        decreases v@.len() - i,
    {
        if v[i].follower == Some(f) {
            proof {
                assert(v@.map_values(|m: Move| m.follower)[i as int] == Some(f));
            }
            return true;
        }
        i += 1;
    }
    proof {
        let fv = v@.map_values(|m: Move| m.follower);
        assert forall|j: int| 0 <= j < fv.len() implies fv[j] != Some(f) by {
            assert(v@[j].follower != Some(f));
        }
    }
    false
}

/// The moves of `moves` placing `tile` on `place` turned by `rotation` that
/// carry a follower, the first one for each follower pixel, in order.
pub fn follower_choices(moves: &Vec<Move>, tile: TileId, place: Place, rotation: Rotation) -> (r: Vec<Move>)
    ensures
        r@ == follower_variants(matching_moves(moves@, tile, place, rotation)),
{
    let ghost pred = |m: Move| places_as(m, tile, place, rotation);
    let mut r: Vec<Move> = Vec::new();
    let mut i: usize = 0;
    while i < moves.len()
        invariant
            i <= moves@.len(),
            pred == (|m: Move| places_as(m, tile, place, rotation)),
            r@ == follower_variants(moves@.take(i as int).filter(pred)),
        decreases moves@.len() - i,
    {
        let m = moves[i];
        proof {
            assert(moves@.take(i as int + 1) == moves@.take(i as int).push(m));
            moves@.take(i as int).lemma_filter_push(m, pred);
        }
        if m.tile == tile && m.place == place && m.rotation == rotation {
            proof {
                let f = moves@.take(i as int).filter(pred).push(m);
                assert(f.drop_last() == moves@.take(i as int).filter(pred));
            }
            match m.follower {
                Some(f) => {
                    if !has_follower_on(&r, f) {
                        r.push(m);
                    }
                },
                None => {},
            }
        }
        i += 1;
    }
    proof {
        assert(moves@.take(moves@.len() as int) == moves@);
    }
    r
}

/// The first move of `ms` without a follower, if any.
pub open spec fn first_plain(ms: Seq<Move>) -> Option<Move>
    decreases ms.len(),
{
    if ms.len() == 0 {
        None
    } else if ms[0].follower is None {
        Some(ms[0])
    } else {
        first_plain(ms.drop_first())
    }
}

/// The move a person asked for: the one placing `tile` on `place` turned by
/// `rotation`, without a follower when `meeple_index` is negative, else with
/// the follower option of that number (as `follower_choices` lists them).
pub fn find_matching_move(
    moves: &Vec<Move>,
    tile: TileId,
    place: Place,
    rotation: Rotation,
    meeple_index: i32,
) -> (r: Option<Move>)
    ensures
        meeple_index < 0 ==> r == first_plain(matching_moves(moves@, tile, place, rotation)),
        meeple_index >= 0 ==> r == (if meeple_index < follower_variants(matching_moves(moves@, tile, place, rotation)).len() {
            Some(follower_variants(matching_moves(moves@, tile, place, rotation))[meeple_index as int])
        } else {
            None
        }),
{
    if meeple_index < 0 {
        let ghost pred = |m: Move| places_as(m, tile, place, rotation);
        let mut i: usize = 0;
        proof {
            assert(moves@.skip(0) == moves@);
        }
        while i < moves.len()
            invariant
                meeple_index < 0,
                i <= moves@.len(),
                pred == (|m: Move| places_as(m, tile, place, rotation)),
                first_plain(moves@.filter(pred)) == first_plain(moves@.skip(i as int).filter(pred)),
            decreases moves@.len() - i,
        {
            let m = moves[i];
            proof {
                lemma_filter_skip(moves@, pred, i as int);
                let rest = moves@.skip(i as int + 1).filter(pred);
                assert((seq![m] + rest).drop_first() == rest);
                assert((seq![m] + rest)[0] == m);
            }
            if m.tile == tile && m.place == place && m.rotation == rotation && m.follower.is_none() {
                return Some(m);
            }
            i += 1;
        }
        proof {
            assert(moves@.skip(moves@.len() as int).filter(pred) =~= Seq::empty());
        }
        None
    } else {
        let choices = follower_choices(moves, tile, place, rotation);
        let k = meeple_index as usize;
        if k < choices.len() {
            Some(choices[k])
        } else {
            None
        }
    }
}

/// Filtering the rest of a list from position `i`: the element at `i` comes first when it passes.
proof fn lemma_filter_skip(s: Seq<Move>, p: spec_fn(Move) -> bool, i: int)
    requires
        0 <= i < s.len(),
    ensures
        s.skip(i).filter(p) == if p(s[i]) {
            seq![s[i]] + s.skip(i + 1).filter(p)
        } else {
            s.skip(i + 1).filter(p)
        },
{
    let t = s.skip(i);
    assert(t == seq![s[i]] + s.skip(i + 1));
    Seq::filter_distributes_over_add(seq![s[i]], s.skip(i + 1), p);
    let e = Seq::<Move>::empty();
    assert(seq![s[i]] == e.push(s[i]));
    e.lemma_filter_push(s[i], p);
    reveal(Seq::filter);
    assert(e.filter(p) =~= e);
}

/// The placements among `moves` (tile, place, rotation), each listed once, in order.
pub open spec fn distinct_placements_of(ms: Seq<Move>) -> Seq<(TileId, Place, Rotation)>
    decreases ms.len(),
{
    if ms.len() == 0 {
        Seq::empty()
    } else {
        let prev = distinct_placements_of(ms.drop_last());
        let key = (ms.last().tile, ms.last().place, ms.last().rotation);
        if prev.contains(key) {
            prev
        } else {
            prev.push(key)
        }
    }
}

fn contains_placement(v: &Vec<(TileId, Place, Rotation)>, key: (TileId, Place, Rotation)) -> (r: bool)
    ensures
        r == v@.contains(key),
{
    let mut i: usize = 0;
    while i < v.len()
        invariant
            i <= v@.len(),
            forall|j: int| 0 <= j < i ==> v@[j] != key,
        decreases v@.len() - i,
    {
        let e = v[i];
        if e.0 == key.0 && e.1 == key.1 && e.2 == key.2 {
            proof {
                assert(v@[i as int] == key);
            }
            return true;
        }
        i += 1;
    }
    false
}

/// The placements offered to a person: each (tile, place, rotation) of
/// `moves` once, in the order first met.
pub fn distinct_placements(moves: &Vec<Move>) -> (r: Vec<(TileId, Place, Rotation)>)
    ensures
        r@ == distinct_placements_of(moves@),
{
    let mut r: Vec<(TileId, Place, Rotation)> = Vec::new();
    let mut i: usize = 0;
    while i < moves.len()
        invariant
            i <= moves@.len(),
            r@ == distinct_placements_of(moves@.take(i as int)),
        decreases moves@.len() - i,
    {
        let m = moves[i];
        let key = (m.tile, m.place, m.rotation);
        proof {
            assert(moves@.take(i as int + 1).drop_last() == moves@.take(i as int));
            assert(moves@.take(i as int + 1).last() == m);
        }
        if !contains_placement(&r, key) {
            r.push(key);
        }
        i += 1;
    }
    proof {
        assert(moves@.take(moves@.len() as int) == moves@);
    }
    r
}

} // verus!
