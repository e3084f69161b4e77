use vstd::prelude::*;
use rand::rngs::ThreadRng;
use crate::game::{
    Game, Move, Place, PlayerId, from_placement, placement_move, move_candidate, same_placement, is_playable,
    place_playable, lemma_placement_is_candidate, spec_index_place, painted, move_played, end_steps, end_run,
    followers_on_scoring, same_game, lemma_end_run_unique, first_fit, draw_order, moves_considered, option_moves,
    all_options,
};
use crate::tile::TileId;
use crate::index::Index;
use crate::map::{abs_int, PixelMap};
use crate::random::thread_rng;
use crate::structures::{
    Structure, count_for, distinct_players, structures_of, lemma_structures_bounded, same_pixels, lemma_same_pixels_structure,
};
use crate::tile_pixel::TilePixel;

verus! {

/// A player's followers on a structure once it has put `nf` more there.
pub open spec fn bumped(l: Seq<(PlayerId, u32)>, player: PlayerId, nf: bool, q: PlayerId) -> int {
    count_for(l, q.0) + if nf && q == player { 1int } else { 0int }
}

/// `player` has followers on the structure and no one has more.
pub open spec fn has_majority(l: Seq<(PlayerId, u32)>, player: PlayerId, nf: bool) -> bool {
    &&& bumped(l, player, nf, player) > 0
    &&& forall|k: int| 0 <= k < l.len() ==> bumped(l, player, nf, #[trigger] l[k].0) <= bumped(l, player, nf, player)
}

/// The points `player` would score on `s`, counting `nf` more of its followers.
pub open spec fn spec_points(s: Structure, player: PlayerId, nf: bool) -> u32 {
    if has_majority(s.followers_number@, player, nf) {
        s.points
    } else {
        0
    }
}

proof fn lemma_count_for_entry(l: Seq<(PlayerId, u32)>, k: int)
    requires
        distinct_players(l),
        0 <= k < l.len(),
    ensures
        count_for(l, l[k].0.0) == l[k].1,
{
    let c = choose|c: int| 0 <= c < l.len() && (#[trigger] l[c]).0 == PlayerId(l[k].0.0);
    if c != k {
        if c < k {
            assert(l[c].0 != l[k].0);
        } else {
            assert(l[k].0 != l[c].0);
        }
    }
}

/// What the builder counts on a structure: the structure's points when the
/// player, counting the follower the move puts there, has followers on it
/// and no other player has more; nothing when it has none there, or when
/// some other player has more.
pub proof fn lemma_builder_points(s: Structure, player: PlayerId, nf: bool)
    requires
        distinct_players(s.followers_number@),
    ensures
        spec_points(s, player, nf) == s.points || spec_points(s, player, nf) == 0,
        count_for(s.followers_number@, player.0) == 0 && !nf ==> spec_points(s, player, nf) == 0,
        (exists|k: int|
            0 <= k < s.followers_number@.len() && s.followers_number@[k].0 != player && #[trigger] s.followers_number@[k].1
                > count_for(s.followers_number@, player.0) + (if nf { 1int } else { 0int })) ==> spec_points(s, player, nf)
            == 0,
        count_for(s.followers_number@, player.0) + (if nf { 1int } else { 0int }) > 0 && (forall|k: int|
            0 <= k < s.followers_number@.len() && s.followers_number@[k].0 != player ==> #[trigger] s.followers_number@[k].1
                <= count_for(s.followers_number@, player.0) + (if nf { 1int } else { 0int })) ==> spec_points(s, player, nf)
            == s.points,
{
    let l = s.followers_number@;
    assert forall|k: int| 0 <= k < l.len() implies bumped(l, player, nf, #[trigger] l[k].0) == l[k].1 + (if nf && l[k].0
        == player { 1int } else { 0int }) by {
        lemma_count_for_entry(l, k);
    }
    if exists|k: int|
        0 <= k < l.len() && l[k].0 != player && #[trigger] l[k].1 > count_for(l, player.0) + (if nf { 1int } else { 0int }) {
        let k = choose|k: int|
            0 <= k < l.len() && l[k].0 != player && #[trigger] l[k].1 > count_for(l, player.0) + (if nf { 1int } else { 0int });
        assert(bumped(l, player, nf, l[k].0) > bumped(l, player, nf, player));
    }
}

/// The points `player` scores on `structure` if it has the most followers
/// there, counting one more when `new_follower` is set; otherwise 0.
pub fn get_points(structure: &Structure, player: PlayerId, new_follower: bool) -> (r: u32)
    requires
        distinct_players(structure.followers_number@),
    ensures
        r == spec_points(*structure, player, new_follower),
{
    let l = &structure.followers_number;
    let mut own: u64 = 0;
    let mut i: usize = 0;
    while i < l.len()
        invariant
            l@ == structure.followers_number@,
            i <= l@.len(),
            distinct_players(l@),
            (exists|k: int| 0 <= k < i && (#[trigger] l@[k]).0 == player) ==> own == count_for(l@, player.0),
            (forall|k: int| 0 <= k < i ==> (#[trigger] l@[k]).0 != player) ==> own == 0,
        decreases l@.len() - i,
    {
        if l[i].0 == player {
            own = l[i].1 as u64;
            proof {
                lemma_count_for_entry(l@, i as int);
            }
        }
        i += 1;
    }
    proof {
        if !(exists|k: int| 0 <= k < l@.len() && (#[trigger] l@[k]).0 == PlayerId(player.0)) {
            assert(count_for(l@, player.0) == 0);
        }
    }
    if new_follower {
        own = own + 1;
    }
    proof {
        assert(own == bumped(l@, player, new_follower, player));
    }
    if own == 0 {
        return 0;
    }
    let mut k: usize = 0;
    while k < l.len()
        invariant
            l@ == structure.followers_number@,
            k <= l@.len(),
            distinct_players(l@),
            own == bumped(l@, player, new_follower, player),
            own > 0,
            forall|j: int| 0 <= j < k ==> bumped(l@, player, new_follower, #[trigger] l@[j].0) <= own,
        decreases l@.len() - k,
    {
        let c: u64 = if l[k].0 == player { own } else { l[k].1 as u64 };
        proof {
            lemma_count_for_entry(l@, k as int);
            assert(c == bumped(l@, player, new_follower, l@[k as int].0));
        }
        if c > own {
            proof {
                assert(bumped(l@, player, new_follower, l@[k as int].0) > bumped(l@, player, new_follower, player));
                assert(!has_majority(l@, player, new_follower));
            }
            return 0;
        }
        k += 1;
    }
    structure.points
}

/// The player `heurestic` weighs `player` against: the first other player.
pub open spec fn opponent_of(player: PlayerId) -> PlayerId {
    if player.0 == 0 { PlayerId(1) } else { PlayerId(0) }
}

/// Points of an unfinished city count half.
pub open spec fn weighed(m: PixelMap, s: Structure, points: u32) -> u32 {
    if !s.completed && (m.at_index(s.seed) == TilePixel::City || m.at_index(s.seed) == TilePixel::PennantCity) {
        points / 2
    } else {
        points
    }
}

/// `a - b` taken modulo 2^32.
pub open spec fn wrapped_diff(a: u32, b: u32) -> u32 {
    if a >= b { (a - b) as u32 } else { (a - b + 0x1_0000_0000) as u32 }
}

/// How much better `structure` is for `player` than for its opponent, with an
/// unfinished city worth half; the difference is taken modulo 2^32, as a
/// release build computes it.
pub fn heurestic(game: &Game, structure: &Structure, player: PlayerId, new_follower: bool) -> (r: u32)
    requires
        game.wf(),
        distinct_players(structure.followers_number@),
    ensures
        r == wrapped_diff(
            weighed(game.spec_map(), *structure, spec_points(*structure, player, new_follower)),
            weighed(game.spec_map(), *structure, spec_points(*structure, opponent_of(player), false)),
        ),
{
    let opponent = if player.0 == 0 { PlayerId(1) } else { PlayerId(0) };
    let seed_pixel = game.pixel_at(structure.seed);
    let halve = !structure.completed && (seed_pixel == TilePixel::City || seed_pixel == TilePixel::PennantCity);
    let mine = get_points(structure, player, new_follower);
    let theirs = get_points(structure, opponent, false);
    let a = if halve { mine / 2 } else { mine };
    let b = if halve { theirs / 2 } else { theirs };
    if a >= b {
        a - b
    } else {
        ((a as u64 + 0x1_0000_0000u64) - b as u64) as u32
    }
}

/// The parts of a game other than the board are as they were.
pub open spec fn kept_but_board(a: Game, b: Game) -> bool {
    &&& b.wf()
    &&& b.spec_move_num() == a.spec_move_num()
    &&& b.spec_tiles() == a.spec_tiles()
    &&& b.spec_tiles_left() == a.spec_tiles_left()
    &&& b.spec_free_places() == a.spec_free_places()
    &&& b.spec_followers() == a.spec_followers()
    &&& b.spec_followers_left() == a.spec_followers_left()
    &&& b.spec_score() == a.spec_score()
    &&& b.spec_settings() == a.spec_settings()
}

/// A game-playing engine: given the game and the player to move, it picks a move.
pub trait CarcassonneEngine {
    /// `r` is an answer this engine may give when asked for `player`'s move
    /// in game `g`.
    spec fn chooses(&self, g: Game, player: PlayerId, r: Option<Move>) -> bool;

    fn play_move(&mut self, game: &mut Game, player: PlayerId) -> (r: Option<Move>)
        requires
            old(game).wf(),
            player.0 < old(game).spec_followers_left().len(),
        ensures
            kept_but_board(*old(game), *final(game)),
            cleared(old(game).spec_map(), old(game).spec_free_places(), final(game).spec_map()),
            r is None <==> forall|m: Move| !placement_move(*old(game), player, m),
            r matches Some(m) ==> move_candidate(*old(game), player, m),
            old(self).chooses(*old(game), player, r),
    ;
}

/// How an engine values a structure of a move.
pub enum Valuation {
    /// The points the player would score there.
    Builder,
    /// The points of completed structures; one point for a follower put on an unfinished one.
    Completer,
    /// The points against the opponent's, unfinished cities at half.
    Heurestic,
}

/// Whether move `mov` puts its follower on the seed of structure `s`.
pub open spec fn new_follower_on(mov: Move, s: Structure) -> bool {
    match mov.follower {
        Some(f) => f == s.seed,
        None => false,
    }
}

/// What structure `s` of move `mov` is worth to `player` as `how` values it,
/// on board `m`.
pub open spec fn spec_structure_value(m: PixelMap, s: Structure, mov: Move, player: PlayerId, how: Valuation) -> u32 {
    let nf = new_follower_on(mov, s);
    match how {
        Valuation::Builder => spec_points(s, player, nf),
        Valuation::Completer => if !s.completed {
            if nf { 1 } else { 0 }
        } else {
            spec_points(s, player, nf)
        },
        Valuation::Heurestic => wrapped_diff(
            weighed(m, s, spec_points(s, player, nf)),
            weighed(m, s, spec_points(s, opponent_of(player), false)),
        ),
    }
}

/// The completer's valuation: an unfinished structure is worth one point
/// when the move puts its follower on it (on the structure's seed) and
/// nothing otherwise; a completed one is worth what the player would score
/// there, as the builder values it.
pub proof fn lemma_completer_values(m: PixelMap, s: Structure, mov: Move, player: PlayerId)
    ensures
        !s.completed ==> spec_structure_value(m, s, mov, player, Valuation::Completer) == (if mov.follower == Some(
            s.seed,
        ) {
            1u32
        } else {
            0u32
        }),
        s.completed ==> spec_structure_value(m, s, mov, player, Valuation::Completer) == spec_structure_value(
            m,
            s,
            mov,
            player,
            Valuation::Builder,
        ),
{
}

/// The heuristic's valuation: the points the player would score there
/// (counting the follower the move puts on the structure's seed) less the
/// points its opponent would, both halved (rounding down) for an unfinished
/// city, the difference taken modulo 2^32; the builder counts the player's
/// points alone.
pub proof fn lemma_heurestic_values(m: PixelMap, s: Structure, mov: Move, player: PlayerId)
    ensures
        ({
            let mine = spec_points(s, player, mov.follower == Some(s.seed)) as int;
            let theirs = spec_points(s, opponent_of(player), false) as int;
            let halve = !s.completed && (m.at_index(s.seed) == TilePixel::City || m.at_index(s.seed)
                == TilePixel::PennantCity);
            spec_structure_value(m, s, mov, player, Valuation::Heurestic) as int == (if halve {
                mine / 2 - theirs / 2
            } else {
                mine - theirs
            }) % 0x1_0000_0000
        }),
        spec_structure_value(m, s, mov, player, Valuation::Builder) == spec_points(
            s,
            player,
            mov.follower == Some(s.seed),
        ),
{
}

/// What the structures `ss` of move `mov` are worth together.
pub open spec fn total_value(m: PixelMap, ss: Seq<Structure>, mov: Move, player: PlayerId, how: Valuation) -> int
    decreases ss.len(),
{
    if ss.len() == 0 {
        0
    } else {
        total_value(m, ss.drop_last(), mov, player, how) + spec_structure_value(m, ss.last(), mov, player, how)
    }
}

/// `ss` are the structures that playing `mov` on the board of `g` would touch.
pub open spec fn touched(g: Game, mov: Move, ss: Seq<Structure>) -> bool {
    exists|m: PixelMap|
        painted(g.spec_map(), m, g.spec_tiles()[mov.tile.0 as int], mov.rotation, mov.place) && #[trigger] structures_of(
            m,
            g.spec_followers(),
            g.spec_settings(),
            mov.place,
            true,
            ss,
        )
}

/// Boards that agree on every pixel touch the same structures and value them alike.
proof fn lemma_same_board(a: Game, b: Game, mov: Move, ss: Seq<Structure>, player: PlayerId, how: Valuation)
    requires
        forall|i: Index| #[trigger] a.spec_map().at_index(i) == b.spec_map().at_index(i),
        a.spec_tiles() == b.spec_tiles(),
        a.spec_followers() == b.spec_followers(),
        a.spec_settings() == b.spec_settings(),
    ensures
        touched(a, mov, ss) ==> touched(b, mov, ss),
        total_value(a.spec_map(), ss, mov, player, how) == total_value(b.spec_map(), ss, mov, player, how),
    decreases ss.len(),
{
    if touched(a, mov, ss) {
        let m = choose|m: PixelMap|
            painted(a.spec_map(), m, a.spec_tiles()[mov.tile.0 as int], mov.rotation, mov.place) && #[trigger] structures_of(
                m,
                a.spec_followers(),
                a.spec_settings(),
                mov.place,
                true,
                ss,
            );
        assert(painted(b.spec_map(), m, b.spec_tiles()[mov.tile.0 as int], mov.rotation, mov.place));
    }
    if ss.len() > 0 {
        lemma_same_board(a, b, mov, ss.drop_last(), player, how);
        assert(a.spec_map().at_index(ss.last().seed) == b.spec_map().at_index(ss.last().seed));
    }
}

fn structure_value(game: &Game, s: &Structure, mov: &Move, player: PlayerId, how: &Valuation) -> (r: u32)
    requires
        game.wf(),
        distinct_players(s.followers_number@),
    ensures
        r == spec_structure_value(game.spec_map(), *s, *mov, player, *how),
{
    let new_follower = match mov.follower {
        Some(f) => f == s.seed,
        None => false,
    };
    match how {
        Valuation::Builder => get_points(s, player, new_follower),
        Valuation::Completer => {
            if !s.completed {
                if new_follower { 1 } else { 0 }
            } else {
                get_points(s, player, new_follower)
            }
        },
        Valuation::Heurestic => heurestic(game, s, player, new_follower),
    }
}

/// `m` is board `base` with, at most, some of the places of `free` cleared.
pub open spec fn cleared(base: PixelMap, free: Seq<Place>, m: PixelMap) -> bool {
    forall|i: Index|
        #[trigger] m.at_index(i) == base.at_index(i) || (free.contains(spec_index_place(i)) && m.at_index(i)
            == TilePixel::Nothing)
}

/// The score of `p` in score table `s`, 0 when it has none.
pub open spec fn score_of(s: Seq<u32>, p: PlayerId) -> int {
    if (p.0 as int) < s.len() {
        s[p.0 as int] as int
    } else {
        0
    }
}

/// `v` is what `player` leads `opponent` by once game `g`, on board `m`, is
/// ended: every follower's structure scored at end-of-game values until no
/// follower is left, or the scores as they stand when some follower stands
/// on no scoring pixel.
pub open spec fn ended_lead(m: PixelMap, g: Game, player: PlayerId, opponent: PlayerId, v: int) -> bool {
    if followers_on_scoring(m, g.spec_settings(), g.spec_followers()) {
        exists|ss: Seq<Structure>|
            #[trigger] end_steps(m, g.spec_settings(), g.spec_score(), g.spec_followers_left(), g.spec_followers(), ss)
                && end_run(g.spec_score(), g.spec_followers_left(), g.spec_followers(), ss).2.len() == 0
                && v == score_of(end_run(g.spec_score(), g.spec_followers_left(), g.spec_followers(), ss).0, player)
                - score_of(end_run(g.spec_score(), g.spec_followers_left(), g.spec_followers(), ss).0, opponent)
    } else {
        v == score_of(g.spec_score(), player) - score_of(g.spec_score(), opponent)
    }
}

/// The lead once a game is ended on a given board is a single number.
pub proof fn lemma_ended_lead_unique(m: PixelMap, g: Game, player: PlayerId, opponent: PlayerId, v1: int, v2: int)
    requires
        ended_lead(m, g, player, opponent, v1),
        ended_lead(m, g, player, opponent, v2),
    ensures
        v1 == v2,
{
    if followers_on_scoring(m, g.spec_settings(), g.spec_followers()) {
        let ss1 = choose|ss: Seq<Structure>|
            #[trigger] end_steps(m, g.spec_settings(), g.spec_score(), g.spec_followers_left(), g.spec_followers(), ss)
                && end_run(g.spec_score(), g.spec_followers_left(), g.spec_followers(), ss).2.len() == 0
                && v1 == score_of(end_run(g.spec_score(), g.spec_followers_left(), g.spec_followers(), ss).0, player)
                - score_of(end_run(g.spec_score(), g.spec_followers_left(), g.spec_followers(), ss).0, opponent);
        let ss2 = choose|ss: Seq<Structure>|
            #[trigger] end_steps(m, g.spec_settings(), g.spec_score(), g.spec_followers_left(), g.spec_followers(), ss)
                && end_run(g.spec_score(), g.spec_followers_left(), g.spec_followers(), ss).2.len() == 0
                && v2 == score_of(end_run(g.spec_score(), g.spec_followers_left(), g.spec_followers(), ss).0, player)
                - score_of(end_run(g.spec_score(), g.spec_followers_left(), g.spec_followers(), ss).0, opponent);
        lemma_end_run_unique(m, g.spec_settings(), g.spec_score(), g.spec_followers_left(), g.spec_followers(), ss1, ss2);
    }
}

/// `v` is the evaluation of `g` for `player` against `opponent`: its ended
/// lead, on its own board (a board holding the same pixels).
pub open spec fn evaluation(g: Game, player: PlayerId, opponent: PlayerId, v: int) -> bool {
    exists|m: PixelMap| same_pixels(m, g.spec_map()) && #[trigger] ended_lead(m, g, player, opponent, v)
}

/// The value a search starts from before any move is looked at.
pub open spec fn sentinel(maximizing: bool) -> int {
    if maximizing {
        i64::MIN as int
    } else {
        i64::MAX as int
    }
}

/// Whose turn it is in a search: `player` when `maximizing`, else `opponent`.
pub open spec fn mover(maximizing: bool, player: PlayerId, opponent: PlayerId) -> PlayerId {
    if maximizing {
        player
    } else {
        opponent
    }
}

/// `ms` lists the moves of `player` in `g` as `Game::get_moves` gives them
/// (the follower variants, then the placements), and `g1` is `g` as listing
/// them leaves it: the places of the placements blank, all else kept.
pub open spec fn move_list(g: Game, player: PlayerId, ms: Seq<Move>, g1: Game) -> bool {
    &&& kept_but_board(g, g1)
    &&& cleared(g.spec_map(), g.spec_free_places(), g1.spec_map())
    &&& exists|pm: Seq<Move>, sss: Seq<Seq<Structure>>|
        pm.no_duplicates() && (forall|m: Move| pm.contains(m) <==> placement_move(g, player, m)) && (forall|i: Index|
            #[trigger] g1.spec_map().at_index(i) == crate::game::blanked(g.spec_map(), pm, i))
            && #[trigger] crate::game::moves_considered(g, pm, sss) && ms == crate::game::option_moves(
            crate::game::all_options(pm, sss, g.spec_followers_left(), pm.len() as int),
        ) + pm
}

/// Move `m` can be played in a search from `g`: its place lies on the board
/// the map can hold, and the move counter can count one more.
pub open spec fn searchable(g: Game, m: Move) -> bool {
    place_playable(m.place) && g.spec_move_num() < u32::MAX
}

/// `h` is a copy of `g1` with move `m` played on it.
pub open spec fn played_from(g1: Game, m: Move, h: Game) -> bool {
    exists|c: Game| #![trigger move_played(c, h, m)] same_game(c, g1) && c.wf() && move_played(c, h, m) && h.wf()
}

/// The minimax value of `g`, looking `depth` moves ahead with `player`
/// maximizing and `opponent` minimizing (`maximizing` says who moves first),
/// is at most `v`. Where the search stops (no moves left to look at, or no
/// placement) the value is the evaluation; a position whose moves all lie
/// beyond the board is worth the search's starting value; otherwise the
/// maximizer's value is the greatest of its moves' values and the
/// minimizer's the least.
pub open spec fn value_at_most(g: Game, depth: nat, maximizing: bool, player: PlayerId, opponent: PlayerId, v: int) -> bool
    decreases depth,
{
    let current = mover(maximizing, player, opponent);
    if depth == 0 || (forall|m: Move| !placement_move(g, current, m)) {
        exists|w: int| #[trigger] evaluation(g, player, opponent, w) && w <= v
    } else {
        exists|ms: Seq<Move>, g1: Game|
            #[trigger] move_list(g, current, ms, g1) && if forall|k: int| 0 <= k < ms.len() ==> !searchable(g, #[trigger] ms[k]) {
                sentinel(maximizing) <= v
            } else if maximizing {
                forall|k: int|
                    0 <= k < ms.len() && searchable(g, #[trigger] ms[k]) ==> exists|h: Game|
                        #[trigger] played_from(g1, ms[k], h) && value_at_most(h, (depth - 1) as nat, false, player, opponent, v)
            } else {
                exists|k: int, h: Game|
                    0 <= k < ms.len() && searchable(g, ms[k]) && #[trigger] played_from(g1, ms[k], h) && value_at_most(
                        h,
                        (depth - 1) as nat,
                        true,
                        player,
                        opponent,
                        v,
                    )
            }
    }
}

/// The minimax value of `g` (as for `value_at_most`) is at least `v`.
pub open spec fn value_at_least(g: Game, depth: nat, maximizing: bool, player: PlayerId, opponent: PlayerId, v: int) -> bool
    decreases depth,
{
    let current = mover(maximizing, player, opponent);
    if depth == 0 || (forall|m: Move| !placement_move(g, current, m)) {
        exists|w: int| #[trigger] evaluation(g, player, opponent, w) && v <= w
    } else {
        exists|ms: Seq<Move>, g1: Game|
            #[trigger] move_list(g, current, ms, g1) && if forall|k: int| 0 <= k < ms.len() ==> !searchable(g, #[trigger] ms[k]) {
                v <= sentinel(maximizing)
            } else if maximizing {
                exists|k: int, h: Game|
                    0 <= k < ms.len() && searchable(g, ms[k]) && #[trigger] played_from(g1, ms[k], h) && value_at_least(
                        h,
                        (depth - 1) as nat,
                        false,
                        player,
                        opponent,
                        v,
                    )
            } else {
                forall|k: int|
                    0 <= k < ms.len() && searchable(g, #[trigger] ms[k]) ==> exists|h: Game|
                        #[trigger] played_from(g1, ms[k], h) && value_at_least(h, (depth - 1) as nat, true, player, opponent, v)
            }
    }
}

/// `v` is the minimax value of `g`, looking `depth` moves ahead.
pub open spec fn minimax_value(g: Game, depth: nat, maximizing: bool, player: PlayerId, opponent: PlayerId, v: int) -> bool {
    value_at_most(g, depth, maximizing, player, opponent, v) && value_at_least(g, depth, maximizing, player, opponent, v)
}

/// Move `m` is one of the moves listed in `g`, and the position it leads to
/// has minimax value `v`, looking `depth` more moves ahead.
pub open spec fn reaches(g: Game, depth: nat, maximizing: bool, player: PlayerId, opponent: PlayerId, m: Move, v: int) -> bool {
    exists|ms: Seq<Move>, g1: Game, h: Game|
        #![trigger move_list(g, mover(maximizing, player, opponent), ms, g1), played_from(g1, m, h)]
        move_list(g, mover(maximizing, player, opponent), ms, g1) && ms.contains(m) && searchable(g, m) && played_from(
            g1,
            m,
            h,
        ) && minimax_value(h, depth, !maximizing, player, opponent, v)
}

/// From the view of the side to move (`maximizing` or not), the value of
/// the position `h` its move leads to is no better for it than `v`.
pub open spec fn capped(h: Game, depth: nat, maximizing: bool, player: PlayerId, opponent: PlayerId, v: int) -> bool {
    if maximizing {
        value_at_most(h, depth, false, player, opponent, v)
    } else {
        value_at_least(h, depth, true, player, opponent, v)
    }
}

/// From the view of the side to move, the value of the position `h` its move
/// leads to is at least as good for it as `v`.
pub open spec fn reached(h: Game, depth: nat, maximizing: bool, player: PlayerId, opponent: PlayerId, v: int) -> bool {
    if maximizing {
        value_at_least(h, depth, false, player, opponent, v)
    } else {
        value_at_most(h, depth, true, player, opponent, v)
    }
}

/// `v` has left the starting edge of the window (`alpha`, `beta`) on the
/// side of the player to move.
pub open spec fn improved(maximizing: bool, v: int, alpha: int, beta: int) -> bool {
    if maximizing {
        alpha < v
    } else {
        v < beta
    }
}

/// Moving the cap in favour of the side to move keeps every move's cap.
proof fn lemma_capped_prefix(
    g0: Game,
    g1: Game,
    moves: Seq<Move>,
    n: int,
    depth: nat,
    maximizing: bool,
    player: PlayerId,
    opponent: PlayerId,
    v: int,
    v2: int,
)
    requires
        if maximizing { v <= v2 } else { v2 <= v },
        forall|k: int|
            0 <= k < n && searchable(g0, #[trigger] moves[k]) ==> exists|h: Game|
                #[trigger] played_from(g1, moves[k], h) && capped(h, depth, maximizing, player, opponent, v),
    ensures
        forall|k: int|
            0 <= k < n && searchable(g0, #[trigger] moves[k]) ==> exists|h: Game|
                #[trigger] played_from(g1, moves[k], h) && capped(h, depth, maximizing, player, opponent, v2),
{
    assert forall|k: int| 0 <= k < n && searchable(g0, #[trigger] moves[k]) implies exists|h: Game|
        #[trigger] played_from(g1, moves[k], h) && capped(h, depth, maximizing, player, opponent, v2) by {
        let h = choose|h: Game| #[trigger] played_from(g1, moves[k], h) && capped(h, depth, maximizing, player, opponent, v);
        lemma_value_bounds_loosen(h, depth, !maximizing, player, opponent, v, v2);
    }
}

/// A bound that holds of the value of `g` holds of any looser bound.
proof fn lemma_value_bounds_loosen(
    g: Game,
    depth: nat,
    maximizing: bool,
    player: PlayerId,
    opponent: PlayerId,
    v: int,
    v2: int,
)
    ensures
        value_at_most(g, depth, maximizing, player, opponent, v) && v <= v2 ==> value_at_most(
            g,
            depth,
            maximizing,
            player,
            opponent,
            v2,
        ),
        value_at_least(g, depth, maximizing, player, opponent, v) && v2 <= v ==> value_at_least(
            g,
            depth,
            maximizing,
            player,
            opponent,
            v2,
        ),
    decreases depth,
{
    if value_at_most(g, depth, maximizing, player, opponent, v) && v <= v2 {
        lemma_at_most_loosen(g, depth, maximizing, player, opponent, v, v2);
    }
    if value_at_least(g, depth, maximizing, player, opponent, v) && v2 <= v {
        lemma_at_least_loosen(g, depth, maximizing, player, opponent, v, v2);
    }
}

proof fn lemma_at_most_loosen(g: Game, depth: nat, maximizing: bool, player: PlayerId, opponent: PlayerId, v: int, v2: int)
    requires
        value_at_most(g, depth, maximizing, player, opponent, v),
        v <= v2,
    ensures
        value_at_most(g, depth, maximizing, player, opponent, v2),
    decreases depth, 0int,
{
    let current = mover(maximizing, player, opponent);
    if depth == 0 || (forall|m: Move| !placement_move(g, current, m)) {
    } else {
        let (ms, g1) = choose|ms: Seq<Move>, g1: Game|
            #[trigger] move_list(g, current, ms, g1) && if forall|k: int| 0 <= k < ms.len() ==> !searchable(g, #[trigger] ms[k]) {
                sentinel(maximizing) <= v
            } else if maximizing {
                forall|k: int|
                    0 <= k < ms.len() && searchable(g, #[trigger] ms[k]) ==> exists|h: Game|
                        #[trigger] played_from(g1, ms[k], h) && value_at_most(h, (depth - 1) as nat, false, player, opponent, v)
            } else {
                exists|k: int, h: Game|
                    0 <= k < ms.len() && searchable(g, ms[k]) && #[trigger] played_from(g1, ms[k], h) && value_at_most(
                        h,
                        (depth - 1) as nat,
                        true,
                        player,
                        opponent,
                        v,
                    )
            };
        if forall|k: int| 0 <= k < ms.len() ==> !searchable(g, #[trigger] ms[k]) {
        } else if maximizing {
            assert forall|k: int| 0 <= k < ms.len() && searchable(g, #[trigger] ms[k]) implies exists|h: Game|
                #[trigger] played_from(g1, ms[k], h) && value_at_most(h, (depth - 1) as nat, false, player, opponent, v2) by {
                let h = choose|h: Game|
                    #[trigger] played_from(g1, ms[k], h) && value_at_most(h, (depth - 1) as nat, false, player, opponent, v);
                lemma_at_most_loosen(h, (depth - 1) as nat, false, player, opponent, v, v2);
            }
        } else {
            let (k, h) = choose|k: int, h: Game|
                0 <= k < ms.len() && searchable(g, ms[k]) && #[trigger] played_from(g1, ms[k], h) && value_at_most(
                    h,
                    (depth - 1) as nat,
                    true,
                    player,
                    opponent,
                    v,
                );
            lemma_at_most_loosen(h, (depth - 1) as nat, true, player, opponent, v, v2);
        }
    }
}

proof fn lemma_at_least_loosen(g: Game, depth: nat, maximizing: bool, player: PlayerId, opponent: PlayerId, v: int, v2: int)
    requires
        value_at_least(g, depth, maximizing, player, opponent, v),
        v2 <= v,
    ensures
        value_at_least(g, depth, maximizing, player, opponent, v2),
    decreases depth, 0int,
{
    let current = mover(maximizing, player, opponent);
    if depth == 0 || (forall|m: Move| !placement_move(g, current, m)) {
    } else {
        let (ms, g1) = choose|ms: Seq<Move>, g1: Game|
            #[trigger] move_list(g, current, ms, g1) && if forall|k: int| 0 <= k < ms.len() ==> !searchable(g, #[trigger] ms[k]) {
                v <= sentinel(maximizing)
            } else if maximizing {
                exists|k: int, h: Game|
                    0 <= k < ms.len() && searchable(g, ms[k]) && #[trigger] played_from(g1, ms[k], h) && value_at_least(
                        h,
                        (depth - 1) as nat,
                        false,
                        player,
                        opponent,
                        v,
                    )
            } else {
                forall|k: int|
                    0 <= k < ms.len() && searchable(g, #[trigger] ms[k]) ==> exists|h: Game|
                        #[trigger] played_from(g1, ms[k], h) && value_at_least(h, (depth - 1) as nat, true, player, opponent, v)
            };
        if forall|k: int| 0 <= k < ms.len() ==> !searchable(g, #[trigger] ms[k]) {
        } else if maximizing {
            let (k, h) = choose|k: int, h: Game|
                0 <= k < ms.len() && searchable(g, ms[k]) && #[trigger] played_from(g1, ms[k], h) && value_at_least(
                    h,
                    (depth - 1) as nat,
                    false,
                    player,
                    opponent,
                    v,
                );
            lemma_at_least_loosen(h, (depth - 1) as nat, false, player, opponent, v, v2);
        } else {
            assert forall|k: int| 0 <= k < ms.len() && searchable(g, #[trigger] ms[k]) implies exists|h: Game|
                #[trigger] played_from(g1, ms[k], h) && value_at_least(h, (depth - 1) as nat, true, player, opponent, v2) by {
                let h = choose|h: Game|
                    #[trigger] played_from(g1, ms[k], h) && value_at_least(h, (depth - 1) as nat, true, player, opponent, v);
                lemma_at_least_loosen(h, (depth - 1) as nat, true, player, opponent, v, v2);
            }
        }
    }
}

/// Clearing free places of a board whose free places were cleared clears
/// free places of the first board.
proof fn lemma_cleared_twice(g0: Game, g1: Game, m: PixelMap)
    requires
        kept_but_board(g0, g1),
        cleared(g0.spec_map(), g0.spec_free_places(), g1.spec_map()),
        cleared(g1.spec_map(), g1.spec_free_places(), m),
    ensures
        cleared(g0.spec_map(), g0.spec_free_places(), m),
{
    assert forall|idx: Index| #[trigger] m.at_index(idx) == g0.spec_map().at_index(idx) || (
    g0.spec_free_places().contains(spec_index_place(idx)) && m.at_index(idx) == TilePixel::Nothing) by {
        assert(m.at_index(idx) == g1.spec_map().at_index(idx) || (g1.spec_free_places().contains(spec_index_place(idx))
            && m.at_index(idx) == TilePixel::Nothing));
        assert(g1.spec_map().at_index(idx) == g0.spec_map().at_index(idx) || (g0.spec_free_places().contains(
            spec_index_place(idx),
        ) && g1.spec_map().at_index(idx) == TilePixel::Nothing));
    }
}

/// The lead once a game is ended reads the board only through its pixels.
proof fn lemma_ended_lead_same_pixels(m1: PixelMap, m2: PixelMap, g: Game, player: PlayerId, opponent: PlayerId, v: int)
    requires
        same_pixels(m1, m2),
        ended_lead(m1, g, player, opponent, v),
    ensures
        ended_lead(m2, g, player, opponent, v),
{
    assert(followers_on_scoring(m1, g.spec_settings(), g.spec_followers()) == followers_on_scoring(
        m2,
        g.spec_settings(),
        g.spec_followers(),
    )) by {
        assert forall|k: int| 0 <= k < g.spec_followers().len() implies m1.at_index(#[trigger] g.spec_followers()[k].0)
            == m2.at_index(g.spec_followers()[k].0) by {}
    }
    if followers_on_scoring(m1, g.spec_settings(), g.spec_followers()) {
        let ss = choose|ss: Seq<Structure>|
            #[trigger] end_steps(m1, g.spec_settings(), g.spec_score(), g.spec_followers_left(), g.spec_followers(), ss)
                && end_run(g.spec_score(), g.spec_followers_left(), g.spec_followers(), ss).2.len() == 0
                && v == score_of(end_run(g.spec_score(), g.spec_followers_left(), g.spec_followers(), ss).0, player)
                - score_of(end_run(g.spec_score(), g.spec_followers_left(), g.spec_followers(), ss).0, opponent);
        lemma_end_steps_same_pixels(m1, m2, g.spec_settings(), g.spec_score(), g.spec_followers_left(), g.spec_followers(), ss);
    }
}

/// End-of-game scoring reads the board only through its pixels.
proof fn lemma_end_steps_same_pixels(
    m1: PixelMap,
    m2: PixelMap,
    st: crate::game::GameSettings,
    score: Seq<u32>,
    left: Seq<u32>,
    fs: Seq<(Index, PlayerId)>,
    ss: Seq<Structure>,
)
    requires
        same_pixels(m1, m2),
        end_steps(m1, st, score, left, fs, ss),
    ensures
        end_steps(m2, st, score, left, fs, ss),
    decreases ss.len(),
{
    if ss.len() > 0 {
        lemma_end_steps_same_pixels(m1, m2, st, score, left, fs, ss.drop_last());
        let p = end_run(score, left, fs, ss.drop_last());
        lemma_same_pixels_structure(m1, m2, p.2, st, false, p.2[0].0, ss.last());
    }
}

/// The evaluation of a game is a single number: its lead once it is ended.
pub proof fn lemma_evaluation_unique(g: Game, player: PlayerId, opponent: PlayerId, v1: int, v2: int)
    requires
        evaluation(g, player, opponent, v1),
        evaluation(g, player, opponent, v2),
    ensures
        v1 == v2,
{
    let m1 = choose|m: PixelMap| same_pixels(m, g.spec_map()) && #[trigger] ended_lead(m, g, player, opponent, v1);
    let m2 = choose|m: PixelMap| same_pixels(m, g.spec_map()) && #[trigger] ended_lead(m, g, player, opponent, v2);
    assert(same_pixels(m1, m2)) by {
        assert forall|i: Index| #[trigger] m1.at_index(i) == m2.at_index(i) by {
            assert(m1.at_index(i) == g.spec_map().at_index(i));
            assert(m2.at_index(i) == g.spec_map().at_index(i));
        }
    }
    lemma_ended_lead_same_pixels(m1, m2, g, player, opponent, v1);
    lemma_ended_lead_unique(m2, g, player, opponent, v1, v2);
}

/// The evaluation does not change with a board holding the same pixels.
proof fn lemma_evaluation_same_pixels(g: Game, g1: Game, player: PlayerId, opponent: PlayerId, v: int)
    requires
        kept_but_board(g, g1),
        same_pixels(g1.spec_map(), g.spec_map()),
        evaluation(g1, player, opponent, v),
    ensures
        evaluation(g, player, opponent, v),
{
    let m = choose|m: PixelMap| same_pixels(m, g1.spec_map()) && #[trigger] ended_lead(m, g1, player, opponent, v);
    assert(same_pixels(m, g.spec_map())) by {
        assert forall|i: Index| #[trigger] m.at_index(i) == g.spec_map().at_index(i) by {
            assert(m.at_index(i) == g1.spec_map().at_index(i));
            assert(g1.spec_map().at_index(i) == g.spec_map().at_index(i));
        }
    }
    assert(ended_lead(m, g, player, opponent, v) == ended_lead(m, g1, player, opponent, v));
}

/// The moves of `player`, as `Game::get_moves` lists them.
pub(crate) fn all_moves(game: &mut Game, player: PlayerId) -> (r: Vec<Move>)
    requires
        old(game).wf(),
        player.0 < old(game).spec_followers_left().len(),
    ensures
        kept_but_board(*old(game), *final(game)),
        r@.len() == 0 <==> forall|m: Move| !placement_move(*old(game), player, m),
        forall|k: int| 0 <= k < r@.len() ==> #[trigger] from_placement(*old(game), player, r@[k]),
        forall|m: Move| placement_move(*old(game), player, m) ==> r@.contains(m),
        forall|k: int, i: Index|
            0 <= k < r@.len() && spec_index_place(i) == (#[trigger] r@[k]).place
                ==> #[trigger] final(game).spec_map().at_index(i) == TilePixel::Nothing,
        cleared(old(game).spec_map(), old(game).spec_free_places(), final(game).spec_map()),
        move_list(*old(game), player, r@, *final(game)),
        r@.len() == 0 ==> *final(game) == *old(game),
{
    let ghost g0 = *game;
    let (moves, _) = game.get_moves(player);
    proof {
        let (pm, sss) = choose|pm: Seq<Move>, sss: Seq<Seq<Structure>>|
            pm.no_duplicates() && (forall|m: Move| pm.contains(m) <==> placement_move(g0, player, m))
                && (forall|i: Index| #[trigger] game.spec_map().at_index(i) == crate::game::blanked(g0.spec_map(), pm, i))
                && #[trigger] crate::game::moves_considered(g0, pm, sss)
                && moves@ == crate::game::option_moves(crate::game::all_options(pm, sss, g0.spec_followers_left(), pm.len() as int)) + pm
                && true;
        if moves@.len() == 0 {
            assert(pm.len() == 0);
            assert forall|m: Move| !placement_move(g0, player, m) by {
                if placement_move(g0, player, m) {
                    assert(pm.contains(m));
                }
            }
        } else {
            if pm.len() == 0 {
                assert(crate::game::all_options(pm, sss, g0.spec_followers_left(), 0).len() == 0);
                assert(moves@.len() == 0);
            }
            assert(pm.contains(pm[0]));
            assert(placement_move(g0, player, pm[0]));
        }
        let opts = crate::game::option_moves(crate::game::all_options(pm, sss, g0.spec_followers_left(), pm.len() as int));
        assert forall|m: Move| placement_move(g0, player, m) implies moves@.contains(m) by {
            assert(pm.contains(m));
            let t = choose|t: int| 0 <= t < pm.len() && pm[t] == m;
            assert(moves@[opts.len() + t] == m);
        }
        assert forall|k: int, i: Index|
            0 <= k < moves@.len() && spec_index_place(i) == (#[trigger] moves@[k]).place implies #[trigger] game.spec_map().at_index(
            i,
        ) == TilePixel::Nothing by {
            assert(from_placement(g0, player, moves@[k]));
            let m = choose|m: Move| placement_move(g0, player, m) && #[trigger] same_placement(moves@[k], m);
            assert(pm.contains(m));
            let q = choose|q: int| 0 <= q < pm.len() && pm[q] == m;
            assert(pm[q].place == spec_index_place(i));
            assert(game.spec_map().at_index(i) == crate::game::blanked(g0.spec_map(), pm, i));
        }
        assert forall|i: Index| #[trigger] game.spec_map().at_index(i) == g0.spec_map().at_index(i) || (
        g0.spec_free_places().contains(spec_index_place(i)) && game.spec_map().at_index(i) == TilePixel::Nothing) by {
            assert(game.spec_map().at_index(i) == crate::game::blanked(g0.spec_map(), pm, i));
            if exists|k: int| 0 <= k < pm.len() && (#[trigger] pm[k]).place == spec_index_place(i) {
                let k = choose|k: int| 0 <= k < pm.len() && (#[trigger] pm[k]).place == spec_index_place(i);
                assert(pm.contains(pm[k]));
                assert(placement_move(g0, player, pm[k]));
            }
        }
        assert(move_list(g0, player, moves@, *game));
    }
    moves
}

/// `mv`, move `j` of `ms`, is worth at least as much as every move of `ms`,
/// each valued by its structures `sss` on the board of `g`; `ms` offers every
/// placement `player` has in `g0`, and only moves from those placements.
pub open spec fn chosen_best(
    g0: Game,
    g: Game,
    player: PlayerId,
    how: Valuation,
    mv: Move,
    ms: Seq<Move>,
    sss: Seq<Seq<Structure>>,
    j: int,
) -> bool {
    &&& ms.len() == sss.len()
    &&& forall|m: Move| placement_move(g0, player, m) ==> ms.contains(m)
    &&& forall|k: int| 0 <= k < ms.len() ==> #[trigger] from_placement(g0, player, ms[k])
    &&& forall|k: int| 0 <= k < ms.len() ==> touched(g, ms[k], #[trigger] sss[k])
    &&& 0 <= j < ms.len()
    &&& ms[j] == mv
    &&& forall|k: int|
        0 <= k < ms.len() ==> total_value(g.spec_map(), #[trigger] sss[k], ms[k], player, how) <= total_value(
            g.spec_map(),
            sss[j],
            mv,
            player,
            how,
        )
}

/// Plays the move whose structures are worth most to `player` (the last one
/// among equals), as `how` values them.
fn best_move(game: &mut Game, player: PlayerId, how: &Valuation) -> (r: Option<Move>)
    requires
        old(game).wf(),
        player.0 < old(game).spec_followers_left().len(),
    ensures
        kept_but_board(*old(game), *final(game)),
        cleared(old(game).spec_map(), old(game).spec_free_places(), final(game).spec_map()),
        r is None <==> forall|m: Move| !placement_move(*old(game), player, m),
        r matches Some(m) ==> from_placement(*old(game), player, m),
        r matches Some(mv) ==> exists|ms: Seq<Move>, sss: Seq<Seq<Structure>>, j: int|
            #[trigger] chosen_best(*old(game), *final(game), player, *how, mv, ms, sss, j),
{
    let ghost g0 = *game;
    let moves = all_moves(game, player);
    let ghost g1 = *game;
    proof {
        if moves@.len() > 0 {
            assert(from_placement(g0, player, moves@[0]));
        }
    }
    let mut best: Option<Move> = None;
    let mut best_value: u64 = 0;
    let ghost mut sss: Seq<Seq<Structure>> = Seq::empty();
    let ghost mut best_j: int = 0;
    let mut i: usize = 0;
    while i < moves.len()
        invariant
            kept_but_board(g0, *game),
            kept_but_board(g0, g1),
            forall|idx: Index| #[trigger] game.spec_map().at_index(idx) == g1.spec_map().at_index(idx),
            forall|k: int, idx: Index|
                0 <= k < moves@.len() && spec_index_place(idx) == (#[trigger] moves@[k]).place
                    ==> #[trigger] g1.spec_map().at_index(idx) == TilePixel::Nothing,
            player.0 < g0.spec_followers_left().len(),
            i <= moves@.len(),
            forall|k: int| 0 <= k < moves@.len() ==> #[trigger] from_placement(g0, player, moves@[k]),
            sss.len() == i,
            forall|k: int| 0 <= k < i ==> touched(g1, moves@[k], #[trigger] sss[k]),
            i > 0 ==> best is Some,
            best matches Some(m) ==> from_placement(g0, player, m),
            best matches Some(m) ==> 0 <= best_j < i && m == moves@[best_j] && best_value == total_value(
                g1.spec_map(),
                sss[best_j],
                m,
                player,
                *how,
            ),
            best is Some ==> forall|k: int|
                0 <= k < i ==> total_value(g1.spec_map(), #[trigger] sss[k], moves@[k], player, *how) <= best_value,
        decreases moves@.len() - i,
    {
        let mov = moves[i];
        proof {
            assert(from_placement(g0, player, mov));
            let m = choose|m: Move| placement_move(g0, player, m) && #[trigger] same_placement(mov, m);
            let y = choose|y: int| 0 <= y < g0.spec_free_places().len() && g0.spec_free_places()[y] == m.place;
            assert(crate::game::place_writable(g0.spec_free_places()[y]));
            let k = choose|k: int| 0 <= k < g0.spec_tiles_left().entries().len() && (#[trigger] g0.spec_tiles_left().entries()[k]).0 == m.tile.0;
        }
        let ghost gb = *game;
        let structures = game.move_structures(&mov);
        let ghost ga = *game;
        proof {
            let m = choose|m: PixelMap|
                crate::game::painted(gb.spec_map(), m, gb.spec_tiles()[mov.tile.0 as int], mov.rotation, mov.place)
                    && #[trigger] structures_of(m, gb.spec_followers(), gb.spec_settings(), mov.place, true, structures@);
            lemma_structures_bounded(m, gb.spec_followers(), gb.spec_settings(), mov.place, true, structures@);
            assert(touched(gb, mov, structures@));
            assert forall|idx: Index| #[trigger] ga.spec_map().at_index(idx) == g1.spec_map().at_index(idx) by {
                if spec_index_place(idx) == mov.place {
                    assert(g1.spec_map().at_index(idx) == TilePixel::Nothing);
                }
            }
            assert forall|idx: Index| #[trigger] gb.spec_map().at_index(idx) == g1.spec_map().at_index(idx) by {}
            lemma_same_board(gb, g1, mov, structures@, player, *how);
            lemma_same_board(ga, g1, mov, structures@, player, *how);
        }
        let mut value: u64 = 0;
        let mut j: usize = 0;
        while j < structures.len()
            invariant
                game.wf(),
                *game == ga,
                structures@.len() <= 33,
                forall|a: int| 0 <= a < structures@.len() ==> distinct_players(#[trigger] structures@[a].followers_number@),
                j <= structures@.len(),
                value <= j * 0x1_0000_0000,
                value == total_value(ga.spec_map(), structures@.take(j as int), mov, player, *how),
            decreases structures@.len() - j,
        {
            let v = structure_value(game, &structures[j], &mov, player, how);
            proof {
                assert(structures@.take(j as int + 1).drop_last() == structures@.take(j as int));
            }
            value = value + v as u64;
            j += 1;
        }
        proof {
            assert(structures@.take(structures@.len() as int) == structures@);
            sss = sss.push(structures@);
        }
        if best.is_none() || value >= best_value {
            best = Some(mov);
            best_value = value;
            proof {
                best_j = i as int;
            }
        }
        i += 1;
    }
    proof {
        assert forall|idx: Index| #[trigger] game.spec_map().at_index(idx) == g0.spec_map().at_index(idx) || (
        g0.spec_free_places().contains(spec_index_place(idx)) && game.spec_map().at_index(idx) == TilePixel::Nothing) by {
            assert(game.spec_map().at_index(idx) == g1.spec_map().at_index(idx));
        }
        if let Some(mv) = best {
            assert forall|k: int| 0 <= k < moves@.len() implies touched(*game, moves@[k], #[trigger] sss[k])
                && total_value(game.spec_map(), sss[k], moves@[k], player, *how) == total_value(
                g1.spec_map(),
                sss[k],
                moves@[k],
                player,
                *how,
            ) by {
                lemma_same_board(g1, *game, moves@[k], sss[k], player, *how);
            }
            lemma_same_board(g1, *game, mv, sss[best_j], player, *how);
            assert(chosen_best(g0, *game, player, *how, mv, moves@, sss, best_j));
        }
    }
    best
}

/// Picks the move whose structures give `player` the most points.
pub struct GreedyBuilderEngine {}

impl GreedyBuilderEngine {
    pub fn new() -> (r: Self) {
        GreedyBuilderEngine {}
    }
}

impl CarcassonneEngine for GreedyBuilderEngine {
    /// A move valued best by its structures on the board as listing the
    /// moves leaves it, as `best_move` picks it.
    open spec fn chooses(&self, g: Game, player: PlayerId, r: Option<Move>) -> bool {
        r matches Some(mv) ==> exists|g2: Game, ms: Seq<Move>, sss: Seq<Seq<Structure>>, j: int|
            #[trigger] chosen_best(g, g2, player, Valuation::Builder, mv, ms, sss, j) && kept_but_board(g, g2) && cleared(
                g.spec_map(),
                g.spec_free_places(),
                g2.spec_map(),
            )
    }

    fn play_move(&mut self, game: &mut Game, player: PlayerId) -> (r: Option<Move>)
        ensures
            r matches Some(mv) ==> exists|ms: Seq<Move>, sss: Seq<Seq<Structure>>, j: int|
                #[trigger] chosen_best(*old(game), *final(game), player, Valuation::Builder, mv, ms, sss, j),
    {
        let ghost g0 = *game;
        let r = best_move(game, player, &Valuation::Builder);
        proof {
            if let Some(m) = r {
                lemma_placement_is_candidate(g0, player, m);
            }
        }
        r
    }
}

/// Picks the move that completes the structures worth most to `player`,
/// preferring to put followers on unfinished ones.
pub struct GreedyCompleterEngine {}

impl GreedyCompleterEngine {
    pub fn new() -> (r: Self) {
        GreedyCompleterEngine {}
    }
}

impl CarcassonneEngine for GreedyCompleterEngine {
    /// A move valued best by its structures on the board as listing the
    /// moves leaves it, as `best_move` picks it.
    open spec fn chooses(&self, g: Game, player: PlayerId, r: Option<Move>) -> bool {
        r matches Some(mv) ==> exists|g2: Game, ms: Seq<Move>, sss: Seq<Seq<Structure>>, j: int|
            #[trigger] chosen_best(g, g2, player, Valuation::Completer, mv, ms, sss, j) && kept_but_board(g, g2) && cleared(
                g.spec_map(),
                g.spec_free_places(),
                g2.spec_map(),
            )
    }

    fn play_move(&mut self, game: &mut Game, player: PlayerId) -> (r: Option<Move>)
        ensures
            r matches Some(mv) ==> exists|ms: Seq<Move>, sss: Seq<Seq<Structure>>, j: int|
                #[trigger] chosen_best(*old(game), *final(game), player, Valuation::Completer, mv, ms, sss, j),
    {
        let ghost g0 = *game;
        let r = best_move(game, player, &Valuation::Completer);
        proof {
            if let Some(m) = r {
                lemma_placement_is_candidate(g0, player, m);
            }
        }
        r
    }
}

/// Picks the move whose structures favour `player` most over its opponent.
pub struct HeuresticEngine {}

impl HeuresticEngine {
    pub fn new() -> (r: Self) {
        HeuresticEngine {}
    }
}

impl CarcassonneEngine for HeuresticEngine {
    /// A move valued best by its structures on the board as listing the
    /// moves leaves it, as `best_move` picks it.
    open spec fn chooses(&self, g: Game, player: PlayerId, r: Option<Move>) -> bool {
        r matches Some(mv) ==> exists|g2: Game, ms: Seq<Move>, sss: Seq<Seq<Structure>>, j: int|
            #[trigger] chosen_best(g, g2, player, Valuation::Heurestic, mv, ms, sss, j) && kept_but_board(g, g2) && cleared(
                g.spec_map(),
                g.spec_free_places(),
                g2.spec_map(),
            )
    }

    fn play_move(&mut self, game: &mut Game, player: PlayerId) -> (r: Option<Move>)
        ensures
            r matches Some(mv) ==> exists|ms: Seq<Move>, sss: Seq<Seq<Structure>>, j: int|
                #[trigger] chosen_best(*old(game), *final(game), player, Valuation::Heurestic, mv, ms, sss, j),
    {
        let ghost g0 = *game;
        let r = best_move(game, player, &Valuation::Heurestic);
        proof {
            if let Some(m) = r {
                lemma_placement_is_candidate(g0, player, m);
            }
        }
        r
    }
}

/// Plays a random move.
pub struct RandomEngine {
    rng: ThreadRng,
}

impl RandomEngine {
    pub fn new() -> (r: Self) {
        RandomEngine { rng: thread_rng() }
    }
}

impl CarcassonneEngine for RandomEngine {
    /// The first placement that fits, free places being tried in an order
    /// drawn at random, then that placement or one of its follower variants
    /// (a follower on a structure of the tile that has none).
    open spec fn chooses(&self, g: Game, player: PlayerId, r: Option<Move>) -> bool {
        &&& r matches Some(m) ==> from_placement(g, player, m)
        &&& r matches Some(m) ==> exists|p: Move, places: Seq<Place>, ids: Seq<TileId>, sss: Seq<Seq<Structure>>|
            #![trigger first_fit(g, player, places, ids, p), moves_considered(g, seq![p], sss)]
            draw_order(g, places, ids) && first_fit(g, player, places, ids, p) && moves_considered(g, seq![p], sss) && (m
                == p || option_moves(all_options(seq![p], sss, g.spec_followers_left(), 1)).contains(m))
    }

    fn play_move(&mut self, game: &mut Game, player: PlayerId) -> (r: Option<Move>) {
        let ghost g0 = *game;
        let r = game.get_random_move(player);
        proof {
            if let Some(m) = r {
                lemma_placement_is_candidate(g0, player, m);
            }
        }
        r
    }
}

/// Searches `depth` moves ahead, both players playing their best (alpha-beta
/// minimax over the final scores).
pub struct MinimaxEngine {
    pub depth: u32,
}

impl MinimaxEngine {
    pub fn new(depth: u32) -> (r: Self)
        ensures
            r.depth == depth,
    {
        MinimaxEngine { depth }
    }

    /// `player`'s score minus `opponent`'s once the game is ended.
    fn evaluate(game: &Game, player: PlayerId, opponent: PlayerId) -> (r: i64)
        requires
            game.wf(),
        ensures
            evaluation(*game, player, opponent, r as int),
    {
        let mut eval_game = game.clone();
        let ghost m = eval_game.spec_map();
        let ghost g1 = eval_game;
        if eval_game.followers_on_scoring_now() {
            eval_game.end_game();
        }
        let score = eval_game.get_score();
        let mine: u32 = if (player.0 as usize) < score.len() { score[player.0 as usize] } else { 0 };
        let theirs: u32 = if (opponent.0 as usize) < score.len() { score[opponent.0 as usize] } else { 0 };
        let r = mine as i64 - theirs as i64;
        proof {
            assert(same_pixels(m, game.spec_map()));
            if followers_on_scoring(m, g1.spec_settings(), g1.spec_followers()) {
                let ss = choose|ss: Seq<Structure>|
                    end_steps(g1.spec_map(), g1.spec_settings(), g1.spec_score(), g1.spec_followers_left(), g1.spec_followers(), ss)
                        && #[trigger] end_run(g1.spec_score(), g1.spec_followers_left(), g1.spec_followers(), ss)
                        == (eval_game.spec_score(), eval_game.spec_followers_left(), eval_game.spec_followers());
                assert(end_steps(m, game.spec_settings(), game.spec_score(), game.spec_followers_left(), game.spec_followers(), ss));
            }
            assert(ended_lead(m, *game, player, opponent, r as int));
        }
        r
    }

    /// Searches `depth` moves ahead from `game` by alpha-beta pruning within
    /// the window (`alpha`, `beta`), `player` maximizing the evaluation and
    /// `opponent` minimizing it; `is_maximizing` says who moves first. The
    /// value found is the minimax value when it lies inside the window, and
    /// otherwise bounds it from the side it fell out on; the move found leads
    /// to that value.
    #[verifier::rlimit(50)]
    fn minimax(
        &self,
        game: &mut Game,
        depth: u32,
        is_maximizing: bool,
        player: PlayerId,
        opponent: PlayerId,
        alpha: i64,
        beta: i64,
    ) -> (r: (Option<Move>, i64))
        requires
            old(game).wf(),
            player.0 < old(game).spec_followers_left().len(),
            opponent.0 < old(game).spec_followers_left().len(),
            alpha < beta,
        ensures
            kept_but_board(*old(game), *final(game)),
            cleared(old(game).spec_map(), old(game).spec_free_places(), final(game).spec_map()),
            depth == 0 || (forall|m: Move| !placement_move(*old(game), mover(is_maximizing, player, opponent), m))
                ==> r.0 is None && evaluation(*old(game), player, opponent, r.1 as int) && *final(game) == *old(game),
            r.0 matches Some(m) ==> move_candidate(*old(game), mover(is_maximizing, player, opponent), m),
            r.0 is Some ==> r.1 as int != sentinel(is_maximizing),
            r.0 is None && depth > 0 && (exists|m: Move| placement_move(*old(game), mover(is_maximizing, player, opponent), m))
                ==> r.1 as int == sentinel(is_maximizing),
            r.1 < beta ==> value_at_most(*old(game), depth as nat, is_maximizing, player, opponent, r.1 as int),
            alpha < r.1 ==> value_at_least(*old(game), depth as nat, is_maximizing, player, opponent, r.1 as int),
            r.0 matches Some(m) ==> (alpha < r.1 < beta ==> reaches(
                *old(game),
                (depth - 1) as nat,
                is_maximizing,
                player,
                opponent,
                m,
                r.1 as int,
            )),
        decreases depth,
    {
        if depth == 0 {
            let v = Self::evaluate(game, player, opponent);
            proof {
                assert(evaluation(*game, player, opponent, v as int));
            }
            return (None, v);
        }
        let current = if is_maximizing { player } else { opponent };
        let ghost g0 = *game;
        let moves = all_moves(game, current);
        let ghost g1 = *game;
        if moves.len() == 0 {
            let v = Self::evaluate(game, player, opponent);
            proof {
                let (pm, sss) = choose|pm: Seq<Move>, sss: Seq<Seq<Structure>>|
                    pm.no_duplicates() && (forall|m: Move| pm.contains(m) <==> placement_move(g0, current, m)) && (forall|i: Index|
                        #[trigger] g1.spec_map().at_index(i) == crate::game::blanked(g0.spec_map(), pm, i))
                        && #[trigger] crate::game::moves_considered(g0, pm, sss) && moves@ == crate::game::option_moves(
                        crate::game::all_options(pm, sss, g0.spec_followers_left(), pm.len() as int),
                    ) + pm;
                if pm.len() > 0 {
                    assert(pm.contains(pm[0]));
                }
                assert(same_pixels(g1.spec_map(), g0.spec_map())) by {
                    assert forall|i: Index| #[trigger] g1.spec_map().at_index(i) == g0.spec_map().at_index(i) by {
                        assert(g1.spec_map().at_index(i) == crate::game::blanked(g0.spec_map(), pm, i));
                    }
                }
                lemma_evaluation_same_pixels(g0, g1, player, opponent, v as int);
                assert(evaluation(g0, player, opponent, v as int));
            }
            return (None, v);
        }
        let mut best_move: Option<Move> = None;
        let ghost alpha0 = alpha as int;
        let ghost beta0 = beta as int;
        let ghost below = (depth - 1) as nat;
        let mut alpha = alpha;
        let mut beta = beta;
        let mut best_eval: i64 = if is_maximizing { i64::MIN } else { i64::MAX };
        let mut i: usize = 0;
        let mut stop = false;
        let ghost mut bj: int = 0;
        let ghost mut hb: Game = g1;
        while i < moves.len() && !stop
            invariant
                kept_but_board(g0, *game),
                *game == g1,
                move_list(g0, current, moves@, g1),
                cleared(g0.spec_map(), g0.spec_free_places(), g1.spec_map()),
                player.0 < g0.spec_followers_left().len(),
                opponent.0 < g0.spec_followers_left().len(),
                current == mover(is_maximizing, player, opponent),
                depth > 0,
                below == depth - 1,
                i <= moves@.len(),
                forall|k: int| 0 <= k < moves@.len() ==> #[trigger] from_placement(g0, current, moves@[k]),
                alpha0 < beta0,
                is_maximizing ==> beta as int == beta0 && alpha as int == if alpha0 < best_eval { best_eval as int } else { alpha0 },
                !is_maximizing ==> alpha as int == alpha0 && beta as int == if beta0 < best_eval { beta0 } else { best_eval as int },
                stop <==> beta <= alpha,
                (forall|k: int| 0 <= k < i ==> !searchable(g0, #[trigger] moves@[k])) ==> best_eval as int == sentinel(
                    is_maximizing,
                ) && best_move is None,
                best_move is None ==> best_eval as int == sentinel(is_maximizing),
                best_move is Some ==> if is_maximizing { best_eval > i64::MIN } else { best_eval < i64::MAX },
                best_move matches Some(m) ==> move_candidate(g0, current, m),
                !stop ==> forall|k: int|
                    0 <= k < i && searchable(g0, #[trigger] moves@[k]) ==> exists|h: Game|
                        #[trigger] played_from(g1, moves@[k], h) && capped(h, below, is_maximizing, player, opponent, best_eval as int),
                improved(is_maximizing, best_eval as int, alpha0, beta0) ==> {
                    &&& 0 <= bj < i
                    &&& best_move == Some(moves@[bj])
                    &&& searchable(g0, moves@[bj])
                    &&& played_from(g1, moves@[bj], hb)
                    &&& reached(hb, below, is_maximizing, player, opponent, best_eval as int)
                    &&& alpha0 < best_eval < beta0 ==> capped(hb, below, is_maximizing, player, opponent, best_eval as int)
                },
            decreases moves@.len() - i,
        {
            let mov = moves[i];
            proof {
                assert(from_placement(g0, current, mov));
                lemma_placement_is_candidate(g0, current, mov);
                let m = choose|m: Move| placement_move(g0, current, m) && #[trigger] same_placement(mov, m);
                let k = choose|k: int| 0 <= k < g0.spec_tiles_left().entries().len() && (#[trigger] g0.spec_tiles_left().entries()[k]).0 == m.tile.0;
                assert(mov.move_num == g0.spec_move_num());
            }
            let ghost best0 = best_eval as int;
            let ghost i0 = i as int;
            let mut next_game = game.clone();
            let ghost before = next_game;
            if is_playable(&mov.place) && next_game.get_move_num() < u32::MAX {
                let played = next_game.play_move(mov);
                if played.is_ok() {
                    let ghost h = next_game;
                    let (_, eval) = self.minimax(&mut next_game, depth - 1, !is_maximizing, player, opponent, alpha, beta);
                    proof {
                        assert(played_from(g1, mov, h));
                        assert(searchable(g0, mov));
                    }
                    if is_maximizing {
                        if eval > best_eval {
                            best_eval = eval;
                            best_move = Some(mov);
                            proof {
                                bj = i0;
                                hb = h;
                            }
                        }
                        if eval > alpha {
                            alpha = eval;
                        }
                    } else {
                        if eval < best_eval {
                            best_eval = eval;
                            best_move = Some(mov);
                            proof {
                                bj = i0;
                                hb = h;
                            }
                        }
                        if eval < beta {
                            beta = eval;
                        }
                    }
                    if beta <= alpha {
                        stop = true;
                    }
                    proof {
                        lemma_capped_prefix(g0, g1, moves@, i0, below, is_maximizing, player, opponent, best0, best_eval as int);
                        if !stop {
                            lemma_value_bounds_loosen(h, below, !is_maximizing, player, opponent, eval as int, best_eval as int);
                            assert(capped(h, below, is_maximizing, player, opponent, best_eval as int));
                        }
                    }
                }
            }
            i += 1;
        }
        proof {
            let r1 = best_eval as int;
            assert(exists|m: Move| placement_move(g0, current, m)) by {
                if forall|m: Move| !placement_move(g0, current, m) {
                    assert(moves@.len() == 0);
                }
            }
            assert(move_list(g0, current, moves@, g1));
            if forall|k: int| 0 <= k < moves@.len() ==> !searchable(g0, #[trigger] moves@[k]) {
                assert(!stop);
                assert(i == moves@.len());
                assert(r1 == sentinel(is_maximizing));
                assert(value_at_most(g0, depth as nat, is_maximizing, player, opponent, r1));
                assert(value_at_least(g0, depth as nat, is_maximizing, player, opponent, r1));
            } else {
                if r1 < beta0 {
                    if is_maximizing {
                        assert(!stop);
                        assert(i == moves@.len());
                    } else {
                        assert(moves@.contains(moves@[bj]));
                    }
                    assert(value_at_most(g0, depth as nat, is_maximizing, player, opponent, r1));
                }
                if alpha0 < r1 {
                    if !is_maximizing {
                        assert(!stop);
                        assert(i == moves@.len());
                    } else {
                        assert(moves@.contains(moves@[bj]));
                    }
                    assert(value_at_least(g0, depth as nat, is_maximizing, player, opponent, r1));
                }
            }
            if best_move is Some && alpha0 < r1 < beta0 {
                assert(moves@.contains(moves@[bj]));
                assert(minimax_value(hb, below, !is_maximizing, player, opponent, r1));
            }
        }
        (best_move, best_eval)
    }
}

/// The opponent `player` faces in `g`: the first other player, or `player`
/// itself when it plays alone.
pub open spec fn rival(g: Game, player: PlayerId) -> PlayerId {
    if player.0 != 0 {
        PlayerId(0)
    } else if g.spec_settings().number_players >= 2 {
        PlayerId(1)
    } else {
        player
    }
}

/// Move `m` is what a search of `depth` moves from `g1` settles on: the
/// value of `g1` is some `v` above the search's starting value, and where `v`
/// is below the top of the window too, `m` leads to a position worth `v`.
pub open spec fn search_pick(g1: Game, depth: nat, player: PlayerId, opponent: PlayerId, m: Move) -> bool {
    exists|v: int|
        i64::MIN < v && #[trigger] value_at_least(g1, depth, true, player, opponent, v) && (v < i64::MAX ==> minimax_value(
            g1,
            depth,
            true,
            player,
            opponent,
            v,
        ) && reaches(g1, (depth - 1) as nat, true, player, opponent, m, v))
}

impl CarcassonneEngine for MinimaxEngine {
    /// The move a search of `depth` moves picks on the game as listing its
    /// moves leaves it, or the first listed move when the search found none
    /// better than its starting value.
    open spec fn chooses(&self, g: Game, player: PlayerId, r: Option<Move>) -> bool {
        exists|ms: Seq<Move>, g1: Game|
            #[trigger] move_list(g, player, ms, g1) && (r matches Some(m) ==> (m == ms[0] && (self.depth == 0 || (forall|
                m2: Move,
            | !placement_move(g1, player, m2)) || value_at_most(
                g1,
                self.depth as nat,
                true,
                player,
                rival(g, player),
                i64::MIN as int,
            ))) || search_pick(g1, self.depth as nat, player, rival(g, player), m))
    }

    /// Lists the moves, then searches `depth` moves ahead (alpha-beta over
    /// the whole range of values) on the game as listing them left it; plays
    /// the move the search found, or the first listed move when the search
    /// found none better than its starting value.
    fn play_move(&mut self, game: &mut Game, player: PlayerId) -> (r: Option<Move>)
        ensures
            exists|ms: Seq<Move>, g1: Game|
                #[trigger] move_list(*old(game), player, ms, g1) && (r matches Some(m) ==> (m == ms[0] && (old(self).depth == 0
                    || (forall|m2: Move| !placement_move(g1, player, m2)) || value_at_most(
                    g1,
                    old(self).depth as nat,
                    true,
                    player,
                    rival(*old(game), player),
                    i64::MIN as int,
                )))
                    || search_pick(g1, old(self).depth as nat, player, rival(*old(game), player), m)),
    {
        let ghost g_in = *game;
        let n = game.get_settings().number_players;
        let opponent = if player.0 != 0 {
            PlayerId(0)
        } else if n >= 2 {
            PlayerId(1)
        } else {
            player
        };
        let ghost g0 = *game;
        let moves = all_moves(game, player);
        if moves.len() == 0 {
            proof {
                assert(move_list(g0, player, moves@, *game));
            }
            return None;
        }
        let ghost g_all = *game;
        proof {
            assert(opponent == rival(g0, player));
        }
        let (best, v) = self.minimax(game, self.depth, true, player, opponent, i64::MIN, i64::MAX);
        proof {
            lemma_cleared_twice(g_in, g_all, game.spec_map());
            assert(move_list(g0, player, moves@, g_all));
            if let Some(m) = best {
                assert(search_pick(g_all, self.depth as nat, player, opponent, m));
            } else {
                if self.depth > 0 && exists|m2: Move| placement_move(g_all, player, m2) {
                    assert(v as int == i64::MIN as int);
                    assert(value_at_most(g_all, self.depth as nat, true, player, opponent, i64::MIN as int));
                }
            }
        }
        match best {
            Some(m) => Some(m),
            None => {
                proof {
                    lemma_placement_is_candidate(g0, player, moves@[0]);
                }
                Some(moves[0])
            },
        }
    }
}

} // verus!
