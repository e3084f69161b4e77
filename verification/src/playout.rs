//! Playing a whole game between two engines.

use vstd::prelude::*;
use crate::engines::{CarcassonneEngine, all_moves, cleared, kept_but_board, move_list};
use crate::random::{random_below, thread_rng};
use crate::game::{
    Game, Move, PlayerId, end_run, end_steps, followers_on_scoring, is_playable, move_candidate, move_played,
    place_playable, placement_move, from_placement, same_placement,
};
use crate::structures::Structure;

verus! {

/// Why play stopped: the bag is empty at `last`; or, at `before`, the state
/// in which `player` was asked for a move (whose engine left `last`, the same
/// game but for blanked free places), `player` had no placement, or its
/// engine chose a move that the board could not hold or the move counter
/// could not count.
pub open spec fn play_stopped(before: Game, last: Game, player: PlayerId) -> bool {
    ||| last.spec_tiles_left().entries().len() == 0
    ||| {
        &&& kept_but_board(before, last)
        &&& cleared(before.spec_map(), before.spec_free_places(), last.spec_map())
        &&& {
            ||| forall|m: Move| !placement_move(before, player, m)
            ||| exists|m: Move|
                #[trigger] move_candidate(before, player, m) && (!place_playable(m.place) || before.spec_move_num()
                    == u32::MAX)
        }
    }
}

/// `fin` is `last` after the game was ended: where every follower stands on
/// a structure that scores, each is scored and taken off; otherwise nothing
/// changes.
pub open spec fn ended_from(last: Game, fin: Game) -> bool {
    if followers_on_scoring(last.spec_map(), last.spec_settings(), last.spec_followers()) {
        &&& fin.spec_followers().len() == 0
        &&& fin.spec_map() == last.spec_map()
        &&& fin.spec_move_num() == last.spec_move_num()
        &&& fin.spec_tiles() == last.spec_tiles()
        &&& fin.spec_tiles_left() == last.spec_tiles_left()
        &&& fin.spec_free_places() == last.spec_free_places()
        &&& fin.spec_settings() == last.spec_settings()
        &&& exists|ss: Seq<Structure>|
            end_steps(last.spec_map(), last.spec_settings(), last.spec_score(), last.spec_followers_left(), last.spec_followers(), ss)
            && #[trigger] end_run(last.spec_score(), last.spec_followers_left(), last.spec_followers(), ss)
                == (fin.spec_score(), fin.spec_followers_left(), fin.spec_followers())
    } else {
        fin == last
    }
}

/// Turn `k` of a play-out: asked in state `bs[k]`, the engine whose turn it
/// was (`firsts[k / 2]` for player 0 on even turns, `seconds[k / 2]` for
/// player 1 on odd ones) chose move `ms[k]`; asking it left `mids[k]`, on
/// which the move was played, giving `bs[k + 1]`.
pub open spec fn turn_played<A: CarcassonneEngine, B: CarcassonneEngine>(
    bs: Seq<Game>,
    mids: Seq<Game>,
    ms: Seq<Move>,
    firsts: Seq<A>,
    seconds: Seq<B>,
    k: int,
) -> bool {
    &&& if k % 2 == 0 {
        firsts[k / 2].chooses(bs[k], PlayerId(0), Some(ms[k]))
    } else {
        seconds[k / 2].chooses(bs[k], PlayerId(1), Some(ms[k]))
    }
    &&& kept_but_board(bs[k], mids[k])
    &&& move_played(mids[k], bs[k + 1], ms[k])
}

/// The moves `ms` were played from `g` in turns, the states before each turn
/// being `bs` (and the one after the last), `firsts` and `seconds` the two
/// engines as they were when asked.
pub open spec fn played_out<A: CarcassonneEngine, B: CarcassonneEngine>(
    g: Game,
    bs: Seq<Game>,
    mids: Seq<Game>,
    ms: Seq<Move>,
    firsts: Seq<A>,
    seconds: Seq<B>,
) -> bool {
    &&& bs.len() == ms.len() + 1
    &&& mids.len() == ms.len()
    &&& firsts.len() == (ms.len() + 1) / 2
    &&& seconds.len() == ms.len() / 2
    &&& bs[0] == g
    &&& forall|k: int| 0 <= k < ms.len() ==> #[trigger] turn_played(bs, mids, ms, firsts, seconds, k)
}

/// Plays `game` out between two engines: `first` moves for player 0 and
/// `second` for player 1, in turn, until the bag is empty or the player to
/// move has no placement; then the game is ended.
///
/// Play also stops before a move that the board could not hold or the move
/// counter could not count, and the game is only ended when every follower
/// stands on a structure that scores.
pub fn play_game<A: CarcassonneEngine, B: CarcassonneEngine>(game: &mut Game, first: &mut A, second: &mut B)
    requires
        old(game).wf(),
        old(game).spec_settings().number_players == 2,
    ensures
        final(game).wf(),
        final(game).spec_settings() == old(game).spec_settings(),
        final(game).spec_tiles() == old(game).spec_tiles(),
        exists|bs: Seq<Game>, mids: Seq<Game>, ms: Seq<Move>, firsts: Seq<A>, seconds: Seq<B>, last: Game|
            #![trigger played_out(*old(game), bs, mids, ms, firsts, seconds), ended_from(last, *final(game))]
            played_out(*old(game), bs, mids, ms, firsts, seconds) && play_stopped(
                bs[ms.len() as int],
                last,
                PlayerId((ms.len() % 2) as u32),
            ) && last.wf() && last.spec_settings() == old(game).spec_settings() && ended_from(last, *final(game)),
{
    let players = game.get_players();
    let player1 = players[0];
    let player2 = players[1];
    let ghost mut bs: Seq<Game> = seq![*game];
    let ghost mut mids: Seq<Game> = Seq::empty();
    let ghost mut ms: Seq<Move> = Seq::empty();
    let ghost mut firsts: Seq<A> = Seq::empty();
    let ghost mut seconds: Seq<B> = Seq::empty();
    let mut first_to_move = true;
    loop
        invariant_except_break
            first_to_move <==> ms.len() % 2 == 0,
            bs[ms.len() as int] == *game,
        invariant
            game.wf(),
            game.spec_settings() == old(game).spec_settings(),
            game.spec_tiles() == old(game).spec_tiles(),
            player1 == PlayerId(0),
            player2 == PlayerId(1),
            game.spec_followers_left().len() == 2,
            played_out(*old(game), bs, mids, ms, firsts, seconds),
        ensures
            game.wf(),
            game.spec_settings() == old(game).spec_settings(),
            game.spec_tiles() == old(game).spec_tiles(),
            played_out(*old(game), bs, mids, ms, firsts, seconds),
            play_stopped(bs[ms.len() as int], *game, PlayerId((ms.len() % 2) as u32)),
        decreases u32::MAX - game.spec_move_num(),
    {
        let current = if first_to_move { player1 } else { player2 };
        let ghost before = *game;
        let ghost e1 = *first;
        let ghost e2 = *second;
        proof {
            assert(current == PlayerId((ms.len() % 2) as u32));
        }
        let chosen = if first_to_move {
            first.play_move(game, current)
        } else {
            second.play_move(game, current)
        };
        let mov = match chosen {
            Some(m) => m,
            None => {
                assert(play_stopped(bs[ms.len() as int], *game, current));
                break;
            },
        };
        if !is_playable(&mov.place) || game.get_move_num() == u32::MAX {
            assert(play_stopped(bs[ms.len() as int], *game, current));
            break;
        }
        proof {
            let k = choose|k: int|
                0 <= k < game.spec_tiles_left().entries().len() && (#[trigger] game.spec_tiles_left().entries()[k]).0
                    == mov.tile.0;
        }
        let ghost mid = *game;
        let _ = game.play_move(mov);
        proof {
            let n = ms.len() as int;
            let bs2 = bs.push(*game);
            let mids2 = mids.push(mid);
            let ms2 = ms.push(mov);
            let firsts2 = if first_to_move { firsts.push(e1) } else { firsts };
            let seconds2 = if first_to_move { seconds } else { seconds.push(e2) };
            assert forall|k: int| 0 <= k < ms2.len() implies #[trigger] turn_played(bs2, mids2, ms2, firsts2, seconds2, k) by {
                if k < n {
                    assert(turn_played(bs, mids, ms, firsts, seconds, k));
                    assert(bs2[k] == bs[k] && bs2[k + 1] == bs[k + 1] && mids2[k] == mids[k] && ms2[k] == ms[k]);
                    if k % 2 == 0 {
                        assert(firsts2[k / 2] == firsts[k / 2]);
                    } else {
                        assert(seconds2[k / 2] == seconds[k / 2]);
                    }
                } else {
                    assert(bs2[k] == before && bs2[k + 1] == *game && mids2[k] == mid && ms2[k] == mov);
                    if k % 2 == 0 {
                        assert(firsts2[k / 2] == e1);
                    } else {
                        assert(seconds2[k / 2] == e2);
                    }
                }
            }
            bs = bs2;
            mids = mids2;
            ms = ms2;
            firsts = firsts2;
            seconds = seconds2;
        }
        first_to_move = !first_to_move;
        if game.get_tiles_left() == 0 {
            assert(play_stopped(bs[ms.len() as int], *game, PlayerId((ms.len() % 2) as u32)));
            break;
        }
    }
    let ghost last = *game;
    if game.followers_on_scoring_now() {
        game.end_game();
    }
    proof {
        assert(played_out(*old(game), bs, mids, ms, firsts, seconds));
        assert(play_stopped(bs[ms.len() as int], last, PlayerId((ms.len() % 2) as u32)));
        assert(ended_from(last, *game));
    }
}

/// Move `k` of a random game with `n` players: in state `bs[k]`, the moves of
/// player `(k + 1) % n` were listed (which left `mids[k]`), and `ms[k]`, one
/// of them, was played on `mids[k]`, giving `bs[k + 1]`.
pub open spec fn random_turn(bs: Seq<Game>, mids: Seq<Game>, ms: Seq<Move>, n: int, k: int) -> bool {
    &&& exists|ls: Seq<Move>| #[trigger] move_list(bs[k], PlayerId(((k + 1) % n) as u32), ls, mids[k]) && ls.contains(ms[k])
    &&& move_played(mids[k], bs[k + 1], ms[k])
}

/// `ms` is a random game played from `g`, ending in `fin`: the moves of
/// player 0 were listed first (leaving `bs[0]`, and `l0`); if there were
/// any, the players then took turns from player 1 on, each playing one of
/// its listed moves, until the player to move had none (or chose one that
/// the board could not hold or the move counter could not count).
pub open spec fn random_game_played(g: Game, fin: Game, bs: Seq<Game>, mids: Seq<Game>, l0: Seq<Move>, ms: Seq<Move>) -> bool {
    let n = g.spec_settings().number_players as int;
    let last = ms.len() as int;
    &&& bs.len() == ms.len() + 1
    &&& mids.len() == ms.len()
    &&& move_list(g, PlayerId(0), l0, bs[0])
    &&& forall|k: int| 0 <= k < ms.len() ==> #[trigger] random_turn(bs, mids, ms, n, k)
    &&& if l0.len() == 0 {
        ms.len() == 0 && fin == bs[0]
    } else {
        exists|ls: Seq<Move>|
            #[trigger] move_list(bs[last], PlayerId(((last + 1) % n) as u32), ls, fin) && (ls.len() == 0 || exists|m: Move|
                ls.contains(m) && (!place_playable(m.place) || bs[last].spec_move_num() == u32::MAX))
    }
}

/// Turns go round the `n` players: the one after turn `(l + 1) % n` is turn
/// `(l + 2) % n`.
proof fn lemma_next_turn(t: int, l: int, n: int)
    requires
        n >= 1,
        0 <= t < n,
        t == (l + 1) % n,
    ensures
        (if t + 1 == n { 0 } else { t + 1 }) == (l + 2) % n,
{
    let q = (l + 1) / n;
    vstd::arithmetic::div_mod::lemma_fundamental_div_mod(l + 1, n);
    assert(l + 2 == n * q + (t + 1));
    vstd::arithmetic::div_mod::lemma_mod_multiples_vanish(q, t + 1, n);
    if t + 1 == n {
        vstd::arithmetic::div_mod::lemma_mod_multiples_vanish(q, 0, n);
        assert(n * q + (t + 1) == n * (q + 1) + 0) by (nonlinear_arith)
            requires
                t + 1 == n,
        ;
        vstd::arithmetic::div_mod::lemma_mod_multiples_vanish(q + 1, 0, n);
    } else {
        vstd::arithmetic::div_mod::lemma_small_mod((t + 1) as nat, n as nat);
    }
}

/// Plays `game` out at random: if player 0 has a move, the players take
/// turns from player 1 on, each playing one of its moves chosen at random,
/// until the player to move has none. Returns the moves played, in order.
///
/// Play also stops at a chosen move that the board could not hold or the
/// move counter could not count.
pub fn gen_random_game(game: &mut Game) -> (r: Vec<Move>)
    requires
        old(game).wf(),
        old(game).spec_settings().number_players >= 1,
    ensures
        final(game).wf(),
        final(game).spec_settings() == old(game).spec_settings(),
        exists|bs: Seq<Game>, mids: Seq<Game>, l0: Seq<Move>|
            #[trigger] random_game_played(*old(game), *final(game), bs, mids, l0, r@),
{
    let n = game.get_settings().number_players;
    let mut rng = thread_rng();
    let mut played: Vec<Move> = Vec::new();
    let ghost g0 = *game;
    let first_moves = all_moves(game, PlayerId(0));
    let ghost l0 = first_moves@;
    let ghost mut bs: Seq<Game> = seq![*game];
    let ghost mut mids: Seq<Game> = Seq::empty();
    if first_moves.len() == 0 {
        proof {
            assert(random_game_played(g0, *game, bs, mids, l0, played@));
        }
        return played;
    }
    let mut turn: u32 = if n == 1 { 0 } else { 1 };
    proof {
        if n == 1 {
            vstd::arithmetic::div_mod::lemma_mod_multiples_vanish(1, 0, 1);
        } else {
            vstd::arithmetic::div_mod::lemma_small_mod(1, n as nat);
        }
    }
    loop
        invariant_except_break
            bs[played@.len() as int] == *game,
        invariant
            game.wf(),
            game.spec_settings() == g0.spec_settings(),
            g0 == *old(game),
            n == g0.spec_settings().number_players,
            n >= 1,
            turn < n,
            turn as int == (played@.len() as int + 1) % (n as int),
            l0.len() > 0,
            bs.len() == played@.len() + 1,
            mids.len() == played@.len(),
            move_list(g0, PlayerId(0), l0, bs[0]),
            forall|k: int| 0 <= k < played@.len() ==> #[trigger] random_turn(bs, mids, played@, n as int, k),
        ensures
            game.wf(),
            game.spec_settings() == g0.spec_settings(),
            random_game_played(g0, *game, bs, mids, l0, played@),
        decreases u32::MAX - game.spec_move_num(),
    {
        let player = PlayerId(turn);
        let ghost before = *game;
        let moves = all_moves(game, player);
        proof {
            let last = played@.len() as int;
            assert(bs[last] == before);
            assert(player == PlayerId(((last + 1) % (n as int)) as u32));
            assert(move_list(bs[last], PlayerId(((last + 1) % (n as int)) as u32), moves@, *game));
        }
        if moves.len() == 0 {
            proof {
                assert(random_game_played(g0, *game, bs, mids, l0, played@));
            }
            break;
        }
        let idx = random_below(&mut rng, moves.len());
        let chosen = moves[idx];
        proof {
            assert(moves@.contains(chosen));
        }
        if !is_playable(&chosen.place) || game.get_move_num() == u32::MAX {
            proof {
                let last = played@.len() as int;
                assert(moves@.contains(chosen) && (!place_playable(chosen.place) || bs[last].spec_move_num() == u32::MAX));
                assert(random_game_played(g0, *game, bs, mids, l0, played@));
            }
            break;
        }
        proof {
            assert(from_placement(before, player, chosen));
            let m = choose|m: Move| placement_move(before, player, m) && #[trigger] same_placement(chosen, m);
            let k = choose|k: int|
                0 <= k < before.spec_tiles_left().entries().len() && (#[trigger] before.spec_tiles_left().entries()[k]).0
                    == m.tile.0;
        }
        let ghost mid = *game;
        let _ = game.play_move(chosen);
        proof {
            let len = played@.len() as int;
            let bs2 = bs.push(*game);
            let mids2 = mids.push(mid);
            let ms2 = played@.push(chosen);
            assert forall|k: int| 0 <= k < ms2.len() implies #[trigger] random_turn(bs2, mids2, ms2, n as int, k) by {
                if k < len {
                    assert(random_turn(bs, mids, played@, n as int, k));
                    assert(bs2[k] == bs[k] && bs2[k + 1] == bs[k + 1] && mids2[k] == mids[k] && ms2[k] == played@[k]);
                } else {
                    assert(bs2[k] == before && bs2[k + 1] == *game && mids2[k] == mid && ms2[k] == chosen);
                    assert(move_list(bs2[k], PlayerId(((k + 1) % (n as int)) as u32), moves@, mids2[k]));
                }
            }
            bs = bs2;
            mids = mids2;
            lemma_next_turn(turn as int, len, n as int);
        }
        played.push(chosen);
        turn = if turn + 1 == n { 0 } else { turn + 1 };
    }
    played
}

} // verus!
