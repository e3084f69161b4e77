use carcossonne_uct::engines::{
    get_points, heurestic, CarcassonneEngine, GreedyBuilderEngine, GreedyCompleterEngine, HeuresticEngine,
    MinimaxEngine, RandomEngine,
};
use carcossonne_uct::game::{Game, GameSettings, Move, Place, PlayerId};
use carcossonne_uct::index::Index;
use carcossonne_uct::structures::Structure;
use carcossonne_uct::tile::Tile;
use carcossonne_uct::tile_pixel::TilePixel;
use carcossonne_uct::tileset::TileSet;

const FOLLOWER: char = '\u{1FBC5}';

fn pixel(a: char, b: char) -> Option<TilePixel> {
    let a2 = if a == FOLLOWER { b } else { a };
    let b2 = if b == FOLLOWER { a } else { b };
    match (a2, b2) {
        ('·', '·') => Some(TilePixel::Field),
        ('░', '░') => Some(TilePixel::Road),
        ('▒', '▒') => Some(TilePixel::City),
        ('▓', '▓') => Some(TilePixel::PennantCity),
        ('█', '█') => Some(TilePixel::Blockade),
        ('✝', '⌂') | ('✝', '✝') | ('⌂', '⌂') => Some(TilePixel::Cloister),
        _ => None,
    }
}

fn parse_picture(text: &str) -> ([[TilePixel; 5]; 5], Option<Index>) {
    let chars: Vec<char> = text.chars().collect();
    let mut pixels = [[TilePixel::Nothing; 5]; 5];
    let mut follower = None;
    for row in 0..5 {
        for column in 0..5 {
            let a = chars[row * 11 + column * 2];
            let b = chars[row * 11 + column * 2 + 1];
            if a == FOLLOWER || b == FOLLOWER {
                follower = Some(Index { x: column as isize, y: row as isize });
            }
            pixels[row][column] = pixel(a, b).expect("bad pixel");
        }
        assert_eq!(chars[row * 11 + 10], '\n');
    }
    (pixels, follower)
}

const CRFR: &str = "██▒▒▒▒▒▒██\n··········\n░░░░░░░░░░\n··········\n··········\n";

/// A tile set holding the starting tile and every picture given, many times each.
fn tileset_of(pictures: &[&str]) -> TileSet {
    let mut tiles = vec![("CRFR".to_string(), parse_picture(CRFR).0)];
    let mut numbers = vec![("CRFR".to_string(), 10u32)];
    for (i, p) in pictures.iter().enumerate() {
        let (pixels, _) = parse_picture(p);
        if tiles.iter().any(|(_, t)| *t == pixels) {
            continue;
        }
        let name = format!("T{}", i);
        tiles.push((name.clone(), pixels));
        numbers.push((name, 10));
    }
    TileSet {
        name: "test".to_string(),
        starting_tile: "CRFR".to_string(),
        tiles,
        tile_numbers: numbers,
    }
}

fn play_move_pic(game: &mut Game, place: &Place, player: &PlayerId, picture: &str) {
    let (pixels, follower) = parse_picture(picture);
    game.play_custom_move(place, Tile::new(pixels), follower, *player).unwrap();
}

const ROAD_END_FOLLOWER: &str = "····░░····\n····░░····\n····██░░🯅░\n····░░····\n····░░····\n";
const CITY_ROAD_END: &str = "██▒▒▒▒▒▒██\n··········\n░░░░██░░░░\n····░░····\n····░░····\n";

fn structure(points: u32, followers: Vec<(u32, u32)>, completed: bool) -> Structure {
    Structure {
        completed,
        points,
        followers_number: followers.into_iter().map(|(p, n)| (PlayerId(p), n)).collect(),
        followers_idx: vec![],
        seed: Index { x: 2, y: 0 },
    }
}

#[test]
fn points_go_to_the_majority() {
    let s = structure(5, vec![(0, 2), (1, 1)], true);
    assert_eq!(get_points(&s, PlayerId(0), false), 5);
    assert_eq!(get_points(&s, PlayerId(1), false), 0);
    // A new follower brings player 1 level, and a tie scores for both.
    assert_eq!(get_points(&s, PlayerId(1), true), 5);
    // A player without followers scores nothing.
    assert_eq!(get_points(&s, PlayerId(2), false), 0);
    assert_eq!(get_points(&s, PlayerId(2), true), 0);
    let empty = structure(4, vec![], false);
    assert_eq!(get_points(&empty, PlayerId(0), false), 0);
    assert_eq!(get_points(&empty, PlayerId(0), true), 4);
}

#[test]
fn heurestic_halves_unfinished_cities() {
    let tileset = tileset_of(&[ROAD_END_FOLLOWER, CITY_ROAD_END]);
    let game = Game::new(&tileset, GameSettings::default());
    // The starting tile's top edge is city: pixel (2, 0).
    assert_eq!(game.pixel_at(Index { x: 2, y: 0 }), TilePixel::City);
    let city = structure(5, vec![(0, 1)], false);
    assert_eq!(heurestic(&game, &city, PlayerId(0), false), 2);
    let finished = structure(5, vec![(0, 1)], true);
    assert_eq!(heurestic(&game, &finished, PlayerId(0), false), 5);
    // The opponent's points count against the player; the difference wraps
    // round when it goes below zero.
    let theirs = structure(6, vec![(1, 1)], true);
    assert_eq!(heurestic(&game, &theirs, PlayerId(0), false), 0u32.wrapping_sub(6));
    assert_eq!(heurestic(&game, &theirs, PlayerId(1), false), 6);
}

fn check_engine_move(engine: &mut dyn CarcassonneEngine) {
    let tileset = tileset_of(&[ROAD_END_FOLLOWER, CITY_ROAD_END]);
    let mut game = Game::new(&tileset, GameSettings::default());
    let player = game.get_players()[0];
    let (moves, _) = game.get_moves(player);
    assert!(!moves.is_empty());
    let chosen: Move = engine.play_move(&mut game, player).expect("a move is available");
    assert!(moves.iter().any(|m| *m == chosen));
    assert_eq!(game.get_move_num(), 0);
    game.play_move(chosen).unwrap();
    assert_eq!(game.get_move_num(), 1);
}

#[test]
fn engines_pick_legal_moves() {
    check_engine_move(&mut GreedyBuilderEngine::new());
    check_engine_move(&mut GreedyCompleterEngine::new());
    check_engine_move(&mut HeuresticEngine::new());
    check_engine_move(&mut RandomEngine::new());
    check_engine_move(&mut MinimaxEngine::new(2));
}

#[test]
fn random_engine_draws_fitting_moves_at_several_places() {
    let tileset = tileset_of(&[ROAD_END_FOLLOWER, CITY_ROAD_END]);
    let mut engine = RandomEngine::new();
    let mut places: Vec<Place> = Vec::new();
    for _ in 0..200 {
        let mut game = Game::new(&tileset, GameSettings::default());
        let player = game.get_players()[0];
        let (moves, _) = game.get_moves(player);
        let chosen: Move = engine.play_move(&mut game, player).expect("a move is available");
        assert!(moves.iter().any(|m| *m == chosen));
        if !places.contains(&chosen.place) {
            places.push(chosen.place);
        }
    }
    assert!(places.len() > 1);
}

fn ended_lead(game: &Game) -> i64 {
    let mut ended = game.clone();
    ended.end_game();
    let score = ended.get_score();
    score[0] as i64 - score[1] as i64
}

#[test]
fn minimax_looking_one_move_ahead_takes_the_best_lead() {
    let tileset = tileset_of(&[ROAD_END_FOLLOWER, CITY_ROAD_END]);
    let game = Game::new(&tileset, GameSettings::default());
    let player = PlayerId(0);
    let mut listed = game.clone();
    let (moves, _) = listed.get_moves(player);
    let best = moves
        .iter()
        .map(|m| {
            let mut child = listed.clone();
            child.play_move(*m).unwrap();
            ended_lead(&child)
        })
        .max()
        .unwrap();
    let mut searched = game.clone();
    let chosen = MinimaxEngine::new(1).play_move(&mut searched, player).unwrap();
    let mut child = searched.clone();
    child.play_move(chosen).unwrap();
    assert_eq!(ended_lead(&child), best);
}
