use carcossonne_uct::engines::{GreedyBuilderEngine, GreedyCompleterEngine, HeuresticEngine, RandomEngine};
use carcossonne_uct::game::{Game, GameSettings, PlayerId};
use carcossonne_uct::index::Index;
use carcossonne_uct::playout::{gen_random_game, play_game};
use carcossonne_uct::tile_pixel::TilePixel;
use carcossonne_uct::tileset::TileSet;

const FOLLOWER: char = '\u{1FBC5}';

fn pixel(a: char, b: char) -> Option<TilePixel> {
    let a2 = if a == FOLLOWER { b } else { a };
    let b2 = if b == FOLLOWER { a } else { b };
    match (a2, b2) {
        ('·', '·') => Some(TilePixel::Field),
        ('░', '░') => Some(TilePixel::Road),
        ('▒', '▒') => Some(TilePixel::City),
        ('▓', '▓') => Some(TilePixel::PennantCity),
        ('█', '█') => Some(TilePixel::Blockade),
        ('✝', '⌂') | ('✝', '✝') | ('⌂', '⌂') => Some(TilePixel::Cloister),
        _ => None,
    }
}

fn parse_picture(text: &str) -> ([[TilePixel; 5]; 5], Option<Index>) {
    let chars: Vec<char> = text.chars().collect();
    let mut pixels = [[TilePixel::Nothing; 5]; 5];
    let mut follower = None;
    for row in 0..5 {
        for column in 0..5 {
            let a = chars[row * 11 + column * 2];
            let b = chars[row * 11 + column * 2 + 1];
            if a == FOLLOWER || b == FOLLOWER {
                follower = Some(Index { x: column as isize, y: row as isize });
            }
            pixels[row][column] = pixel(a, b).expect("bad pixel");
        }
        assert_eq!(chars[row * 11 + 10], '\n');
    }
    (pixels, follower)
}

const CRFR: &str = "██▒▒▒▒▒▒██\n··········\n░░░░░░░░░░\n··········\n··········\n";

/// A tile set holding the starting tile and every picture given, many times each.
fn tileset_of(pictures: &[&str]) -> TileSet {
    let mut tiles = vec![("CRFR".to_string(), parse_picture(CRFR).0)];
    let mut numbers = vec![("CRFR".to_string(), 10u32)];
    for (i, p) in pictures.iter().enumerate() {
        let (pixels, _) = parse_picture(p);
        if tiles.iter().any(|(_, t)| *t == pixels) {
            continue;
        }
        let name = format!("T{}", i);
        tiles.push((name.clone(), pixels));
        numbers.push((name, 10));
    }
    TileSet {
        name: "test".to_string(),
        starting_tile: "CRFR".to_string(),
        tiles,
        tile_numbers: numbers,
    }
}


const ROAD_END: &str = "····░░····\n····░░····\n····██░░░░\n····░░····\n····░░····\n";
const CITY_ROAD_END: &str = "██▒▒▒▒▒▒██\n··········\n░░░░██░░░░\n····░░····\n····░░····\n";

#[test]
fn a_game_is_played_out_and_ended() {
    let tileset = tileset_of(&[ROAD_END, CITY_ROAD_END]);
    let mut game = Game::new(&tileset, GameSettings::default());
    let mut a = GreedyBuilderEngine::new();
    let mut b = RandomEngine::new();
    play_game(&mut game, &mut a, &mut b);
    assert!(game.get_move_num() > 0);
    assert!(game.get_followers_on_board().is_empty());
    assert_eq!(game.get_followers(), vec![8, 8]);
}

#[test]
fn greedy_engines_play_each_other_to_the_end() {
    let tileset = tileset_of(&[ROAD_END, CITY_ROAD_END]);
    let mut game = Game::new(&tileset, GameSettings::default());
    let mut a = GreedyCompleterEngine::new();
    let mut b = HeuresticEngine::new();
    play_game(&mut game, &mut a, &mut b);
    assert!(game.get_move_num() > 0);
    assert!(game.get_followers_on_board().is_empty());
}

#[test]
fn play_stops_only_when_the_bag_is_empty_or_no_tile_fits() {
    let tileset = tileset_of(&[ROAD_END, CITY_ROAD_END]);
    let mut game = Game::new(&tileset, GameSettings::default());
    let mut a = RandomEngine::new();
    let mut b = GreedyBuilderEngine::new();
    play_game(&mut game, &mut a, &mut b);
    let to_move = PlayerId(game.get_move_num() % 2);
    let (moves, _) = game.get_moves(to_move);
    assert!(game.get_tiles_left() == 0 || moves.is_empty());
    assert!(game.get_followers_on_board().is_empty());
}

#[test]
fn a_random_game_is_played_from_player_one_on() {
    let tileset = tileset_of(&[ROAD_END, CITY_ROAD_END]);
    let mut game = Game::new(&tileset, GameSettings::default());
    let moves = gen_random_game(&mut game);
    assert!(!moves.is_empty());
    assert_eq!(game.get_move_num() as usize, moves.len());
    for (k, m) in moves.iter().enumerate() {
        assert_eq!(m.move_num as usize, k);
        assert_eq!(m.player, PlayerId(((k + 1) % 2) as u32));
    }
    let (left, _) = game.get_moves(PlayerId(((moves.len() + 1) % 2) as u32));
    assert!(left.is_empty());
}
