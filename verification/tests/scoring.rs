use carcossonne_uct::direction::Rotation;
use carcossonne_uct::game::{Game, GameSettings, Place, PlayerId};
use carcossonne_uct::index::Index;
use carcossonne_uct::tile::Tile;
use carcossonne_uct::tile_pixel::TilePixel;
use carcossonne_uct::tileset::TileSet;

const FOLLOWER: char = '\u{1FBC5}';

fn pixel(a: char, b: char) -> Option<TilePixel> {
    let a2 = if a == FOLLOWER { b } else { a };
    let b2 = if b == FOLLOWER { a } else { b };
    match (a2, b2) {
        ('·', '·') => Some(TilePixel::Field),
        ('░', '░') => Some(TilePixel::Road),
        ('▒', '▒') => Some(TilePixel::City),
        ('▓', '▓') => Some(TilePixel::PennantCity),
        ('█', '█') => Some(TilePixel::Blockade),
        ('✝', '⌂') | ('✝', '✝') | ('⌂', '⌂') => Some(TilePixel::Cloister),
        _ => None,
    }
}

fn parse_picture(text: &str) -> ([[TilePixel; 5]; 5], Option<Index>) {
    let chars: Vec<char> = text.chars().collect();
    let mut pixels = [[TilePixel::Nothing; 5]; 5];
    let mut follower = None;
    for row in 0..5 {
        for column in 0..5 {
            let a = chars[row * 11 + column * 2];
            let b = chars[row * 11 + column * 2 + 1];
            if a == FOLLOWER || b == FOLLOWER {
                follower = Some(Index { x: column as isize, y: row as isize });
            }
            pixels[row][column] = pixel(a, b).expect("bad pixel");
        }
        assert_eq!(chars[row * 11 + 10], '\n');
    }
    (pixels, follower)
}

const CRFR: &str = "██▒▒▒▒▒▒██\n··········\n░░░░░░░░░░\n··········\n··········\n";

/// A tile set holding the starting tile and every picture given, many times each.
fn tileset_of(pictures: &[&str]) -> TileSet {
    let mut tiles = vec![("CRFR".to_string(), parse_picture(CRFR).0)];
    let mut numbers = vec![("CRFR".to_string(), 10u32)];
    for (i, p) in pictures.iter().enumerate() {
        let (pixels, _) = parse_picture(p);
        if tiles.iter().any(|(_, t)| *t == pixels) {
            continue;
        }
        let name = format!("T{}", i);
        tiles.push((name.clone(), pixels));
        numbers.push((name, 10));
    }
    TileSet {
        name: "test".to_string(),
        starting_tile: "CRFR".to_string(),
        tiles,
        tile_numbers: numbers,
    }
}

fn play_move_pic(game: &mut Game, place: &Place, player: &PlayerId, picture: &str) {
    let (pixels, follower) = parse_picture(picture);
    game.play_custom_move(place, Tile::new(pixels), follower, *player).unwrap();
}

const ROAD_END_FOLLOWER: &str = "····░░····\n····░░····\n····██░░🯅░\n····░░····\n····░░····\n";
const CITY_ROAD_END: &str = "██▒▒▒▒▒▒██\n··········\n░░░░██░░░░\n····░░····\n····░░····\n";

#[test]
fn score_road() {
    let tileset = tileset_of(&[ROAD_END_FOLLOWER, CITY_ROAD_END]);
    let mut game = Game::new(&tileset, GameSettings::default());

    let players = game.get_players();
    let (player1, player2) = (players[0], players[1]);

    play_move_pic(&mut game, &Place { x: -1, y: 0 }, &player1, ROAD_END_FOLLOWER);
    assert_eq!(7, game.get_followers()[player1.0 as usize]);

    play_move_pic(&mut game, &Place { x: 1, y: 0 }, &player2, CITY_ROAD_END);

    assert_eq!(3, game.get_score()[player1.0 as usize]);
    assert_eq!(0, game.get_score()[player2.0 as usize]);
    assert_eq!(8, game.get_followers()[player1.0 as usize]);
    assert_eq!(8, game.get_followers()[player2.0 as usize]);
    assert!(game.get_followers_on_board().is_empty());
}

const FIELD_MOVES: [(isize, isize, usize, &str); 12] = [
    (0, -1, 0, "········██\n········▒▒\n····🯅···▒▒\n········▒▒\n██▒▒▒▒▒▒██\n"),
    (-1, -1, 1, "····░░····\n····░░····\n░░░░░░····\n··········\n··········\n"),
    (1, -1, 0, "██········\n▒▒········\n▒▒▒▒······\n▒▒▒▒▒▒····\n▒▒▒▒▒▒▒▒██\n"),
    (-1, -2, 1, "··········\n··········\n░░░░░░····\n····░░····\n····░░····\n"),
    (0, -2, 0, "········██\n········▒▒\n········▒▒\n········▒▒\n········██\n"),
    (1, -2, 1, "██······██\n▒▒······▒▒\n▒▒······▒▒\n▒▒······▒▒\n██······██\n"),
    (2, -2, 0, "██········\n▒▒········\n▒▒········\n▒▒········\n██········\n"),
    (-1, -3, 1, "····░░····\n····░░····\n░░░░██░░░░\n··········\n··········\n"),
    (0, -3, 0, "██▒▒▒▒▒▒██\n··········\n░░░░░░░░░░\n··········\n··········\n"),
    (-2, -3, 1, "▓▓▓▓▓▓▓▓██\n▓▓▓▓▓▓▓▓··\n▓▓▓▓▓▓▓▓░░\n▓▓▓▓▓▓▓▓··\n▓▓▓▓▓▓▓▓██\n"),
    (-1, -4, 0, "····░░··██\n····░░··▒▒\n░░░░██··▒▒\n····░░··▒▒\n····░░··██\n"),
    (0, -4, 0, "██········\n▓▓········\n▓▓▓▓······\n▓▓▓▓▓▓····\n▓▓▓▓▓▓▓▓██\n"),
];

#[test]
fn score_field() {
    let pictures: Vec<&str> = FIELD_MOVES.iter().map(|m| m.3).collect();
    let tileset = tileset_of(&pictures);
    let mut game = Game::new(&tileset, GameSettings::default());

    let players = game.get_players();
    for (x, y, who, picture) in FIELD_MOVES.iter() {
        play_move_pic(&mut game, &Place { x: *x, y: *y }, &players[*who], picture);
    }

    game.end_game();

    assert_eq!(6, game.get_score()[players[0].0 as usize]);
    assert_eq!(0, game.get_score()[players[1].0 as usize]);
    assert!(game.get_followers_on_board().is_empty());
}

const RRRR: &str = "····░░····\n····░░····\n░░░░██░░░░\n····░░····\n····░░····\n";
const FFFF_CLOISTER: &str = "··········\n··········\n····✝⌂····\n··········\n··········\n";
const FRFR: &str = "··········\n··········\n░░░░░░░░░░\n··········\n··········\n";
const FFRR: &str = "··········\n··········\n░░░░░░····\n····░░····\n····░░····\n";

fn tile_of(picture: &str) -> Tile {
    Tile::new(parse_picture(picture).0)
}

#[test]
fn game_check_tile_fits() {
    let tile = tile_of(CRFR);
    let tile2 = tile_of(RRRR);

    let mut game = Game::new(&tileset_of(&[RRRR]), GameSettings::default());
    game.copy_tile(&tile, Rotation::Rot0, Place { x: 0, y: 0 });

    assert!(game.check_tile(&tile2, &Place { x: -1, y: 0 }, &Rotation::Rot0).is_ok());
}

#[test]
fn game_check_tile_doesnt_fit() {
    let tile = tile_of(CRFR);
    let tile2 = tile_of(FFFF_CLOISTER);

    let mut game = Game::new(&tileset_of(&[FFFF_CLOISTER]), GameSettings::default());
    game.copy_tile(&tile, Rotation::Rot0, Place { x: 0, y: 0 });

    assert!(game.check_tile(&tile2, &Place { x: 0, y: -1 }, &Rotation::Rot0).is_err());
}

#[test]
fn game_check_tile_doesnt_fit_rot() {
    let tile = tile_of(FRFR);
    let tile2 = tile_of(FFRR);

    let mut game = Game::new(&tileset_of(&[FRFR, FFRR]), GameSettings::default());
    game.copy_tile(&tile, Rotation::Rot1, Place { x: 0, y: 0 });

    assert!(game.check_tile(&tile2, &Place { x: 0, y: -1 }, &Rotation::Rot2).is_err());
}

