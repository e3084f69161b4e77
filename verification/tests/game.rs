use carcossonne_uct::game::{Game, GameSettings, Move, Place, PlayerId, TileError};
use carcossonne_uct::direction::OrdinalDirection;
use carcossonne_uct::index::Index;
use carcossonne_uct::tile::Tile;
use carcossonne_uct::tile_pixel::TilePixel;
use carcossonne_uct::tileset::TileSet;

const FOLLOWER: char = '\u{1FBC5}';

fn pixel(a: char, b: char) -> Option<TilePixel> {
    let a2 = if a == FOLLOWER { b } else { a };
    let b2 = if b == FOLLOWER { a } else { b };
    match (a2, b2) {
        ('·', '·') => Some(TilePixel::Field),
        ('░', '░') => Some(TilePixel::Road),
        ('▒', '▒') => Some(TilePixel::City),
        ('▓', '▓') => Some(TilePixel::PennantCity),
        ('█', '█') => Some(TilePixel::Blockade),
        ('✝', '⌂') | ('✝', '✝') | ('⌂', '⌂') => Some(TilePixel::Cloister),
        _ => None,
    }
}

fn parse_picture(text: &str) -> ([[TilePixel; 5]; 5], Option<Index>) {
    let chars: Vec<char> = text.chars().collect();
    let mut pixels = [[TilePixel::Nothing; 5]; 5];
    let mut follower = None;
    for row in 0..5 {
        for column in 0..5 {
            let a = chars[row * 11 + column * 2];
            let b = chars[row * 11 + column * 2 + 1];
            if a == FOLLOWER || b == FOLLOWER {
                follower = Some(Index { x: column as isize, y: row as isize });
            }
            pixels[row][column] = pixel(a, b).expect("bad pixel");
        }
        assert_eq!(chars[row * 11 + 10], '\n');
    }
    (pixels, follower)
}

const CRFR: &str = "██▒▒▒▒▒▒██\n··········\n░░░░░░░░░░\n··········\n··········\n";

/// A tile set holding the starting tile and every picture given, many times each.
fn tileset_of(pictures: &[&str]) -> TileSet {
    let mut tiles = vec![("CRFR".to_string(), parse_picture(CRFR).0)];
    let mut numbers = vec![("CRFR".to_string(), 10u32)];
    for (i, p) in pictures.iter().enumerate() {
        let (pixels, _) = parse_picture(p);
        if tiles.iter().any(|(_, t)| *t == pixels) {
            continue;
        }
        let name = format!("T{}", i);
        tiles.push((name.clone(), pixels));
        numbers.push((name, 10));
    }
    TileSet {
        name: "test".to_string(),
        starting_tile: "CRFR".to_string(),
        tiles,
        tile_numbers: numbers,
    }
}

fn play_move_pic(game: &mut Game, place: &Place, player: &PlayerId, picture: &str) {
    let (pixels, follower) = parse_picture(picture);
    game.play_custom_move(place, Tile::new(pixels), follower, *player).unwrap();
}

const ROAD_END_FOLLOWER: &str = "····░░····\n····░░····\n····██░░🯅░\n····░░····\n····░░····\n";
const CITY_ROAD_END: &str = "██▒▒▒▒▒▒██\n··········\n░░░░██░░░░\n····░░····\n····░░····\n";
const ALL_BLOCKADE: &str = "██████████\n██████████\n██████████\n██████████\n██████████\n";

fn new_game() -> Game {
    let tileset = tileset_of(&[ROAD_END_FOLLOWER, CITY_ROAD_END]);
    Game::new(&tileset, GameSettings::default())
}

#[test]
fn a_new_game_has_the_starting_tile_and_four_free_places() {
    let game = new_game();
    assert_eq!(game.get_move_num(), 0);
    assert_eq!(game.get_score(), vec![0, 0]);
    assert_eq!(game.get_followers(), vec![8, 8]);
    assert!(game.get_followers_on_board().is_empty());
    let free = game.get_free_places();
    assert_eq!(free.len(), 4);
    for p in [Place { x: 0, y: -1 }, Place { x: 1, y: 0 }, Place { x: 0, y: 1 }, Place { x: -1, y: 0 }] {
        assert!(free.contains(&p));
    }
    assert_eq!(game.pixel_at(Index { x: 0, y: 0 }), TilePixel::Blockade);
    assert_eq!(game.pixel_at(Index { x: 2, y: 2 }), TilePixel::Road);
    assert_eq!(game.pixel_at(Index { x: 7, y: 2 }), TilePixel::Nothing);
}

#[test]
fn a_stale_move_is_refused_and_changes_nothing() {
    let mut game = new_game();
    let player = game.get_players()[0];
    let (moves, _) = game.get_moves(player);
    let mut stale: Move = moves[0];
    stale.move_num = 5;
    let free_before = game.get_free_places();
    assert_eq!(game.play_move(stale), Err(TileError::StaleMove));
    assert_eq!(game.get_move_num(), 0);
    assert_eq!(game.get_free_places(), free_before);
    let mut far: Move = stale;
    far.place = Place { x: 100_000, y: -100_000 };
    assert_eq!(game.play_move(far), Err(TileError::StaleMove));
    assert_eq!(game.get_move_num(), 0);
    assert_eq!(game.play_move(moves[0]), Ok(()));
    assert_eq!(game.get_move_num(), 1);
}

#[test]
fn an_unknown_tile_is_refused() {
    let mut game = new_game();
    let player = game.get_players()[0];
    let (pixels, _) = parse_picture(ALL_BLOCKADE);
    let r = game.play_custom_move(&Place { x: 1, y: 0 }, Tile::new(pixels), None, player);
    assert_eq!(r, Err(TileError::BadTile));
    assert_eq!(game.get_move_num(), 0);
}

#[test]
fn a_tile_that_does_not_fit_is_refused() {
    let mut game = new_game();
    let player = game.get_players()[0];
    // The city side of CITY_ROAD_END cannot face the road of the start tile.
    let (pixels, _) = parse_picture(CITY_ROAD_END);
    let r = game.play_custom_move(&Place { x: 0, y: 1 }, Tile::new(pixels), None, player);
    assert_eq!(r, Err(TileError::DoesntFit));
    let occupied = game.play_custom_move(&Place { x: 0, y: 0 }, Tile::new(pixels), None, player);
    assert_eq!(occupied, Err(TileError::PlaceOccupied));
    let far = game.play_custom_move(&Place { x: 5, y: 5 }, Tile::new(pixels), None, player);
    assert_eq!(far, Err(TileError::Disconnected));
    let very_far = game.play_custom_move(&Place { x: 100_000, y: -3 }, Tile::new(pixels), None, player);
    assert_eq!(very_far, Err(TileError::Disconnected));
    assert_eq!(game.get_move_num(), 0);
}

#[test]
fn ending_the_game_scores_unfinished_structures_and_returns_followers() {
    let mut game = new_game();
    let players = game.get_players();
    play_move_pic(&mut game, &Place { x: -1, y: 0 }, &players[0], ROAD_END_FOLLOWER);
    assert_eq!(game.get_followers(), vec![7, 8]);
    assert_eq!(game.get_followers_on_board().len(), 1);
    assert!(game.followers_on_scoring_now());
    game.end_game();
    assert!(game.get_followers_on_board().is_empty());
    assert_eq!(game.get_followers(), vec![8, 8]);
    // The unfinished road runs over two tiles: a point each.
    assert_eq!(game.get_score(), vec![2, 0]);
}

#[test]
fn the_board_is_drawn_with_margins() {
    let game = new_game();
    let text: String = game.board_text().into_iter().collect();
    let nothing = "\u{29bb}\u{29bb}";
    let mut expected = String::from("    00          \n");
    expected.push_str("  ");
    for _ in 0..7 {
        expected.push_str(nothing);
    }
    expected.push('\n');
    let rows: Vec<&str> = CRFR.split('\n').collect();
    for (r, row) in rows.iter().take(5).enumerate() {
        expected.push_str(if r == 0 { "00" } else { "  " });
        expected.push_str(nothing);
        expected.push_str(row);
        expected.push_str(nothing);
        expected.push('\n');
    }
    expected.push_str("  ");
    for _ in 0..7 {
        expected.push_str(nothing);
    }
    expected.push('\n');
    assert_eq!(text, expected);
}

#[test]
fn a_follower_is_drawn_on_its_pixel() {
    let mut game = new_game();
    let players = game.get_players();
    play_move_pic(&mut game, &Place { x: -1, y: 0 }, &players[0], ROAD_END_FOLLOWER);
    let text: String = game.board_text().into_iter().collect();
    assert!(text.contains("░🯅"));
}

#[test]
fn random_moves_are_legal_placements() {
    let mut game = new_game();
    let player = game.get_players()[1];
    let (moves, _) = game.get_moves(player);
    let m = game.get_random_move(player).expect("a placement exists");
    assert!(moves.iter().any(|x| x.place == m.place && x.tile == m.tile && x.rotation == m.rotation));
    assert_eq!(m.move_num, 0);
    assert_eq!(m.player, player);
}

#[test]
fn a_step_away_from_the_edge_of_the_integers_is_taken() {
    let edge = Place { x: isize::MAX, y: isize::MIN };
    assert_eq!(edge.neighbour(&OrdinalDirection::West), Place { x: isize::MAX - 1, y: isize::MIN });
    assert_eq!(edge.neighbour(&OrdinalDirection::South), Place { x: isize::MAX, y: isize::MIN + 1 });
    assert_eq!(edge.neighbour(&OrdinalDirection::SouthWest), Place { x: isize::MAX - 1, y: isize::MIN + 1 });
}

#[test]
fn a_move_keeps_each_players_followers() {
    let mut game = new_game();
    let players = game.get_players();
    let start: Vec<u32> = game.get_followers();
    let (moves, _) = game.get_moves(players[0]);
    let with_follower = *moves.iter().find(|m| m.follower.is_some()).expect("a move with a follower");
    game.play_move(with_follower).unwrap();
    let left = game.get_followers();
    let on_board = game.get_followers_on_board();
    for (i, p) in players.iter().enumerate() {
        let placed = on_board.iter().filter(|(_, owner)| owner == p).count() as u32;
        assert_eq!(left[i] + placed, start[i]);
    }
    assert_eq!(left[0], start[0] - 1);
}
