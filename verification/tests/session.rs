use carcossonne_uct::direction::Rotation;
use carcossonne_uct::game::{Move, Place, PlayerId};
use carcossonne_uct::index::Index;
use carcossonne_uct::session::{distinct_placements, find_matching_move, follower_choices, pixel_to_structure_type, winner, Winner};
use carcossonne_uct::tile::TileId;
use carcossonne_uct::tile_pixel::TilePixel;

fn mv(tile: u32, x: isize, rotation: Rotation, follower: Option<(isize, isize)>) -> Move {
    Move {
        move_num: 3,
        place: Place { x, y: 0 },
        tile: TileId(tile),
        rotation,
        follower: follower.map(|(x, y)| Index { x, y }),
        player: PlayerId(0),
    }
}

#[test]
fn winner_compares_points() {
    assert_eq!(winner(10, 3), Winner::Human);
    assert_eq!(winner(3, 10), Winner::Bot);
    assert_eq!(winner(7, 7), Winner::Tie);
}

#[test]
fn structure_type_names() {
    assert_eq!(pixel_to_structure_type(TilePixel::City), "City");
    assert_eq!(pixel_to_structure_type(TilePixel::PennantCity), "City");
    assert_eq!(pixel_to_structure_type(TilePixel::Road), "Road");
    assert_eq!(pixel_to_structure_type(TilePixel::Field), "Field");
    assert_eq!(pixel_to_structure_type(TilePixel::Cloister), "Cloister");
    assert_eq!(pixel_to_structure_type(TilePixel::Blockade), "Unknown");
    assert_eq!(pixel_to_structure_type(TilePixel::Nothing), "Unknown");
}

#[test]
fn placements_are_listed_once_in_order() {
    let moves = vec![
        mv(1, 0, Rotation::Rot0, None),
        mv(1, 0, Rotation::Rot0, Some((1, 2))),
        mv(2, 1, Rotation::Rot1, None),
        mv(1, 0, Rotation::Rot0, Some((3, 2))),
        mv(1, 0, Rotation::Rot2, None),
    ];
    let placements = distinct_placements(&moves);
    assert_eq!(placements.len(), 3);
    assert_eq!(placements[0], (TileId(1), Place { x: 0, y: 0 }, Rotation::Rot0));
    assert_eq!(placements[1], (TileId(2), Place { x: 1, y: 0 }, Rotation::Rot1));
    assert_eq!(placements[2], (TileId(1), Place { x: 0, y: 0 }, Rotation::Rot2));
}

#[test]
fn follower_options_and_matching_move() {
    let moves = vec![
        mv(1, 0, Rotation::Rot0, Some((1, 2))),
        mv(1, 0, Rotation::Rot0, None),
        mv(1, 0, Rotation::Rot0, Some((1, 2))),
        mv(1, 0, Rotation::Rot0, Some((3, 2))),
        mv(2, 0, Rotation::Rot0, Some((0, 0))),
    ];
    let choices = follower_choices(&moves, TileId(1), Place { x: 0, y: 0 }, Rotation::Rot0);
    assert_eq!(choices.len(), 2);
    assert_eq!(choices[0].follower, Some(Index { x: 1, y: 2 }));
    assert_eq!(choices[1].follower, Some(Index { x: 3, y: 2 }));

    let plain = find_matching_move(&moves, TileId(1), Place { x: 0, y: 0 }, Rotation::Rot0, -1);
    assert_eq!(plain, Some(moves[1]));
    let second = find_matching_move(&moves, TileId(1), Place { x: 0, y: 0 }, Rotation::Rot0, 1);
    assert_eq!(second.unwrap().follower, Some(Index { x: 3, y: 2 }));
    assert_eq!(find_matching_move(&moves, TileId(1), Place { x: 0, y: 0 }, Rotation::Rot0, 2), None);
    assert_eq!(find_matching_move(&moves, TileId(3), Place { x: 0, y: 0 }, Rotation::Rot0, -1), None);
}
