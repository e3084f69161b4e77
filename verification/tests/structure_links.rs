use std::collections::HashSet;

use carcossonne_uct::rel_direction::RelDirection;
use carcossonne_uct::structure_links::{RelStructureLinks, StructureType};
use carcossonne_uct::linked_tileset::TileSet as LinkedTileSet;
use carcossonne_uct::tile_features::{Feature, Tile, TileFeatures};
use carcossonne_uct::direction::{OrdinalDirection, Rotation};

fn tile(
    features: [Feature; 4],
    cloister: bool,
    pennant: bool,
    cities_connected: bool,
    roads_connected: bool,
    city_road: bool,
) -> Tile {
    Tile {
        features: TileFeatures::new(features[0], features[1], features[2], features[3]),
        cloister,
        pennant,
        cities_connected,
        roads_connected,
        city_road,
    }
}

fn count_of(links: &RelStructureLinks, ty: StructureType) -> usize {
    links.get_structures().iter().filter(|s| s.structure_type == ty).count()
}

#[test]
fn structures_gen_crfr() {
    // CRFR
    let tile = tile([Feature::City, Feature::Road, Feature::Field, Feature::Road], false, false, true, true, false);

    let structure_links = RelStructureLinks::new(&tile);
    assert_eq!(structure_links.get_structures().len(), 4);

    // Correct edges
    assert_eq!(
        structure_links.get_structure(&RelDirection::Up).structure_type,
        StructureType::Feature(Feature::City),
    );
    assert_eq!(
        structure_links.get_structure(&RelDirection::Right).structure_type,
        StructureType::Feature(Feature::Road),
    );
    assert_eq!(
        structure_links.get_structure(&RelDirection::Left).structure_type,
        StructureType::Feature(Feature::Road),
    );

    // Correct corners
    assert_eq!(
        structure_links.get_structure(&RelDirection::UpRight).structure_type,
        StructureType::Feature(Feature::Field),
    );
    assert_eq!(
        structure_links.get_structure(&RelDirection::DownRight).structure_type,
        StructureType::Feature(Feature::Field),
    );
    assert_eq!(
        structure_links.get_structure(&RelDirection::DownLeft).structure_type,
        StructureType::Feature(Feature::Field),
    );
    assert_eq!(
        structure_links.get_structure(&RelDirection::UpLeft).structure_type,
        StructureType::Feature(Feature::Field),
    );

    // Correct connections
    assert_eq!(
        structure_links.get_structure(&RelDirection::Left).id,
        structure_links.get_structure(&RelDirection::Right).id
    );
    assert_eq!(
        structure_links.get_structure(&RelDirection::DownLeft).id,
        structure_links.get_structure(&RelDirection::DownRight).id
    );
    assert_eq!(
        structure_links.get_structure(&RelDirection::UpLeft).id,
        structure_links.get_structure(&RelDirection::UpRight).id
    );
    assert_ne!(
        structure_links.get_structure(&RelDirection::UpLeft).id,
        structure_links.get_structure(&RelDirection::DownLeft).id
    );
    assert_ne!(
        structure_links.get_structure(&RelDirection::Up).id,
        structure_links.get_structure(&RelDirection::Left).id
    );

    // External connections
    let up_connections: HashSet<RelDirection> = structure_links
        .connects_to(&structure_links.get_structure(&RelDirection::Up))
        .into_iter()
        .collect();
    assert_eq!(up_connections, HashSet::from([RelDirection::Up]));

    let upright_connections: HashSet<RelDirection> = structure_links
        .connects_to(&structure_links.get_structure(&RelDirection::UpRight))
        .into_iter()
        .collect();
    assert_eq!(upright_connections, HashSet::from([RelDirection::Left, RelDirection::Right]));

    let downleft_connections: HashSet<RelDirection> = structure_links
        .connects_to(&structure_links.get_structure(&RelDirection::DownLeft))
        .into_iter()
        .collect();
    assert_eq!(
        downleft_connections,
        HashSet::from([RelDirection::Down, RelDirection::Left, RelDirection::Right])
    );
}

#[test]
fn structures_gen_cloister() {
    // FFFR_CLOISTER
    let tile = tile([Feature::Field, Feature::Field, Feature::Field, Feature::Road], true, false, true, false, false);

    let structure_links = RelStructureLinks::new(&tile);
    assert_eq!(structure_links.get_structures().len(), 3);

    assert_eq!(
        structure_links.get_structure(&RelDirection::Up).structure_type,
        StructureType::Feature(Feature::Road),
    );
    assert_eq!(structure_links.get_cloister().unwrap().structure_type, StructureType::Cloister);
}

#[test]
fn structures_gen_cccr() {
    // CCCR
    let tile = tile([Feature::City, Feature::City, Feature::City, Feature::Road], false, true, true, false, true);

    let structure_links = RelStructureLinks::new(&tile);
    assert_eq!(structure_links.get_structures().len(), 4);
    assert_eq!(count_of(&structure_links, StructureType::Feature(Feature::City)), 1);
    assert_eq!(count_of(&structure_links, StructureType::Feature(Feature::Road)), 1);
    assert_eq!(count_of(&structure_links, StructureType::Feature(Feature::Field)), 2);
}

#[test]
fn structures_gen_ccrr() {
    // CCRR
    let tile = tile([Feature::City, Feature::City, Feature::Road, Feature::Road], false, false, true, true, false);

    let structure_links = RelStructureLinks::new(&tile);
    assert_eq!(structure_links.get_structures().len(), 4);
    assert_eq!(count_of(&structure_links, StructureType::Feature(Feature::City)), 1);
    assert_eq!(count_of(&structure_links, StructureType::Feature(Feature::Road)), 1);
    assert_eq!(count_of(&structure_links, StructureType::Feature(Feature::Field)), 2);
}

#[test]
fn unconnected_roads_get_a_structure_each() {
    // Three roads meeting at a village: not connected.
    let tile = tile([Feature::Road, Feature::Road, Feature::Field, Feature::Road], false, false, true, false, false);
    let links = RelStructureLinks::new(&tile);
    assert_eq!(count_of(&links, StructureType::Feature(Feature::Road)), 3);
    // Ids count up from zero in the order the structures are made.
    let ids: Vec<usize> = links.get_structures().iter().map(|s| s.id).collect();
    assert_eq!(ids, (0..ids.len()).collect::<Vec<usize>>());
    assert!(links.get_cloister().is_none());
}

#[test]
fn turning_links_turns_every_direction() {
    // CRFR: the roads (right, left) are structure 0, the city (up) is 1, the
    // field below the road is 2 and the field beside the city is 3.
    let tile = tile([Feature::City, Feature::Road, Feature::Field, Feature::Road], false, false, true, true, false);
    let links = RelStructureLinks::new(&tile);
    assert!(format!("{:?}", links).contains("{2: 0, 6: 0, 0: 1, 3: 2, 5: 2, 7: 3, 1: 3}"));
    // A quarter turn clockwise moves every direction two compass steps on.
    let turned = links.to_abs(&Rotation::Rot1);
    assert!(format!("{:?}", turned).contains("{4: 0, 0: 0, 2: 1, 5: 2, 7: 2, 1: 3, 3: 3}"));
    // The reaches turn with them: the field below the road reached right,
    // down and left, and now reaches down, left and up.
    assert!(format!("{:?}", links).contains("2: {2, 4, 6}"));
    assert!(format!("{:?}", turned).contains("2: {4, 6, 0}"));
    let unturned = links.to_abs(&Rotation::Rot0);
    assert!(format!("{:?}", unturned).contains("{2: 0, 6: 0, 0: 1, 3: 2, 5: 2, 7: 3, 1: 3}"));
}

#[test]
fn a_fixed_tile_turns_its_edges_and_links_and_gives_the_tile_back() {
    let t = tile([Feature::City, Feature::Road, Feature::Field, Feature::Road], false, true, true, true, false);
    let links = RelStructureLinks::new(&t);
    let fixed = t.fix_rotation(&Rotation::Rot2, &links);
    assert_eq!(fixed.edges.get(&OrdinalDirection::South), Feature::City);
    assert_eq!(fixed.edges.get(&OrdinalDirection::West), Feature::Road);
    assert_eq!(fixed.edges.get(&OrdinalDirection::North), Feature::Field);
    assert!(format!("{:?}", fixed.structure_links).contains("{6: 0, 2: 0, 4: 1, 7: 2, 1: 2, 3: 3, 5: 3}"));
    assert!(fixed.pennant);
    assert!(!fixed.cloister);
    let back = fixed.to_tile();
    assert_eq!(back, t);
    let upright = t.fix_rotation(&Rotation::Rot0, &links);
    let text: String = upright.to_text().into_iter().collect();
    assert_eq!(text, "╔ 🏰 ╗\n〰️🛡 〰️\n╚ 🌾 ╝\n");
}

#[test]
fn a_tile_set_links_every_tile_and_fixes_the_start() {
    let crfr = tile([Feature::City, Feature::Road, Feature::Field, Feature::Road], false, false, true, true, false);
    let cloister = tile([Feature::Field, Feature::Field, Feature::Field, Feature::Road], true, false, true, false, false);
    let set = LinkedTileSet::new(crfr, vec![cloister, crfr]);
    assert_eq!(set.tiles, vec![cloister, crfr]);
    assert_eq!(set.structures.len(), 2);
    assert_eq!(set.structures[0].get_structures().len(), 3);
    assert_eq!(set.structures[1].get_structures().len(), 4);
    assert_eq!(set.starting_tile.edges.get(&OrdinalDirection::North), Feature::City);
    assert_eq!(set.starting_tile.to_tile(), crfr);
}
