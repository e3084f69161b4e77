use carcossonne_uct::direction::{OrdinalDirection, Rotation};
use carcossonne_uct::rel_direction::RelDirection;
use carcossonne_uct::tile_features::{order_value, Feature, Tile, TileFeatures};

#[test]
fn features_are_kept_in_canonical_rotation() {
    // FFFR turns to RFFF, the rotation with the smallest pattern value.
    let t = TileFeatures::new(Feature::Field, Feature::Field, Feature::Field, Feature::Road);
    assert_eq!(t.get(), &[Feature::Road, Feature::Field, Feature::Field, Feature::Field][..]);
    assert_eq!(t.get_feature(&RelDirection::Up), Feature::Road);
    assert_eq!(t.iter(), vec![Feature::Road, Feature::Field, Feature::Field, Feature::Field]);
}

#[test]
fn turned_tiles_compare_equal() {
    let a = TileFeatures::new(Feature::City, Feature::Road, Feature::Field, Feature::Road);
    let b = TileFeatures::new(Feature::Road, Feature::Field, Feature::Road, Feature::City);
    let c = TileFeatures::new(Feature::Field, Feature::Road, Feature::City, Feature::Road);
    assert_eq!(a, b);
    assert_eq!(a, c);
    assert_ne!(a, TileFeatures::new(Feature::City, Feature::City, Feature::Field, Feature::Road));
}

#[test]
fn pattern_values() {
    assert_eq!(order_value(&[Feature::City, Feature::City, Feature::City, Feature::City]), 0);
    assert_eq!(order_value(&[Feature::City, Feature::Road, Feature::Field, Feature::Road]), 16);
    assert_eq!(order_value(&[Feature::Field, Feature::Field, Feature::Field, Feature::Field]), 80);
}

#[test]
fn fixing_a_rotation_names_absolute_edges() {
    let t = TileFeatures::new(Feature::City, Feature::Road, Feature::Field, Feature::Road);
    let fixed = t.fix_rotation(&Rotation::Rot1);
    assert_eq!(fixed.get(&OrdinalDirection::East), Feature::City);
    assert_eq!(fixed.get(&OrdinalDirection::South), Feature::Road);
    assert_eq!(fixed.get(&OrdinalDirection::West), Feature::Field);
    assert_eq!(fixed.get(&OrdinalDirection::North), Feature::Road);
    // The edges are kept in the order of the tile's own edges.
    assert!(format!("{:?}", fixed).contains("{2: City, 4: Road, 6: Field, 0: Road}"));
    let unturned = t.fix_rotation(&Rotation::Rot0);
    assert_eq!(unturned.get(&OrdinalDirection::North), Feature::City);
}

#[test]
fn tiles_are_named_by_their_edges_and_contents() {
    let plain = Tile {
        features: TileFeatures::new(Feature::City, Feature::Road, Feature::Field, Feature::Road),
        cloister: false,
        pennant: false,
        cities_connected: true,
        roads_connected: true,
        city_road: false,
    };
    assert_eq!(plain.features.code(), vec!['C', 'R', 'F', 'R']);
    assert_eq!(plain.name().into_iter().collect::<String>(), "CRFR");
    let cloister = Tile {
        features: TileFeatures::new(Feature::Field, Feature::Field, Feature::Field, Feature::Road),
        cloister: true,
        pennant: false,
        cities_connected: true,
        roads_connected: false,
        city_road: false,
    };
    assert_eq!(cloister.name().into_iter().collect::<String>(), "RFFF_CLOISTER_DISCONNECTED");
    let pennant = Tile { pennant: true, cloister: false, roads_connected: true, ..cloister };
    assert_eq!(pennant.name().into_iter().collect::<String>(), "RFFF_PENNANT");
}

#[test]
fn features_have_symbols_and_letters() {
    assert_eq!(Feature::City.symbol(), "🏰");
    assert_eq!(Feature::Road.symbol(), "〰️");
    assert_eq!(Feature::Field.symbol(), "🌾");
    assert_eq!(Feature::City.letter(), 'C');
    assert_eq!(Feature::Road.letter(), 'R');
    assert_eq!(Feature::Field.letter(), 'F');
}
