use carcossonne_uct::map::PixelMap;
use carcossonne_uct::tile_pixel::TilePixel;

#[test]
fn map_correct() {
    let mut map = PixelMap::new(5);

    map.insert(0, 0, TilePixel::City);
    assert_eq!(map.get(0, 0), TilePixel::City);

    map.insert(1, 0, TilePixel::Cloister);
    assert_eq!(map.get(1, 0), TilePixel::Cloister);

    map.insert(-1, -1, TilePixel::Field);
    assert_eq!(map.get(-1, -1), TilePixel::Field);
}

#[test]
fn map_correct_grow() {
    let mut map = PixelMap::new(3);

    // Map always has sentinel edges
    map.insert(0, 0, TilePixel::City);
    assert_eq!(map.get(0, 0), TilePixel::City);

    map.insert(1, 0, TilePixel::Cloister);
    assert_eq!(map.get(1, 0), TilePixel::Cloister);

    map.insert(-1, -1, TilePixel::Field);
    assert_eq!(map.get(-1, -1), TilePixel::Field);

    // Ensure has grown
    assert!(map.size() > 3);

    map.insert(-10, -10, TilePixel::PennantCity);
    assert_eq!(map.get(-10, -10), TilePixel::PennantCity);
    // Center stays at (0, 0)
    assert_eq!(map.get(0, 0), TilePixel::City);

    map.insert(99, 99, TilePixel::Road);
    assert_eq!(map.get(99, 99), TilePixel::Road);
    assert_eq!(map.get(0, 0), TilePixel::City);
}

#[test]
fn map_outside_reads_nothing() {
    let map = PixelMap::new(3);
    assert_eq!(map.get(0, 0), TilePixel::Nothing);
    assert_eq!(map.get(1000, -1000), TilePixel::Nothing);
    assert_eq!(map.size(), 3);
}

#[test]
fn map_write_keeps_other_pixels() {
    let mut map = PixelMap::new(4);
    map.insert(1, 1, TilePixel::Road);
    map.insert(50, -50, TilePixel::City);
    assert_eq!(map.get(1, 1), TilePixel::Road);
    assert_eq!(map.get(50, -50), TilePixel::City);
    assert_eq!(map.get(-50, 50), TilePixel::Nothing);
}

#[test]
fn map_grows_by_the_fewest_doublings() {
    let mut map = PixelMap::new(4);
    map.insert(1, 1, TilePixel::Road);
    assert_eq!(map.size(), 8);
    map.insert(0, 0, TilePixel::City);
    assert_eq!(map.size(), 8);
    map.insert(50, -50, TilePixel::City);
    assert_eq!(map.size(), 128);
    assert_eq!(map.get(1, 1), TilePixel::Road);
}

#[test]
fn map_of_side_zero_holds_nothing() {
    let map = PixelMap::new(0);
    assert_eq!(map.size(), 0);
    assert_eq!(map.get(0, 0), TilePixel::Nothing);
}
