use carcossonne_uct::tile_pixel::TilePixel;
use carcossonne_uct::tileset::{initial_counts, parse_tile, parse_tilesets, plain_tileset, TileSet};

const CRFR: &str = "██▒▒▒▒▒▒██\n··········\n░░░░░░░░░░\n··········\n··········\n";
const CLOISTER: &str = "··········\n··✝⌂✝⌂····\n··✝⌂✝⌂····\n··········\n··········\n";

fn chars(s: &str) -> Vec<char> {
    s.chars().collect()
}

#[test]
fn parse_tile_reads_pixels() {
    let t = parse_tile(&chars(CRFR), &chars("crfr.txt")).unwrap();
    assert_eq!(t[0][0], TilePixel::Blockade);
    assert_eq!(t[0][2], TilePixel::City);
    assert_eq!(t[1][3], TilePixel::Field);
    assert_eq!(t[2][4], TilePixel::Road);
}

#[test]
fn parse_tile_reads_cloisters() {
    let t = parse_tile(&chars(CLOISTER), &chars("c.txt")).unwrap();
    assert_eq!(t[1][1], TilePixel::Cloister);
    assert_eq!(t[2][2], TilePixel::Cloister);
    assert_eq!(t[0][0], TilePixel::Field);
}

#[test]
fn parse_tile_reads_nothing_pixels() {
    let text = "⦻⦻········\n··········\n··········\n······⦻⦻··\n··········\n";
    let t = parse_tile(&chars(text), &chars("n.txt")).unwrap();
    assert_eq!(t[0][0], TilePixel::Nothing);
    assert_eq!(t[3][3], TilePixel::Nothing);
    assert_eq!(t[0][1], TilePixel::Field);
}

#[test]
fn parse_tile_errors_name_the_file() {
    // An unknown character pair.
    let bad = CRFR.replace("▒▒", "xx");
    let e = parse_tile(&chars(&bad), &chars("bad.txt")).unwrap_err();
    assert_eq!(e.path, chars("bad.txt"));
    // Too short.
    let e = parse_tile(&chars("····"), &chars("short.txt")).unwrap_err();
    assert_eq!(e.path, chars("short.txt"));
    // A row that does not end in a line break.
    let bad = CRFR.replacen("\n", "·", 1);
    assert!(parse_tile(&chars(&bad), &chars("row.txt")).is_err());
}

#[test]
fn parse_tilesets_keeps_order_and_reports_first_bad_file() {
    let files = vec![
        ("CRFR".to_string(), chars(CRFR), chars("CRFR.txt")),
        ("CLOISTER".to_string(), chars(CLOISTER), chars("CLOISTER.txt")),
    ];
    let numbers = vec![("CRFR".to_string(), 3u32), ("CLOISTER".to_string(), 4u32)];
    let ts = parse_tilesets("std".to_string(), "CRFR".to_string(), files, numbers.clone()).unwrap();
    assert_eq!(ts.name, "std");
    assert_eq!(ts.starting_tile, "CRFR");
    assert_eq!(ts.tiles.len(), 2);
    assert_eq!(ts.tiles[0].0, "CRFR");
    assert_eq!(ts.tiles[1].0, "CLOISTER");
    assert_eq!(ts.tiles[1].1[1][1], TilePixel::Cloister);
    assert_eq!(ts.tile_numbers, numbers);

    let files = vec![
        ("CRFR".to_string(), chars(CRFR), chars("CRFR.txt")),
        ("A".to_string(), chars("bad"), chars("A.txt")),
        ("B".to_string(), chars("worse"), chars("B.txt")),
    ];
    match parse_tilesets("std".to_string(), "CRFR".to_string(), files, numbers) {
        Err(e) => assert_eq!(e.path, chars("A.txt")),
        Ok(_) => panic!("a bad picture was accepted"),
    }
}

fn named_set() -> TileSet {
    let picture = parse_tile(&chars(CRFR), &chars("CRFR.txt")).unwrap();
    let names = ["CRFR", "CCCC", "FFRR", "FRRR_DISCONNECTED"];
    TileSet {
        name: "named".to_string(),
        starting_tile: "CRFR".to_string(),
        tiles: names.iter().map(|n| (n.to_string(), picture)).collect(),
        tile_numbers: names.iter().map(|n| (n.to_string(), 4)).collect(),
    }
}

#[test]
fn a_plain_tile_set_keeps_three_kinds() {
    let plain = plain_tileset(&named_set());
    let names: Vec<&str> = plain.tiles.iter().map(|(n, _)| n.as_str()).collect();
    assert_eq!(names, vec!["CRFR", "FFRR", "FRRR_DISCONNECTED"]);
    assert_eq!(
        plain.tile_numbers,
        vec![("CRFR".to_string(), 0), ("FFRR".to_string(), 36), ("FRRR_DISCONNECTED".to_string(), 36)]
    );
    assert_eq!(plain.starting_tile, "CRFR");
}

#[test]
fn the_starting_kind_has_one_copy_fewer_left() {
    let counts = initial_counts(&named_set());
    assert_eq!(counts[0], ("CRFR".to_string(), 3));
    assert_eq!(counts[1], ("CCCC".to_string(), 4));
    let plain = plain_tileset(&named_set());
    assert_eq!(initial_counts(&plain)[0], ("CRFR".to_string(), 0));
}
