//! Reading the textual level description: integers, record splitting,
//! and whole stanzas.

use golf_peaks::Board;
use golf_peaks::Card;
use golf_peaks::Corner;
use golf_peaks::Direction;
use golf_peaks::Location;
use golf_peaks::Terrain;
use golf_peaks::Tile;
use golf_peaks::interpret_starting_conditions;
use golf_peaks::parse_i32;
use golf_peaks::split_commas;
use golf_peaks::starting_conditions_well_formed;
use golf_peaks::try_move;

#[test]
fn parses_plain_and_signed_integers() {
    assert_eq!(parse_i32("42"), Some(42));
    assert_eq!(parse_i32("0"), Some(0));
    assert_eq!(parse_i32("007"), Some(7));
    assert_eq!(parse_i32("-7"), Some(-7));
    assert_eq!(parse_i32("+5"), Some(5));
    assert_eq!(parse_i32("2147483647"), Some(i32::MAX));
    assert_eq!(parse_i32("-2147483648"), Some(i32::MIN));
}

#[test]
fn rejects_text_that_is_not_an_i32() {
    assert_eq!(parse_i32(""), None);
    assert_eq!(parse_i32("-"), None);
    assert_eq!(parse_i32("+"), None);
    assert_eq!(parse_i32("12a"), None);
    assert_eq!(parse_i32(" 12"), None);
    assert_eq!(parse_i32("2147483648"), None);
    assert_eq!(parse_i32("-2147483649"), None);
    assert_eq!(parse_i32("99999999999999999999"), None);
}

#[test]
fn splits_records_on_every_comma() {
    assert_eq!(split_commas("ground,0,1"), vec!["ground", "0", "1"]);
    assert_eq!(split_commas("a,,b"), vec!["a", "", "b"]);
    assert_eq!(split_commas(""), vec![""]);
    assert_eq!(split_commas("plain"), vec!["plain"]);
    assert_eq!(split_commas(","), vec!["", ""]);
}

#[test]
fn accepts_well_formed_stanzas() {
    let map_lines = vec!["ground,0,0", "slope,1,0,1,west", "portal,2,0,0,4,4", "mystery,record"];
    let move_lines = vec!["0,1", "2,3"];
    assert_eq!(starting_conditions_well_formed(&map_lines, &move_lines, "0,0"), true);
}

#[test]
fn rejects_malformed_stanzas() {
    assert_eq!(starting_conditions_well_formed(&vec!["ground,x,0"], &vec![], "0,0"), false);
    assert_eq!(starting_conditions_well_formed(&vec!["slope,0,0,0,up"], &vec![], "0,0"), false);
    assert_eq!(starting_conditions_well_formed(&vec!["portal,0,0,0,1"], &vec![], "0,0"), false);
    assert_eq!(starting_conditions_well_formed(&vec![], &vec!["1"], "0,0"), false);
    assert_eq!(starting_conditions_well_formed(&vec![], &vec![], "0"), false);
}

#[test]
fn builds_the_board_cards_and_start() {
    let map_lines = vec!["ground,0,0", "hole,1,0"];
    let move_lines = vec!["0,1"];
    let (map, cards, start) = interpret_starting_conditions(map_lines, move_lines, "0,0");

    assert_eq!(start, Location { x: 0, y: 0 });
    assert_eq!(cards, vec![Card { rolling: 1, airborne: 0 }]);
    let result = try_move(&map, start, cards[0], Direction::East);
    assert_eq!(result.is_some(), true);
    assert_eq!(result.unwrap().0, Location { x: 1, y: 0 });
}

#[test]
fn reads_elevation_direction_corner_and_portal_fields() {
    let map_lines = vec![
        "ground,0,0,2,se",
        "slope,1,0,1,north",
        "conveyor,2,0,0,east",
        "portal,3,0,0,7,-8",
        "ice,4,0,0,nw",
        "sand,5,0",
        "unknown,6,0",
    ];
    let (map, _, _) = interpret_starting_conditions(map_lines, vec![], "0,0");

    assert_eq!(
        map.get(&Location { x: 0, y: 0 }),
        Some(Tile { terrain: Terrain::Ground, elevation: 2, corner: Some(Corner::Southeast) })
    );
    assert_eq!(
        map.get(&Location { x: 1, y: 0 }),
        Some(Tile { terrain: Terrain::Slope(Direction::North), elevation: 1, corner: None })
    );
    assert_eq!(
        map.get(&Location { x: 2, y: 0 }),
        Some(Tile { terrain: Terrain::Conveyor(Direction::East), elevation: 0, corner: None })
    );
    assert_eq!(
        map.get(&Location { x: 3, y: 0 }),
        Some(Tile {
            terrain: Terrain::Portal(Location { x: 7, y: -8 }),
            elevation: 0,
            corner: None
        })
    );
    assert_eq!(
        map.get(&Location { x: 4, y: 0 }),
        Some(Tile { terrain: Terrain::Ice, elevation: 0, corner: Some(Corner::Northwest) })
    );
    assert_eq!(
        map.get(&Location { x: 5, y: 0 }),
        Some(Tile { terrain: Terrain::Quicksand, elevation: 0, corner: None })
    );
    assert_eq!(map.get(&Location { x: 6, y: 0 }), None);
}

#[test]
fn later_records_replace_earlier_ones() {
    let mut board = Board::new();
    board.insert(
        Location { x: 0, y: 0 },
        Tile { terrain: Terrain::Ground, elevation: 0, corner: None },
    );
    board.insert(
        Location { x: 0, y: 0 },
        Tile { terrain: Terrain::Water, elevation: 1, corner: None },
    );
    assert_eq!(
        board.get(&Location { x: 0, y: 0 }),
        Some(Tile { terrain: Terrain::Water, elevation: 1, corner: None })
    );
    assert_eq!(board.len(), 1);
}
