//! The search engine: end-to-end solves, per-value card quotas, and
//! bound pruning.

use golf_peaks::Board;
use golf_peaks::Card;
use golf_peaks::Direction;
use golf_peaks::Location;
use golf_peaks::MemoTable;
use golf_peaks::Terrain;
use golf_peaks::Tile;
use golf_peaks::try_moves_to_reach_hole;

fn ground(elevation: i32) -> Tile {
    Tile { terrain: Terrain::Ground, elevation, corner: None }
}

fn hole() -> Tile {
    Tile { terrain: Terrain::Hole, elevation: 0, corner: None }
}

#[test]
fn solves_two_tile_board_with_one_move() {
    let mut map = Board::new();
    map.insert(Location { x: 0, y: 0 }, ground(0));
    map.insert(Location { x: 1, y: 0 }, hole());
    let cards = vec![Card { rolling: 1, airborne: 0 }];
    let mut counts = vec![1];

    let result = try_moves_to_reach_hole(
        &map,
        Location { x: 0, y: 0 },
        &cards,
        &mut counts,
        &mut Vec::new(),
        &mut MemoTable::new(),
        None,
    );

    assert_eq!(result.is_some(), true);
    let moves = result.unwrap();
    assert_eq!(moves.len(), 1);
    assert_eq!(moves[0].0, Card { rolling: 1, airborne: 0 });
    assert_eq!(moves[0].1, Direction::East);
    assert_eq!(moves[0].2, 4);
    assert_eq!(counts, vec![1]);
}

#[test]
fn does_not_reuse_a_card_beyond_its_quota() {
    // Only two rolls of one tile each would reach the hole, but the
    // one-tile card is available once and the three-tile card overshoots
    // the board, so there is no solution.
    let mut map = Board::new();
    map.insert(Location { x: 0, y: 0 }, ground(0));
    map.insert(Location { x: 1, y: 0 }, ground(0));
    map.insert(Location { x: 2, y: 0 }, hole());
    let cards = vec![Card { rolling: 1, airborne: 0 }, Card { rolling: 3, airborne: 0 }];
    let mut counts = vec![1, 1];

    let result = try_moves_to_reach_hole(
        &map,
        Location { x: 0, y: 0 },
        &cards,
        &mut counts,
        &mut Vec::new(),
        &mut MemoTable::new(),
        None,
    );

    assert_eq!(result.is_none(), true);
    assert_eq!(counts, vec![1, 1]);
}

#[test]
fn uses_both_cards_once_when_both_are_needed() {
    let mut map = Board::new();
    map.insert(Location { x: 0, y: 0 }, ground(0));
    map.insert(Location { x: 1, y: 0 }, ground(0));
    map.insert(Location { x: 2, y: 0 }, ground(0));
    map.insert(Location { x: 3, y: 0 }, hole());
    let one = Card { rolling: 1, airborne: 0 };
    let two = Card { rolling: 2, airborne: 0 };
    let cards = vec![one, two];
    let mut counts = vec![1, 1];

    let result = try_moves_to_reach_hole(
        &map,
        Location { x: 0, y: 0 },
        &cards,
        &mut counts,
        &mut Vec::new(),
        &mut MemoTable::new(),
        None,
    );

    assert_eq!(result.is_some(), true);
    let moves = result.unwrap();
    assert_eq!(moves.len(), 2);
    let ones = moves.iter().filter(|m| m.0 == one).count();
    let twos = moves.iter().filter(|m| m.0 == two).count();
    assert_eq!(ones, 1);
    assert_eq!(twos, 1);
    assert_eq!(counts, vec![1, 1]);
}

#[test]
fn respects_a_cost_bound_to_beat() {
    // The only solution costs 3 overhead + 2 steps = 5, so it is found
    // under a bound of 6 but not under a bound of 5.
    let mut map = Board::new();
    map.insert(Location { x: 0, y: 0 }, ground(0));
    map.insert(Location { x: 1, y: 0 }, ground(0));
    map.insert(Location { x: 2, y: 0 }, hole());
    let cards = vec![Card { rolling: 2, airborne: 0 }];

    let found = try_moves_to_reach_hole(
        &map,
        Location { x: 0, y: 0 },
        &cards,
        &mut vec![1],
        &mut Vec::new(),
        &mut MemoTable::new(),
        Some(6),
    );
    assert_eq!(found.is_some(), true);
    assert_eq!(found.unwrap()[0].2, 5);

    let pruned = try_moves_to_reach_hole(
        &map,
        Location { x: 0, y: 0 },
        &cards,
        &mut vec![1],
        &mut Vec::new(),
        &mut MemoTable::new(),
        Some(5),
    );
    assert_eq!(pruned.is_none(), true);
}

#[test]
fn prefers_the_cheaper_of_two_solutions() {
    // One move into the hole beats spending two cards to get there.
    let mut map = Board::new();
    map.insert(Location { x: 0, y: 0 }, ground(0));
    map.insert(Location { x: 1, y: 0 }, ground(0));
    map.insert(Location { x: 2, y: 0 }, hole());
    let one = Card { rolling: 1, airborne: 0 };
    let two = Card { rolling: 2, airborne: 0 };
    let cards = vec![one, two];
    let mut counts = vec![1, 1];

    let result = try_moves_to_reach_hole(
        &map,
        Location { x: 0, y: 0 },
        &cards,
        &mut counts,
        &mut Vec::new(),
        &mut MemoTable::new(),
        None,
    );

    assert_eq!(result.is_some(), true);
    let moves = result.unwrap();
    assert_eq!(moves.len(), 1);
    assert_eq!(moves[0].0, two);
    assert_eq!(moves[0].2, 5);
}

#[test]
fn reports_no_solution_when_the_hole_is_unreachable() {
    let mut map = Board::new();
    map.insert(Location { x: 0, y: 0 }, ground(0));
    map.insert(Location { x: 5, y: 0 }, hole());
    let cards = vec![Card { rolling: 1, airborne: 0 }];
    let mut counts = vec![1];

    let result = try_moves_to_reach_hole(
        &map,
        Location { x: 0, y: 0 },
        &cards,
        &mut counts,
        &mut Vec::new(),
        &mut MemoTable::new(),
        None,
    );

    assert_eq!(result.is_none(), true);
}
