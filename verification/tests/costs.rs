//! The cost counter: the fixed per-move overhead plus one unit per tile
//! travelled, the water splash penalty, the spring fizzle delay, and the
//! portal transit; and the trap's hold on a ball with rolling to spare.

use golf_peaks::Board;
use golf_peaks::Card;
use golf_peaks::Direction;
use golf_peaks::Location;
use golf_peaks::Terrain;
use golf_peaks::Tile;
use golf_peaks::try_move;

fn tile(terrain: Terrain) -> Tile {
    Tile { terrain, elevation: 0, corner: None }
}

#[test]
fn a_roll_costs_overhead_plus_distance() {
    let mut map = Board::new();
    map.insert(Location { x: 0, y: 0 }, tile(Terrain::Ground));
    map.insert(Location { x: 1, y: 0 }, tile(Terrain::Ground));
    map.insert(Location { x: 2, y: 0 }, tile(Terrain::Ground));

    let result = try_move(&map, Location { x: 0, y: 0 }, Card { rolling: 2, airborne: 0 }, Direction::East);

    assert_eq!(result, Some((Location { x: 2, y: 0 }, 5)));
}

#[test]
fn a_jump_costs_overhead_plus_distance() {
    let mut map = Board::new();
    map.insert(Location { x: 0, y: 0 }, tile(Terrain::Ground));
    map.insert(Location { x: 3, y: 0 }, tile(Terrain::Ground));

    let result = try_move(&map, Location { x: 0, y: 0 }, Card { rolling: 0, airborne: 3 }, Direction::East);

    assert_eq!(result, Some((Location { x: 3, y: 0 }, 6)));
}

#[test]
fn landing_in_water_adds_the_splash_penalty() {
    let mut map = Board::new();
    map.insert(Location { x: 0, y: 0 }, tile(Terrain::Ground));
    map.insert(Location { x: 1, y: 0 }, tile(Terrain::Water));

    let result = try_move(&map, Location { x: 0, y: 0 }, Card { rolling: 1, airborne: 0 }, Direction::East);

    assert_eq!(result, Some((Location { x: 0, y: 0 }, 7)));
}

#[test]
fn stopping_on_a_spring_adds_the_fizzle_delay() {
    let mut map = Board::new();
    map.insert(Location { x: 0, y: 0 }, tile(Terrain::Ground));
    map.insert(Location { x: 1, y: 0 }, tile(Terrain::Spring));

    let result = try_move(&map, Location { x: 0, y: 0 }, Card { rolling: 1, airborne: 0 }, Direction::East);

    assert_eq!(result, Some((Location { x: 1, y: 0 }, 5)));
}

#[test]
fn falling_through_a_portal_costs_one_unit() {
    let mut map = Board::new();
    map.insert(Location { x: 0, y: 0 }, tile(Terrain::Ground));
    map.insert(Location { x: 1, y: 0 }, tile(Terrain::Portal(Location { x: 4, y: 4 })));
    map.insert(Location { x: 4, y: 4 }, tile(Terrain::Ground));

    let result = try_move(&map, Location { x: 0, y: 0 }, Card { rolling: 1, airborne: 0 }, Direction::East);

    assert_eq!(result, Some((Location { x: 4, y: 4 }, 5)));
}

#[test]
fn a_trap_holds_a_ball_with_rolling_to_spare() {
    let mut map = Board::new();
    map.insert(Location { x: 0, y: 0 }, tile(Terrain::Trap));
    map.insert(Location { x: 1, y: 0 }, tile(Terrain::Ground));
    map.insert(Location { x: 2, y: 0 }, tile(Terrain::Ground));

    let result = try_move(&map, Location { x: 0, y: 0 }, Card { rolling: 2, airborne: 0 }, Direction::East);

    assert_eq!(result, Some((Location { x: 0, y: 0 }, 3)));
}

#[test]
fn cannot_crest_a_slope_with_the_last_unit_of_rolling() {
    // Ascending a slope takes rolling budget to spare beyond the step
    // itself, so a single-tile roll bounces off the face instead.
    let mut map = Board::new();
    map.insert(Location { x: 0, y: 0 }, tile(Terrain::Ground));
    map.insert(
        Location { x: 1, y: 0 },
        Tile { terrain: Terrain::Slope(Direction::West), elevation: 1, corner: None },
    );

    let result = try_move(&map, Location { x: 0, y: 0 }, Card { rolling: 1, airborne: 0 }, Direction::East);

    assert_eq!(result, Some((Location { x: 0, y: 0 }, 4)));
}

#[test]
fn fails_when_water_is_the_only_resting_place() {
    // A ball that starts in water and never reaches stable ground has
    // nowhere to be placed back, so the move fails.
    let mut map = Board::new();
    map.insert(Location { x: 0, y: 0 }, tile(Terrain::Water));
    map.insert(
        Location { x: 1, y: 0 },
        Tile { terrain: Terrain::Ground, elevation: 1, corner: None },
    );

    let result = try_move(&map, Location { x: 0, y: 0 }, Card { rolling: 1, airborne: 0 }, Direction::East);

    assert_eq!(result, None);
}

#[test]
fn an_immediate_wall_bounce_returns_the_start_at_base_cost() {
    let mut map = Board::new();
    map.insert(Location { x: 0, y: 0 }, tile(Terrain::Ground));
    map.insert(
        Location { x: 1, y: 0 },
        Tile { terrain: Terrain::Ground, elevation: 1, corner: None },
    );

    let result = try_move(&map, Location { x: 0, y: 0 }, Card { rolling: 1, airborne: 0 }, Direction::East);

    assert_eq!(result, Some((Location { x: 0, y: 0 }, 4)));
}
