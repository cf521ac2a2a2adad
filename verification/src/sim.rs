//! The trajectory simulator: a deterministic state machine that follows a
//! single card from a starting tile, reproducing every terrain interaction
//! (elevation, corners, traps, quicksand, water, springs, portals,
//! conveyors, ice), and fails a move that falls off the board, stalls in a
//! loop, or rests in quicksand.

use vstd::prelude::*;
use vstd::set_lib::lemma_len_subset;
use vstd::set_lib::lemma_len_union;
use vstd::set_lib::lemma_map_size_bound;
use crate::model::Board;
use crate::model::Card;
use crate::model::Corner;
use crate::model::Direction;
use crate::model::Location;
use crate::model::Terrain;
use crate::model::Tile;
use crate::model::dir_opposite;
use crate::model::MAX_BOARD_TILES;
use crate::model::MAX_CARD_DISTANCE;
use crate::model::MOVE_COST_LIMIT;

verus! {

/// Where a straight displacement of `dist` tiles leads, as coordinates on
/// the unbounded lattice (wider than `i32`, so off-the-edge arithmetic is
/// exact).
pub open spec fn shifted(l: Location, d: Direction, dist: int) -> (int, int) {
    match d {
        Direction::North => (l.x as int, l.y as int + dist),
        Direction::East => (l.x as int + dist, l.y as int),
        Direction::South => (l.x as int, l.y as int - dist),
        Direction::West => (l.x as int - dist, l.y as int),
    }
}

/// Does the board hold a tile at these lattice coordinates? Coordinates
/// beyond the `i32` range can never carry a tile.
pub open spec fn coords_on_board(board: Map<Location, Tile>, p: (int, int)) -> bool {
    &&& (i32::MIN as int) <= p.0 <= (i32::MAX as int)
    &&& (i32::MIN as int) <= p.1 <= (i32::MAX as int)
    &&& board.contains_key(Location { x: p.0 as i32, y: p.1 as i32 })
}

/// The location at in-range lattice coordinates.
pub open spec fn loc_of(p: (int, int)) -> Location {
    Location { x: p.0 as i32, y: p.1 as i32 }
}

/// The direction a rolling ball leaves a corner deflector with: a corner
/// reflects the two directions that run into its concave face and lets the
/// other two pass.
pub open spec fn deflected(d: Direction, corner: Option<Corner>) -> Direction {
    match corner {
        None => d,
        Some(c) => match d {
            Direction::North => match c {
                Corner::Northeast => Direction::West,
                Corner::Northwest => Direction::East,
                _ => d,
            },
            Direction::East => match c {
                Corner::Northeast => Direction::South,
                Corner::Southeast => Direction::North,
                _ => d,
            },
            Direction::South => match c {
                Corner::Southeast => Direction::West,
                Corner::Southwest => Direction::East,
                _ => d,
            },
            Direction::West => match c {
                Corner::Southwest => Direction::North,
                Corner::Northwest => Direction::South,
                _ => d,
            },
        },
    }
}

/// Does the corner of the tile being entered present its convex back face
/// to a ball arriving with travel direction `d`?
pub open spec fn corner_blocks_entry(d: Direction, corner: Option<Corner>) -> bool {
    match corner {
        None => false,
        Some(c) => match d {
            Direction::North => c == Corner::Southeast || c == Corner::Southwest,
            Direction::East => c == Corner::Southwest || c == Corner::Northwest,
            Direction::South => c == Corner::Northeast || c == Corner::Northwest,
            Direction::West => c == Corner::Northeast || c == Corner::Southeast,
        },
    }
}

/// Does every portal on the board exit onto a tile of the board?
pub open spec fn portals_closed(board: Map<Location, Tile>) -> bool {
    forall|l: Location| #[trigger]
        board.contains_key(l) ==> match board[l].terrain {
            Terrain::Portal(exit) => board.contains_key(exit),
            _ => true,
        }
}

/// Every (location, direction) pair the stall guard could ever record:
/// the board's tiles paired with the four directions.
pub open spec fn guard_space(board: Map<Location, Tile>) -> Set<(Location, Direction)> {
    board.dom().map(|l: Location| (l, Direction::North)).union(
        board.dom().map(|l: Location| (l, Direction::South)),
    ).union(board.dom().map(|l: Location| (l, Direction::West))).union(
        board.dom().map(|l: Location| (l, Direction::East)),
    )
}

/// On a finite board the guard space is finite, holds at most four pairs
/// per tile, and holds every pair whose location is on the board.
pub proof fn lemma_guard_space(board: Map<Location, Tile>)
    requires
        board.dom().finite(),
    ensures
        guard_space(board).finite(),
        guard_space(board).len() <= 4 * board.dom().len(),
        forall|l: Location, d: Direction|
            board.dom().contains(l) ==> guard_space(board).contains((l, d)),
{
    let dom = board.dom();
    let sn = dom.map(|l: Location| (l, Direction::North));
    let ss = dom.map(|l: Location| (l, Direction::South));
    let sw = dom.map(|l: Location| (l, Direction::West));
    let se = dom.map(|l: Location| (l, Direction::East));
    lemma_map_size_bound(dom, sn, |l: Location| (l, Direction::North));
    lemma_map_size_bound(dom, ss, |l: Location| (l, Direction::South));
    lemma_map_size_bound(dom, sw, |l: Location| (l, Direction::West));
    lemma_map_size_bound(dom, se, |l: Location| (l, Direction::East));
    lemma_len_union(sn, ss);
    lemma_len_union(sn.union(ss), sw);
    lemma_len_union(sn.union(ss).union(sw), se);
    assert forall|l: Location, d: Direction| dom.contains(l) implies guard_space(board).contains(
        (l, d),
    ) by {
        match d {
            Direction::North => assert(sn.contains((l, d))),
            Direction::South => assert(ss.contains((l, d))),
            Direction::West => assert(sw.contains((l, d))),
            Direction::East => assert(se.contains((l, d))),
        }
    }
}

/// What landing on a tile does to the ball, evaluated after the stall
/// guard: the new position (a portal may relocate the ball), direction,
/// rolling and airborne budgets, cost, and last stable position. The
/// airborne budget is always spent when a ball lands, so only the rolling
/// budget comes in. Water and a hole reached from the air terminate the
/// move before this function applies and are inert here.
pub open spec fn landing_effects(
    by_air: bool,
    tile: Tile,
    pos: Location,
    dir: Direction,
    rolling: int,
    steps: int,
    stable: Location,
    prev_pos: Location,
) -> (Location, Direction, int, int, int, Location) {
    match tile.terrain {
        Terrain::Hole => (pos, dir, rolling, 0, steps, pos),
        Terrain::Ground => (pos, dir, rolling, 0, steps, pos),
        Terrain::Slope(slope_dir) => {
            if by_air || dir != dir_opposite(slope_dir) || rolling == 0 {
                ((pos, slope_dir, if rolling == 0 { 1int } else { rolling }, 0, steps, stable))
            } else {
                ((pos, dir, rolling, 0, steps, stable))
            }
        },
        Terrain::Trap => (pos, dir, rolling, 0, steps, pos),
        Terrain::Quicksand => (pos, dir, rolling, 0, steps, stable),
        Terrain::Water => (pos, dir, rolling, 0, steps, stable),
        Terrain::Spring => {
            ((pos, dir, 0, rolling, if rolling == 0 { steps + 1 } else { steps }, pos))
        },
        Terrain::Portal(exit) => {
            if by_air || rolling == 0 {
                ((exit, dir, rolling, 0, steps + 1, exit))
            } else {
                ((pos, dir, rolling, 0, steps, pos))
            }
        },
        Terrain::Conveyor(conveyor_dir) => {
            if rolling == 0 {
                ((pos, conveyor_dir, 1, 0, steps, stable))
            } else {
                ((pos, dir, rolling, 0, steps, stable))
            }
        },
        Terrain::Ice => {
            if rolling == 0 && pos != prev_pos {
                ((pos, dir, 1, 0, steps, pos))
            } else {
                ((pos, dir, rolling, 0, steps, pos))
            }
        },
    }
}

/// One step of the move: where the ball stands after attempting to move
/// (trap pinning, corner deflection, the elevation rules), or `None` if it
/// leaves the board. Yields (position, direction, rolling, cost); the
/// airborne budget after a step is always spent.
pub open spec fn move_step(
    board: Map<Location, Tile>,
    pos: Location,
    dir: Direction,
    rolling: int,
    airborne: int,
    steps: int,
) -> Option<(Location, Direction, int, int)> {
    let tile = board[pos];
    let by_air = airborne > 0;
    if tile.terrain is Trap && !by_air {
        Some((pos, dir, 0, steps))
    } else if by_air {
        let target = shifted(pos, dir, airborne);
        if coords_on_board(board, target) {
            Some((loc_of(target), dir, rolling, steps + airborne))
        } else {
            None
        }
    } else {
        let dir1 = deflected(dir, tile.corner);
        let target = shifted(pos, dir1, 1);
        if coords_on_board(board, target) {
            let next_tile = board[loc_of(target)];
            let steps2 = steps + 1;
            let rolling2 = rolling - 1;
            if tile.elevation > next_tile.elevation {
                Some((loc_of(target), dir1, rolling2, steps2))
            } else if tile.elevation == next_tile.elevation {
                if corner_blocks_entry(dir1, next_tile.corner) {
                    Some((pos, dir_opposite(dir1), rolling2, steps2))
                } else {
                    Some((loc_of(target), dir1, rolling2, steps2))
                }
            } else {
                let can_ascend = match next_tile.terrain {
                    Terrain::Slope(slope_dir) => tile.elevation == next_tile.elevation - 1
                        && dir1 == dir_opposite(slope_dir) && rolling2 > 0,
                    _ => false,
                };
                if can_ascend {
                    Some((loc_of(target), dir1, rolling2, steps2))
                } else {
                    Some((pos, dir_opposite(dir1), rolling2, steps2))
                }
            }
        } else {
            None
        }
    }
}

/// The outcome of following a move to its end from an intermediate state:
/// the final (position, cost), or `None` when the move is not physically
/// realizable (it leaves the board, stalls in a loop, or rests in
/// quicksand). `guard` holds the (position, direction) pairs already seen
/// with the rolling budget exhausted; a repeat fails the move.
pub open spec fn sim_from(
    board: Map<Location, Tile>,
    pos: Location,
    dir: Direction,
    rolling: int,
    airborne: int,
    stable: Location,
    steps: int,
    guard: Set<(Location, Direction)>,
) -> Option<(Location, int)>
    decreases guard_space(board).difference(guard).len(), rolling + airborne,
    when rolling >= 0 && airborne >= 0 && board.dom().finite()
    via sim_from_decreases
{
    if rolling == 0 && airborne == 0 {
        if board.contains_key(pos) && board[pos].terrain is Quicksand {
            None
        } else {
            Some((pos, steps))
        }
    } else if !board.contains_key(pos) {
        None
    } else {
        let by_air = airborne > 0;
        match move_step(board, pos, dir, rolling, airborne, steps) {
            None => None,
            Some((pos2, dir2, rolling2, steps2)) => {
                if rolling2 == 0 && guard.contains((pos2, dir2)) {
                    None
                } else if !board.contains_key(pos2) {
                    None
                } else {
                    let guard2 = if rolling2 == 0 {
                        guard.insert((pos2, dir2))
                    } else {
                        guard
                    };
                    let landed_tile = board[pos2];
                    if landed_tile.terrain is Hole && by_air {
                        Some((pos2, steps2))
                    } else if landed_tile.terrain is Water {
                        if stable == pos2 {
                            None
                        } else {
                            Some((stable, steps2 + 3))
                        }
                    } else {
                        let eff = landing_effects(
                            by_air,
                            landed_tile,
                            pos2,
                            dir2,
                            rolling2,
                            steps2,
                            stable,
                            pos,
                        );
                        sim_from(board, eff.0, eff.1, eff.2, eff.3, eff.5, eff.4, guard2)
                    }
                }
            },
        }
    }
}

#[via_fn]
proof fn sim_from_decreases(
    board: Map<Location, Tile>,
    pos: Location,
    dir: Direction,
    rolling: int,
    airborne: int,
    stable: Location,
    steps: int,
    guard: Set<(Location, Direction)>,
) {
    lemma_guard_space(board);
    assert forall|p: (Location, Direction)|
        guard_space(board).contains(p) && !guard.contains(p) implies guard_space(board).difference(
        guard.insert(p),
    ).len() < guard_space(board).difference(guard).len() by {
        guard_space(board).lemma_set_insert_diff_decreases(guard, p);
    }
}

/// The outcome of playing a card from a starting tile facing a direction:
/// the final (position, cost), or `None` when the move is not physically
/// realizable. The cost counter is seeded with the fixed per-move
/// overhead.
pub open spec fn sim_outcome(
    board: Map<Location, Tile>,
    start: Location,
    card: Card,
    dir: Direction,
) -> Option<(Location, int)> {
    sim_from(
        board,
        start,
        dir,
        card.rolling as int,
        card.airborne as int,
        start,
        3,
        Set::empty(),
    )
}

/// Does the stall guard already hold this (position, direction) pair?
fn guard_holds(v: &Vec<(Location, Direction)>, p: (Location, Direction)) -> (r: bool)
    ensures
        r == v@.contains(p),
{
    let mut i: usize = 0;
    while i < v.len()
        invariant
            0 <= i <= v@.len(),
            forall|k: int| 0 <= k < i ==> #[trigger] v@[k] != p,
        decreases v@.len() - i,
    {
        if v[i].0 == p.0 && v[i].1 == p.1 {
            assert(v@[i as int] == p);
            return true;
        }
        i += 1;
    }
    false
}

/// Attempts to play a card from a starting tile facing a direction, and
/// returns the finishing position with the move's cost, or `None` for a
/// move that is not physically realizable: it leaves the board, stalls in
/// a loop, or comes to rest in quicksand. The result is exactly the
/// mathematical simulation [`sim_outcome`]; together with that equality the
/// contract shows determinism (any two calls on equal inputs agree) and
/// that a returned position always lies on the board.
///
/// The loop carries a `decreases` measure, so the simulation provably
/// terminates on every board: whenever the stall guard does not grow, the
/// remaining movement budget shrinks, and the guard can hold at most four
/// pairs per tile of the finite board.
#[verifier::loop_isolation(false)]
#[verifier::rlimit(100)]
#[verifier::spinoff_prover]
pub fn try_move(
    map: &Board,
    starting_position: Location,
    remaining_card: Card,
    current_direction: Direction,
) -> (r: Option<(Location, i32)>)
    requires
        map.wf(),
        map@.contains_key(starting_position),
        portals_closed(map@),
        map@.dom().len() <= MAX_BOARD_TILES as nat,
        0 <= remaining_card.rolling <= MAX_CARD_DISTANCE,
        0 <= remaining_card.airborne <= MAX_CARD_DISTANCE,
    ensures
        (r is Some) == (sim_outcome(map@, starting_position, remaining_card, current_direction)
            is Some),
        r matches Some(end) ==> sim_outcome(map@, starting_position, remaining_card,
            current_direction) == Some((end.0, end.1 as int)),
        r matches Some(end) ==> map@.contains_key(end.0) && 3 <= end.1 <= MOVE_COST_LIMIT,
{
    broadcast use vstd::seq_lib::lemma_seq_contains_after_push;

    let ghost r0 = remaining_card.rolling as int;
    let ghost a0 = remaining_card.airborne as int;
    let mut rolling: i32 = remaining_card.rolling;
    let mut airborne: i32 = remaining_card.airborne;
    let mut steps: i32 = 3;
    let mut stable: Location = starting_position;
    let mut pos: Location = starting_position;
    let mut dir: Direction = current_direction;
    let mut guard: Vec<(Location, Direction)> = Vec::new();
    let ghost gs = Set::<(Location, Direction)>::empty();
    proof {
        map.lemma_finite();
        lemma_guard_space(map@);
    }
    while rolling > 0 || airborne > 0
        invariant
            0 <= rolling,
            0 <= airborne,
            map@.contains_key(pos),
            map@.contains_key(stable),
            gs.finite(),
            gs.subset_of(guard_space(map@)),
            gs.len() <= 4 * map@.dom().len(),
            forall|p: (Location, Direction)| gs.contains(p) <==> guard@.contains(p),
            3 <= steps,
            steps + 2 * (rolling + airborne) <= 3 + 2 * (r0 + a0) + 2 * gs.len(),
            sim_from(map@, pos, dir, rolling as int, airborne as int, stable, steps as int, gs)
                == sim_outcome(map@, starting_position, remaining_card, current_direction),
        decreases guard_space(map@).difference(gs).len(), rolling + airborne,
    {
        let ghost pre_pos = pos;
        let ghost pre_dir = dir;
        let ghost pre_rolling = rolling as int;
        let ghost pre_airborne = airborne as int;
        let ghost pre_stable = stable;
        let ghost pre_steps = steps as int;
        let ghost pre_gs = gs;
        let tile_before = map.tile_at(&pos);
        let position_before = pos;
        let moving_by_air = airborne > 0;

        // Move stage: trap pinning, or an airborne jump, or a single
        // rolling step with corner deflection and the elevation rules.
        if matches!(tile_before.terrain, Terrain::Trap) && !moving_by_air {
            rolling = 0;
        } else {
            if !moving_by_air {
                if let Some(corner) = tile_before.corner {
                    dir = match dir {
                        Direction::North => match corner {
                            Corner::Northeast => Direction::West,
                            Corner::Northwest => Direction::East,
                            _ => dir,
                        },
                        Direction::East => match corner {
                            Corner::Northeast => Direction::South,
                            Corner::Southeast => Direction::North,
                            _ => dir,
                        },
                        Direction::South => match corner {
                            Corner::Southeast => Direction::West,
                            Corner::Southwest => Direction::East,
                            _ => dir,
                        },
                        Direction::West => match corner {
                            Corner::Southwest => Direction::North,
                            Corner::Northwest => Direction::South,
                            _ => dir,
                        },
                    };
                }
            }
            let dist: i32 = if moving_by_air {
                airborne
            } else {
                1
            };
            let (nx, ny): (i64, i64) = match dir {
                Direction::North => (pos.x as i64, pos.y as i64 + dist as i64),
                Direction::East => (pos.x as i64 + dist as i64, pos.y as i64),
                Direction::South => (pos.x as i64, pos.y as i64 - dist as i64),
                Direction::West => (pos.x as i64 - dist as i64, pos.y as i64),
            };
            proof {
                assert((nx as int, ny as int) == shifted(pos, dir, dist as int));
            }
            let next_tile_opt: Option<Tile> = if nx < i32::MIN as i64 || nx > i32::MAX as i64 || ny
                < i32::MIN as i64 || ny > i32::MAX as i64 {
                None
            } else {
                map.get(&Location { x: nx as i32, y: ny as i32 })
            };
            proof {
                assert(next_tile_opt is Some <==> coords_on_board(
                    map@,
                    shifted(pre_pos, dir, dist as int),
                ));
            }
            match next_tile_opt {
                None => {
                    proof {
                        assert(move_step(
                            map@,
                            pre_pos,
                            pre_dir,
                            pre_rolling,
                            pre_airborne,
                            pre_steps,
                        ) is None);
                    }
                    return None;
                },
                Some(next_tile) => {
                    let next_position = Location { x: nx as i32, y: ny as i32 };
                    if moving_by_air {
                        steps = steps + airborne;
                        airborne = 0;
                        pos = next_position;
                    } else {
                        steps = steps + 1;
                        rolling = rolling - 1;
                        if tile_before.elevation > next_tile.elevation {
                            pos = next_position;
                        } else if tile_before.elevation == next_tile.elevation {
                            let blocked = match next_tile.corner {
                                None => false,
                                Some(c) => match dir {
                                    Direction::North => matches!(c, Corner::Southeast) || matches!(
                                        c,
                                        Corner::Southwest,
                                    ),
                                    Direction::East => matches!(c, Corner::Southwest) || matches!(
                                        c,
                                        Corner::Northwest,
                                    ),
                                    Direction::South => matches!(c, Corner::Northeast) || matches!(
                                        c,
                                        Corner::Northwest,
                                    ),
                                    Direction::West => matches!(c, Corner::Northeast) || matches!(
                                        c,
                                        Corner::Southeast,
                                    ),
                                },
                            };
                            if blocked {
                                dir = opposite_direction_exec(dir);
                            } else {
                                pos = next_position;
                            }
                        } else {
                            let mut can_ascend = false;
                            if let Terrain::Slope(slope_dir) = next_tile.terrain {
                                if next_tile.elevation as i64 - tile_before.elevation as i64 == 1
                                    && rolling > 0 {
                                    can_ascend = dir == opposite_direction_exec(slope_dir);
                                }
                            }
                            if can_ascend {
                                pos = next_position;
                            } else {
                                dir = opposite_direction_exec(dir);
                            }
                        }
                    }
                },
            }
        }
        let ghost mid_pos = pos;
        let ghost mid_dir = dir;
        let ghost mid_rolling = rolling as int;
        let ghost mid_steps = steps as int;
        proof {
            assert(move_step(map@, pre_pos, pre_dir, pre_rolling, pre_airborne, pre_steps)
                == Some((mid_pos, mid_dir, mid_rolling, mid_steps)));
            assert(map@.contains_key(mid_pos));
        }

        // Stall guard: a ball whose rolling budget just ran out must not
        // revisit a (position, direction) pair within one move.
        if rolling == 0 {
            if guard_holds(&guard, (pos, dir)) {
                return None;
            }
            guard.push((pos, dir));
            proof {
                gs = gs.insert((pos, dir));
                assert(guard_space(map@).contains((mid_pos, mid_dir)));
                lemma_len_subset(gs, guard_space(map@));
                guard_space(map@).lemma_set_insert_diff_decreases(pre_gs, (mid_pos, mid_dir));
            }
        }

        // Landing stage: what the tile the ball now occupies does to it.
        let landed_tile = map.tile_at(&pos);
        match landed_tile.terrain {
            Terrain::Hole => {
                if moving_by_air {
                    return Some((pos, steps));
                }
                stable = pos;
            },
            Terrain::Ground => {
                stable = pos;
            },
            Terrain::Slope(slope_dir) => {
                if moving_by_air || dir != opposite_direction_exec(slope_dir) || rolling == 0 {
                    dir = slope_dir;
                    if rolling == 0 {
                        rolling = 1;
                    }
                }
            },
            Terrain::Trap => {
                stable = pos;
            },
            Terrain::Quicksand => {},
            Terrain::Water => {
                steps = steps + 3;
                if stable == pos {
                    return None;
                }
                return Some((stable, steps));
            },
            Terrain::Spring => {
                airborne = rolling;
                rolling = 0;
                if airborne == 0 {
                    steps = steps + 1;
                }
                stable = pos;
            },
            Terrain::Portal(exit_portal) => {
                if moving_by_air || rolling == 0 {
                    steps = steps + 1;
                    pos = exit_portal;
                }
                stable = pos;
            },
            Terrain::Conveyor(conveyor_dir) => {
                if rolling == 0 {
                    dir = conveyor_dir;
                    rolling = 1;
                }
            },
            Terrain::Ice => {
                if rolling == 0 && pos != position_before {
                    rolling = 1;
                }
                stable = pos;
            },
        }
        proof {
            assert(landing_effects(
                moving_by_air,
                map@[mid_pos],
                mid_pos,
                mid_dir,
                mid_rolling,
                mid_steps,
                pre_stable,
                pre_pos,
            ) == (pos, dir, rolling as int, airborne as int, steps as int, stable));
            assert(sim_from(
                map@,
                pre_pos,
                pre_dir,
                pre_rolling,
                pre_airborne,
                pre_stable,
                pre_steps,
                pre_gs,
            ) == sim_from(
                map@,
                pos,
                dir,
                rolling as int,
                airborne as int,
                stable,
                steps as int,
                gs,
            ));
        }
    }
    let final_tile = map.get(&pos);
    if let Some(t) = final_tile {
        if matches!(t.terrain, Terrain::Quicksand) {
            return None;
        }
    }
    Some((pos, steps))
}

/// The cost counter never goes backward: a simulation that succeeds from
/// an intermediate state reports at least the cost accumulated so far. In
/// particular every successful move costs at least the fixed per-move
/// overhead the counter is seeded with.
pub proof fn lemma_sim_cost_lower(
    board: Map<Location, Tile>,
    pos: Location,
    dir: Direction,
    rolling: int,
    airborne: int,
    stable: Location,
    steps: int,
    guard: Set<(Location, Direction)>,
)
    requires
        rolling >= 0,
        airborne >= 0,
        board.dom().finite(),
    ensures
        sim_from(board, pos, dir, rolling, airborne, stable, steps, guard) matches Some(out)
            ==> out.1 >= steps,
    decreases guard_space(board).difference(guard).len(), rolling + airborne,
{
    if rolling == 0 && airborne == 0 {
    } else if !board.contains_key(pos) {
    } else {
        let by_air = airborne > 0;
        match move_step(board, pos, dir, rolling, airborne, steps) {
            None => {},
            Some((pos2, dir2, rolling2, steps2)) => {
                if rolling2 == 0 && guard.contains((pos2, dir2)) {
                } else if !board.contains_key(pos2) {
                } else {
                    let guard2 = if rolling2 == 0 {
                        guard.insert((pos2, dir2))
                    } else {
                        guard
                    };
                    let landed_tile = board[pos2];
                    if landed_tile.terrain is Hole && by_air {
                    } else if landed_tile.terrain is Water {
                    } else {
                        let eff = landing_effects(
                            by_air,
                            landed_tile,
                            pos2,
                            dir2,
                            rolling2,
                            steps2,
                            stable,
                            pos,
                        );
                        if rolling2 == 0 {
                            lemma_guard_space(board);
                            guard_space(board).lemma_set_insert_diff_decreases(
                                guard,
                                (pos2, dir2),
                            );
                        }
                        lemma_sim_cost_lower(
                            board,
                            eff.0,
                            eff.1,
                            eff.2,
                            eff.3,
                            eff.5,
                            eff.4,
                            guard2,
                        );
                    }
                }
            },
        }
    }
}

/// Tests whether every portal on the board exits onto a tile of the
/// board, which is what the simulator requires of a board.
#[verifier::loop_isolation(false)]
pub fn portals_are_closed(map: &Board) -> (r: bool)
    requires
        map.wf(),
    ensures
        r == portals_closed(map@),
{
    let keys = map.keys();
    let mut i: usize = 0;
    while i < keys.len()
        invariant
            0 <= i <= keys@.len(),
            forall|k: int|
                0 <= k < i ==> match map@[#[trigger] keys@[k]].terrain {
                    Terrain::Portal(exit) => map@.contains_key(exit),
                    _ => true,
                },
        decreases keys@.len() - i,
    {
        proof {
            assert(keys@.contains(keys@[i as int]));
        }
        let tile = map.tile_at(&keys[i]);
        if let Terrain::Portal(exit) = tile.terrain {
            if map.get(&exit).is_none() {
                proof {
                    assert(map@.contains_key(keys@[i as int]));
                    assert(!portals_closed(map@));
                }
                return false;
            }
        }
        i += 1;
    }
    proof {
        assert forall|l: Location| #[trigger] map@.contains_key(l) implies match map@[l].terrain {
            Terrain::Portal(exit) => map@.contains_key(exit),
            _ => true,
        } by {
            assert(keys@.contains(l));
            let k = choose|k: int| 0 <= k < keys@.len() && keys@[k] == l;
            assert(map@[keys@[k]].terrain == map@[l].terrain);
        }
    }
    true
}

/// Determinism of the simulator: the outcome of a move is a function of
/// the board, the starting tile, the card, and the direction alone, so any
/// two values that [`try_move`]'s contract ties to the same inputs are
/// equal — repeated calls return identical outcomes.
pub proof fn lemma_simulation_deterministic(
    board: Map<Location, Tile>,
    start: Location,
    card: Card,
    dir: Direction,
    r1: Option<(Location, int)>,
    r2: Option<(Location, int)>,
)
    requires
        r1 == sim_outcome(board, start, card, dir),
        r2 == sim_outcome(board, start, card, dir),
    ensures
        r1 == r2,
{
}

/// Trap absorption: a ball that starts a move resting in a trap, with no
/// airborne distance to lift it out, stays exactly where it is whatever
/// rolling distance the card carries, and the move costs only the fixed
/// per-move overhead.
pub proof fn lemma_trap_absorbs(
    board: Map<Location, Tile>,
    start: Location,
    card: Card,
    dir: Direction,
)
    requires
        board.dom().finite(),
        board.contains_key(start),
        board[start].terrain is Trap,
        card.airborne == 0,
        card.rolling >= 2,
    ensures
        sim_outcome(board, start, card, dir) == Some((start, 3int)),
{
    let guard1 = Set::<(Location, Direction)>::empty().insert((start, dir));
    assert(sim_from(board, start, dir, 0, 0, start, 3, guard1) == Some((start, 3int)));
    assert(sim_from(
        board,
        start,
        dir,
        card.rolling as int,
        card.airborne as int,
        start,
        3,
        Set::empty(),
    ) == Some((start, 3int)));
}

/// The opposite of a direction, by value (a convenience used inside the
/// simulator's hot path).
fn opposite_direction_exec(d: Direction) -> (r: Direction)
    ensures
        r == dir_opposite(d),
{
    match d {
        Direction::North => Direction::South,
        Direction::East => Direction::West,
        Direction::South => Direction::North,
        Direction::West => Direction::East,
    }
}

} // verus!
