//! A solver for grid-based minigolf puzzles: a deterministic trajectory
//! simulator for a ball moved by rolling/airborne cards over tiled terrain,
//! and a backtracking search that orders a multiset of cards so the ball
//! ends in the hole.

pub mod model;
pub mod parse;
pub mod search;
pub mod sim;

pub use model::Board;
pub use model::Card;
pub use model::Corner;
pub use model::Direction;
pub use model::Location;
pub use model::Terrain;
pub use model::Tile;
pub use model::opposite_direction_of;
pub use parse::interpret_starting_conditions;
pub use parse::parse_i32;
pub use parse::split_commas;
pub use parse::starting_conditions_well_formed;
pub use search::MemoTable;
pub use search::try_moves_to_reach_hole;
pub use sim::portals_are_closed;
pub use sim::try_move;
