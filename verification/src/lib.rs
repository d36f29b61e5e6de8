//! Turn planner for a fleet of collector ships on a wrapped resource grid.
//!
//! Every function here is stated over mathematical models (integers,
//! sequences, sets and maps) and proved against them.

pub mod assign;
pub mod bot_logic;
pub mod clusters;
pub mod conflict;
pub mod corridor;
pub mod crossing;
pub mod data;
pub mod disjoint_set;
pub mod dropoff;
pub mod fleet;
pub mod game;
pub mod geometry;
pub mod gmap;
pub mod goals;
pub mod lists;
pub mod pathfinding;
pub mod priority;
pub mod protocol;
pub mod search;
pub mod vmaps;
pub mod walks;

pub use bot_logic::{DropoffCandidate, Logic};
pub use data::{Direction, Dropoff, Factory, Point, Ship, ShipCommand, Target};
pub use disjoint_set::DisjointSet;
pub use game::{Constants, Game};
pub use gmap::GMap;
pub use goals::{Goal, GoalType};
pub use priority::{CellPriority, CellPriorityMax, ShipPriority};
