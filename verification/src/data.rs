//! Plain records shared by every part of the planner.

use vstd::prelude::*;

verus! {

/// A cell coordinate, or an offset that has not been wrapped yet.
#[derive(Debug, Clone, Copy, PartialEq, Eq, Hash, Structural)]
pub struct Point {
    pub x: isize,
    pub y: isize,
}

/// A cell together with a weight by which targets are ranked.
#[derive(Debug, Clone, Copy, PartialEq, Eq, Structural)]
pub struct Target {
    pub pos: Point,
    pub w: isize,
}

impl Target {
    /// Targets are ranked by weight alone; the cell plays no part.
    pub open spec fn ranks_below(self, other: Target) -> bool {
        self.w < other.w
    }

    /// Whether `self` ranks strictly below `other`.
    pub fn is_below(&self, other: &Target) -> (r: bool)
        ensures
            r == self.ranks_below(*other),
    {
        self.w < other.w
    }
}

/// The shipyard of one player.
#[derive(Debug, Clone, Copy, PartialEq, Eq, Structural)]
pub struct Factory {
    pub player: usize,
    pub pos: Point,
}

/// A deposit site built by one player.
#[derive(Debug, Clone, Copy, PartialEq, Eq, Structural)]
pub struct Dropoff {
    pub player: usize,
    pub pos: Point,
}

/// One ship as the turn's snapshot reports it.
#[derive(Debug, Clone, Copy, PartialEq, Eq, Structural)]
pub struct Ship {
    pub player: usize,
    pub ship_id: usize,
    pub pos: Point,
    pub halite: isize,
}

/// The five things a ship can do with its position in one turn.
#[derive(Debug, Copy, Clone, PartialEq, Eq, Structural)]
pub enum Direction {
    North,
    East,
    South,
    West,
    Still,
}

impl Direction {
    /// The letter that stands for this direction on the wire.
    pub open spec fn letter(self) -> char {
        match self {
            Direction::North => 'n',
            Direction::East => 'e',
            Direction::South => 's',
            Direction::West => 'w',
            Direction::Still => 'o',
        }
    }

    /// The canonical order of the five moves.
    pub open spec fn all() -> Seq<Direction> {
        seq![
            Direction::North,
            Direction::East,
            Direction::South,
            Direction::West,
            Direction::Still,
        ]
    }

    /// The canonical order of the four moves that leave the cell.
    pub open spec fn adjacent() -> Seq<Direction> {
        seq![Direction::North, Direction::East, Direction::South, Direction::West]
    }

    /// Position of this direction in [`Direction::all`].
    pub open spec fn index(self) -> int {
        match self {
            Direction::North => 0,
            Direction::East => 1,
            Direction::South => 2,
            Direction::West => 3,
            Direction::Still => 4,
        }
    }

    /// Horizontal and vertical offset of one step; north is towards row 0.
    pub open spec fn offset(self) -> (int, int) {
        match self {
            Direction::North => (0, -1),
            Direction::East => (1, 0),
            Direction::South => (0, 1),
            Direction::West => (-1, 0),
            Direction::Still => (0, 0),
        }
    }

    /// The letter that stands for this direction on the wire.
    pub fn get_char_encoding(&self) -> (c: char)
        ensures
            c == self.letter(),
    {
        match self {
            Direction::North => 'n',
            Direction::East => 'e',
            Direction::South => 's',
            Direction::West => 'w',
            Direction::Still => 'o',
        }
    }

    /// The five moves in their canonical order.
    pub fn all_directions() -> (v: Vec<Direction>)
        ensures
            v@ == Direction::all(),
    {
        let v = vec![
            Direction::North,
            Direction::East,
            Direction::South,
            Direction::West,
            Direction::Still,
        ];
        assert(v@ =~= Direction::all());
        v
    }

    /// The four moves that leave the cell, in their canonical order.
    pub fn adjacent_directions() -> (v: Vec<Direction>)
        ensures
            v@ == Direction::adjacent(),
    {
        let v = vec![Direction::North, Direction::East, Direction::South, Direction::West];
        assert(v@ =~= Direction::adjacent());
        v
    }

    /// The direction at a position of the canonical order.
    pub fn from_index(i: usize) -> (d: Direction)
        requires
            i < 5,
        ensures
            d == Direction::all()[i as int],
            d.index() == i,
    {
        if i == 0 {
            Direction::North
        } else if i == 1 {
            Direction::East
        } else if i == 2 {
            Direction::South
        } else if i == 3 {
            Direction::West
        } else {
            Direction::Still
        }
    }
}

/// What a ship is told to do this turn.
#[derive(Debug, Clone, Copy, PartialEq, Eq, Structural)]
pub enum ShipCommand {
    MakeDropoff(),
    MoveShip(Direction),
}

} // verus!
