//! Directions and state indexing for the reindeer-maze search.

use vstd::prelude::*;

verus! {

/// A facing on the maze grid.
#[derive(Copy, Clone, Debug, PartialEq, Eq, Structural)]
pub enum Direction {
    North,
    East,
    South,
    West,
}

/// Index of a facing in the flattened state array.
pub open spec fn direction_index(d: Direction) -> int {
    match d {
        Direction::North => 0,
        Direction::East => 1,
        Direction::South => 2,
        Direction::West => 3,
    }
}

impl Direction {
    /// All four facings, in index order.
    pub fn list_all() -> (r: [Direction; 4])
        ensures
            r@.len() == 4,
            r@[0] == Direction::North,
            r@[1] == Direction::East,
            r@[2] == Direction::South,
            r@[3] == Direction::West,
    {
        [Direction::North, Direction::East, Direction::South, Direction::West]
    }

    /// The facing of a unit displacement (`dx` east, `dy` south).
    pub fn from_dxy(dx: isize, dy: isize) -> (r: Direction)
        requires
            (dx == 0 && dy == -1) || (dx == 1 && dy == 0) || (dx == 0 && dy == 1) || (dx == -1
                && dy == 0),
        ensures
            r == (if dy == -1 {
                Direction::North
            } else if dx == 1 {
                Direction::East
            } else if dy == 1 {
                Direction::South
            } else {
                Direction::West
            }),
    {
        if dx == 0 && dy == -1 {
            Direction::North
        } else if dx == 1 && dy == 0 {
            Direction::East
        } else if dx == 0 && dy == 1 {
            Direction::South
        } else {
            Direction::West
        }
    }

    /// Cost of one step that ends facing `target`: a straight step costs
    /// one, a step with a turn costs a thousand more.
    pub fn turn_cost(self, target: Direction) -> (r: u32)
        ensures
            r == (if self == target {
                1u32
            } else {
                1001u32
            }),
    {
        if self == target {
            1
        } else {
            1001
        }
    }

    /// The facing's index in the flattened state array.
    pub fn to_index(self) -> (r: usize)
        ensures
            r == direction_index(self),
    {
        match self {
            Direction::North => 0,
            Direction::East => 1,
            Direction::South => 2,
            Direction::West => 3,
        }
    }
}

/// Flattened index of a `(cell, facing)` state on a grid of width
/// `width`: four consecutive slots per cell, row-major.
pub fn index_of(x: usize, y: usize, dir: Direction, width: usize) -> (r: usize)
    requires
        (y * width + x) * 4 + 3 <= usize::MAX,
    ensures
        r == (y * width + x) * 4 + direction_index(dir),
{
    let dir_i = dir.to_index();
    (y * width + x) * 4 + dir_i
}

} // verus!
