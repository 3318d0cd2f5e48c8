//! Garden-plot fencing: edge directions and grid lookups.

use vstd::prelude::*;

verus! {

/// A direction along a plot edge.
#[derive(Debug, Copy, Clone, PartialEq, Eq, Structural)]
pub enum Direction {
    Up,
    Down,
    Left,
    Right,
}

/// Quarter turn clockwise.
pub fn rot_90(d: Direction) -> (r: Direction)
    ensures
        r == (match d {
            Direction::Up => Direction::Right,
            Direction::Down => Direction::Left,
            Direction::Left => Direction::Up,
            Direction::Right => Direction::Down,
        }),
{
    match d {
        Direction::Up => Direction::Right,
        Direction::Down => Direction::Left,
        Direction::Left => Direction::Up,
        Direction::Right => Direction::Down,
    }
}

/// Quarter turn counter-clockwise.
pub fn rot_270(d: Direction) -> (r: Direction)
    ensures
        r == (match d {
            Direction::Up => Direction::Left,
            Direction::Down => Direction::Right,
            Direction::Left => Direction::Down,
            Direction::Right => Direction::Up,
        }),
{
    match d {
        Direction::Up => Direction::Left,
        Direction::Down => Direction::Right,
        Direction::Left => Direction::Down,
        Direction::Right => Direction::Up,
    }
}

/// Which of a plot's four edges border a different plant or the outside.
#[derive(PartialEq, Eq, Structural, Default, Debug)]
pub struct Sides {
    pub up: bool,
    pub down: bool,
    pub left: bool,
    pub right: bool,
}

/// The plant at a cell, seen as a mathematical partial lookup.
pub open spec fn plant_at(g: Seq<Vec<char>>, x: int, y: int) -> Option<char> {
    if 0 <= y < g.len() && 0 <= x < g[y]@.len() {
        Some(g[y]@[x])
    } else {
        None
    }
}

/// The plant found at grid cell `(x, y)`, if the cell exists.
pub fn get_plant_type(x: usize, y: usize, grid: &[Vec<char>]) -> (r: Option<char>)
    ensures
        r == (if y < grid@.len() && x < grid@[y as int]@.len() {
            Some(grid@[y as int]@[x as int])
        } else {
            None::<char>
        }),
{
    if y < grid.len() {
        let row: &Vec<char> = &grid[y];
        if x < row.len() {
            Some(row[x])
        } else {
            None
        }
    } else {
        None
    }
}

/// Reports which edges of the plot at `(x, y)` are fence segments: the
/// neighbour in that direction is missing or grows a different plant.
pub fn check_edges(x: usize, y: usize, plant_type: char, grid: &[Vec<char>]) -> (r: Sides)
    requires
        x < usize::MAX,
        y < usize::MAX,
    ensures
        r.up == (plant_at(grid@, x as int, y - 1) != Some(plant_type)),
        r.down == (plant_at(grid@, x as int, y + 1) != Some(plant_type)),
        r.left == (plant_at(grid@, x - 1, y as int) != Some(plant_type)),
        r.right == (plant_at(grid@, x + 1, y as int) != Some(plant_type)),
{
    let mut sides = Sides { up: false, down: false, left: false, right: false };
    if y == 0 || get_plant_type(x, y - 1, grid) != Some(plant_type) {
        sides.up = true;
    }
    if get_plant_type(x, y + 1, grid) != Some(plant_type) {
        sides.down = true;
    }
    if x == 0 || get_plant_type(x - 1, y, grid) != Some(plant_type) {
        sides.left = true;
    }
    if get_plant_type(x + 1, y, grid) != Some(plant_type) {
        sides.right = true;
    }
    sides
}

} // verus!
