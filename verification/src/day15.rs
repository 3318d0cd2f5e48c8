//! Warehouse tiles, robot moves, and the box-coordinate checksum.

use vstd::prelude::*;

verus! {

/// A robot move direction.
#[derive(Debug, PartialEq, Eq, Clone, Copy, Structural)]
pub enum Direction {
    Up,
    Down,
    Left,
    Right,
}

impl Direction {
    /// The direction a move symbol denotes.
    pub fn from_char(c: char) -> (r: Direction)
        requires
            c == '^' || c == 'v' || c == '<' || c == '>',
        ensures
            r == (if c == '^' {
                Direction::Up
            } else if c == 'v' {
                Direction::Down
            } else if c == '<' {
                Direction::Left
            } else {
                Direction::Right
            }),
    {
        if c == '^' {
            Direction::Up
        } else if c == 'v' {
            Direction::Down
        } else if c == '<' {
            Direction::Left
        } else {
            Direction::Right
        }
    }
}

/// One cell of the warehouse map.
#[derive(Debug, PartialEq, Eq, Clone, Copy, Structural)]
pub enum TileType {
    Wall,
    Empty,
    Robot,
    Box,
    BoxRight,
    BoxLeft,
}

/// The tile a map symbol denotes.
pub open spec fn tile_of_char(c: char) -> TileType {
    if c == '#' {
        TileType::Wall
    } else if c == '.' {
        TileType::Empty
    } else if c == '@' {
        TileType::Robot
    } else if c == 'O' {
        TileType::Box
    } else if c == ']' {
        TileType::BoxRight
    } else {
        TileType::BoxLeft
    }
}

impl TileType {
    /// Parses one map symbol.
    pub fn from_char(c: char) -> (r: TileType)
        requires
            c == '#' || c == '.' || c == '@' || c == 'O' || c == ']' || c == '[',
        ensures
            r == tile_of_char(c),
    {
        if c == '#' {
            TileType::Wall
        } else if c == '.' {
            TileType::Empty
        } else if c == '@' {
            TileType::Robot
        } else if c == 'O' {
            TileType::Box
        } else {
            if c == ']' {
                TileType::BoxRight
            } else {
                TileType::BoxLeft
            }
        }
    }
}

/// Widening of one map symbol when the warehouse is doubled.
pub open spec fn scaled(c: char) -> Seq<char> {
    if c == '#' {
        seq!['#', '#']
    } else if c == 'O' {
        seq!['[', ']']
    } else if c == '.' {
        seq!['.', '.']
    } else if c == '@' {
        seq!['@', '.']
    } else {
        seq![c]
    }
}

/// Doubles one map symbol horizontally.
pub fn scale_up(c: char) -> (r: Vec<char>)
    ensures
        r@ == scaled(c),
{
    if c == '#' {
        vec!['#', '#']
    } else if c == 'O' {
        vec!['[', ']']
    } else if c == '.' {
        vec!['.', '.']
    } else if c == '@' {
        vec!['@', '.']
    } else {
        vec![c]
    }
}

/// The cell one step from `(x, y)` in a direction; steps off the top or
/// left edge saturate to the edge.
pub open spec fn next_position(p: (usize, usize), dir: Direction) -> (int, int) {
    match dir {
        Direction::Up => (p.0 as int, if p.1 == 0 {
            0int
        } else {
            p.1 - 1
        }),
        Direction::Down => (p.0 as int, p.1 + 1),
        Direction::Left => (if p.0 == 0 {
            0int
        } else {
            p.0 - 1
        }, p.1 as int),
        Direction::Right => (p.0 + 1, p.1 as int),
    }
}

/// Steps a cell one place in a direction.
pub fn get_next_position(start_point: (usize, usize), dir: &Direction) -> (r: (usize, usize))
    requires
        start_point.0 < usize::MAX,
        start_point.1 < usize::MAX,
    ensures
        (r.0 as int, r.1 as int) == next_position(start_point, *dir),
{
    match dir {
        Direction::Up => (
            start_point.0,
            if start_point.1 == 0 {
                0
            } else {
                start_point.1 - 1
            },
        ),
        Direction::Down => (start_point.0, start_point.1 + 1),
        Direction::Left => (
            if start_point.0 == 0 {
                0
            } else {
                start_point.0 - 1
            },
            start_point.1,
        ),
        Direction::Right => (start_point.0 + 1, start_point.1),
    }
}

/// Whether `(x, y)` lies on the map, whose width is that of its first row.
pub fn is_within_bounds(area_map: &Vec<Vec<TileType>>, x: usize, y: usize) -> (r: bool)
    requires
        area_map@.len() > 0,
    ensures
        r == (y < area_map@.len() && x < area_map@[0]@.len()),
{
    y < area_map.len() && x < area_map[0].len()
}

/// A tile that counts towards the checksum: a box, or the left half of a
/// wide box.
pub open spec fn is_box_tile(t: TileType) -> bool {
    t == TileType::Box || t == TileType::BoxLeft
}

/// Checksum contribution of one row prefix at height `y`.
pub open spec fn row_box_sum(row: Seq<TileType>, y: int) -> nat
    decreases row.len(),
{
    if row.len() == 0 || y < 0 {
        0
    } else {
        row_box_sum(row.drop_last(), y) + if is_box_tile(row.last()) {
            (row.len() - 1 + 100 * y) as nat
        } else {
            0nat
        }
    }
}

/// Checksum of the whole map: each box contributes `x + 100 * y`.
pub open spec fn box_sum(map: Seq<Vec<TileType>>) -> nat
    decreases map.len(),
{
    if map.len() == 0 {
        0
    } else {
        box_sum(map.drop_last()) + row_box_sum(map.last()@, map.len() - 1)
    }
}

proof fn lemma_row_box_sum_prefix(row: Seq<TileType>, y: int, j: int)
    requires
        0 <= j <= row.len(),
    ensures
        row_box_sum(row.take(j), y) <= row_box_sum(row, y),
    decreases row.len() - j,
{
    if j < row.len() {
        assert(row.take(j + 1).drop_last() =~= row.take(j));
        assert(row.take(j + 1).last() == row[j]);
        lemma_row_box_sum_prefix(row, y, j + 1);
    } else {
        assert(row.take(j) =~= row);
    }
}

proof fn lemma_box_sum_prefix(map: Seq<Vec<TileType>>, i: int)
    requires
        0 <= i <= map.len(),
    ensures
        box_sum(map.take(i)) <= box_sum(map),
    decreases map.len() - i,
{
    if i < map.len() {
        assert(map.take(i + 1).drop_last() =~= map.take(i));
        assert(map.take(i + 1).last() == map[i]);
        lemma_box_sum_prefix(map, i + 1);
    } else {
        assert(map.take(i) =~= map);
    }
}

/// Sums `x + 100 * y` over every box tile of the map.
pub fn calculate_box_coords_sum(area_map: &Vec<Vec<TileType>>) -> (r: i32)
    requires
        box_sum(area_map@) <= i32::MAX,
    ensures
        r == box_sum(area_map@),
{
    let rows: usize = area_map.len();
    let mut total: i32 = 0;
    let mut y: usize = 0;
    proof {
        assert(area_map@.take(0) =~= Seq::<Vec<TileType>>::empty());
    }
    while y < rows
        invariant
            rows == area_map@.len(),
            y <= rows,
            total == box_sum(area_map@.take(y as int)),
            box_sum(area_map@) <= i32::MAX,
        decreases rows - y,
    {
        let row: &Vec<TileType> = &area_map[y];
        let cols: usize = row.len();
        let mut x: usize = 0;
        proof {
            assert(row@.take(0) =~= Seq::<TileType>::empty());
            assert(area_map@.take(y + 1).drop_last() =~= area_map@.take(y as int));
            assert(area_map@.take(y + 1).last() == area_map@[y as int]);
            lemma_box_sum_prefix(area_map@, y + 1);
        }
        while x < cols
            invariant
                rows == area_map@.len(),
                y < rows,
                cols == row@.len(),
                row@ == area_map@[y as int]@,
                x <= cols,
                total == box_sum(area_map@.take(y as int)) + row_box_sum(row@.take(x as int), y as int),
                box_sum(area_map@.take(y as int)) + row_box_sum(row@, y as int) <= i32::MAX,
                box_sum(area_map@) <= i32::MAX,
            decreases cols - x,
        {
            proof {
                assert(row@.take(x + 1).drop_last() =~= row@.take(x as int));
                assert(row@.take(x + 1).last() == row@[x as int]);
                lemma_row_box_sum_prefix(row@, y as int, x + 1);
            }
            let t = row[x];
            if t == TileType::Box || t == TileType::BoxLeft {
                total = total + (x as i32) + (y as i32) * 100;
            }
            x = x + 1;
        }
        proof {
            assert(row@.take(cols as int) =~= row@);
        }
        y = y + 1;
    }
    proof {
        assert(area_map@.take(rows as int) =~= area_map@);
    }
    total
}

} // verus!
