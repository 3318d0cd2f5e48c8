//! Falling memory: neighbour enumeration on the corrupted grid.

use vstd::prelude::*;

verus! {

/// A cell that exists on the 71 x 71 grid and is not corrupted.
pub open spec fn open_cell(field: [[i32; 71]; 71], x: int, y: int) -> bool {
    0 <= x < 71 && 0 <= y < 71 && field@[y]@[x] == 0
}

/// The two cells are orthogonal neighbours.
pub open spec fn adjacent(x: int, y: int, nx: int, ny: int) -> bool {
    (nx == x + 1 && ny == y) || (nx == x - 1 && ny == y) || (nx == x && ny == y + 1) || (nx == x
        && ny == y - 1)
}

/// Lists exactly the open orthogonal neighbours of `(x, y)`, each once.
pub fn get_neighbors(field: &[[i32; 71]; 71], x: usize, y: usize) -> (r: Vec<(usize, usize)>)
    requires
        x < 71,
        y < 71,
    ensures
        forall|j: int|
            0 <= j < r@.len() ==> adjacent(x as int, y as int, (#[trigger] r@[j]).0 as int,
            r@[j].1 as int) && open_cell(*field, r@[j].0 as int, r@[j].1 as int),
        forall|nx: int, ny: int|
            adjacent(x as int, y as int, nx, ny) && open_cell(*field, nx, ny) ==> exists|j: int|
                0 <= j < r@.len() && ((#[trigger] r@[j]).0 as int, r@[j].1 as int) == (nx, ny),
        forall|i: int, j: int| 0 <= i < j < r@.len() ==> r@[i] != r@[j],
{
    let mut neighbors: Vec<(usize, usize)> = Vec::new();
    if x + 1 < 71 && field[y][x + 1] == 0 {
        neighbors.push((x + 1, y));
    }
    if x >= 1 && field[y][x - 1] == 0 {
        neighbors.push((x - 1, y));
    }
    if y + 1 < 71 && field[y + 1][x] == 0 {
        neighbors.push((x, y + 1));
    }
    if y >= 1 && field[y - 1][x] == 0 {
        neighbors.push((x, y - 1));
    }
    proof {
        assert forall|nx: int, ny: int|
            adjacent(x as int, y as int, nx, ny) && open_cell(*field, nx, ny) implies exists|j: int|
            0 <= j < neighbors@.len() && ((#[trigger] neighbors@[j]).0 as int,
            neighbors@[j].1 as int) == (nx, ny) by {
            if neighbors@.len() >= 1 {
                assert(neighbors@[0] == neighbors@[0]);
            }
            if neighbors@.len() >= 2 {
                assert(neighbors@[1] == neighbors@[1]);
            }
            if neighbors@.len() >= 3 {
                assert(neighbors@[2] == neighbors@[2]);
            }
            if neighbors@.len() >= 4 {
                assert(neighbors@[3] == neighbors@[3]);
            }
        }
    }
    neighbors
}

} // verus!
