//! Word search: straight-line matches in eight directions and crossed
//! diagonal matches.

use vstd::prelude::*;
use vstd::slice::slice_index_get;

verus! {

/// A rectangular character grid with at least one row.
pub open spec fn grid_ok(g: Seq<Vec<char>>) -> bool {
    g.len() >= 1 && forall|i: int| 0 <= i < g.len() ==> (#[trigger] g[i])@.len() == g[0]@.len()
}

/// The word read from `(r, c)` along direction `(dx, dy)` stays on the
/// grid and matches character by character.
pub open spec fn matches_at(
    g: Seq<Vec<char>>,
    w: Seq<char>,
    r: int,
    c: int,
    dx: int,
    dy: int,
) -> bool {
    forall|t: int|
        0 <= t < w.len() ==> 0 <= r + #[trigger] (t * dx) < g.len() && 0 <= c + t * dy
            < g[0]@.len() && g[r + t * dx]@[c + t * dy] == w[t]
}

/// Checks one straight-line occurrence of `word` starting at
/// `(start_r, start_c)` with unit direction `(dx, dy)`.
pub fn can_match(
    grid: &[Vec<char>],
    word: &[char],
    start_r: usize,
    start_c: usize,
    dx: isize,
    dy: isize,
) -> (res: bool)
    requires
        grid_ok(grid@),
        -1 <= dx <= 1,
        -1 <= dy <= 1,
        start_r < grid@.len(),
        start_c < grid@[0]@.len(),
        grid@.len() <= 20000,
        grid@[0]@.len() <= 20000,
        word@.len() <= 20000,
    ensures
        res == matches_at(grid@, word@, start_r as int, start_c as int, dx as int, dy as int),
{
    let rows: usize = grid.len();
    let row0: &Vec<char> = slice_index_get(grid, 0);
    let cols: usize = row0.len();
    let n: usize = word.len();
    let mut r: isize = start_r as isize;
    let mut c: isize = start_c as isize;
    let mut t: usize = 0;
    while t < n
        invariant
            grid_ok(grid@),
            rows == grid@.len() <= 20000,
            cols == grid@[0]@.len() <= 20000,
            n == word@.len() <= 20000,
            -1 <= dx <= 1,
            -1 <= dy <= 1,
            start_r < rows,
            start_c < cols,
            t <= n,
            r == start_r + t * dx,
            c == start_c + t * dy,
            -20000 <= r <= 2000000,
            -20000 <= c <= 2000000,
            forall|x: int|
                0 <= x < t ==> 0 <= start_r + #[trigger] (x * dx) < rows && 0 <= start_c + x * dy
                    < cols && grid@[start_r + x * dx]@[start_c + x * dy] == word@[x],
        decreases n - t,
    {
        if r < 0 || r >= rows as isize || c < 0 || c >= cols as isize {
            proof {
                assert(!matches_at(
                    grid@,
                    word@,
                    start_r as int,
                    start_c as int,
                    dx as int,
                    dy as int,
                )) by {
                    assert((t as int) * (dx as int) == t * dx);
                }
            }
            return false;
        }
        let row: &Vec<char> = slice_index_get(grid, r as usize);
        let ch: char = row[c as usize];
        let wc: char = *slice_index_get(word, t);
        if ch != wc {
            proof {
                assert(grid@[start_r + t * dx]@[start_c + t * dy] != word@[t as int]);
                assert(!matches_at(
                    grid@,
                    word@,
                    start_r as int,
                    start_c as int,
                    dx as int,
                    dy as int,
                )) by {
                    assert((t as int) * (dx as int) == t * dx);
                }
            }
            return false;
        }
        proof {
            assert(r == start_r + t * dx);
            assert(0 <= r < rows);
            assert(0 <= start_r + t * dx < rows);
            assert(0 <= start_c + t * dy < cols);
            assert(grid@[start_r + t * dx]@[start_c + t * dy] == word@[t as int]);
            assert forall|x: int|
                0 <= x < t + 1 implies 0 <= start_r + #[trigger] (x * dx) < rows && 0 <= start_c
                + x * dy < cols && grid@[start_r + x * dx]@[start_c + x * dy] == word@[x] by {
                if x == t {
                    assert(x * dx == t * dx) by (nonlinear_arith)
                        requires
                            x == t,
                    {}
                    assert(x * dy == t * dy) by (nonlinear_arith)
                        requires
                            x == t,
                    {}
                    assert(0 <= start_r + x * dx < rows);
                    assert(0 <= start_c + x * dy < cols);
                    assert(grid@[start_r + x * dx]@[start_c + x * dy] == word@[x]);
                }
            }
            assert((t + 1) * dx == t * dx + dx) by (nonlinear_arith);
            assert((t + 1) * dy == t * dy + dy) by (nonlinear_arith);
            assert(t * dx <= t && t * dx >= -t) by (nonlinear_arith)
                requires
                    -1 <= dx <= 1,
                    0 <= t,
            {}
            assert(t * dy <= t && t * dy >= -t) by (nonlinear_arith)
                requires
                    -1 <= dy <= 1,
                    0 <= t,
            {}
            assert((t + 1) * dx <= t + 1 && (t + 1) * dx >= -(t + 1)) by (nonlinear_arith)
                requires
                    -1 <= dx <= 1,
                    0 <= t,
            {}
            assert((t + 1) * dy <= t + 1 && (t + 1) * dy >= -(t + 1)) by (nonlinear_arith)
                requires
                    -1 <= dy <= 1,
                    0 <= t,
            {}
        }
        r = r + dx;
        c = c + dy;
        t = t + 1;
    }
    true
}

/// The eight straight-line directions, by index.
pub open spec fn dir8(d: int) -> (int, int) {
    if d == 0 {
        (-1, 0)
    } else if d == 1 {
        (1, 0)
    } else if d == 2 {
        (0, -1)
    } else if d == 3 {
        (0, 1)
    } else if d == 4 {
        (-1, -1)
    } else if d == 5 {
        (-1, 1)
    } else if d == 6 {
        (1, -1)
    } else {
        (1, 1)
    }
}

/// The searched word.
pub open spec fn xmas_word() -> Seq<char> {
    seq!['X', 'M', 'A', 'S']
}

/// Matches of the word at cell `(i, j)` over the first `d` directions.
pub open spec fn xmas_cell_count(g: Seq<Vec<char>>, i: int, j: int, d: int) -> nat
    decreases d,
{
    if d <= 0 {
        0
    } else {
        xmas_cell_count(g, i, j, d - 1) + if matches_at(
            g,
            xmas_word(),
            i,
            j,
            dir8(d - 1).0,
            dir8(d - 1).1,
        ) {
            1nat
        } else {
            0nat
        }
    }
}

/// Matches starting in row `i`, over the first `j` columns.
pub open spec fn xmas_row_count(g: Seq<Vec<char>>, i: int, j: int) -> nat
    decreases j,
{
    if j <= 0 {
        0
    } else {
        xmas_row_count(g, i, j - 1) + xmas_cell_count(g, i, j - 1, 8)
    }
}

/// Matches over the first `i` rows.
pub open spec fn xmas_count(g: Seq<Vec<char>>, i: int) -> nat
    decreases i,
{
    if i <= 0 {
        0
    } else {
        xmas_count(g, i - 1) + xmas_row_count(g, i - 1, g[0]@.len() as int)
    }
}

proof fn lemma_xmas_cell_le(g: Seq<Vec<char>>, i: int, j: int, d: int)
    ensures
        xmas_cell_count(g, i, j, d) <= (if d >= 0 {
            d
        } else {
            0
        }),
    decreases d,
{
    if d > 0 {
        lemma_xmas_cell_le(g, i, j, d - 1);
    }
}

proof fn lemma_xmas_row_le(g: Seq<Vec<char>>, i: int, j: int)
    ensures
        xmas_row_count(g, i, j) <= 8 * (if j >= 0 {
            j
        } else {
            0
        }),
    decreases j,
{
    if j > 0 {
        lemma_xmas_row_le(g, i, j - 1);
        lemma_xmas_cell_le(g, i, j - 1, 8);
    }
}

proof fn lemma_xmas_count_le(g: Seq<Vec<char>>, i: int)
    ensures
        xmas_count(g, i) <= 8 * (if i >= 0 {
            i
        } else {
            0
        }) * g[0]@.len(),
    decreases i,
{
    if i > 0 {
        lemma_xmas_count_le(g, i - 1);
        lemma_xmas_row_le(g, i - 1, g[0]@.len() as int);
        assert(8 * (i - 1) * g[0]@.len() + 8 * g[0]@.len() == 8 * i * g[0]@.len())
            by (nonlinear_arith);
    } else {
        assert(8 * (if i >= 0 {
            i
        } else {
            0
        }) * g[0]@.len() == 0) by (nonlinear_arith)
            requires
                i <= 0,
        {}
    }
}

/// Counts every straight-line occurrence of `XMAS`, over all cells and
/// all eight directions.
pub fn count_xmas(inp: &Vec<Vec<char>>) -> (res: usize)
    requires
        grid_ok(inp@),
        inp@.len() <= 20000,
        inp@[0]@.len() <= 20000,
    ensures
        res == xmas_count(inp@, inp@.len() as int),
{
    let rows: usize = inp.len();
    let cols: usize = inp[0].len();
    let word: Vec<char> = vec!['X', 'M', 'A', 'S'];
    proof {
        assert(word@ =~= xmas_word());
    }
    let mut count: usize = 0;
    let mut i: usize = 0;
    while i < rows
        invariant
            grid_ok(inp@),
            rows == inp@.len() <= 20000,
            cols == inp@[0]@.len() <= 20000,
            word@ == xmas_word(),
            i <= rows,
            count == xmas_count(inp@, i as int),
        decreases rows - i,
    {
        proof {
            lemma_xmas_count_le(inp@, i as int);
        }
        let mut j: usize = 0;
        while j < cols
            invariant
                grid_ok(inp@),
                rows == inp@.len() <= 20000,
                cols == inp@[0]@.len() <= 20000,
                word@ == xmas_word(),
                i < rows,
                j <= cols,
                count == xmas_count(inp@, i as int) + xmas_row_count(inp@, i as int, j as int),
                xmas_count(inp@, i as int) <= 8 * (i as int) * cols,
            decreases cols - j,
        {
            proof {
                lemma_xmas_row_le(inp@, i as int, j as int);
                lemma_xmas_cell_le(inp@, i as int, j as int, 8);
                assert(8 * (i as int) * cols + 8 * cols <= 8 * 20000 * 20000 + 8 * 20000)
                    by (nonlinear_arith)
                    requires
                        0 <= i as int + 1 <= rows <= 20000,
                        0 <= cols <= 20000,
                        i < rows,
                {}
            }
            let mut d: usize = 0;
            while d < 8
                invariant
                    grid_ok(inp@),
                    rows == inp@.len() <= 20000,
                    cols == inp@[0]@.len() <= 20000,
                    word@ == xmas_word(),
                    i < rows,
                    j < cols,
                    d <= 8,
                    count == xmas_count(inp@, i as int) + xmas_row_count(inp@, i as int, j as int)
                        + xmas_cell_count(inp@, i as int, j as int, d as int),
                    xmas_count(inp@, i as int) + xmas_row_count(inp@, i as int, j as int)
                        <= 8 * 20000 * 20000 + 8 * 20000,
                decreases 8 - d,
            {
                let (dx, dy): (isize, isize) = if d == 0 {
                    (-1, 0)
                } else if d == 1 {
                    (1, 0)
                } else if d == 2 {
                    (0, -1)
                } else if d == 3 {
                    (0, 1)
                } else if d == 4 {
                    (-1, -1)
                } else if d == 5 {
                    (-1, 1)
                } else if d == 6 {
                    (1, -1)
                } else {
                    (1, 1)
                };
                proof {
                    assert((dx as int, dy as int) == dir8(d as int));
                    lemma_xmas_cell_le(inp@, i as int, j as int, d as int);
                }
                if can_match(inp.as_slice(), word.as_slice(), i, j, dx, dy) {
                    count = count + 1;
                }
                d = d + 1;
            }
            j = j + 1;
        }
        i = i + 1;
    }
    count
}

/// An `X`-shaped double match at `(i, j)`: an `A` whose two diagonals
/// each read `MAS` one way or the other.
pub open spec fn cross_at(g: Seq<Vec<char>>, i: int, j: int) -> bool {
    g[i]@[j] == 'A' && ((g[i - 1]@[j - 1] == 'M' && g[i + 1]@[j + 1] == 'S') || (g[i - 1]@[j - 1]
        == 'S' && g[i + 1]@[j + 1] == 'M')) && ((g[i - 1]@[j + 1] == 'M' && g[i + 1]@[j - 1] == 'S')
        || (g[i - 1]@[j + 1] == 'S' && g[i + 1]@[j - 1] == 'M'))
}

/// Crosses in row `i` among interior columns below `j`.
pub open spec fn cross_row_count(g: Seq<Vec<char>>, i: int, j: int) -> nat
    decreases j,
{
    if j <= 1 {
        0
    } else {
        cross_row_count(g, i, j - 1) + if cross_at(g, i, j - 1) {
            1nat
        } else {
            0nat
        }
    }
}

/// Crosses among interior rows below `i`.
pub open spec fn cross_count(g: Seq<Vec<char>>, i: int) -> nat
    decreases i,
{
    if i <= 1 {
        0
    } else {
        cross_count(g, i - 1) + cross_row_count(g, i - 1, g[0]@.len() as int - 1)
    }
}

proof fn lemma_cross_row_le(g: Seq<Vec<char>>, i: int, j: int)
    ensures
        cross_row_count(g, i, j) <= (if j >= 1 {
            j
        } else {
            1
        }),
    decreases j,
{
    if j > 1 {
        lemma_cross_row_le(g, i, j - 1);
    }
}

proof fn lemma_cross_count_le(g: Seq<Vec<char>>, i: int)
    ensures
        cross_count(g, i) <= (if i >= 1 {
            i
        } else {
            1
        }) * (g[0]@.len() as int + 1),
    decreases i,
{
    let c = g[0]@.len() as int + 1;
    if i > 1 {
        lemma_cross_count_le(g, i - 1);
        lemma_cross_row_le(g, i - 1, g[0]@.len() as int - 1);
        assert((i - 1) * c + c == i * c) by (nonlinear_arith);
        assert(cross_count(g, i) <= (i - 1) * c + c);
    } else {
        assert((if i >= 1 {
            i
        } else {
            1
        }) * c >= 0) by (nonlinear_arith)
            requires
                c >= 1,
        {}
    }
}

/// Counts the `X`-shaped `MAS` crosses over all interior cells.
pub fn count_x_mas(grid: &[Vec<char>]) -> (res: usize)
    requires
        grid_ok(grid@),
        grid@[0]@.len() >= 1,
        grid@.len() <= 20000,
        grid@[0]@.len() <= 20000,
    ensures
        res == cross_count(grid@, grid@.len() as int - 1),
{
    let rows: usize = grid.len();
    let row0: &Vec<char> = slice_index_get(grid, 0);
    let cols: usize = row0.len();
    let mut count: usize = 0;
    let mut i: usize = 1;
    proof {
        assert(cross_count(grid@, 1) == 0);
    }
    if rows < 2 || cols < 2 {
        proof {
            if rows < 2 {
                assert(cross_count(grid@, grid@.len() as int - 1) == 0);
            } else {
                lemma_cross_empty_cols(grid@, grid@.len() as int - 1);
            }
        }
        return 0;
    }
    while i < rows - 1
        invariant
            grid_ok(grid@),
            2 <= rows == grid@.len() <= 20000,
            2 <= cols == grid@[0]@.len() <= 20000,
            1 <= i <= rows - 1,
            count == cross_count(grid@, i as int),
        decreases rows - i,
    {
        proof {
            lemma_cross_count_le(grid@, i as int);
            assert((i as int) * (grid@[0]@.len() as int + 1) <= 20000 * (20000int + 1))
                by (nonlinear_arith)
                requires
                    0 <= i as int <= 20000,
                    0 <= grid@[0]@.len() as int <= 20000,
            {}
        }
        let mut j: usize = 1;
        while j < cols - 1
            invariant
                grid_ok(grid@),
                2 <= rows == grid@.len() <= 20000,
                2 <= cols == grid@[0]@.len() <= 20000,
                1 <= i < rows - 1,
                1 <= j <= cols - 1,
                count == cross_count(grid@, i as int) + cross_row_count(grid@, i as int, j as int),
                cross_count(grid@, i as int) <= 20000 * (20000int + 1),
            decreases cols - j,
        {
            proof {
                lemma_cross_row_le(grid@, i as int, j as int);
            }
            let rowm: &Vec<char> = slice_index_get(grid, i - 1);
            let rowi: &Vec<char> = slice_index_get(grid, i);
            let rowp: &Vec<char> = slice_index_get(grid, i + 1);
            if rowi[j] == 'A' {
                let top_left: char = rowm[j - 1];
                let bottom_right: char = rowp[j + 1];
                let top_right: char = rowm[j + 1];
                let bottom_left: char = rowp[j - 1];
                let diag1_valid: bool = (top_left == 'M' && bottom_right == 'S') || (top_left == 'S'
                    && bottom_right == 'M');
                let diag2_valid: bool = (top_right == 'M' && bottom_left == 'S') || (top_right
                    == 'S' && bottom_left == 'M');
                if diag1_valid && diag2_valid {
                    count = count + 1;
                }
            }
            j = j + 1;
        }
        i = i + 1;
    }
    count
}

/// With fewer than two columns there is no interior cell to cross.
proof fn lemma_cross_empty_cols(g: Seq<Vec<char>>, i: int)
    requires
        g.len() >= 1,
        g[0]@.len() <= 1,
    ensures
        cross_count(g, i) == 0,
    decreases i,
{
    if i > 1 {
        lemma_cross_empty_cols(g, i - 1);
    }
}

} // verus!
