//! Robots patrolling a wrapping field: movement, quadrant census, and the
//! picture detector.

use vstd::arithmetic::div_mod::{lemma_fundamental_div_mod, lemma_mod_multiples_vanish, lemma_small_mod};
use vstd::prelude::*;

verus! {

/// Field width (columns of `x`) and height (rows of `y`).
pub const FIELD_X: isize = 101;

pub const FIELD_Y: isize = 103;

/// A robot: position and velocity, both `(x, y)`.
#[derive(Clone, Copy, Debug)]
pub struct Robot {
    pub position: (isize, isize),
    pub velocity: (isize, isize),
}

/// A position on the field.
pub open spec fn on_field(p: (isize, isize)) -> bool {
    0 <= p.0 < FIELD_X && 0 <= p.1 < FIELD_Y
}

/// The position one step later: coordinates advance by the velocity and
/// wrap around the field edges.
pub open spec fn moved(p: (isize, isize), v: (isize, isize)) -> (int, int) {
    ((p.0 + v.0) % (FIELD_X as int), (p.1 + v.1) % (FIELD_Y as int))
}

/// Euclidean remainder of a possibly negative value.
fn wrap(a: isize, m: isize) -> (r: isize)
    requires
        0 < m,
        a > isize::MIN,
    ensures
        r == a as int % m as int,
        0 <= r < m,
{
    if a >= 0 {
        let r: isize = ((a as usize) % (m as usize)) as isize;
        r
    } else {
        let t: usize = ((-a) as usize) % (m as usize);
        proof {
            let ai = a as int;
            let mi = m as int;
            let b = -ai;
            assert(t == b % mi);
            lemma_fundamental_div_mod(b, mi);
            let q = b / mi;
            assert(ai == -(mi * q + (t as int)));
            assert(ai == mi * (-q) + (-(t as int))) by (nonlinear_arith)
                requires
                    ai == -(mi * q + (t as int)),
            {}
            lemma_mod_multiples_vanish(-q, -(t as int), mi);
            if t == 0 {
                lemma_small_mod(0nat, mi as nat);
            } else {
                lemma_mod_multiples_vanish(1, -(t as int), mi);
                assert(mi * 1 + (-(t as int)) == mi - t);
                lemma_small_mod((mi - t) as nat, mi as nat);
            }
        }
        if t == 0 {
            0
        } else {
            m - (t as isize)
        }
    }
}

impl Robot {
    /// Advances the robot one step, wrapping around the field.
    pub fn make_move(&mut self)
        requires
            isize::MIN < old(self).position.0 + old(self).velocity.0 <= isize::MAX,
            isize::MIN < old(self).position.1 + old(self).velocity.1 <= isize::MAX,
        ensures
            (final(self).position.0 as int, final(self).position.1 as int) == moved(
                old(self).position,
                old(self).velocity,
            ),
            on_field(final(self).position),
            final(self).velocity == old(self).velocity,
    {
        self.position.0 = wrap(self.position.0 + self.velocity.0, FIELD_X);
        self.position.1 = wrap(self.position.1 + self.velocity.1, FIELD_Y);
    }
}

/// Advances every robot one step.
pub fn move_robots(robots: &mut Vec<Robot>)
    requires
        forall|i: int|
            0 <= i < old(robots)@.len() ==> isize::MIN < (#[trigger] old(robots)@[i]).position.0
                + old(robots)@[i].velocity.0 <= isize::MAX && isize::MIN < old(
                robots,
            )@[i].position.1 + old(robots)@[i].velocity.1 <= isize::MAX,
    ensures
        final(robots)@.len() == old(robots)@.len(),
        forall|i: int|
            0 <= i < old(robots)@.len() ==> ((#[trigger] final(robots)@[i]).position.0 as int,
            final(robots)@[i].position.1 as int) == moved(
                old(robots)@[i].position,
                old(robots)@[i].velocity,
            ) && final(robots)@[i].velocity == old(robots)@[i].velocity && on_field(
                final(robots)@[i].position,
            ),
{
    let n: usize = robots.len();
    let mut i: usize = 0;
    while i < n
        invariant
            n == robots@.len(),
            i <= n,
            forall|j: int|
                i <= j < n ==> #[trigger] robots@[j] == old(robots)@[j],
            forall|j: int|
                i <= j < n ==> isize::MIN < (#[trigger] old(robots)@[j]).position.0 + old(
                    robots,
                )@[j].velocity.0 <= isize::MAX && isize::MIN < old(robots)@[j].position.1 + old(
                    robots,
                )@[j].velocity.1 <= isize::MAX,
            forall|j: int|
                0 <= j < i ==> ((#[trigger] robots@[j]).position.0 as int,
                robots@[j].position.1 as int) == moved(
                    old(robots)@[j].position,
                    old(robots)@[j].velocity,
                ) && robots@[j].velocity == old(robots)@[j].velocity && on_field(
                    robots@[j].position,
                ),
        decreases n - i,
    {
        let mut r: Robot = robots[i];
        r.make_move();
        robots[i] = r;
        i = i + 1;
    }
}

/// Which quadrant a position falls in, if any: robots on the middle row
/// or column count for none.
pub open spec fn quadrant_of(p: (isize, isize)) -> Option<int> {
    if p.0 > 50 && p.1 > 51 {
        Some(0int)
    } else if p.0 < 50 && p.1 > 51 {
        Some(1int)
    } else if p.0 < 50 && p.1 < 51 {
        Some(2int)
    } else if p.0 > 50 && p.1 < 51 {
        Some(3int)
    } else {
        None
    }
}

/// Number of robots of a prefix that sit in quadrant `q`.
pub open spec fn quadrant_count(rs: Seq<Robot>, q: int) -> nat
    decreases rs.len(),
{
    if rs.len() == 0 {
        0
    } else {
        quadrant_count(rs.drop_last(), q) + if quadrant_of(rs.last().position) == Some(q) {
            1nat
        } else {
            0nat
        }
    }
}

proof fn lemma_quadrant_count_le(rs: Seq<Robot>, q: int)
    ensures
        quadrant_count(rs, q) <= rs.len(),
    decreases rs.len(),
{
    if rs.len() > 0 {
        lemma_quadrant_count_le(rs.drop_last(), q);
    }
}

/// Multiplies the four quadrant populations: the safety factor.
pub fn check_quadrants(robots: &mut Vec<Robot>) -> (r: i32)
    requires
        old(robots)@.len() <= 200,
    ensures
        final(robots)@ == old(robots)@,
        r == quadrant_count(old(robots)@, 0) * quadrant_count(old(robots)@, 1) * quadrant_count(
            old(robots)@,
            2,
        ) * quadrant_count(old(robots)@, 3),
{
    let n: usize = robots.len();
    let mut q0: i32 = 0;
    let mut q1: i32 = 0;
    let mut q2: i32 = 0;
    let mut q3: i32 = 0;
    let mut i: usize = 0;
    proof {
        assert(robots@.take(0) =~= Seq::<Robot>::empty());
    }
    while i < n
        invariant
            n == robots@.len() <= 200,
            i <= n,
            q0 == quadrant_count(robots@.take(i as int), 0),
            q1 == quadrant_count(robots@.take(i as int), 1),
            q2 == quadrant_count(robots@.take(i as int), 2),
            q3 == quadrant_count(robots@.take(i as int), 3),
        decreases n - i,
    {
        proof {
            assert(robots@.take(i + 1).drop_last() =~= robots@.take(i as int));
            assert(robots@.take(i + 1).last() == robots@[i as int]);
            lemma_quadrant_count_le(robots@.take(i as int), 0);
            lemma_quadrant_count_le(robots@.take(i as int), 1);
            lemma_quadrant_count_le(robots@.take(i as int), 2);
            lemma_quadrant_count_le(robots@.take(i as int), 3);
        }
        let p = robots[i].position;
        if p.0 > 50 && p.1 > 51 {
            q0 = q0 + 1;
        } else if p.0 < 50 && p.1 > 51 {
            q1 = q1 + 1;
        } else if p.0 < 50 && p.1 < 51 {
            q2 = q2 + 1;
        } else if p.0 > 50 && p.1 < 51 {
            q3 = q3 + 1;
        }
        i = i + 1;
    }
    proof {
        assert(robots@.take(n as int) =~= robots@);
        lemma_quadrant_count_le(robots@, 0);
        lemma_quadrant_count_le(robots@, 1);
        lemma_quadrant_count_le(robots@, 2);
        lemma_quadrant_count_le(robots@, 3);
        assert(q0 * q1 <= 200 * 200) by (nonlinear_arith)
            requires
                0 <= q0 <= 200,
                0 <= q1 <= 200,
        {}
        assert(q0 * q1 * q2 <= 200 * 200 * 200) by (nonlinear_arith)
            requires
                0 <= q0 * q1 <= 200 * 200,
                0 <= q2 <= 200,
        {}
        assert(q0 * q1 * q2 * q3 <= 200 * 200 * 200 * 200) by (nonlinear_arith)
            requires
                0 <= q0 * q1 * q2 <= 200 * 200 * 200,
                0 <= q3 <= 200,
        {}
    }
    let p01: i32 = q0 * q1;
    let p012: i32 = p01 * q2;
    p012 * q3
}

} // verus!

verus! {

/// Number of robots of a prefix sitting on cell `(x, y)`.
pub open spec fn robots_at(rs: Seq<Robot>, x: int, y: int) -> nat
    decreases rs.len(),
{
    if rs.len() == 0 {
        0
    } else {
        robots_at(rs.drop_last(), x, y) + if rs.last().position.0 == x && rs.last().position.1
            == y {
            1nat
        } else {
            0nat
        }
    }
}

proof fn lemma_robots_at_le(rs: Seq<Robot>, x: int, y: int)
    ensures
        robots_at(rs, x, y) <= rs.len(),
    decreases rs.len(),
{
    if rs.len() > 0 {
        lemma_robots_at_le(rs.drop_last(), x, y);
    }
}

/// Counts the robots on one cell.
fn count_robots_at(robots: &Vec<Robot>, x: usize, y: usize) -> (r: usize)
    requires
        x < 101,
        y < 103,
    ensures
        r == robots_at(robots@, x as int, y as int),
{
    let n: usize = robots.len();
    let mut count: usize = 0;
    let mut i: usize = 0;
    proof {
        assert(robots@.take(0) =~= Seq::<Robot>::empty());
    }
    while i < n
        invariant
            n == robots@.len(),
            i <= n,
            x < 101,
            y < 103,
            count == robots_at(robots@.take(i as int), x as int, y as int),
        decreases n - i,
    {
        proof {
            assert(robots@.take(i + 1).drop_last() =~= robots@.take(i as int));
            assert(robots@.take(i + 1).last() == robots@[i as int]);
            lemma_robots_at_le(robots@.take(i as int), x as int, y as int);
        }
        let p = robots[i].position;
        if p.0 == x as isize && p.1 == y as isize {
            count = count + 1;
        }
        i = i + 1;
    }
    proof {
        assert(robots@.take(n as int) =~= robots@);
    }
    count
}

/// Builds the occupancy field: one row per `y`, one count per `x`.
pub fn construct_field(robots: &Vec<Robot>) -> (r: Vec<Vec<i32>>)
    requires
        robots@.len() <= 1_000_000,
    ensures
        r@.len() == FIELD_Y,
        forall|y: int| 0 <= y < FIELD_Y ==> (#[trigger] r@[y])@.len() == FIELD_X,
        forall|y: int, x: int|
            0 <= y < FIELD_Y && 0 <= x < FIELD_X ==> (#[trigger] r@[y]@[x]) == robots_at(
                robots@,
                x,
                y,
            ),
{
    let mut field: Vec<Vec<i32>> = Vec::new();
    let mut y: usize = 0;
    while y < 103
        invariant
            robots@.len() <= 1_000_000,
            y <= 103,
            field@.len() == y,
            forall|yy: int| 0 <= yy < y ==> (#[trigger] field@[yy])@.len() == FIELD_X,
            forall|yy: int, x: int|
                0 <= yy < y && 0 <= x < FIELD_X ==> (#[trigger] field@[yy]@[x]) == robots_at(
                    robots@,
                    x,
                    yy,
                ),
        decreases 103 - y,
    {
        let mut row: Vec<i32> = Vec::new();
        let mut x: usize = 0;
        while x < 101
            invariant
                robots@.len() <= 1_000_000,
                y < 103,
                x <= 101,
                row@.len() == x,
                forall|xx: int|
                    0 <= xx < x ==> (#[trigger] row@[xx]) == robots_at(robots@, xx, y as int),
            decreases 101 - x,
        {
            proof {
                lemma_robots_at_le(robots@, x as int, y as int);
            }
            let c: usize = count_robots_at(robots, x, y);
            row.push(c as i32);
            x = x + 1;
        }
        field.push(row);
        y = y + 1;
    }
    field
}

/// Cells `y0 .. y0 + 21` of column `x` are all occupied.
pub open spec fn column_streak_at(f: Seq<Vec<i32>>, x: int, y0: int) -> bool {
    forall|k: int| 0 <= k < 21 ==> #[trigger] f[y0 + k]@[x] > 0
}

/// Some column of the field holds a vertical run of more than twenty
/// occupied cells in a row.
pub open spec fn has_streak(f: Seq<Vec<i32>>) -> bool {
    exists|x: int, y0: int|
        0 <= x < FIELD_X && 0 <= y0 && y0 + 21 <= FIELD_Y && #[trigger] column_streak_at(f, x, y0)
}

/// Scans the field for a vertical run of more than twenty occupied
/// cells: the heuristic that finds the hidden picture.
pub fn check_field(field: &Vec<Vec<i32>>) -> (r: bool)
    requires
        field@.len() == FIELD_Y,
        forall|y: int| 0 <= y < FIELD_Y ==> (#[trigger] field@[y])@.len() == FIELD_X,
    ensures
        r == has_streak(field@),
{
    let mut x: usize = 0;
    while x < 101
        invariant
            field@.len() == FIELD_Y,
            forall|y: int| 0 <= y < FIELD_Y ==> (#[trigger] field@[y])@.len() == FIELD_X,
            x <= 101,
            forall|x0: int, y0: int|
                0 <= x0 < x && 0 <= y0 && y0 + 21 <= FIELD_Y ==> !#[trigger] column_streak_at(
                    field@,
                    x0,
                    y0,
                ),
        decreases 101 - x,
    {
        let mut streak: usize = 0;
        let mut y: usize = 0;
        while y < 103
            invariant
                field@.len() == FIELD_Y,
                forall|yy: int| 0 <= yy < FIELD_Y ==> (#[trigger] field@[yy])@.len() == FIELD_X,
                x < 101,
                y <= 103,
                streak <= y,
                streak <= 20,
                forall|k: int| y - streak <= k < y ==> #[trigger] field@[k]@[x as int] > 0,
                y - streak - 1 >= 0 ==> field@[y - streak - 1]@[x as int] <= 0,
                forall|x0: int, y0: int|
                    0 <= x0 < x && 0 <= y0 && y0 + 21 <= FIELD_Y ==> !#[trigger] column_streak_at(
                        field@,
                        x0,
                        y0,
                    ),
                forall|y0: int|
                    0 <= y0 && y0 + 21 <= y ==> !#[trigger] column_streak_at(
                        field@,
                        x as int,
                        y0,
                    ),
            decreases 103 - y,
        {
            let row: &Vec<i32> = &field[y];
            if row[x] > 0 {
                streak = streak + 1;
                if streak > 20 {
                    proof {
                        let y0 = y - 20;
                        assert forall|k: int| 0 <= k < 21 implies #[trigger] field@[y0 + k]@[x as int]
                            > 0 by {
                            if k < 20 {
                                assert(field@[y0 + k]@[x as int] > 0);
                            } else {
                                assert(y0 + k == y);
                            }
                        }
                        assert(column_streak_at(field@, x as int, y0));
                        assert(has_streak(field@));
                    }
                    return true;
                }
                proof {
                    assert forall|y0: int|
                        0 <= y0 && y0 + 21 <= y + 1 implies !column_streak_at(
                        field@,
                        x as int,
                        y0,
                    ) by {
                        if y0 + 21 <= y {
                        } else {
                            let dead = y - streak;
                            assert(0 <= dead - y0 < 21);
                            assert(field@[y0 + (dead - y0)]@[x as int] <= 0);
                        }
                    }
                }
            } else {
                streak = 0;
                proof {
                    assert forall|y0: int|
                        0 <= y0 && y0 + 21 <= y + 1 implies !column_streak_at(
                        field@,
                        x as int,
                        y0,
                    ) by {
                        if y0 + 21 <= y {
                        } else {
                            assert(0 <= y - y0 < 21);
                            assert(field@[y0 + (y - y0)]@[x as int] <= 0);
                        }
                    }
                }
            }
            y = y + 1;
        }
        x = x + 1;
    }
    proof {
        assert(!has_streak(field@));
    }
    false
}

} // verus!
