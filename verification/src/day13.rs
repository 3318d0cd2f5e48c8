//! Claw machines: integer solutions of the two-button linear system.

use vstd::arithmetic::div_mod::{lemma_fundamental_div_mod, lemma_mod_multiples_vanish};
use vstd::prelude::*;

verus! {

/// One claw machine: button displacements and the prize position.
#[derive(Clone, Copy, Debug)]
pub struct ClawMachine {
    pub a_x: isize,
    pub a_y: isize,
    pub b_x: isize,
    pub b_y: isize,
    pub prize_x: isize,
    pub prize_y: isize,
}

pub open spec fn abs_v(x: int) -> int {
    if x < 0 {
        -x
    } else {
        x
    }
}

/// All machine parameters lie in the range the solver accepts: button
/// displacements up to a hundred thousand, prize coordinates up to a
/// hundred trillion.
pub open spec fn machine_ok(c: ClawMachine) -> bool {
    abs_v(c.a_x as int) <= 100_000 && abs_v(c.a_y as int) <= 100_000 && abs_v(c.b_x as int)
        <= 100_000 && abs_v(c.b_y as int) <= 100_000 && abs_v(c.prize_x as int)
        <= 100_000_000_000_000 && abs_v(c.prize_y as int) <= 100_000_000_000_000
}

/// Product bound used to keep intermediate values inside the word size.
proof fn lemma_abs_mul_le(x: int, y: int, mx: int, my: int)
    requires
        abs_v(x) <= mx,
        abs_v(y) <= my,
        0 <= mx,
        0 <= my,
    ensures
        abs_v(x * y) <= mx * my,
{
    assert(abs_v(x * y) <= mx * my) by (nonlinear_arith)
        requires
            abs_v(x) <= mx,
            abs_v(y) <= my,
            0 <= mx,
            0 <= my,
            abs_v(x) == if x < 0 { -x } else { x },
            abs_v(y) == if y < 0 { -y } else { y },
            abs_v(x * y) == if x * y < 0 { -(x * y) } else { x * y },
    {}
}

/// `(na, nb)` presses of the two buttons land exactly on the prize.
pub open spec fn is_solution(c: ClawMachine, na: int, nb: int) -> bool {
    na * c.a_x + nb * c.b_x == c.prize_x && na * c.a_y + nb * c.b_y == c.prize_y
}

/// Truncated division with remainder, as machine division computes it.
fn trunc_div_rem(a: i128, b: i128) -> (r: (i128, i128))
    requires
        b != 0,
        -0x4000_0000_0000_0000_0000_0000_0000_0000 < a
            < 0x4000_0000_0000_0000_0000_0000_0000_0000,
        -0x4000_0000_0000_0000_0000_0000_0000_0000 < b
            < 0x4000_0000_0000_0000_0000_0000_0000_0000,
    ensures
        a == b * r.0 + r.1,
        abs_v(r.1 as int) < abs_v(b as int),
        abs_v(r.0 as int) <= abs_v(a as int),
        r.1 == 0 <==> abs_v(a as int) % abs_v(b as int) == 0,
{
    let au: u128 = if a >= 0 {
        a as u128
    } else {
        (-a) as u128
    };
    let bu: u128 = if b >= 0 {
        b as u128
    } else {
        (-b) as u128
    };
    let q0: u128 = au / bu;
    let r0: u128 = au % bu;
    proof {
        lemma_fundamental_div_mod(au as int, bu as int);
        assert(q0 <= au) by (nonlinear_arith)
            requires
                au == bu * q0 + r0,
                bu >= 1,
                r0 >= 0,
                q0 >= 0,
        {}
    }
    let q: i128 = if (a >= 0) == (b >= 0) {
        q0 as i128
    } else {
        -(q0 as i128)
    };
    let r: i128 = if a >= 0 {
        r0 as i128
    } else {
        -(r0 as i128)
    };
    proof {
        if a >= 0 && b >= 0 {
            assert(a == b * q + r);
        } else if a >= 0 {
            assert(a as int == (b as int) * (q as int) + r) by (nonlinear_arith)
                requires
                    au == bu * q0 + r0,
                    a == au,
                    b as int == -(bu as int),
                    q as int == -(q0 as int),
                    r == r0,
            {}
        } else if b >= 0 {
            assert(a as int == (b as int) * (q as int) + r) by (nonlinear_arith)
                requires
                    au == bu * q0 + r0,
                    a as int == -(au as int),
                    b == bu,
                    q as int == -(q0 as int),
                    r as int == -(r0 as int),
            {}
        } else {
            assert(a as int == (b as int) * (q as int) + r) by (nonlinear_arith)
                requires
                    au == bu * q0 + r0,
                    a as int == -(au as int),
                    b as int == -(bu as int),
                    q == q0,
                    r as int == -(r0 as int),
            {}
        }
    }
    (q, r)
}

/// Any exact multiple leaves remainder zero.
proof fn lemma_divides_of_multiple(a: int, b: int, k: int)
    requires
        b != 0,
        a == b * k,
    ensures
        abs_v(a) % abs_v(b) == 0,
{
    let m = abs_v(b);
    if b >= 0 {
        if a >= 0 {
            assert(a == m * k) by (nonlinear_arith)
                requires
                    a == b * k,
                    m == b,
            {}
            lemma_mod_multiples_vanish(k, 0, m);
        } else {
            assert(abs_v(a) == m * (-k)) by (nonlinear_arith)
                requires
                    a == b * k,
                    m == b,
                    a < 0,
                    abs_v(a) == -a,
            {}
            lemma_mod_multiples_vanish(-k, 0, m);
        }
    } else {
        if a >= 0 {
            assert(abs_v(a) == m * (-k)) by (nonlinear_arith)
                requires
                    a == b * k,
                    m == -b,
                    a >= 0,
                    abs_v(a) == a,
            {}
            lemma_mod_multiples_vanish(-k, 0, m);
        } else {
            assert(abs_v(a) == m * k) by (nonlinear_arith)
                requires
                    a == b * k,
                    m == -b,
                    a < 0,
                    abs_v(a) == -a,
            {}
            lemma_mod_multiples_vanish(k, 0, m);
        }
    }
    assert(0int % m == 0);
}

/// Solves one machine: the unique integer press counts that reach the
/// prize, or `None` exactly when no integer solution exists.  The system
/// must be non-degenerate (independent buttons, a horizontal `A` effect).
pub fn solve(c: &ClawMachine) -> (r: Option<(i128, i128)>)
    requires
        machine_ok(*c),
        c.b_y * c.a_x - c.b_x * c.a_y != 0,
        c.a_x != 0,
    ensures
        r is Some ==> is_solution(*c, r->Some_0.0 as int, r->Some_0.1 as int),
        r is Some <==> exists|na: int, nb: int| is_solution(*c, na, nb),
{
    let ax: i128 = c.a_x as i128;
    let ay: i128 = c.a_y as i128;
    let bx: i128 = c.b_x as i128;
    let by: i128 = c.b_y as i128;
    let px: i128 = c.prize_x as i128;
    let py: i128 = c.prize_y as i128;
    proof {
        lemma_abs_mul_le(by as int, ax as int, 100_000, 100_000);
        lemma_abs_mul_le(bx as int, ay as int, 100_000, 100_000);
        lemma_abs_mul_le(ax as int, py as int, 100_000, 100_000_000_000_000);
        lemma_abs_mul_le(ay as int, px as int, 100_000, 100_000_000_000_000);
    }
    let det: i128 = by * ax - bx * ay;
    let num_b: i128 = ax * py - ay * px;
    let (n_b, rem_b) = trunc_div_rem(num_b, det);
    if rem_b != 0 {
        proof {
            assert forall|na: int, nb: int| !is_solution(*c, na, nb) by {
                if is_solution(*c, na, nb) {
                    assert(num_b == det * nb) by (nonlinear_arith)
                        requires
                            na * ax + nb * bx == px,
                            na * ay + nb * by == py,
                            det == by * ax - bx * ay,
                            num_b == ax * py - ay * px,
                    {}
                    lemma_divides_of_multiple(num_b as int, det as int, nb);
                }
            }
        }
        return None;
    }
    proof {
        lemma_abs_mul_le(n_b as int, bx as int, 20_000_000_000_000_000_000, 100_000);
    }
    let num_a: i128 = px - n_b * bx;
    let (n_a, rem_a) = trunc_div_rem(num_a, ax);
    if rem_a != 0 {
        proof {
            assert forall|na: int, nb: int| !is_solution(*c, na, nb) by {
                if is_solution(*c, na, nb) {
                    assert(num_b == det * nb) by (nonlinear_arith)
                        requires
                            na * ax + nb * bx == px,
                            na * ay + nb * by == py,
                            det == by * ax - bx * ay,
                            num_b == ax * py - ay * px,
                    {}
                    assert(nb == n_b) by (nonlinear_arith)
                        requires
                            num_b == det * nb,
                            num_b == det * n_b + rem_b,
                            rem_b == 0,
                            det != 0,
                    {}
                    assert(num_a == ax * na) by (nonlinear_arith)
                        requires
                            na * ax + nb * bx == px,
                            nb == n_b,
                            num_a == px - n_b * bx,
                    {}
                    lemma_divides_of_multiple(num_a as int, ax as int, na);
                }
            }
        }
        return None;
    }
    proof {
        assert((n_a as int) * ax + (n_b as int) * bx == px) by (nonlinear_arith)
            requires
                num_a == px - n_b * bx,
                num_a == ax * n_a + rem_a,
                rem_a == 0,
        {}
        assert(ax * ((n_a as int) * ay + (n_b as int) * by - py) == 0) by (nonlinear_arith)
            requires
                (n_a as int) * ax + (n_b as int) * bx == px,
                num_b == det * n_b + rem_b,
                rem_b == 0,
                det == by * ax - bx * ay,
                num_b == ax * py - ay * px,
        {}
        assert((n_a as int) * ay + (n_b as int) * by == py) by (nonlinear_arith)
            requires
                ax != 0,
                ax * ((n_a as int) * ay + (n_b as int) * by - py) == 0,
        {}
        assert((n_a as int) * (c.a_x as int) == (n_a as int) * ax);
        assert(is_solution(*c, n_a as int, n_b as int));
    }
    Some((n_a, n_b))
}

} // verus!
