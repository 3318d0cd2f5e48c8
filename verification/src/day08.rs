//! Antenna antinodes: greatest common divisors and mirrored points.

use vstd::arithmetic::div_mod::lemma_fundamental_div_mod;
use vstd::prelude::*;

verus! {

/// An antenna position on the grid.
#[derive(Debug, Clone, Copy)]
pub struct Point {
    pub x: usize,
    pub y: usize,
}

pub open spec fn abs_i(x: int) -> int {
    if x < 0 {
        -x
    } else {
        x
    }
}

/// Euclid's greatest common divisor on magnitudes.
pub open spec fn gcd_spec(a: nat, b: nat) -> nat
    decreases b,
{
    if b == 0 {
        a
    } else {
        gcd_spec(b, a % b)
    }
}

/// Truncated remainder computed through magnitudes.
fn trunc_rem(a: i32, b: i32) -> (r: i32)
    requires
        b != 0,
        a > i32::MIN,
        b > i32::MIN,
    ensures
        abs_i(r as int) == abs_i(a as int) % abs_i(b as int),
        r > i32::MIN,
{
    let au: u32 = if a >= 0 {
        a as u32
    } else {
        (-a) as u32
    };
    let bu: u32 = if b >= 0 {
        b as u32
    } else {
        (-b) as u32
    };
    let r0: u32 = au % bu;
    proof {
        lemma_fundamental_div_mod(au as int, bu as int);
    }
    if a >= 0 {
        r0 as i32
    } else {
        -(r0 as i32)
    }
}

/// Greatest common divisor of two (possibly negative) deltas; the result
/// carries the magnitude-level value and is non-negative.
pub fn gcd(a: i32, b: i32) -> (r: i32)
    requires
        a > i32::MIN,
        b > i32::MIN,
    ensures
        r == gcd_spec(abs_i(a as int) as nat, abs_i(b as int) as nat),
        r >= 0,
    decreases abs_i(b as int),
{
    if b == 0 {
        if a >= 0 {
            a
        } else {
            -a
        }
    } else {
        let rem = trunc_rem(a, b);
        gcd(b, rem)
    }
}

/// The two candidate antinode cells of an antenna pair: each antenna
/// mirrored through the other.
pub open spec fn anti_one(p1: Point, p2: Point) -> (int, int) {
    (2 * p1.y - p2.y, 2 * p1.x - p2.x)
}

pub open spec fn anti_two(p1: Point, p2: Point) -> (int, int) {
    (2 * p2.y - p1.y, 2 * p2.x - p1.x)
}

/// A `(row, column)` cell inside the grid bounds.
pub open spec fn cell_in_bounds(c: (int, int), max_y: int, max_x: int) -> bool {
    0 <= c.0 < max_y && 0 <= c.1 < max_x
}

/// The in-bounds antinodes of an antenna pair, nearest-mirror first.
pub fn get_antinodes(p1: &Point, p2: &Point, max_y: usize, max_x: usize) -> (r: Vec<
    (usize, usize),
>)
    requires
        p1.x <= 1_000_000,
        p1.y <= 1_000_000,
        p2.x <= 1_000_000,
        p2.y <= 1_000_000,
        max_y <= 1_000_000,
        max_x <= 1_000_000,
    ensures
        r@.len() == (if cell_in_bounds(anti_one(*p1, *p2), max_y as int, max_x as int) {
            1int
        } else {
            0int
        }) + (if cell_in_bounds(anti_two(*p1, *p2), max_y as int, max_x as int) {
            1int
        } else {
            0int
        }),
        cell_in_bounds(anti_one(*p1, *p2), max_y as int, max_x as int) ==> (r@[0].0 as int,
        r@[0].1 as int) == anti_one(*p1, *p2),
        cell_in_bounds(anti_two(*p1, *p2), max_y as int, max_x as int) ==> {
            let idx: int = if cell_in_bounds(anti_one(*p1, *p2), max_y as int, max_x as int) {
                1
            } else {
                0
            };
            (r@[idx].0 as int, r@[idx].1 as int) == anti_two(*p1, *p2)
        },
{
    let mut antinodes: Vec<(usize, usize)> = Vec::new();
    let px1: i64 = 2 * (p1.x as i64) - (p2.x as i64);
    let py1: i64 = 2 * (p1.y as i64) - (p2.y as i64);
    if px1 >= 0 && px1 < max_x as i64 && py1 >= 0 && py1 < max_y as i64 {
        antinodes.push((py1 as usize, px1 as usize));
    }
    let px2: i64 = 2 * (p2.x as i64) - (p1.x as i64);
    let py2: i64 = 2 * (p2.y as i64) - (p1.y as i64);
    if px2 >= 0 && px2 < max_x as i64 && py2 >= 0 && py2 < max_y as i64 {
        antinodes.push((py2 as usize, px2 as usize));
    }
    antinodes
}

} // verus!

verus! {

/// A non-zero pair of deltas has a positive greatest common divisor.
proof fn lemma_gcd_pos(a: nat, b: nat)
    requires
        a >= 1 || b >= 1,
    ensures
        gcd_spec(a, b) >= 1,
    decreases b,
{
    if b >= 1 {
        lemma_gcd_pos(b, a % b);
    }
}

/// The greatest common divisor never exceeds a positive second argument.
proof fn lemma_gcd_le(a: nat, b: nat)
    requires
        b >= 1,
    ensures
        gcd_spec(a, b) <= b,
    decreases b,
{
    if a % b >= 1 {
        lemma_gcd_le(b, a % b);
    } else {
        assert(gcd_spec(b, a % b) == b);
    }
}

/// Truncated quotient through magnitudes.
pub open spec fn tq(a: int, b: int) -> int {
    if a >= 0 {
        a / b
    } else {
        -((-a) / b)
    }
}

/// Greatest common divisor of the coordinate deltas of an antenna pair.
pub open spec fn delta_gcd(p1: Point, p2: Point) -> int {
    gcd_spec(abs_i(p2.x - p1.x) as nat, abs_i(p2.y - p1.y) as nat) as int
}

/// The reduced step along the antenna line.
pub open spec fn step_x(p1: Point, p2: Point) -> int {
    tq(p2.x - p1.x, delta_gcd(p1, p2))
}

pub open spec fn step_y(p1: Point, p2: Point) -> int {
    tq(p2.y - p1.y, delta_gcd(p1, p2))
}

/// The `k`-th point along the line from `p1` with step `(sx, sy)`, as
/// `(x, y)`.
pub open spec fn line_pt(p1: Point, sx: int, sy: int, k: int) -> (int, int) {
    (p1.x + k * sx, p1.y + k * sy)
}

/// An `(x, y)` position inside the grid.
pub open spec fn pos_in(c: (int, int), max_x: int, max_y: int) -> bool {
    0 <= c.0 < max_x && 0 <= c.1 < max_y
}

/// Entries `off .. off + cnt` of `r` walk the ray from `p1` with step
/// `(sx, sy)`, one grid-point multiple at a time, all in bounds.
pub open spec fn ray_section(
    r: Seq<Point>,
    off: int,
    p1: Point,
    sx: int,
    sy: int,
    cnt: int,
    max_x: int,
    max_y: int,
) -> bool
    decreases cnt,
{
    cnt <= 0 || (ray_section(r, off, p1, sx, sy, cnt - 1, max_x, max_y) && (r[off + cnt - 1].x as int,
    r[off + cnt - 1].y as int) == line_pt(p1, sx, sy, cnt) && pos_in(
        line_pt(p1, sx, sy, cnt),
        max_x,
        max_y,
    ))
}

/// A ray section only looks at entries below `off + cnt`, so any list
/// agreeing there carries the same section.
proof fn lemma_ray_section_same(
    r1: Seq<Point>,
    r2: Seq<Point>,
    off: int,
    p1: Point,
    sx: int,
    sy: int,
    cnt: int,
    max_x: int,
    max_y: int,
)
    requires
        0 <= off,
        forall|i: int| 0 <= i < off + cnt ==> r1[i] == #[trigger] r2[i],
        ray_section(r1, off, p1, sx, sy, cnt, max_x, max_y),
    ensures
        ray_section(r2, off, p1, sx, sy, cnt, max_x, max_y),
    decreases cnt,
{
    if cnt > 0 {
        lemma_ray_section_same(r1, r2, off, p1, sx, sy, cnt - 1, max_x, max_y);
    }
}

/// Walks the whole antenna line through `p1` and `p2` in reduced steps
/// and returns every in-bounds grid point of it except `p1` itself:
/// first the forward ray from `p1`, then the backward ray, each cut at
/// its first out-of-bounds point.
pub fn get_line_points_in_bounds(p1: &Point, p2: &Point, max_x: usize, max_y: usize) -> (r: Vec<
    Point,
>)
    requires
        p1.x != p2.x || p1.y != p2.y,
        p1.x < max_x <= 1_000_000,
        p1.y < max_y <= 1_000_000,
        p2.x <= 1_000_000,
        p2.y <= 1_000_000,
    ensures
        exists|kf: int, kb: int|
            #![trigger ray_section(r@, 0, *p1, step_x(*p1, *p2), step_y(*p1, *p2), kf, max_x as int, max_y as int), ray_section(r@, kf, *p1, -step_x(*p1, *p2), -step_y(*p1, *p2), kb, max_x as int, max_y as int)]
            0 <= kf && 0 <= kb && r@.len() == kf + kb && ray_section(
                r@,
                0,
                *p1,
                step_x(*p1, *p2),
                step_y(*p1, *p2),
                kf,
                max_x as int,
                max_y as int,
            ) && !pos_in(
                line_pt(*p1, step_x(*p1, *p2), step_y(*p1, *p2), kf + 1),
                max_x as int,
                max_y as int,
            ) && ray_section(
                r@,
                kf,
                *p1,
                -step_x(*p1, *p2),
                -step_y(*p1, *p2),
                kb,
                max_x as int,
                max_y as int,
            ) && !pos_in(
                line_pt(*p1, -step_x(*p1, *p2), -step_y(*p1, *p2), kb + 1),
                max_x as int,
                max_y as int,
            ),
{
    let dx: i64 = p2.x as i64 - p1.x as i64;
    let dy: i64 = p2.y as i64 - p1.y as i64;
    let g: i32 = gcd(dx as i32, dy as i32);
    proof {
        lemma_gcd_pos(abs_i(dx as int) as nat, abs_i(dy as int) as nat);
        if dy != 0 {
            lemma_gcd_le(abs_i(dx as int) as nat, abs_i(dy as int) as nat);
        }
    }
    let sxr: i64 = if dx >= 0 {
        ((dx as u64) / (g as u64)) as i64
    } else {
        -((((-dx) as u64) / (g as u64)) as i64)
    };
    let syr: i64 = if dy >= 0 {
        ((dy as u64) / (g as u64)) as i64
    } else {
        -((((-dy) as u64) / (g as u64)) as i64)
    };
    proof {
        assert(sxr == step_x(*p1, *p2));
        assert(syr == step_y(*p1, *p2));
        assert(abs_i(sxr as int) <= abs_i(dx as int)) by (nonlinear_arith)
            requires
                g >= 1,
                sxr == tq(dx as int, g as int),
                tq(dx as int, g as int) == if dx >= 0 {
                    (dx as int) / (g as int)
                } else {
                    -((-(dx as int)) / (g as int))
                },
                abs_i(dx as int) == if dx < 0 {
                    -(dx as int)
                } else {
                    dx as int
                },
                abs_i(sxr as int) == if sxr < 0 {
                    -(sxr as int)
                } else {
                    sxr as int
                },
        {}
        assert(abs_i(syr as int) <= abs_i(dy as int)) by (nonlinear_arith)
            requires
                g >= 1,
                syr == tq(dy as int, g as int),
                tq(dy as int, g as int) == if dy >= 0 {
                    (dy as int) / (g as int)
                } else {
                    -((-(dy as int)) / (g as int))
                },
                abs_i(dy as int) == if dy < 0 {
                    -(dy as int)
                } else {
                    dy as int
                },
                abs_i(syr as int) == if syr < 0 {
                    -(syr as int)
                } else {
                    syr as int
                },
        {}
        if dy != 0 {
            assert(syr != 0) by (nonlinear_arith)
                requires
                    1 <= g as int <= abs_i(dy as int),
                    syr == tq(dy as int, g as int),
                    tq(dy as int, g as int) == if dy >= 0 {
                        (dy as int) / (g as int)
                    } else {
                        -((-(dy as int)) / (g as int))
                    },
                    abs_i(dy as int) == if dy < 0 {
                        -(dy as int)
                    } else {
                        dy as int
                    },
                    dy != 0,
            {}
        } else {
            assert(abs_i(dx as int) >= 1);
            assert(g == abs_i(dx as int));
            assert(sxr != 0) by (nonlinear_arith)
                requires
                    g as int == abs_i(dx as int),
                    g >= 1,
                    sxr == tq(dx as int, g as int),
                    tq(dx as int, g as int) == if dx >= 0 {
                        (dx as int) / (g as int)
                    } else {
                        -((-(dx as int)) / (g as int))
                    },
                    abs_i(dx as int) == if dx < 0 {
                        -(dx as int)
                    } else {
                        dx as int
                    },
            {}
        }
    }
    let mut points: Vec<Point> = Vec::new();
    let fwd = walk_ray(p1, sxr, syr, max_x, max_y, &mut points);
    let ghost kf = fwd as int;
    let ghost mid = points@;
    let bwd = walk_ray(p1, -sxr, -syr, max_x, max_y, &mut points);
    proof {
        assert forall|i: int| 0 <= i < 0 + kf implies mid[i] == #[trigger] points@[i] by {
            assert(points@.subrange(0, mid.len() as int)[i] == points@[i]);
        }
        lemma_ray_section_same(
            mid,
            points@,
            0,
            *p1,
            sxr as int,
            syr as int,
            kf,
            max_x as int,
            max_y as int,
        );
        assert(ray_section(
            points@,
            0,
            *p1,
            step_x(*p1, *p2),
            step_y(*p1, *p2),
            kf,
            max_x as int,
            max_y as int,
        ));
        assert(ray_section(
            points@,
            kf,
            *p1,
            -step_x(*p1, *p2),
            -step_y(*p1, *p2),
            bwd as int,
            max_x as int,
            max_y as int,
        ));
    }
    points
}

/// Appends the in-bounds multiples of one ray direction, starting at the
/// first multiple and stopping just before the first point off the grid.
/// Returns how many points were appended.
fn walk_ray(
    p1: &Point,
    sxr: i64,
    syr: i64,
    max_x: usize,
    max_y: usize,
    out: &mut Vec<Point>,
) -> (cnt: usize)
    requires
        p1.x < max_x <= 1_000_000,
        p1.y < max_y <= 1_000_000,
        -1_000_000 <= sxr <= 1_000_000,
        -1_000_000 <= syr <= 1_000_000,
        sxr != 0 || syr != 0,
    ensures
        final(out)@.len() == old(out)@.len() + cnt,
        final(out)@.subrange(0, old(out)@.len() as int) == old(out)@,
        ray_section(
            final(out)@,
            old(out)@.len() as int,
            *p1,
            sxr as int,
            syr as int,
            cnt as int,
            max_x as int,
            max_y as int,
        ),
        !pos_in(line_pt(*p1, sxr as int, syr as int, cnt + 1), max_x as int, max_y as int),
{
    let ghost off = out@.len() as int;
    let ghost base = out@;
    let mut k: usize = 0;
    let mut nx: i64 = p1.x as i64 + sxr;
    let mut ny: i64 = p1.y as i64 + syr;
    while 0 <= nx && nx < max_x as i64 && 0 <= ny && ny < max_y as i64
        invariant
            p1.x < max_x <= 1_000_000,
            p1.y < max_y <= 1_000_000,
            -1_000_000 <= sxr <= 1_000_000,
            -1_000_000 <= syr <= 1_000_000,
            sxr != 0 || syr != 0,
            off == base.len(),
            out@.len() == off + k,
            out@.subrange(0, off) == base,
            k <= 2_000_000,
            nx == p1.x + (k + 1) * sxr,
            ny == p1.y + (k + 1) * syr,
            -2_000_000 <= nx <= 3_000_000,
            -2_000_000 <= ny <= 3_000_000,
            ray_section(out@, off, *p1, sxr as int, syr as int, k as int, max_x as int, max_y as int),
        decreases (if syr > 0 {
            3_000_000 - ny
        } else if syr < 0 {
            ny + 2_000_000
        } else if sxr > 0 {
            3_000_000 - nx
        } else {
            nx + 2_000_000
        }),
    {
        let ghost out_pre = out@;
        out.push(Point { x: nx as usize, y: ny as usize });
        proof {
            assert((k + 2) * sxr == (k + 1) * sxr + sxr) by (nonlinear_arith);
            assert((k + 2) * syr == (k + 1) * syr + syr) by (nonlinear_arith);
            if sxr != 0 {
                assert(k + 1 <= 2_000_000) by (nonlinear_arith)
                    requires
                        nx == p1.x + (k + 1) * sxr,
                        0 <= nx <= 1_000_000,
                        0 <= p1.x <= 1_000_000,
                        sxr != 0,
                        -1_000_000 <= sxr <= 1_000_000,
                        k >= 0,
                {}
            } else {
                assert(k + 1 <= 2_000_000) by (nonlinear_arith)
                    requires
                        ny == p1.y + (k + 1) * syr,
                        0 <= ny <= 1_000_000,
                        0 <= p1.y <= 1_000_000,
                        syr != 0,
                        -1_000_000 <= syr <= 1_000_000,
                        k >= 0,
                {}
            }
            lemma_ray_section_same(
                out_pre,
                out@,
                off,
                *p1,
                sxr as int,
                syr as int,
                k as int,
                max_x as int,
                max_y as int,
            );
            assert(out@[off + k as int] == Point { x: nx as usize, y: ny as usize });
            assert(ray_section(
                out@,
                off,
                *p1,
                sxr as int,
                syr as int,
                k + 1,
                max_x as int,
                max_y as int,
            ));
            assert(out@.subrange(0, off) =~= base);
        }
        k = k + 1;
        nx = nx + sxr;
        ny = ny + syr;
    }
    k
}

} // verus!
