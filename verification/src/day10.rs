//! Hiking trails: breadth-wise expansion of gradually ascending paths.

use vstd::prelude::*;

verus! {

/// A grid cell, `(x, y)`.
#[derive(Clone, Copy, Debug, PartialEq, Eq, Structural)]
pub struct Point(pub usize, pub usize);

/// A rectangular height map with at least one row.
pub open spec fn map_ok(g: Seq<Vec<u32>>) -> bool {
    g.len() >= 1 && forall|i: int| 0 <= i < g.len() ==> (#[trigger] g[i])@.len() == g[0]@.len()
}

/// The point lies on the map.
pub open spec fn point_on(g: Seq<Vec<u32>>, p: Point) -> bool {
    p.1 < g.len() && p.0 < g[0]@.len()
}

/// The neighbours of one point whose height is exactly `value + 1`, in
/// scan order: left, right, up, down.
pub open spec fn ascent_steps(g: Seq<Vec<u32>>, p: Point, value: int) -> Seq<Point> {
    (if p.0 > 0 && g[p.1 as int]@[p.0 - 1] == value + 1 {
        seq![Point((p.0 - 1) as usize, p.1)]
    } else {
        Seq::empty()
    }) + (if p.0 + 1 < g[0]@.len() && g[p.1 as int]@[p.0 + 1] == value + 1 {
        seq![Point((p.0 + 1) as usize, p.1)]
    } else {
        Seq::empty()
    }) + (if p.1 > 0 && g[p.1 - 1]@[p.0 as int] == value + 1 {
        seq![Point(p.0, (p.1 - 1) as usize)]
    } else {
        Seq::empty()
    }) + (if p.1 + 1 < g.len() && g[p.1 + 1]@[p.0 as int] == value + 1 {
        seq![Point(p.0, (p.1 + 1) as usize)]
    } else {
        Seq::empty()
    })
}

/// One expansion round: every frontier point replaced by its ascending
/// neighbours, in order.
pub open spec fn step_frontier(g: Seq<Vec<u32>>, pts: Seq<Point>, value: int) -> Seq<Point>
    decreases pts.len(),
{
    if pts.len() == 0 {
        Seq::empty()
    } else {
        step_frontier(g, pts.drop_last(), value) + ascent_steps(g, pts.last(), value)
    }
}

/// The frontier after climbing from height `value` all the way to nine;
/// a point appears once per distinct ascending path that reaches it.
pub open spec fn final_frontier(g: Seq<Vec<u32>>, pts: Seq<Point>, value: int) -> Seq<Point>
    decreases 9 - value,
{
    if value >= 9 {
        pts
    } else {
        final_frontier(g, step_frontier(g, pts, value), value + 1)
    }
}

/// Every frontier point lies on the map.
pub open spec fn frontier_on(g: Seq<Vec<u32>>, pts: Seq<Point>) -> bool {
    forall|i: int| 0 <= i < pts.len() ==> point_on(g, #[trigger] pts[i])
}

proof fn lemma_step_frontier_on(g: Seq<Vec<u32>>, pts: Seq<Point>, value: int)
    requires
        map_ok(g),
        frontier_on(g, pts),
    ensures
        frontier_on(g, step_frontier(g, pts, value)),
    decreases pts.len(),
{
    if pts.len() > 0 {
        lemma_step_frontier_on(g, pts.drop_last(), value);
        let head = step_frontier(g, pts.drop_last(), value);
        let tail = ascent_steps(g, pts.last(), value);
        assert(frontier_on(g, pts.drop_last()));
        assert forall|i: int|
            0 <= i < step_frontier(g, pts, value).len() implies point_on(
            g,
            #[trigger] step_frontier(g, pts, value)[i],
        ) by {
            if i < head.len() {
                assert(step_frontier(g, pts, value)[i] == head[i]);
            } else {
                assert(step_frontier(g, pts, value)[i] == tail[i - head.len()]);
            }
        }
    }
}

/// Expands the frontier of ascending paths from height `value` up to
/// nine and returns the reachable summit points, once per path.
#[verifier::rlimit(60)]
pub fn check_valid_path(p: &Vec<Point>, value: u32, geomap: &Vec<Vec<u32>>) -> (r: Vec<Point>)
    requires
        map_ok(geomap@),
        frontier_on(geomap@, p@),
        value <= 9,
    ensures
        r@ == final_frontier(geomap@, p@, value as int),
        frontier_on(geomap@, r@),
    decreases 9 - value,
{
    if value == 9 {
        let out = clone_points(p);
        return out;
    }
    let n: usize = p.len();
    let rows: usize = geomap.len();
    let cols: usize = geomap[0].len();
    let mut valid_path: Vec<Point> = Vec::new();
    let mut i: usize = 0;
    proof {
        assert(valid_path@ =~= step_frontier(geomap@, p@.take(0), value as int));
    }
    while i < n
        invariant
            map_ok(geomap@),
            frontier_on(geomap@, p@),
            n == p@.len(),
            rows == geomap@.len(),
            cols == geomap@[0]@.len(),
            value < 9,
            i <= n,
            valid_path@ == step_frontier(geomap@, p@.take(i as int), value as int),
            frontier_on(geomap@, valid_path@),
        decreases n - i,
    {
        proof {
            assert(p@.take(i + 1).drop_last() =~= p@.take(i as int));
            assert(p@.take(i + 1).last() == p@[i as int]);
            assert(point_on(geomap@, p@[i as int]));
        }
        let ghost before = valid_path@;
        let point: Point = p[i];
        let x: usize = point.0;
        let y: usize = point.1;
        if x > 0 && geomap[y][x - 1] == value + 1 {
            valid_path.push(Point(x - 1, y));
        }
        if x + 1 < cols && geomap[y][x + 1] == value + 1 {
            valid_path.push(Point(x + 1, y));
        }
        if y > 0 && geomap[y - 1][x] == value + 1 {
            valid_path.push(Point(x, y - 1));
        }
        if y + 1 < rows && geomap[y + 1][x] == value + 1 {
            valid_path.push(Point(x, y + 1));
        }
        proof {
            assert(valid_path@ =~= before + ascent_steps(geomap@, p@[i as int], value as int));
            assert(valid_path@ =~= step_frontier(geomap@, p@.take(i + 1), value as int));
            assert forall|j: int|
                0 <= j < valid_path@.len() implies point_on(
                geomap@,
                #[trigger] valid_path@[j],
            ) by {
                if j >= before.len() {
                    assert(valid_path@[j] == ascent_steps(geomap@, p@[i as int], value as int)[j
                        - before.len()]);
                }
            }
        }
        i = i + 1;
    }
    proof {
        assert(p@.take(n as int) =~= p@);
    }
    check_valid_path(&valid_path, value + 1, geomap)
}

/// Copies a point list.
fn clone_points(v: &Vec<Point>) -> (r: Vec<Point>)
    ensures
        r@ == v@,
{
    let mut out: Vec<Point> = Vec::new();
    let mut i: usize = 0;
    while i < v.len()
        invariant
            i <= v@.len(),
            out@ =~= v@.subrange(0, i as int),
        decreases v@.len() - i,
    {
        out.push(v[i]);
        i = i + 1;
    }
    proof {
        assert(out@ =~= v@);
    }
    out
}

} // verus!
