//! Integer line rasterisation for pin-to-pin string art.
//!
//! A line from `(x0, y0)` to `(x1, y1)` is walked with an error term: each
//! step moves `x` when `2 * err > -dx` and `y` when `2 * err < dy`. The walk is
//! described by [`line_points`]; the proofs below show that it ends at
//! `(x1, y1)`, stays in the bounding box, visits each pixel once and moves to
//! an 8-neighbour at every step.

use vstd::prelude::*;
use crate::image_model::{RgbaCanvas, canvas_pixels, canvas_size, in_image};

verus! {

/// Number of lines drawn by the string-art loop.
pub const LOOPS: i32 = 750;

/// Alpha of the pixels a thread covers.
pub const DRAW_OPACITY: u8 = 255;

/// Brightness a thread adds to each pixel it covers.
pub const REMOVE: i16 = 50;

/// Name of the input picture (without extension) the string-art program reads.
pub const PATH: &'static str = "number";

/// Coordinates must stay below this bound so that the doubled error term fits
/// in an `i64`; no array or image can be this large.
pub const COORD_LIMIT: i64 = 0x4000_0000_0000_0000;

pub open spec fn abs_diff(a: int, b: int) -> int {
    if a > b { a - b } else { b - a }
}

/// The error term the walk starts with: `dx / 2` or `-dy / 2`, rounded toward zero.
pub open spec fn initial_error(dx: int, dy: int) -> int {
    if dx > dy { dx / 2 } else { -(dy / 2) }
}

/// What a walk needs to know about its end point and directions.
pub struct LineGeom {
    pub x1: int,
    pub y1: int,
    pub dx: int,
    pub dy: int,
    pub right: bool,
    pub down: bool,
}

pub open spec fn line_geom(x0: int, y0: int, x1: int, y1: int) -> LineGeom {
    LineGeom {
        x1,
        y1,
        dx: abs_diff(x0, x1),
        dy: abs_diff(y0, y1),
        right: x0 < x1,
        down: y0 < y1,
    }
}

/// The pixel that lies `a` columns and `b` rows before the end point.
pub open spec fn walk_pixel(g: LineGeom, a: int, b: int) -> (int, int) {
    (if g.right { g.x1 - a } else { g.x1 + a }, if g.down { g.y1 - b } else { g.y1 + b })
}

/// The pixels visited from the state where `a` columns and `b` rows remain and
/// the error term is `err`, up to and including the end point.
pub open spec fn walk(g: LineGeom, a: nat, b: nat, err: int) -> Seq<(int, int)>
    decreases a + b,
{
    if a == 0 && b == 0 {
        seq![walk_pixel(g, 0, 0)]
    } else {
        let xs = 2 * err > -g.dx && a > 0;
        let ys = 2 * err < g.dy && b > 0;
        if !xs && !ys {
            seq![walk_pixel(g, a as int, b as int)]
        } else {
            let na: nat = if xs { (a - 1) as nat } else { a };
            let nb: nat = if ys { (b - 1) as nat } else { b };
            let ne = err - (if xs { g.dy } else { 0 }) + (if ys { g.dx } else { 0 });
            seq![walk_pixel(g, a as int, b as int)] + walk(g, na, nb, ne)
        }
    }
}

/// The pixels of the line from `(x0, y0)` to `(x1, y1)`, in the order they are visited.
pub open spec fn line_points(x0: int, y0: int, x1: int, y1: int) -> Seq<(int, int)> {
    let g = line_geom(x0, y0, x1, y1);
    walk(g, g.dx as nat, g.dy as nat, initial_error(g.dx, g.dy))
}

/// The states a walk passes through: `a` and `b` never exceed the full
/// distances, the error term is determined by them, and it stays in `[-dy, dx]`.
pub open spec fn walk_inv(g: LineGeom, a: int, b: int, err: int) -> bool {
    &&& 0 <= a <= g.dx
    &&& 0 <= b <= g.dy
    &&& err == initial_error(g.dx, g.dy) + a * g.dy - b * g.dx
    &&& -g.dy <= err <= g.dx
}

/// Until the end point is reached, a step moves in at least one direction,
/// and only in directions where distance remains; the step keeps `walk_inv`.
pub proof fn lemma_walk_step(g: LineGeom, a: int, b: int, err: int)
    requires
        walk_inv(g, a, b, err),
        a != 0 || b != 0,
    ensures
        2 * err > -g.dx ==> a > 0,
        2 * err < g.dy ==> b > 0,
        2 * err > -g.dx || 2 * err < g.dy,
        ({
            let xs = 2 * err > -g.dx;
            let ys = 2 * err < g.dy;
            walk_inv(
                g,
                if xs { a - 1 } else { a },
                if ys { b - 1 } else { b },
                err - (if xs { g.dy } else { 0 }) + (if ys { g.dx } else { 0 }),
            )
        }),
{
    let e0 = initial_error(g.dx, g.dy);
    assert(2 * e0 <= g.dx && 2 * e0 >= -g.dy);
    if a == 0 {
        assert(a * g.dy == 0) by (nonlinear_arith)
            requires a == 0;
        assert(b * g.dx >= g.dx) by (nonlinear_arith)
            requires b >= 1, g.dx >= 0;
        assert(2 * err <= -g.dx);
    }
    if b == 0 {
        assert(b * g.dx == 0) by (nonlinear_arith)
            requires b == 0;
        assert(a * g.dy >= g.dy) by (nonlinear_arith)
            requires a >= 1, g.dy >= 0;
        assert(2 * err >= g.dy);
    }
    let xs = 2 * err > -g.dx;
    let ys = 2 * err < g.dy;
    let na = if xs { a - 1 } else { a };
    let nb = if ys { b - 1 } else { b };
    assert(na * g.dy == a * g.dy - (if xs { g.dy } else { 0 })) by (nonlinear_arith)
        requires na == if xs { a - 1 } else { a };
    assert(nb * g.dx == b * g.dx - (if ys { g.dx } else { 0 })) by (nonlinear_arith)
        requires nb == if ys { b - 1 } else { b };
}

/// From a state of the walk, the first pixel is the current one and the last
/// is the end point; every pixel lies between the current one and the end.
pub proof fn lemma_walk_shape(g: LineGeom, a: nat, b: nat, err: int)
    requires
        walk_inv(g, a as int, b as int, err),
    ensures
        walk(g, a, b, err).len() >= 1,
        walk(g, a, b, err)[0] == walk_pixel(g, a as int, b as int),
        walk(g, a, b, err).last() == walk_pixel(g, 0, 0),
        forall|i: int| 0 <= i < walk(g, a, b, err).len() ==> exists|p: nat, q: nat|
            p <= a && q <= b && #[trigger] walk(g, a, b, err)[i] == walk_pixel(g, p as int, q as int),
        (if a >= b { a } else { b }) + 1 <= walk(g, a, b, err).len() <= a + b + 1,
    decreases a + b,
{
    if a == 0 && b == 0 {
        let w = walk(g, a, b, err);
        assert forall|i: int| 0 <= i < w.len() implies exists|p: nat, q: nat|
            p <= a && q <= b && #[trigger] w[i] == walk_pixel(g, p as int, q as int) by {
            assert(w[i] == walk_pixel(g, 0nat as int, 0nat as int));
        }
    } else {
        lemma_walk_step(g, a as int, b as int, err);
        let xs = 2 * err > -g.dx;
        let ys = 2 * err < g.dy;
        let na: nat = if xs { (a - 1) as nat } else { a };
        let nb: nat = if ys { (b - 1) as nat } else { b };
        let ne = err - (if xs { g.dy } else { 0 }) + (if ys { g.dx } else { 0 });
        lemma_walk_shape(g, na, nb, ne);
        let w = walk(g, a, b, err);
        let rest = walk(g, na, nb, ne);
        assert(w == seq![walk_pixel(g, a as int, b as int)] + rest);
        assert forall|i: int| 0 <= i < w.len() implies exists|p: nat, q: nat|
            p <= a && q <= b && #[trigger] w[i] == walk_pixel(g, p as int, q as int) by {
            if i == 0 {
                assert(w[i] == walk_pixel(g, a as int, b as int));
            } else {
                assert(w[i] == rest[i - 1]);
                let (p, q) = choose|p: nat, q: nat|
                    p <= na && q <= nb && #[trigger] rest[i - 1] == walk_pixel(g, p as int, q as int);
                assert(w[i] == walk_pixel(g, p as int, q as int));
            }
        }
    }
}

/// The distance of a pixel of the walk from the end point, counted as
/// remaining columns plus remaining rows.
pub open spec fn remaining(g: LineGeom, p: (int, int)) -> int {
    abs_diff(p.0, g.x1) + abs_diff(p.1, g.y1)
}

/// Every pixel after the first lies strictly closer to the end point; hence no
/// pixel is visited twice.
pub proof fn lemma_walk_distinct(g: LineGeom, a: nat, b: nat, err: int)
    requires
        walk_inv(g, a as int, b as int, err),
    ensures
        forall|i: int| 0 < i < walk(g, a, b, err).len() ==>
            remaining(g, #[trigger] walk(g, a, b, err)[i]) < a + b,
        forall|i: int, j: int| 0 <= i < j < walk(g, a, b, err).len() ==>
            remaining(g, #[trigger] walk(g, a, b, err)[j]) < remaining(g, #[trigger] walk(g, a, b, err)[i]),
    decreases a + b,
{
    if a == 0 && b == 0 {
    } else {
        lemma_walk_step(g, a as int, b as int, err);
        let xs = 2 * err > -g.dx;
        let ys = 2 * err < g.dy;
        let na: nat = if xs { (a - 1) as nat } else { a };
        let nb: nat = if ys { (b - 1) as nat } else { b };
        let ne = err - (if xs { g.dy } else { 0 }) + (if ys { g.dx } else { 0 });
        lemma_walk_distinct(g, na, nb, ne);
        lemma_walk_shape(g, na, nb, ne);
        let w = walk(g, a, b, err);
        let rest = walk(g, na, nb, ne);
        assert(w == seq![walk_pixel(g, a as int, b as int)] + rest);
        assert(remaining(g, w[0]) == a + b);
        assert forall|i: int| 0 < i < w.len() implies remaining(g, #[trigger] w[i]) < a + b by {
            assert(w[i] == rest[i - 1]);
            if i - 1 > 0 {
                assert(remaining(g, rest[i - 1]) < na + nb);
            } else {
                assert(rest[0] == walk_pixel(g, na as int, nb as int));
            }
        }
        assert forall|i: int, j: int| 0 <= i < j < w.len() implies
            remaining(g, #[trigger] w[j]) < remaining(g, #[trigger] w[i]) by {
            if i > 0 {
                assert(w[i] == rest[i - 1]);
                assert(w[j] == rest[j - 1]);
            }
        }
    }
}

/// Consecutive pixels of a walk are 8-neighbours: they differ by at most one
/// in each coordinate, and they are not equal.
pub proof fn lemma_walk_adjacent(g: LineGeom, a: nat, b: nat, err: int)
    requires
        walk_inv(g, a as int, b as int, err),
    ensures
        forall|i: int| 0 <= i < walk(g, a, b, err).len() - 1 ==> {
            let p = #[trigger] walk(g, a, b, err)[i];
            let q = walk(g, a, b, err)[i + 1];
            &&& abs_diff(p.0, q.0) <= 1
            &&& abs_diff(p.1, q.1) <= 1
            &&& p != q
        },
    decreases a + b,
{
    if a == 0 && b == 0 {
    } else {
        lemma_walk_step(g, a as int, b as int, err);
        let xs = 2 * err > -g.dx;
        let ys = 2 * err < g.dy;
        let na: nat = if xs { (a - 1) as nat } else { a };
        let nb: nat = if ys { (b - 1) as nat } else { b };
        let ne = err - (if xs { g.dy } else { 0 }) + (if ys { g.dx } else { 0 });
        lemma_walk_adjacent(g, na, nb, ne);
        lemma_walk_shape(g, na, nb, ne);
        let w = walk(g, a, b, err);
        let rest = walk(g, na, nb, ne);
        assert(w == seq![walk_pixel(g, a as int, b as int)] + rest);
        assert forall|i: int| 0 <= i < w.len() - 1 implies {
            let p = #[trigger] w[i];
            let q = w[i + 1];
            &&& abs_diff(p.0, q.0) <= 1
            &&& abs_diff(p.1, q.1) <= 1
            &&& p != q
        } by {
            if i > 0 {
                assert(w[i] == rest[i - 1]);
                assert(w[i + 1] == rest[i]);
            } else {
                assert(w[1] == rest[0]);
            }
        }
    }
}

/// The walk a line starts with satisfies `walk_inv`.
pub proof fn lemma_line_start(x0: int, y0: int, x1: int, y1: int)
    ensures
        ({
            let g = line_geom(x0, y0, x1, y1);
            &&& walk_inv(g, g.dx, g.dy, initial_error(g.dx, g.dy))
            &&& walk_pixel(g, g.dx, g.dy) == (x0, y0)
            &&& walk_pixel(g, 0, 0) == (x1, y1)
        }),
{
    let g = line_geom(x0, y0, x1, y1);
    assert(g.dx * g.dy - g.dy * g.dx == 0) by (nonlinear_arith);
}

/// The line from `(x0, y0)` to `(x1, y1)` starts at `(x0, y0)`, ends at
/// `(x1, y1)`, stays inside the rectangle the two end points span, has between
/// `max(dx, dy) + 1` and `dx + dy + 1` pixels, never visits a pixel twice, and
/// moves to an 8-neighbour at every step.
pub proof fn lemma_line_properties(x0: int, y0: int, x1: int, y1: int)
    ensures
        ({
            let pts = line_points(x0, y0, x1, y1);
            let dx = abs_diff(x0, x1);
            let dy = abs_diff(y0, y1);
            &&& pts[0] == (x0, y0)
            &&& pts.last() == (x1, y1)
            &&& (if dx >= dy { dx } else { dy }) + 1 <= pts.len() <= dx + dy + 1
            &&& forall|i: int| 0 <= i < pts.len() ==> {
                let p = #[trigger] pts[i];
                &&& (x0 <= p.0 <= x1 || x1 <= p.0 <= x0)
                &&& (y0 <= p.1 <= y1 || y1 <= p.1 <= y0)
            }
            &&& forall|i: int, j: int| 0 <= i < j < pts.len() ==> #[trigger] pts[i] != #[trigger] pts[j]
            &&& forall|i: int| 0 <= i < pts.len() - 1 ==> {
                let p = #[trigger] pts[i];
                let q = pts[i + 1];
                &&& abs_diff(p.0, q.0) <= 1
                &&& abs_diff(p.1, q.1) <= 1
                &&& p != q
            }
        }),
{
    let g = line_geom(x0, y0, x1, y1);
    let e0 = initial_error(g.dx, g.dy);
    lemma_line_start(x0, y0, x1, y1);
    lemma_walk_shape(g, g.dx as nat, g.dy as nat, e0);
    lemma_walk_distinct(g, g.dx as nat, g.dy as nat, e0);
    lemma_walk_adjacent(g, g.dx as nat, g.dy as nat, e0);
    let pts = line_points(x0, y0, x1, y1);
    assert forall|i: int| 0 <= i < pts.len() implies {
        let p = #[trigger] pts[i];
        &&& (x0 <= p.0 <= x1 || x1 <= p.0 <= x0)
        &&& (y0 <= p.1 <= y1 || y1 <= p.1 <= y0)
    } by {
        let (p, q) = choose|p: nat, q: nat|
            p <= g.dx && q <= g.dy && #[trigger] pts[i] == walk_pixel(g, p as int, q as int);
    }
    assert forall|i: int, j: int| 0 <= i < j < pts.len() implies #[trigger] pts[i] != #[trigger] pts[j] by {
        assert(remaining(g, pts[j]) < remaining(g, pts[i]));
    }
}

/// The walk of `pts` is at its `n`-th pixel `(x, y)`, with `a` columns and `b`
/// rows left and error term `err`.
pub open spec fn at_step(g: LineGeom, pts: Seq<(int, int)>, n: int, a: int, b: int, err: int, x: int, y: int) -> bool {
    &&& walk_inv(g, a, b, err)
    &&& 0 <= n < pts.len()
    &&& pts.skip(n) == walk(g, a as nat, b as nat, err)
    &&& (x, y) == walk_pixel(g, a, b)
}

/// At a step, the current pixel is `pts[n]`; the walk is over exactly when it
/// is the end point, and otherwise one step of the error-term update leads to
/// step `n + 1`.
pub proof fn lemma_walk_advance(g: LineGeom, pts: Seq<(int, int)>, n: int, a: int, b: int, err: int, x: int, y: int)
    requires
        at_step(g, pts, n, a, b, err, x, y),
    ensures
        pts[n] == (x, y),
        (x == g.x1 && y == g.y1) <==> (a == 0 && b == 0),
        (x == g.x1 && y == g.y1) ==> n + 1 == pts.len(),
        !(x == g.x1 && y == g.y1) ==> {
            let xs = 2 * err > -g.dx;
            let ys = 2 * err < g.dy;
            let na = if xs { a - 1 } else { a };
            let nb = if ys { b - 1 } else { b };
            let ne = err - (if xs { g.dy } else { 0 }) + (if ys { g.dx } else { 0 });
            let nx = if xs { if g.right { x + 1 } else { x - 1 } } else { x };
            let ny = if ys { if g.down { y + 1 } else { y - 1 } } else { y };
            at_step(g, pts, n + 1, na, nb, ne, nx, ny)
        },
{
    let w = walk(g, a as nat, b as nat, err);
    lemma_walk_shape(g, a as nat, b as nat, err);
    assert(pts[n] == pts.skip(n)[0]);
    if a == 0 && b == 0 {
        assert(w.len() == 1);
        assert(pts.skip(n).len() == pts.len() - n);
    } else {
        lemma_walk_step(g, a, b, err);
        let xs = 2 * err > -g.dx;
        let ys = 2 * err < g.dy;
        let na: nat = if xs { (a - 1) as nat } else { a as nat };
        let nb: nat = if ys { (b - 1) as nat } else { b as nat };
        let ne = err - (if xs { g.dy } else { 0 }) + (if ys { g.dx } else { 0 });
        let rest = walk(g, na, nb, ne);
        assert(w == seq![walk_pixel(g, a, b)] + rest);
        lemma_walk_shape(g, na, nb, ne);
        assert(pts.skip(n + 1) =~= rest) by {
            assert forall|i: int| 0 <= i < rest.len() implies pts.skip(n + 1)[i] == rest[i] by {
                assert(pts.skip(n + 1)[i] == pts.skip(n)[i + 1]);
            }
        }
    }
}

/// The walk of a line starts at step 0 with the full distances.
pub proof fn lemma_walk_begin(x0: int, y0: int, x1: int, y1: int)
    ensures
        ({
            let g = line_geom(x0, y0, x1, y1);
            at_step(g, line_points(x0, y0, x1, y1), 0, g.dx, g.dy, initial_error(g.dx, g.dy), x0, y0)
        }),
{
    let g = line_geom(x0, y0, x1, y1);
    lemma_line_start(x0, y0, x1, y1);
    lemma_walk_shape(g, g.dx as nat, g.dy as nat, initial_error(g.dx, g.dy));
    let pts = line_points(x0, y0, x1, y1);
    assert(pts.skip(0) =~= pts);
}

/// The error term's range along a walk: for a shallow line (`dx > dy`)
/// `-dx <= 2 * err < 2 * e0 + dx`, for a steep one `2 * e0 - dy < 2 * err <= dy`,
/// where `e0` is the starting error term.
pub open spec fn walk_band(g: LineGeom, err: int) -> bool {
    let e0 = initial_error(g.dx, g.dy);
    if g.dx > g.dy {
        -g.dx <= 2 * err && 2 * err < 2 * e0 + g.dx
    } else {
        2 * err <= g.dy && 2 * err > 2 * e0 - g.dy
    }
}

/// How far a pixel strays from the segment, measured from the end point: with
/// `a` columns and `b` rows left, the cross product `a * dy - b * dx` along the
/// major axis lies in `[-dx, dx / 2)` (shallow) or its mirror (steep).
pub open spec fn pixel_band(g: LineGeom, p: (int, int)) -> bool {
    let a = abs_diff(p.0, g.x1);
    let b = abs_diff(p.1, g.y1);
    if g.dx > g.dy {
        -2 * g.dx <= 2 * (a * g.dy - b * g.dx) < g.dx
    } else {
        -2 * g.dy <= 2 * (b * g.dx - a * g.dy) < g.dy
    }
}

/// A step of the walk keeps the error term in its band, and every pixel of a
/// walk that starts in the band keeps close to the segment.
proof fn lemma_walk_band(g: LineGeom, a: nat, b: nat, err: int)
    requires
        walk_inv(g, a as int, b as int, err),
        walk_band(g, err),
    ensures
        forall|i: int| 0 <= i < walk(g, a, b, err).len() ==> pixel_band(g, #[trigger] walk(g, a, b, err)[i]),
    decreases a + b,
{
    let w = walk(g, a, b, err);
    assert(pixel_band(g, walk_pixel(g, a as int, b as int)));
    if a == 0 && b == 0 {
        assert(w =~= seq![walk_pixel(g, 0, 0)]);
    } else {
        lemma_walk_step(g, a as int, b as int, err);
        let xs = 2 * err > -g.dx;
        let ys = 2 * err < g.dy;
        let na: nat = if xs { (a - 1) as nat } else { a };
        let nb: nat = if ys { (b - 1) as nat } else { b };
        let ne = err - (if xs { g.dy } else { 0 }) + (if ys { g.dx } else { 0 });
        assert(walk_band(g, ne));
        lemma_walk_band(g, na, nb, ne);
        let rest = walk(g, na, nb, ne);
        assert(w == seq![walk_pixel(g, a as int, b as int)] + rest);
        assert forall|i: int| 0 <= i < w.len() implies pixel_band(g, #[trigger] w[i]) by {
            if i > 0 {
                assert(w[i] == rest[i - 1]);
            }
        }
    }
}

/// The line keeps close to the segment from `(x0, y0)` to `(x1, y1)`. Measured
/// from the start, a pixel `u` columns and `v` rows away satisfies, for a steep
/// line (`dy >= dx`, `dy > 0`), `-2 * dy <= 2 * (u * dy - v * dx) < dy`, and for
/// a shallow one (`dx > dy`), `-2 * dx <= 2 * (v * dx - u * dy) < dx`: the
/// minor coordinate never runs ahead of the segment by half a pixel or more,
/// nor lags it by a pixel or more.
pub proof fn lemma_line_follows_segment(x0: int, y0: int, x1: int, y1: int)
    ensures
        forall|i: int| 0 <= i < line_points(x0, y0, x1, y1).len() ==> {
            let p = #[trigger] line_points(x0, y0, x1, y1)[i];
            let dx = if x0 > x1 { x0 - x1 } else { x1 - x0 };
            let dy = if y0 > y1 { y0 - y1 } else { y1 - y0 };
            let u = if p.0 > x0 { p.0 - x0 } else { x0 - p.0 };
            let v = if p.1 > y0 { p.1 - y0 } else { y0 - p.1 };
            &&& (dx <= dy && dy > 0) ==> -2 * dy <= 2 * (u * dy - v * dx) < dy
            &&& dx > dy ==> -2 * dx <= 2 * (v * dx - u * dy) < dx
        },
{
    let g = line_geom(x0, y0, x1, y1);
    let pts = line_points(x0, y0, x1, y1);
    lemma_line_properties(x0, y0, x1, y1);
    if g.dx > 0 || g.dy > 0 {
        lemma_line_start(x0, y0, x1, y1);
        lemma_walk_band(g, g.dx as nat, g.dy as nat, initial_error(g.dx, g.dy));
    }
    assert forall|i: int| 0 <= i < pts.len() implies {
        let p = #[trigger] pts[i];
        let dx = if x0 > x1 { x0 - x1 } else { x1 - x0 };
        let dy = if y0 > y1 { y0 - y1 } else { y1 - y0 };
        let u = if p.0 > x0 { p.0 - x0 } else { x0 - p.0 };
        let v = if p.1 > y0 { p.1 - y0 } else { y0 - p.1 };
        &&& (dx <= dy && dy > 0) ==> -2 * dy <= 2 * (u * dy - v * dx) < dy
        &&& dx > dy ==> -2 * dx <= 2 * (v * dx - u * dy) < dx
    } by {
        let p = pts[i];
        let dx = g.dx;
        let dy = g.dy;
        let u = if p.0 > x0 { p.0 - x0 } else { x0 - p.0 };
        let v = if p.1 > y0 { p.1 - y0 } else { y0 - p.1 };
        let a = abs_diff(p.0, x1);
        let b = abs_diff(p.1, y1);
        assert(u == dx - a && v == dy - b);
        assert(u * dy - v * dx == b * dx - a * dy) by (nonlinear_arith)
            requires u == dx - a, v == dy - b;
        if dx > 0 || dy > 0 {
            assert(pixel_band(g, p));
        }
    }
}

/// Whether `p = (x, y)` indexes an element of the grid `s` (rows indexed by `y`).
pub open spec fn in_grid(s: Seq<Seq<i16>>, p: (int, int)) -> bool {
    0 <= p.1 < s.len() && 0 <= p.0 < s[p.1].len()
}

/// The rows of a grid as sequences.
pub open spec fn grid_view(arr: &Vec<Vec<i16>>) -> Seq<Seq<i16>> {
    arr@.map_values(|r: Vec<i16>| r@)
}

/// Sum of the grid values at the given pixels.
pub open spec fn line_sum(s: Seq<Seq<i16>>, pts: Seq<(int, int)>) -> int
    decreases pts.len(),
{
    if pts.len() == 0 {
        0
    } else {
        line_sum(s, pts.drop_last()) + s[pts.last().1][pts.last().0] as int
    }
}

/// Sum of the absolute grid values at the given pixels.
pub open spec fn line_abs_sum(s: Seq<Seq<i16>>, pts: Seq<(int, int)>) -> int
    decreases pts.len(),
{
    if pts.len() == 0 {
        0
    } else {
        let v = s[pts.last().1][pts.last().0] as int;
        line_abs_sum(s, pts.drop_last()) + (if v < 0 { -v } else { v })
    }
}

/// Integer division rounded toward zero, as Rust's `/` does.
pub open spec fn trunc_div(a: int, b: int) -> int {
    if a >= 0 { a / b } else { -((-a) / b) }
}

/// Every pixel of the line lies in the grid, and the coordinates are small
/// enough for the walk's arithmetic.
pub open spec fn line_in_grid(s: Seq<Seq<i16>>, x0: i64, y0: i64, x1: i64, y1: i64) -> bool {
    &&& 0 <= x0 < COORD_LIMIT && 0 <= y0 < COORD_LIMIT
    &&& 0 <= x1 < COORD_LIMIT && 0 <= y1 < COORD_LIMIT
    &&& forall|i: int| 0 <= i < line_points(x0 as int, y0 as int, x1 as int, y1 as int).len()
        ==> in_grid(s, #[trigger] line_points(x0 as int, y0 as int, x1 as int, y1 as int)[i])
}

/// The pixels a vector holds are, in order, the given points.
pub open spec fn pixels_match(v: Seq<(i64, i64)>, pts: Seq<(int, int)>) -> bool {
    &&& v.len() == pts.len()
    &&& forall|i: int| 0 <= i < v.len() ==> (#[trigger] v[i].0 as int, v[i].1 as int) == pts[i]
}

/// A grid position reached through `grid_view` is an element of the vectors.
proof fn lemma_grid_cell(arr: &Vec<Vec<i16>>, p: (int, int))
    requires
        in_grid(grid_view(arr), p),
    ensures
        0 <= p.1 < arr.len(),
        0 <= p.0 < arr@[p.1].len(),
        grid_view(arr)[p.1][p.0] == arr@[p.1]@[p.0],
{
}

/// The pixels of the line from `(x0, y0)` to `(x1, y1)`, in the order the
/// walk visits them: it starts with the error term `dx / 2` (or `-dy / 2`),
/// and at each step moves `x` when `2 * err > -dx` and `y` when `2 * err < dy`.
pub fn line_pixels(x0: i64, y0: i64, x1: i64, y1: i64) -> (pixels: Vec<(i64, i64)>)
    requires
        0 <= x0 < COORD_LIMIT && 0 <= y0 < COORD_LIMIT,
        0 <= x1 < COORD_LIMIT && 0 <= y1 < COORD_LIMIT,
    ensures
        pixels_match(pixels@, line_points(x0 as int, y0 as int, x1 as int, y1 as int)),
{
    let ghost pts = line_points(x0 as int, y0 as int, x1 as int, y1 as int);
    let ghost g = line_geom(x0 as int, y0 as int, x1 as int, y1 as int);
    let mut pixels: Vec<(i64, i64)> = Vec::new();

    let mut x0 = x0;
    let mut y0 = y0;

    let dx: i64 = if x0 > x1 { x0 - x1 } else { x1 - x0 };
    let dy: i64 = if y0 > y1 { y0 - y1 } else { y1 - y0 };

    let sx: i64 = if x0 < x1 { 1 } else { -1 };
    let sy: i64 = if y0 < y1 { 1 } else { -1 };

    let mut err: i64 = (if dx > dy { dx } else { -dy }) / 2;
    let mut err2: i64;

    let ghost mut a: int = dx as int;
    let ghost mut b: int = dy as int;
    proof {
        lemma_walk_begin(x0 as int, y0 as int, x1 as int, y1 as int);
    }

    loop
        invariant_except_break
            at_step(g, pts, pixels@.len() as int, a, b, err as int, x0 as int, y0 as int),
        invariant
            g.x1 == x1 && g.y1 == y1 && g.dx == dx && g.dy == dy,
            g.right == (sx == 1) && g.down == (sy == 1),
            sx == 1 || sx == -1,
            sy == 1 || sy == -1,
            0 <= dx < COORD_LIMIT && 0 <= dy < COORD_LIMIT,
            0 <= x1 < COORD_LIMIT && 0 <= y1 < COORD_LIMIT,
            pixels@.len() <= pts.len(),
            forall|i: int| 0 <= i < pixels@.len() ==> (#[trigger] pixels@[i].0 as int, pixels@[i].1 as int) == pts[i],
        ensures
            pixels_match(pixels@, pts),
        decreases a + b,
    {
        proof {
            lemma_walk_advance(g, pts, pixels@.len() as int, a, b, err as int, x0 as int, y0 as int);
        }
        pixels.push((x0, y0));

        if x0 == x1 && y0 == y1 {
            break;
        }

        err2 = 2 * err;

        let ghost xs = err2 > -dx;
        let ghost ys = err2 < dy;
        if err2 > -dx {
            err -= dy;
            x0 += sx;
        }
        if err2 < dy {
            err += dx;
            y0 += sy;
        }
        proof {
            a = if xs { a - 1 } else { a };
            b = if ys { b - 1 } else { b };
        }
    }
    pixels
}

/// The average brightness of the grid values along the line from `(x0, y0)` to
/// `(x1, y1)`: their sum divided by the number of pixels, rounded toward zero.
pub fn calulate_brightness_line(x0: i64, y0: i64, x1: i64, y1: i64, arr: &Vec<Vec<i16>>) -> (avg: i32)
    requires
        line_in_grid(grid_view(arr), x0, y0, x1, y1),
        line_points(x0 as int, y0 as int, x1 as int, y1 as int).len() <= i32::MAX,
        forall|k: int| 0 <= k <= line_points(x0 as int, y0 as int, x1 as int, y1 as int).len() ==>
            i32::MIN <= #[trigger] line_sum(grid_view(arr), line_points(x0 as int, y0 as int, x1 as int, y1 as int).take(k)) <= i32::MAX,
    ensures
        avg == trunc_div(
            line_sum(grid_view(arr), line_points(x0 as int, y0 as int, x1 as int, y1 as int)),
            line_points(x0 as int, y0 as int, x1 as int, y1 as int).len() as int,
        ),
{
    let ghost pts = line_points(x0 as int, y0 as int, x1 as int, y1 as int);
    let ghost s = grid_view(arr);
    let pixels = line_pixels(x0, y0, x1, y1);
    proof {
        lemma_line_properties(x0 as int, y0 as int, x1 as int, y1 as int);
        assert(pts.take(0) =~= Seq::<(int, int)>::empty());
    }
    let mut sum_brightness: i32 = 0;
    let mut num_pixels: i32 = 0;
    let mut i: usize = 0;
    while i < pixels.len()
        invariant
            pixels_match(pixels@, pts),
            pts.len() >= 1,
            s == grid_view(arr),
            forall|k: int| 0 <= k < pts.len() ==> in_grid(s, #[trigger] pts[k]),
            pts.len() <= i32::MAX,
            forall|k: int| 0 <= k <= pts.len() ==> i32::MIN <= #[trigger] line_sum(s, pts.take(k)) <= i32::MAX,
            0 <= i <= pts.len(),
            num_pixels == i,
            sum_brightness == line_sum(s, pts.take(i as int)),
        decreases pixels.len() - i,
    {
        let (x, y) = pixels[i];
        proof {
            lemma_grid_cell(arr, pts[i as int]);
            assert(pts.take(i + 1).drop_last() =~= pts.take(i as int));
            assert(pts.take(i + 1).last() == pts[i as int]);
            assert(i32::MIN <= line_sum(s, pts.take(i + 1)) <= i32::MAX);
        }
        let pixel_value = arr[y as usize][x as usize];
        sum_brightness += pixel_value as i32;
        num_pixels += 1;
        i += 1;
    }
    assert(pts.take(pts.len() as int) =~= pts);
    sum_brightness / num_pixels
}

/// `i32::abs`: its documentation gives the absolute value, and a panic in
/// debug builds for `i32::MIN`, which has none.
pub assume_specification[ i32::abs ](x: i32) -> (r: i32)
    requires
        x != i32::MIN,
    ensures
        r == (if x < 0 { -(x as int) } else { x as int }),
;

/// A prefix of the pixels never has a larger absolute sum than all of them.
pub proof fn lemma_abs_sum_prefix(s: Seq<Seq<i16>>, pts: Seq<(int, int)>, k: int)
    requires
        0 <= k <= pts.len(),
    ensures
        0 <= line_abs_sum(s, pts.take(k)) <= line_abs_sum(s, pts),
    decreases pts.len() - k,
{
    if k == pts.len() {
        assert(pts.take(k) =~= pts);
        lemma_abs_sum_nonneg(s, pts);
    } else {
        lemma_abs_sum_prefix(s, pts, k + 1);
        assert(pts.take(k + 1).drop_last() =~= pts.take(k));
        lemma_abs_sum_nonneg(s, pts.take(k));
    }
}

proof fn lemma_abs_sum_nonneg(s: Seq<Seq<i16>>, pts: Seq<(int, int)>)
    ensures
        line_abs_sum(s, pts) >= 0,
    decreases pts.len(),
{
    if pts.len() > 0 {
        lemma_abs_sum_nonneg(s, pts.drop_last());
    }
}

/// The penalty of a thread along the line: the mean absolute grid value over
/// its pixels after each pixel is credited with `REMOVE`, that is
/// `(sum |v| - REMOVE * n) / n` rounded toward zero.
pub fn penalty(x0: i64, y0: i64, x1: i64, y1: i64, arr: &Vec<Vec<i16>>) -> (score: i32)
    requires
        line_in_grid(grid_view(arr), x0, y0, x1, y1),
        REMOVE * line_points(x0 as int, y0 as int, x1 as int, y1 as int).len() <= i32::MAX,
        line_abs_sum(grid_view(arr), line_points(x0 as int, y0 as int, x1 as int, y1 as int)) <= i32::MAX,
    ensures
        score == trunc_div(
            line_abs_sum(grid_view(arr), line_points(x0 as int, y0 as int, x1 as int, y1 as int))
                - REMOVE * line_points(x0 as int, y0 as int, x1 as int, y1 as int).len(),
            line_points(x0 as int, y0 as int, x1 as int, y1 as int).len() as int,
        ),
{
    let ghost pts = line_points(x0 as int, y0 as int, x1 as int, y1 as int);
    let ghost s = grid_view(arr);
    let pixels = line_pixels(x0, y0, x1, y1);
    proof {
        lemma_line_properties(x0 as int, y0 as int, x1 as int, y1 as int);
        assert(pts.take(0) =~= Seq::<(int, int)>::empty());
    }
    let mut sum_brightness: i32 = 0;
    let mut num_pixels: i32 = 0;
    let mut i: usize = 0;
    while i < pixels.len()
        invariant
            pixels_match(pixels@, pts),
            pts.len() >= 1,
            s == grid_view(arr),
            forall|k: int| 0 <= k < pts.len() ==> in_grid(s, #[trigger] pts[k]),
            REMOVE * pts.len() <= i32::MAX,
            line_abs_sum(s, pts) <= i32::MAX,
            0 <= i <= pts.len(),
            num_pixels == i,
            sum_brightness == line_abs_sum(s, pts.take(i as int)),
        decreases pixels.len() - i,
    {
        let (x, y) = pixels[i];
        proof {
            lemma_grid_cell(arr, pts[i as int]);
            assert(pts.take(i + 1).drop_last() =~= pts.take(i as int));
            assert(pts.take(i + 1).last() == pts[i as int]);
            lemma_abs_sum_prefix(s, pts, i + 1);
        }
        let pixel_value = arr[y as usize][x as usize];
        sum_brightness += (pixel_value as i32).abs();
        num_pixels += 1;
        i += 1;
    }
    proof {
        assert(pts.take(pts.len() as int) =~= pts);
        lemma_abs_sum_nonneg(s, pts);
    }
    (sum_brightness - (REMOVE as i32 * num_pixels)) / num_pixels
}

/// The pixel map after `color` has been written at each of the given pixels in turn.
pub open spec fn paint(m: Map<(u32, u32), [u8; 4]>, pts: Seq<(int, int)>, color: [u8; 4]) -> Map<(u32, u32), [u8; 4]>
    decreases pts.len(),
{
    if pts.len() == 0 {
        m
    } else {
        paint(m, pts.drop_last(), color).insert((pts.last().0 as u32, pts.last().1 as u32), color)
    }
}

/// Every pixel of the line lies in an image of the given size.
pub open spec fn line_in_image(size: (u32, u32), x0: i64, y0: i64, x1: i64, y1: i64) -> bool {
    forall|i: int| 0 <= i < line_points(x0 as int, y0 as int, x1 as int, y1 as int).len() ==> {
        let p = #[trigger] line_points(x0 as int, y0 as int, x1 as int, y1 as int)[i];
        in_image(size, p.0, p.1)
    }
}

/// The line's end points lie in the image, hence the whole line does.
pub proof fn lemma_line_in_image(size: (u32, u32), x0: i64, y0: i64, x1: i64, y1: i64)
    requires
        in_image(size, x0 as int, y0 as int),
        in_image(size, x1 as int, y1 as int),
    ensures
        line_in_image(size, x0, y0, x1, y1),
{
    lemma_line_properties(x0 as int, y0 as int, x1 as int, y1 as int);
}

/// Draws the line from `(x0, y0)` to `(x1, y1)` in `pixel` with `put_pixel`.
pub fn draw_generic_line(img: &mut RgbaCanvas, x0: i64, y0: i64, x1: i64, y1: i64, pixel: [u8; 4])
    requires
        line_in_image(canvas_size(*old(img)), x0, y0, x1, y1),
    ensures
        canvas_size(*final(img)) == canvas_size(*old(img)),
        canvas_pixels(*final(img)) == paint(
            canvas_pixels(*old(img)),
            line_points(x0 as int, y0 as int, x1 as int, y1 as int),
            pixel,
        ),
{
    let ghost pts = line_points(x0 as int, y0 as int, x1 as int, y1 as int);
    let ghost m0 = canvas_pixels(*img);
    let ghost size = canvas_size(*img);
    proof {
        lemma_line_properties(x0 as int, y0 as int, x1 as int, y1 as int);
        assert(in_image(size, pts[0].0, pts[0].1));
        assert(in_image(size, pts.last().0, pts.last().1));
        assert(pts.take(0) =~= Seq::<(int, int)>::empty());
    }
    let pixels = line_pixels(x0, y0, x1, y1);
    let mut i: usize = 0;
    while i < pixels.len()
        invariant
            pixels_match(pixels@, pts),
            forall|k: int| 0 <= k < pts.len() ==> in_image(size, (#[trigger] pts[k]).0, pts[k].1),
            canvas_size(*img) == size,
            0 <= i <= pts.len(),
            canvas_pixels(*img) == paint(m0, pts.take(i as int), pixel),
        decreases pixels.len() - i,
    {
        let (x, y) = pixels[i];
        proof {
            assert(pts.take(i + 1).drop_last() =~= pts.take(i as int));
            assert(pts.take(i + 1).last() == pts[i as int]);
            assert(in_image(size, pts[i as int].0, pts[i as int].1));
        }
        img.put_pixel(x as u32, y as u32, pixel);
        i += 1;
    }
    assert(pts.take(pts.len() as int) =~= pts);
}

/// Draws the line from `(x0, y0)` to `(x1, y1)` in `color`, writing each
/// pixel's channels in place.
pub fn draw_line(img: &mut RgbaCanvas, x0: i64, y0: i64, x1: i64, y1: i64, color: [u8; 4])
    requires
        line_in_image(canvas_size(*old(img)), x0, y0, x1, y1),
    ensures
        canvas_size(*final(img)) == canvas_size(*old(img)),
        canvas_pixels(*final(img)) == paint(
            canvas_pixels(*old(img)),
            line_points(x0 as int, y0 as int, x1 as int, y1 as int),
            color,
        ),
{
    let ghost pts = line_points(x0 as int, y0 as int, x1 as int, y1 as int);
    let ghost m0 = canvas_pixels(*img);
    let ghost size = canvas_size(*img);
    proof {
        lemma_line_properties(x0 as int, y0 as int, x1 as int, y1 as int);
        assert(in_image(size, pts[0].0, pts[0].1));
        assert(in_image(size, pts.last().0, pts.last().1));
        assert(pts.take(0) =~= Seq::<(int, int)>::empty());
    }
    let pixels = line_pixels(x0, y0, x1, y1);
    let mut i: usize = 0;
    while i < pixels.len()
        invariant
            pixels_match(pixels@, pts),
            forall|k: int| 0 <= k < pts.len() ==> in_image(size, (#[trigger] pts[k]).0, pts[k].1),
            canvas_size(*img) == size,
            0 <= i <= pts.len(),
            canvas_pixels(*img) == paint(m0, pts.take(i as int), color),
        decreases pixels.len() - i,
    {
        let (x, y) = pixels[i];
        proof {
            assert(pts.take(i + 1).drop_last() =~= pts.take(i as int));
            assert(pts.take(i + 1).last() == pts[i as int]);
            assert(in_image(size, pts[i as int].0, pts[i as int].1));
        }
        img.set_channels(x as u32, y as u32, color);
        i += 1;
    }
    assert(pts.take(pts.len() as int) =~= pts);
}

/// The grid after `REMOVE` has been added at each of the given pixels in turn.
pub open spec fn bump(s: Seq<Seq<i16>>, pts: Seq<(int, int)>) -> Seq<Seq<i16>>
    decreases pts.len(),
{
    if pts.len() == 0 {
        s
    } else {
        let t = bump(s, pts.drop_last());
        let p = pts.last();
        t.update(p.1, t[p.1].update(p.0, (t[p.1][p.0] + REMOVE) as i16))
    }
}

/// Adding at some pixels keeps the grid's shape and leaves every other pixel as it was.
pub proof fn lemma_bump_frame(s: Seq<Seq<i16>>, pts: Seq<(int, int)>)
    requires
        forall|i: int| 0 <= i < pts.len() ==> in_grid(s, #[trigger] pts[i]),
    ensures
        bump(s, pts).len() == s.len(),
        forall|r: int| 0 <= r < s.len() ==> (#[trigger] bump(s, pts)[r]).len() == s[r].len(),
        forall|p: (int, int)| in_grid(s, p) && !pts.contains(p) ==> #[trigger] bump(s, pts)[p.1][p.0] == s[p.1][p.0],
    decreases pts.len(),
{
    if pts.len() > 0 {
        let q = pts.drop_last();
        assert forall|i: int| 0 <= i < q.len() implies in_grid(s, #[trigger] q[i]) by {
            assert(q[i] == pts[i]);
        }
        lemma_bump_frame(s, q);
        assert(in_grid(s, pts[pts.len() - 1]));
        assert forall|p: (int, int)| in_grid(s, p) && !pts.contains(p) implies #[trigger] bump(s, pts)[p.1][p.0] == s[p.1][p.0] by {
            assert(p != pts.last());
            if q.contains(p) {
                let i = choose|i: int| 0 <= i < q.len() && q[i] == p;
                assert(pts[i] == p);
            }
        }
    }
}

/// Draws a thread from `(x0, y0)` to `(x1, y1)`: each pixel of the line gets
/// the channels `[0, 0, 0, DRAW_OPACITY]`, and its grid value grows by `REMOVE`.
pub fn draw_line_2(img: &mut RgbaCanvas, x0: i64, y0: i64, x1: i64, y1: i64, arr: &mut Vec<Vec<i16>>)
    requires
        line_in_image(canvas_size(*old(img)), x0, y0, x1, y1),
        line_in_grid(grid_view(old(arr)), x0, y0, x1, y1),
        forall|i: int| 0 <= i < line_points(x0 as int, y0 as int, x1 as int, y1 as int).len() ==> {
            let p = #[trigger] line_points(x0 as int, y0 as int, x1 as int, y1 as int)[i];
            grid_view(old(arr))[p.1][p.0] + REMOVE <= i16::MAX
        },
    ensures
        canvas_size(*final(img)) == canvas_size(*old(img)),
        canvas_pixels(*final(img)) == paint(
            canvas_pixels(*old(img)),
            line_points(x0 as int, y0 as int, x1 as int, y1 as int),
            [0, 0, 0, DRAW_OPACITY],
        ),
        grid_view(final(arr)) == bump(grid_view(old(arr)), line_points(x0 as int, y0 as int, x1 as int, y1 as int)),
{
    let ghost pts = line_points(x0 as int, y0 as int, x1 as int, y1 as int);
    let ghost m0 = canvas_pixels(*img);
    let ghost size = canvas_size(*img);
    let ghost s0 = grid_view(arr);
    proof {
        lemma_line_properties(x0 as int, y0 as int, x1 as int, y1 as int);
        assert(pts.take(0) =~= Seq::<(int, int)>::empty());
    }
    let pixels = line_pixels(x0, y0, x1, y1);
    let mut i: usize = 0;
    while i < pixels.len()
        invariant
            pixels_match(pixels@, pts),
            forall|k: int| 0 <= k < pts.len() ==> in_image(size, (#[trigger] pts[k]).0, pts[k].1),
            forall|k: int| 0 <= k < pts.len() ==> in_grid(s0, #[trigger] pts[k]),
            forall|k: int| 0 <= k < pts.len() ==> s0[(#[trigger] pts[k]).1][pts[k].0] + REMOVE <= i16::MAX,
            forall|k: int, j: int| 0 <= k < j < pts.len() ==> #[trigger] pts[k] != #[trigger] pts[j],
            canvas_size(*img) == size,
            0 <= i <= pts.len(),
            canvas_pixels(*img) == paint(m0, pts.take(i as int), [0u8, 0u8, 0u8, DRAW_OPACITY]),
            grid_view(arr) == bump(s0, pts.take(i as int)),
        decreases pixels.len() - i,
    {
        let (x, y) = pixels[i];
        let ghost cur = grid_view(arr);
        let ghost n = i as int;
        proof {
            let done = pts.take(n);
            assert(pts.take(n + 1).drop_last() =~= done);
            assert(pts.take(n + 1).last() == pts[n]);
            assert(in_image(size, pts[n].0, pts[n].1));
            assert forall|k: int| 0 <= k < done.len() implies in_grid(s0, #[trigger] done[k]) by {
                assert(done[k] == pts[k]);
            }
            lemma_bump_frame(s0, done);
            if done.contains(pts[n]) {
                let k = choose|k: int| 0 <= k < done.len() && done[k] == pts[n];
                assert(pts[k] == pts[n]);
            }
            assert(cur[y as int][x as int] == s0[y as int][x as int]);
            lemma_grid_cell(arr, pts[n]);
        }
        img.set_channels(x as u32, y as u32, [0, 0, 0, DRAW_OPACITY]);
        arr[y as usize][x as usize] += REMOVE;
        proof {
            let p = pts[n];
            assert(grid_view(arr) =~= cur.update(p.1, cur[p.1].update(p.0, (cur[p.1][p.0] + REMOVE) as i16)));
        }
        i += 1;
    }
    assert(pts.take(pts.len() as int) =~= pts);
}

/// The image position a pixel of a line is written to.
pub open spec fn as_key(p: (int, int)) -> (u32, u32) {
    (p.0 as u32, p.1 as u32)
}

/// Whether one of the pixels is written to image position `k`.
pub open spec fn covers(pts: Seq<(int, int)>, k: (u32, u32)) -> bool {
    exists|i: int| 0 <= i < pts.len() && as_key(#[trigger] pts[i]) == k
}

/// Painting writes `color` at exactly the given pixels and leaves every other
/// entry of the pixel map as it was.
pub proof fn lemma_paint_effect(m: Map<(u32, u32), [u8; 4]>, pts: Seq<(int, int)>, color: [u8; 4])
    ensures
        forall|k: (u32, u32)| #[trigger] paint(m, pts, color).contains_key(k)
            <==> (m.contains_key(k) || covers(pts, k)),
        forall|k: (u32, u32)| covers(pts, k) ==> #[trigger] paint(m, pts, color)[k] == color,
        forall|k: (u32, u32)| !covers(pts, k) ==> #[trigger] paint(m, pts, color)[k] == m[k],
    decreases pts.len(),
{
    if pts.len() > 0 {
        let q = pts.drop_last();
        lemma_paint_effect(m, q, color);
        assert forall|k: (u32, u32)| #[trigger] covers(pts, k) <==> (covers(q, k) || as_key(pts.last()) == k) by {
            if covers(pts, k) {
                let i = choose|i: int| 0 <= i < pts.len() && as_key(#[trigger] pts[i]) == k;
                if i < q.len() {
                    assert(q[i] == pts[i]);
                }
            }
            if covers(q, k) {
                let i = choose|i: int| 0 <= i < q.len() && as_key(#[trigger] q[i]) == k;
                assert(pts[i] == q[i]);
            }
            if as_key(pts.last()) == k {
                assert(as_key(pts[pts.len() - 1]) == k);
            }
        }
        let last = as_key(pts.last());
        assert(paint(m, pts, color) == paint(m, q, color).insert(last, color));
        assert forall|k: (u32, u32)| #[trigger] paint(m, pts, color).contains_key(k)
            <==> (m.contains_key(k) || covers(pts, k)) by {
            assert(covers(pts, k) <==> (covers(q, k) || last == k));
            assert(paint(m, q, color).contains_key(k) <==> (m.contains_key(k) || covers(q, k)));
        }
        assert forall|k: (u32, u32)| covers(pts, k) implies #[trigger] paint(m, pts, color)[k] == color by {
            assert(covers(q, k) || last == k);
            if last != k {
                assert(paint(m, q, color)[k] == color);
            }
        }
        assert forall|k: (u32, u32)| !covers(pts, k) implies #[trigger] paint(m, pts, color)[k] == m[k] by {
            assert(!covers(q, k) && last != k);
            assert(paint(m, q, color)[k] == m[k]);
        }
    } else {
        assert forall|k: (u32, u32)| !covers(pts, k) by {}
    }
}

/// Over distinct pixels of the grid, raising adds `REMOVE` to exactly those
/// pixels and leaves the rest of the grid as it was.
pub proof fn lemma_bump_effect(s: Seq<Seq<i16>>, pts: Seq<(int, int)>)
    requires
        forall|i: int| 0 <= i < pts.len() ==> in_grid(s, #[trigger] pts[i]),
        forall|i: int, j: int| 0 <= i < j < pts.len() ==> #[trigger] pts[i] != #[trigger] pts[j],
        forall|i: int| 0 <= i < pts.len() ==> s[(#[trigger] pts[i]).1][pts[i].0] + REMOVE <= i16::MAX,
    ensures
        bump(s, pts).len() == s.len(),
        forall|r: int| 0 <= r < s.len() ==> (#[trigger] bump(s, pts)[r]).len() == s[r].len(),
        forall|p: (int, int)| in_grid(s, p) ==> #[trigger] bump(s, pts)[p.1][p.0]
            == s[p.1][p.0] + (if pts.contains(p) { REMOVE as int } else { 0 }),
    decreases pts.len(),
{
    lemma_bump_frame(s, pts);
    if pts.len() > 0 {
        let q = pts.drop_last();
        let last = pts.last();
        assert forall|i: int| 0 <= i < q.len() implies in_grid(s, #[trigger] q[i]) by {
            assert(q[i] == pts[i]);
        }
        assert forall|i: int, j: int| 0 <= i < j < q.len() implies #[trigger] q[i] != #[trigger] q[j] by {
            assert(q[i] == pts[i] && q[j] == pts[j]);
        }
        assert forall|i: int| 0 <= i < q.len() implies s[(#[trigger] q[i]).1][q[i].0] + REMOVE <= i16::MAX by {
            assert(q[i] == pts[i]);
        }
        lemma_bump_effect(s, q);
        assert(!q.contains(last)) by {
            if q.contains(last) {
                let i = choose|i: int| 0 <= i < q.len() && q[i] == last;
                assert(pts[i] == pts[pts.len() - 1]);
            }
        }
        assert(in_grid(s, pts[pts.len() - 1]));
        assert(s[last.1][last.0] + REMOVE <= i16::MAX) by {
            assert(last == pts[pts.len() - 1]);
        }
        assert forall|p: (int, int)| in_grid(s, p) implies #[trigger] bump(s, pts)[p.1][p.0]
            == s[p.1][p.0] + (if pts.contains(p) { REMOVE as int } else { 0 }) by {
            if p == last {
                assert(pts.contains(p) && !q.contains(p));
            } else {
                assert(pts.contains(p) == q.contains(p)) by {
                    if pts.contains(p) {
                        let i = choose|i: int| 0 <= i < pts.len() && pts[i] == p;
                        assert(q[i] == p);
                    }
                    if q.contains(p) {
                        let i = choose|i: int| 0 <= i < q.len() && q[i] == p;
                        assert(pts[i] == p);
                    }
                }
            }
        }
    }
}

/// A thread raises the grid by `REMOVE` at exactly the pixels of its line.
pub proof fn lemma_thread_raises_line(s: Seq<Seq<i16>>, x0: i64, y0: i64, x1: i64, y1: i64)
    requires
        line_in_grid(s, x0, y0, x1, y1),
        forall|i: int| 0 <= i < line_points(x0 as int, y0 as int, x1 as int, y1 as int).len() ==> {
            let p = #[trigger] line_points(x0 as int, y0 as int, x1 as int, y1 as int)[i];
            s[p.1][p.0] + REMOVE <= i16::MAX
        },
    ensures
        ({
            let pts = line_points(x0 as int, y0 as int, x1 as int, y1 as int);
            forall|p: (int, int)| in_grid(s, p) ==> #[trigger] bump(s, pts)[p.1][p.0]
                == s[p.1][p.0] + (if pts.contains(p) { REMOVE as int } else { 0 })
        }),
{
    lemma_line_properties(x0 as int, y0 as int, x1 as int, y1 as int);
    let pts = line_points(x0 as int, y0 as int, x1 as int, y1 as int);
    assert forall|i: int| 0 <= i < pts.len() implies s[(#[trigger] pts[i]).1][pts[i].0] + REMOVE <= i16::MAX by {
        assert(pts[i] == line_points(x0 as int, y0 as int, x1 as int, y1 as int)[i]);
    }
    lemma_bump_effect(s, pts);
}

/// Draws the line from `(x0, y0)` to `(x1, y1)` in `color` when both end
/// points lie in the image (and then the whole line does), and reports whether
/// it did; otherwise the image is left alone.
pub fn try_draw_line(img: &mut RgbaCanvas, x0: i64, y0: i64, x1: i64, y1: i64, color: [u8; 4]) -> (drawn: bool)
    ensures
        drawn == (in_image(canvas_size(*old(img)), x0 as int, y0 as int)
            && in_image(canvas_size(*old(img)), x1 as int, y1 as int)),
        canvas_size(*final(img)) == canvas_size(*old(img)),
        drawn ==> canvas_pixels(*final(img)) == paint(
            canvas_pixels(*old(img)),
            line_points(x0 as int, y0 as int, x1 as int, y1 as int),
            color,
        ),
        !drawn ==> canvas_pixels(*final(img)) == canvas_pixels(*old(img)),
{
    let width = img.width() as i64;
    let height = img.height() as i64;
    if 0 <= x0 && x0 < width && 0 <= y0 && y0 < height && 0 <= x1 && x1 < width && 0 <= y1 && y1 < height {
        proof {
            lemma_line_in_image(canvas_size(*img), x0, y0, x1, y1);
        }
        draw_line(img, x0, y0, x1, y1, color);
        true
    } else {
        false
    }
}

/// The penalty `penalty` computes for the line from `a` to `b`.
pub open spec fn penalty_value(s: Seq<Seq<i16>>, a: (u32, u32), b: (u32, u32)) -> int {
    let pts = line_points(a.0 as int, a.1 as int, b.0 as int, b.1 as int);
    trunc_div(line_abs_sum(s, pts) - REMOVE * pts.len(), pts.len() as int)
}

/// What `penalty` needs of the line from `a` to `b`.
pub open spec fn penalty_ok(s: Seq<Seq<i16>>, a: (u32, u32), b: (u32, u32)) -> bool {
    let pts = line_points(a.0 as int, a.1 as int, b.0 as int, b.1 as int);
    &&& line_in_grid(s, a.0 as i64, a.1 as i64, b.0 as i64, b.1 as i64)
    &&& REMOVE * pts.len() <= i32::MAX
    &&& line_abs_sum(s, pts) <= i32::MAX
}

/// The candidate's penalty, as `darkest_candidate` compares them.
pub open spec fn candidate_score(s: Seq<Seq<i16>>, pin: (u32, u32), pins: Seq<(u32, u32)>, pin_nums: Seq<usize>, i: int) -> int {
    penalty_value(s, pin, pins[pin_nums[i] as int])
}

/// Whether `num` is the first candidate with the smallest penalty, or 0 when
/// no penalty is below `i32::MAX`.
pub open spec fn is_darkest(s: Seq<Seq<i16>>, pin: (u32, u32), pins: Seq<(u32, u32)>, pin_nums: Seq<usize>, num: int) -> bool {
    if exists|j: int| 0 <= j < pin_nums.len() && #[trigger] candidate_score(s, pin, pins, pin_nums, j) < i32::MAX {
        &&& 0 <= num < pin_nums.len()
        &&& forall|j: int| 0 <= j < pin_nums.len() ==>
            candidate_score(s, pin, pins, pin_nums, num) <= #[trigger] candidate_score(s, pin, pins, pin_nums, j)
        &&& forall|j: int| 0 <= j < num ==>
            candidate_score(s, pin, pins, pin_nums, num) < #[trigger] candidate_score(s, pin, pins, pin_nums, j)
    } else {
        num == 0
    }
}

/// Among the candidate pins `pins[pin_nums[i]]`, the position `i` of the one
/// whose line from `pin` has the smallest penalty: the first such position,
/// and 0 when no penalty is below `i32::MAX`.
pub fn darkest_candidate(pin: (u32, u32), pins: &Vec<(u32, u32)>, pin_nums: &Vec<usize>, arr: &Vec<Vec<i16>>) -> (num: usize)
    requires
        forall|i: int| 0 <= i < pin_nums@.len() ==> #[trigger] pin_nums@[i] < pins@.len(),
        forall|i: int| 0 <= i < pin_nums@.len() ==> penalty_ok(grid_view(arr), pin, pins@[#[trigger] pin_nums@[i] as int]),
    ensures
        pin_nums@.len() > 0 ==> num < pin_nums@.len(),
        is_darkest(grid_view(arr), pin, pins@, pin_nums@, num as int),
        pin_nums@.len() > 0 ==> forall|j: int| 0 <= j < pin_nums@.len() ==>
            thread_penalty(grid_view(arr), pin, pins@[pin_nums@[num as int] as int])
                <= #[trigger] thread_penalty(grid_view(arr), pin, pins@[pin_nums@[j] as int]),
        pin_nums@.len() > 0 ==> forall|j: int| 0 <= j < num ==>
            thread_penalty(grid_view(arr), pin, pins@[pin_nums@[num as int] as int])
                < #[trigger] thread_penalty(grid_view(arr), pin, pins@[pin_nums@[j] as int]),
{
    let ghost s = grid_view(arr);
    let mut darkest: i32 = i32::MAX;
    let mut num: usize = 0;
    let mut i: usize = 0;
    while i < pin_nums.len()
        invariant
            0 <= i <= pin_nums@.len(),
            s == grid_view(arr),
            forall|k: int| 0 <= k < pin_nums@.len() ==> #[trigger] pin_nums@[k] < pins@.len(),
            forall|k: int| 0 <= k < pin_nums@.len() ==> penalty_ok(s, pin, pins@[#[trigger] pin_nums@[k] as int]),
            pin_nums@.len() > 0 ==> num < pin_nums@.len(),
            num <= i || num == 0,
            darkest < i32::MAX ==> num < i && darkest == candidate_score(s, pin, pins@, pin_nums@, num as int),
            darkest == i32::MAX ==> num == 0,
            forall|j: int| 0 <= j < i ==> darkest <= #[trigger] candidate_score(s, pin, pins@, pin_nums@, j),
            forall|j: int| 0 <= j < num ==> darkest < #[trigger] candidate_score(s, pin, pins@, pin_nums@, j),
            darkest == i32::MAX ==> forall|j: int| 0 <= j < i ==> #[trigger] candidate_score(s, pin, pins@, pin_nums@, j) >= i32::MAX,
        decreases pin_nums@.len() - i,
    {
        let current_pin = pins[pin_nums[i]];
        proof {
            assert(penalty_ok(s, pin, pins@[pin_nums@[i as int] as int]));
        }
        let brightness = penalty(pin.0 as i64, pin.1 as i64, current_pin.0 as i64, current_pin.1 as i64, arr);
        assert(brightness == candidate_score(s, pin, pins@, pin_nums@, i as int));
        if brightness < darkest {
            darkest = brightness;
            num = i;
        }
        i += 1;
    }
    proof {
        if exists|j: int| 0 <= j < pin_nums@.len() && #[trigger] candidate_score(s, pin, pins@, pin_nums@, j) < i32::MAX {
            let j = choose|j: int| 0 <= j < pin_nums@.len() && #[trigger] candidate_score(s, pin, pins@, pin_nums@, j) < i32::MAX;
            assert(darkest <= candidate_score(s, pin, pins@, pin_nums@, j));
        }
        if pin_nums@.len() > 0 {
            lemma_darkest_is_least(s, pin, pins@, pin_nums@, num as int);
        }
    }
    num
}

/// The penalty of a thread, written out: the sum of the absolute grid values
/// along the line from `a` to `b`, less `REMOVE` (50) for each of its pixels,
/// divided by the number of pixels and rounded toward zero.
pub open spec fn thread_penalty(s: Seq<Seq<i16>>, a: (u32, u32), b: (u32, u32)) -> int {
    let n = line_points(a.0 as int, a.1 as int, b.0 as int, b.1 as int).len() as int;
    let t = line_abs_sum(s, line_points(a.0 as int, a.1 as int, b.0 as int, b.1 as int)) - 50 * n;
    if t >= 0 { t / n } else { -((-t) / n) }
}

/// A line that `penalty` can score has a penalty below `i32::MAX`.
proof fn lemma_penalty_below_max(s: Seq<Seq<i16>>, a: (u32, u32), b: (u32, u32))
    requires
        penalty_ok(s, a, b),
    ensures
        penalty_value(s, a, b) < i32::MAX,
        penalty_value(s, a, b) == thread_penalty(s, a, b),
{
    let pts = line_points(a.0 as int, a.1 as int, b.0 as int, b.1 as int);
    lemma_line_properties(a.0 as int, a.1 as int, b.0 as int, b.1 as int);
    lemma_abs_sum_nonneg(s, pts);
    let t = line_abs_sum(s, pts) - REMOVE * pts.len();
    let n = pts.len() as int;
    assert(n >= 1);
    if t >= 0 {
        assert(t / n <= t) by (nonlinear_arith)
            requires t >= 0, n >= 1;
    } else {
        assert((-t) / n >= 0) by (nonlinear_arith)
            requires -t > 0, n >= 1;
    }
}

/// The candidate `darkest_candidate` picks has the smallest penalty of all
/// candidates, and every candidate before it has a larger one: over a
/// non-empty list of candidates whose lines can be scored, position `n` is
/// the first at which the written-out penalty is least.
pub proof fn lemma_darkest_is_least(s: Seq<Seq<i16>>, pin: (u32, u32), pins: Seq<(u32, u32)>, pin_nums: Seq<usize>, n: int)
    requires
        pin_nums.len() > 0,
        forall|i: int| 0 <= i < pin_nums.len() ==> #[trigger] pin_nums[i] < pins.len(),
        forall|i: int| 0 <= i < pin_nums.len() ==> penalty_ok(s, pin, pins[#[trigger] pin_nums[i] as int]),
        is_darkest(s, pin, pins, pin_nums, n),
    ensures
        0 <= n < pin_nums.len(),
        forall|j: int| 0 <= j < pin_nums.len() ==>
            thread_penalty(s, pin, pins[pin_nums[n] as int]) <= #[trigger] thread_penalty(s, pin, pins[pin_nums[j] as int]),
        forall|j: int| 0 <= j < n ==>
            thread_penalty(s, pin, pins[pin_nums[n] as int]) < #[trigger] thread_penalty(s, pin, pins[pin_nums[j] as int]),
{
    assert(penalty_ok(s, pin, pins[pin_nums[0] as int]));
    lemma_penalty_below_max(s, pin, pins[pin_nums[0] as int]);
    assert(candidate_score(s, pin, pins, pin_nums, 0) < i32::MAX);
    assert forall|j: int| 0 <= j < pin_nums.len() implies
        thread_penalty(s, pin, pins[pin_nums[n] as int]) <= #[trigger] thread_penalty(s, pin, pins[pin_nums[j] as int]) by {
        assert(penalty_ok(s, pin, pins[pin_nums[j] as int]));
        assert(penalty_ok(s, pin, pins[pin_nums[n] as int]));
        lemma_penalty_below_max(s, pin, pins[pin_nums[j] as int]);
        lemma_penalty_below_max(s, pin, pins[pin_nums[n] as int]);
        assert(candidate_score(s, pin, pins, pin_nums, n) <= candidate_score(s, pin, pins, pin_nums, j));
    }
    assert forall|j: int| 0 <= j < n implies
        thread_penalty(s, pin, pins[pin_nums[n] as int]) < #[trigger] thread_penalty(s, pin, pins[pin_nums[j] as int]) by {
        assert(penalty_ok(s, pin, pins[pin_nums[j] as int]));
        assert(penalty_ok(s, pin, pins[pin_nums[n] as int]));
        lemma_penalty_below_max(s, pin, pins[pin_nums[j] as int]);
        lemma_penalty_below_max(s, pin, pins[pin_nums[n] as int]);
        assert(candidate_score(s, pin, pins, pin_nums, n) < candidate_score(s, pin, pins, pin_nums, j));
    }
}

} // verus!
