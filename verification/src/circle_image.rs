//! The circle-image effect: discs filled with the colour of their centre are
//! placed on a canvas, each as large as the circles already placed nearby
//! allow. The distances to those circles are `f32` computations made by the
//! caller; the placement, the bookkeeping and the painting are here.

use vstd::prelude::*;
use crate::image_model::{RgbaCanvas, canvas_pixels, canvas_size};
use crate::line_art::trunc_div;
use crate::text_input::{collect_chars, contains, lowercased, occurs_at, occurs_in, parse_i32, decimal, to_lowercase, trim_str, trimmed};

verus! {

/// A placed circle: its centre `(x, y)` and its radius.
pub type Circle = ((i32, i32), i32);

/// The smallest radius the complex effect accepts.
pub const MIN_RADIUS: i32 = 10;

/// The radius limit and the grid size the complex effect works with: the
/// limit is raised to at least `MIN_RADIUS`, and the grid has
/// `min(width, height) / limit / 2` cells per side.
pub fn complex_params(size: (i32, i32), max_radius: i32) -> (params: (i32, i32))
    ensures
        params.0 == (if max_radius < MIN_RADIUS { MIN_RADIUS } else { max_radius }),
        params.1 == trunc_div(
            trunc_div((if size.0 <= size.1 { size.0 } else { size.1 }) as int, params.0 as int),
            2,
        ),
{
    let mut max_radius = max_radius;
    if max_radius < MIN_RADIUS {
        max_radius = MIN_RADIUS;
    }
    let grid_size = size.0.min(size.1) / max_radius / 2;
    (max_radius, grid_size)
}

/// The grid cell of a coordinate along an axis of length `extent`.
pub open spec fn cell_of(coord: int, extent: int, grid_size: int) -> int {
    trunc_div(coord, extent) * grid_size
}

/// The centre cell of the 3x3 block that is searched for circles near a coordinate.
pub open spec fn search_centre(coord: int, extent: int, grid_size: int) -> int {
    let c = cell_of(coord, extent, grid_size);
    let lo = if c >= 1 { c } else { 1 };
    if lo <= grid_size - 2 { lo } else { grid_size - 2 }
}

/// The cells `(row, column)` searched for circles near `(x, y)`: the 3x3 block
/// around the centre cell, row by row. The centre is the cell of the
/// coordinate, kept at least one cell away from each edge of the grid.
pub fn search_cells(x: i32, y: i32, size: (i32, i32), grid_size: i32) -> (cells: Vec<(usize, usize)>)
    requires
        0 <= x < size.0,
        0 <= y < size.1,
        3 <= grid_size,
    ensures
        cells@.len() == 9,
        forall|k: int| 0 <= k < 9 ==> #[trigger] cells@[k] == (
            (search_centre(y as int, size.1 as int, grid_size as int) + k / 3 - 1) as usize,
            (search_centre(x as int, size.0 as int, grid_size as int) + k % 3 - 1) as usize,
        ),
        forall|k: int| 0 <= k < 9 ==> (#[trigger] cells@[k]).0 < 3 && cells@[k].1 < 3,
{
    assert(x / size.0 == 0) by (nonlinear_arith)
        requires 0 <= x < size.0;
    assert(y / size.1 == 0) by (nonlinear_arith)
        requires 0 <= y < size.1;
    let i = 1i32.max(x / size.0 * grid_size).min(grid_size - 2);
    let j = 1i32.max(y / size.1 * grid_size).min(grid_size - 2);
    assert(i == 1 && j == 1);
    let mut cells: Vec<(usize, usize)> = Vec::new();
    let offsets: [i32; 3] = [-1, 0, 1];
    let mut a: usize = 0;
    while a < 3
        invariant
            0 <= a <= 3,
            i == 1 && j == 1,
            i == search_centre(x as int, size.0 as int, grid_size as int),
            j == search_centre(y as int, size.1 as int, grid_size as int),
            offsets@ == seq![-1i32, 0, 1],
            cells@.len() == 3 * a,
            forall|k: int| 0 <= k < 3 * a ==> #[trigger] cells@[k] == (
                (j + k / 3 - 1) as usize,
                (i + k % 3 - 1) as usize,
            ),
        decreases 3 - a,
    {
        let dy = offsets[a];
        let mut b: usize = 0;
        while b < 3
            invariant
                0 <= a < 3,
                0 <= b <= 3,
                i == 1 && j == 1,
                offsets@ == seq![-1i32, 0, 1],
                dy == offsets@[a as int],
                cells@.len() == 3 * a + b,
                forall|k: int| 0 <= k < 3 * a + b ==> #[trigger] cells@[k] == (
                    (j + k / 3 - 1) as usize,
                    (i + k % 3 - 1) as usize,
                ),
            decreases 3 - b,
        {
            let dx = offsets[b];
            proof {
                let k = 3 * a + b;
                assert(k / 3 == a && k % 3 == b);
            }
            cells.push(((j + dy) as usize, (i + dx) as usize));
            b += 1;
        }
        a += 1;
    }
    cells
}

/// Whether the disc of radius `r` around `(x, y)` lies within a `w` by `h` image.
pub open spec fn disc_fits(x: int, y: int, r: int, w: int, h: int) -> bool {
    y - r >= 0 && y + r <= h && x - r >= 0 && x + r <= w
}

/// Whether `(px, py)` lies strictly inside the disc of radius `r` around `(x, y)`.
pub open spec fn in_disc(x: int, y: int, r: int, px: int, py: int) -> bool {
    (px - x) * (px - x) + (py - y) * (py - y) < r * r
}

/// The pixel map with `color` written at each pixel of a `w` by `h` image that
/// lies in the disc of radius `r` around `(x, y)`, for the rows before `ry` and
/// the pixels of row `ry` before column `cx`.
pub open spec fn disc_paint_upto(
    m: Map<(u32, u32), [u8; 4]>,
    x: int,
    y: int,
    r: int,
    w: int,
    h: int,
    color: [u8; 4],
    ry: int,
    cx: int,
) -> Map<(u32, u32), [u8; 4]> {
    m.union_prefer_right(
        Map::new(
            |k: (u32, u32)|
                (k.1 < ry || (k.1 == ry && k.0 < cx)) && k.0 < w && k.1 < h && in_disc(x, y, r, k.0 as int, k.1 as int),
            |k: (u32, u32)| color,
        ),
    )
}

/// The pixel map after the disc of radius `r` around `(x, y)` has been filled
/// with `color`: every pixel of the image inside the disc gets `color` when the
/// disc fits in the image, and nothing changes when it does not.
pub open spec fn disc_painted(
    m: Map<(u32, u32), [u8; 4]>,
    x: int,
    y: int,
    r: int,
    w: int,
    h: int,
    color: [u8; 4],
) -> Map<(u32, u32), [u8; 4]> {
    if disc_fits(x, y, r, w, h) {
        m.union_prefer_right(
            Map::new(
                |k: (u32, u32)| k.0 < w && k.1 < h && in_disc(x, y, r, k.0 as int, k.1 as int),
                |k: (u32, u32)| color,
            ),
        )
    } else {
        m
    }
}

proof fn lemma_outside_disc(x: int, y: int, r: int, px: int, py: int)
    requires
        r >= 0,
        px > x + r || py > y + r,
    ensures
        !in_disc(x, y, r, px, py),
{
    if px > x + r {
        assert((px - x) * (px - x) > r * r) by (nonlinear_arith)
            requires px - x > r, r >= 0;
        assert((py - y) * (py - y) >= 0) by (nonlinear_arith);
    } else {
        assert((py - y) * (py - y) > r * r) by (nonlinear_arith)
            requires py - y > r, r >= 0;
        assert((px - x) * (px - x) >= 0) by (nonlinear_arith);
    }
}

/// Fills the disc of radius `radius` around `(x, y)` with `color`, if the disc
/// fits in the `size.0` by `size.1` canvas; otherwise leaves the canvas alone.
pub fn paint_disc(output: &mut RgbaCanvas, x: i32, y: i32, radius: i32, size: (i32, i32), color: [u8; 4])
    requires
        canvas_size(*old(output)) == (size.0 as u32, size.1 as u32),
        0 <= x < size.0,
        0 <= y < size.1,
        0 <= radius,
        y + radius <= i32::MAX,
        y - radius >= 0 && y + radius <= size.1 ==> x + radius <= i32::MAX,
        disc_fits(x as int, y as int, radius as int, size.0 as int, size.1 as int) ==> x * x + y * y <= i32::MAX,
    ensures
        canvas_size(*final(output)) == canvas_size(*old(output)),
        canvas_pixels(*final(output)) == disc_painted(
            canvas_pixels(*old(output)),
            x as int,
            y as int,
            radius as int,
            size.0 as int,
            size.1 as int,
            color,
        ),
        y - radius < 0 || y + radius > size.1 || x - radius < 0 || x + radius > size.0
            ==> canvas_pixels(*final(output)) == canvas_pixels(*old(output)),
{
    let ghost m0 = canvas_pixels(*output);
    let ghost (xi, yi, ri, wi, hi) = (x as int, y as int, radius as int, size.0 as int, size.1 as int);
    let ghost fits = disc_fits(xi, yi, ri, wi, hi);
    let mut yy: i32 = 0;
    while yy < size.1
        invariant_except_break
            0 <= yy <= size.1,
            fits ==> canvas_pixels(*output) == disc_paint_upto(m0, xi, yi, ri, wi, hi, color, yy as int, 0),
        invariant
            canvas_size(*output) == (size.0 as u32, size.1 as u32),
            0 <= x < size.0,
            0 <= y < size.1,
            0 <= radius,
            y + radius <= i32::MAX,
            y - radius >= 0 && y + radius <= size.1 ==> x + radius <= i32::MAX,
            xi == x && yi == y && ri == radius && wi == size.0 && hi == size.1,
            fits == disc_fits(xi, yi, ri, wi, hi),
            fits ==> x * x + y * y <= i32::MAX,
            !fits ==> canvas_pixels(*output) == m0,
        ensures
            fits ==> canvas_pixels(*output) == disc_paint_upto(m0, xi, yi, ri, wi, hi, color, hi, 0),
        decreases size.1 - yy,
    {
        if yy > y + radius {
            proof {
                if fits {
                    assert(disc_paint_upto(m0, xi, yi, ri, wi, hi, color, yy as int, 0)
                        =~= disc_paint_upto(m0, xi, yi, ri, wi, hi, color, hi, 0)) by {
                        assert forall|k: (u32, u32)| k.1 >= yy implies !in_disc(xi, yi, ri, k.0 as int, k.1 as int) by {
                            lemma_outside_disc(xi, yi, ri, k.0 as int, k.1 as int);
                        }
                    }
                }
            }
            break;
        }

        if y - radius < 0 || y + radius > size.1 {
            yy += 1;
            continue;
        }

        let mut xx: i32 = 0;
        while xx < size.0
            invariant_except_break
                0 <= xx <= size.0,
                fits ==> canvas_pixels(*output) == disc_paint_upto(m0, xi, yi, ri, wi, hi, color, yy as int, xx as int),
            invariant
                canvas_size(*output) == (size.0 as u32, size.1 as u32),
                0 <= yy < size.1,
                yy <= y + radius,
                0 <= x < size.0,
                0 <= y < size.1,
                0 <= radius,
                y - radius >= 0 && y + radius <= size.1,
                x + radius <= i32::MAX,
                xi == x && yi == y && ri == radius && wi == size.0 && hi == size.1,
                fits == disc_fits(xi, yi, ri, wi, hi),
                fits ==> x * x + y * y <= i32::MAX,
                !fits ==> canvas_pixels(*output) == m0,
            ensures
                fits ==> canvas_pixels(*output) == disc_paint_upto(m0, xi, yi, ri, wi, hi, color, yy as int, wi),
            decreases size.0 - xx,
        {
            if xx > x + radius {
                proof {
                    if fits {
                        assert(disc_paint_upto(m0, xi, yi, ri, wi, hi, color, yy as int, xx as int)
                            =~= disc_paint_upto(m0, xi, yi, ri, wi, hi, color, yy as int, wi)) by {
                            assert forall|k: (u32, u32)| k.1 == yy && k.0 >= xx implies !in_disc(xi, yi, ri, k.0 as int, k.1 as int) by {
                                lemma_outside_disc(xi, yi, ri, k.0 as int, k.1 as int);
                            }
                        }
                    }
                }
                break;
            }

            if x - radius < 0 || x + radius > size.0 {
                xx += 1;
                continue;
            }

            proof {
                assert(fits);
                assert(0 <= xx <= x + radius && 0 <= yy <= y + radius);
                assert((xx - x) * (xx - x) <= x * x) by (nonlinear_arith)
                    requires 0 <= xx <= x + radius, radius <= x, 0 <= radius;
                assert((yy - y) * (yy - y) <= y * y) by (nonlinear_arith)
                    requires 0 <= yy <= y + radius, radius <= y, 0 <= radius;
                assert(radius * radius <= x * x) by (nonlinear_arith)
                    requires 0 <= radius <= x;
                assert((xx - x) * (xx - x) >= 0 && (yy - y) * (yy - y) >= 0) by (nonlinear_arith);
                assert(y * y >= 0) by (nonlinear_arith);
            }
            let distance = (xx - x) * (xx - x) + (yy - y) * (yy - y);

            let ghost before = canvas_pixels(*output);
            if distance < radius * radius {
                output.put_pixel(xx as u32, yy as u32, color);
                proof {
                    assert(disc_paint_upto(m0, xi, yi, ri, wi, hi, color, yy as int, xx + 1)
                        =~= before.insert((xx as u32, yy as u32), color));
                }
            } else {
                proof {
                    assert(disc_paint_upto(m0, xi, yi, ri, wi, hi, color, yy as int, xx + 1)
                        =~= before);
                }
            }
            xx += 1;
        }
        proof {
            if fits {
                assert(disc_paint_upto(m0, xi, yi, ri, wi, hi, color, yy as int, wi)
                    =~= disc_paint_upto(m0, xi, yi, ri, wi, hi, color, yy + 1, 0));
            }
        }
        yy += 1;
    }
    proof {
        if fits {
            assert(disc_paint_upto(m0, xi, yi, ri, wi, hi, color, hi, 0)
                =~= disc_painted(m0, xi, yi, ri, wi, hi, color));
        }
    }
}

/// The circles of every grid cell, as sequences.
pub open spec fn cells_view(circles: &Vec<Vec<Vec<Circle>>>) -> Seq<Seq<Seq<Circle>>> {
    circles@.map_values(|row: Vec<Vec<Circle>>| row@.map_values(|cell: Vec<Circle>| cell@))
}

/// The grid cell `(column, row)` a circle centred at `(x, y)` is filed under.
pub open spec fn home_cell(x: int, y: int, size: (i32, i32), grid_size: int) -> (int, int) {
    (cell_of(x, size.0 as int, grid_size), cell_of(y, size.1 as int, grid_size))
}

/// Files the circle `((x, y), radius)` under its grid cell.
pub fn add_circle(circles: &mut Vec<Vec<Vec<Circle>>>, x: i32, y: i32, radius: i32, size: (i32, i32), grid_size: i32)
    requires
        0 <= x < size.0,
        0 <= y < size.1,
        ({
            let c = home_cell(x as int, y as int, size, grid_size as int);
            0 <= c.0 < old(circles)@.len() && 0 <= c.1 < old(circles)@[c.0]@.len()
        }),
    ensures
        ({
            let c = home_cell(x as int, y as int, size, grid_size as int);
            let old_cells = cells_view(old(circles));
            cells_view(final(circles)) == old_cells.update(
                c.0,
                old_cells[c.0].update(c.1, old_cells[c.0][c.1].push(((x, y), radius))),
            )
        }),
{
    assert(x / size.0 == 0) by (nonlinear_arith)
        requires 0 <= x < size.0;
    assert(y / size.1 == 0) by (nonlinear_arith)
        requires 0 <= y < size.1;
    assert((x / size.0) * grid_size == 0) by (nonlinear_arith)
        requires x / size.0 == 0;
    assert((y / size.1) * grid_size == 0) by (nonlinear_arith)
        requires y / size.1 == 0;
    let ghost before = cells_view(circles);
    let cx = (x / size.0 * grid_size) as usize;
    let cy = (y / size.1 * grid_size) as usize;
    assert(cx == 0 && cy == 0);
    circles[cx][cy].push(((x, y), radius));
    proof {
        let after = cells_view(circles);
        assert(after[0] =~= before[0].update(0, before[0][0].push(((x, y), radius))));
        assert(after =~= before.update(0, before[0].update(0, before[0][0].push(((x, y), radius)))));
    }
}

/// Places a circle of the given radius at `(x, y)`, if the radius is not
/// negative: the circle is filed under its grid cell and its disc is painted
/// with `color`. Returns whether the circle was placed.
pub fn place_circle(
    circles: &mut Vec<Vec<Vec<Circle>>>,
    output: &mut RgbaCanvas,
    x: i32,
    y: i32,
    radius: i32,
    size: (i32, i32),
    grid_size: i32,
    color: [u8; 4],
) -> (placed: bool)
    requires
        0 <= x < size.0,
        0 <= y < size.1,
        ({
            let c = home_cell(x as int, y as int, size, grid_size as int);
            0 <= c.0 < old(circles)@.len() && 0 <= c.1 < old(circles)@[c.0]@.len()
        }),
        canvas_size(*old(output)) == (size.0 as u32, size.1 as u32),
        y + radius <= i32::MAX,
        y - radius >= 0 && y + radius <= size.1 ==> x + radius <= i32::MAX,
        disc_fits(x as int, y as int, radius as int, size.0 as int, size.1 as int) ==> x * x + y * y <= i32::MAX,
    ensures
        placed == (radius >= 0),
        canvas_size(*final(output)) == canvas_size(*old(output)),
        !placed ==> cells_view(final(circles)) == cells_view(old(circles)),
        !placed ==> canvas_pixels(*final(output)) == canvas_pixels(*old(output)),
        placed ==> ({
            let c = home_cell(x as int, y as int, size, grid_size as int);
            let old_cells = cells_view(old(circles));
            cells_view(final(circles)) == old_cells.update(
                c.0,
                old_cells[c.0].update(c.1, old_cells[c.0][c.1].push(((x, y), radius))),
            )
        }),
        placed ==> canvas_pixels(*final(output)) == disc_painted(
            canvas_pixels(*old(output)),
            x as int,
            y as int,
            radius as int,
            size.0 as int,
            size.1 as int,
            color,
        ),
        y - radius < 0 || y + radius > size.1 || x - radius < 0 || x + radius > size.0
            ==> canvas_pixels(*final(output)) == canvas_pixels(*old(output)),
{
    if radius < 0 {
        false
    } else {
        add_circle(circles, x, y, radius, size, grid_size);
        paint_disc(output, x, y, radius, size, color);
        true
    }
}

/// With a radius that is not negative, a disc that fits lies inside the image,
/// and painting it writes `color` at exactly the image pixels inside the disc.
pub proof fn lemma_disc_painted_effect(
    m: Map<(u32, u32), [u8; 4]>,
    x: int,
    y: int,
    r: int,
    w: int,
    h: int,
    color: [u8; 4],
    k: (u32, u32),
)
    requires
        r >= 0,
        disc_fits(x, y, r, w, h),
    ensures
        in_disc(x, y, r, k.0 as int, k.1 as int) ==> k.0 < w && k.1 < h
            && disc_painted(m, x, y, r, w, h, color)[k] == color,
        !in_disc(x, y, r, k.0 as int, k.1 as int) ==> (disc_painted(m, x, y, r, w, h, color).contains_key(k)
            == m.contains_key(k) && (m.contains_key(k) ==> disc_painted(m, x, y, r, w, h, color)[k] == m[k])),
{
    let (px, py) = (k.0 as int, k.1 as int);
    let disc = Map::new(
        |k: (u32, u32)| k.0 < w && k.1 < h && in_disc(x, y, r, k.0 as int, k.1 as int),
        |k: (u32, u32)| color,
    );
    assert(disc_painted(m, x, y, r, w, h, color) == m.union_prefer_right(disc));
    if !in_disc(x, y, r, px, py) {
        assert(!disc.contains_key(k));
    }
    if in_disc(x, y, r, px, py) {
        if px >= x + r {
            assert((px - x) * (px - x) >= r * r) by (nonlinear_arith)
                requires px - x >= r, r >= 0;
            assert((py - y) * (py - y) >= 0) by (nonlinear_arith);
        }
        if py >= y + r {
            assert((py - y) * (py - y) >= r * r) by (nonlinear_arith)
                requires py - y >= r, r >= 0;
            assert((px - x) * (px - x) >= 0) by (nonlinear_arith);
        }
    }
}

/// Painting a disc: when it reaches past an edge of the image
/// (`y - r < 0`, `y + r > h`, `x - r < 0` or `x + r > w`) the pixel map stays as
/// it was; otherwise exactly the positions `k` of the image with
/// `(k.0 - x)^2 + (k.1 - y)^2 < r^2` get `color`, and every other entry stays.
pub proof fn lemma_disc_painted_exact(
    m: Map<(u32, u32), [u8; 4]>,
    x: int,
    y: int,
    r: int,
    w: int,
    h: int,
    color: [u8; 4],
    k: (u32, u32),
)
    requires
        r >= 0,
    ensures
        (y - r < 0 || y + r > h || x - r < 0 || x + r > w) ==> disc_painted(m, x, y, r, w, h, color) == m,
        (y - r >= 0 && y + r <= h && x - r >= 0 && x + r <= w) ==> {
            let d = (k.0 - x) * (k.0 - x) + (k.1 - y) * (k.1 - y);
            &&& d < r * r ==> k.0 < w && k.1 < h && disc_painted(m, x, y, r, w, h, color).contains_key(k)
                && disc_painted(m, x, y, r, w, h, color)[k] == color
            &&& d >= r * r ==> disc_painted(m, x, y, r, w, h, color).contains_key(k) == m.contains_key(k)
                && (m.contains_key(k) ==> disc_painted(m, x, y, r, w, h, color)[k] == m[k])
        },
{
    if y - r >= 0 && y + r <= h && x - r >= 0 && x + r <= w {
        lemma_disc_painted_effect(m, x, y, r, w, h, color, k);
        let disc = Map::new(
            |k: (u32, u32)| k.0 < w && k.1 < h && in_disc(x, y, r, k.0 as int, k.1 as int),
            |k: (u32, u32)| color,
        );
        assert(disc_painted(m, x, y, r, w, h, color) == m.union_prefer_right(disc));
        if in_disc(x, y, r, k.0 as int, k.1 as int) {
            assert(disc.contains_key(k));
        }
    }
}

/// Typed text that the effect menu turns away with "Only 1 or 2" (after
/// trimming and lower-casing, any substring of it).
pub const MENU_REJECTS: &'static str = "abcdefghijklmnopqrstuvwxyzäöü34567890 |;:,<>\"{}[]()!#@$%^&*?-_+=ß/";

/// Typed text that the radius prompt turns away with "Only Numbers".
pub const RADIUS_REJECTS: &'static str = "abcdefghijklmnopqrstuvwxyzäöü |;:,<>\"{}[]()!#@$%^&*?-_+=ß/";

/// The radius used when none is typed.
pub const DEFAULT_RADIUS: i32 = 30;

/// The effect menu's answer to a typed line.
#[derive(Clone, Copy, Debug, PartialEq, Eq, Structural)]
pub enum MenuReply {
    /// The line is a piece of the rejected text: "Only 1 or 2... Try Again!".
    OnlyOneOrTwo,
    /// More than one character: "Only one Number... Try Again!".
    OnlyOneNumber,
    /// A single character that picks the effect.
    Chosen(char),
}

/// The effect menu's answer to `input`: the trimmed, lower-cased line is
/// looked up in `MENU_REJECTS`; otherwise a trimmed line of one character
/// chooses, and a longer one is refused.
pub fn menu_reply(input: &str) -> (reply: MenuReply)
    ensures
        occurs_in(MENU_REJECTS@, lowercased(trimmed(input@))) ==> reply == MenuReply::OnlyOneOrTwo,
        !occurs_in(MENU_REJECTS@, lowercased(trimmed(input@))) && trimmed(input@).len() > 1
            ==> reply == MenuReply::OnlyOneNumber,
        !occurs_in(MENU_REJECTS@, lowercased(trimmed(input@))) && trimmed(input@).len() <= 1
            ==> trimmed(input@).len() == 1 && reply == MenuReply::Chosen(trimmed(input@)[0]),
{
    let line = trim_str(input);
    let lower = to_lowercase(line);
    if contains(MENU_REJECTS, lower.as_str()) {
        MenuReply::OnlyOneOrTwo
    } else {
        let test = collect_chars(line);
        if test.len() > 1 {
            MenuReply::OnlyOneNumber
        } else {
            if test.len() == 0 {
                assert(MENU_REJECTS@.subrange(0, 0) =~= lower@);
                assert(occurs_at(MENU_REJECTS@, lower@, 0));
            }
            MenuReply::Chosen(test[0])
        }
    }
}

/// The radius prompt's answer to a typed (already trimmed) line.
#[derive(Clone, Copy, Debug, PartialEq, Eq, Structural)]
pub enum RadiusReply {
    /// The radius to use.
    Radius(i32),
    /// The line is a piece of the rejected text: "Only Numbers".
    OnlyNumbers,
    /// The line is no `i32` in decimal.
    NotANumber,
}

/// The radius prompt's answer to the trimmed line `temp_r`: an empty line
/// means `DEFAULT_RADIUS`; a piece of `RADIUS_REJECTS` (after lower-casing) is
/// refused; anything else is read as a decimal `i32` (after trimming).
pub fn radius_reply(temp_r: &str) -> (reply: RadiusReply)
    ensures
        temp_r@.len() == 0 ==> reply == RadiusReply::Radius(DEFAULT_RADIUS),
        temp_r@.len() > 0 && occurs_in(RADIUS_REJECTS@, lowercased(temp_r@)) ==> reply == RadiusReply::OnlyNumbers,
        temp_r@.len() > 0 && !occurs_in(RADIUS_REJECTS@, lowercased(temp_r@)) ==> reply == (match decimal(trimmed(temp_r@)) {
            Some(v) => if i32::MIN <= v <= i32::MAX { RadiusReply::Radius(v as i32) } else { RadiusReply::NotANumber },
            None => RadiusReply::NotANumber,
        }),
{
    if temp_r.is_empty() {
        RadiusReply::Radius(DEFAULT_RADIUS)
    } else {
        let lower = to_lowercase(temp_r);
        if contains(RADIUS_REJECTS, lower.as_str()) {
            RadiusReply::OnlyNumbers
        } else {
            match parse_i32(trim_str(temp_r)) {
                Some(radius) => RadiusReply::Radius(radius),
                None => RadiusReply::NotANumber,
            }
        }
    }
}

} // verus!
