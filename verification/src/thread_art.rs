//! One thread of the pin-to-pin string art: among the drawn candidate pins,
//! the line from the current pin with the smallest penalty is chosen and
//! drawn, and its end becomes the next pin. The random drawing of the
//! candidates is done by the caller, which asks `fresh_candidate` whether a
//! drawn pin may join them.

use vstd::prelude::*;
use crate::image_model::{RgbaCanvas, canvas_pixels, canvas_size, in_image};
use crate::line_art::{
    darkest_candidate, draw_line_2, grid_view, in_grid, lemma_abs_sum_prefix, line_abs_sum, line_in_grid,
    line_in_image, line_pixels, line_points, paint, bump, penalty_ok, pixels_match, is_darkest, candidate_score,
    lemma_line_properties, thread_penalty, DRAW_OPACITY, REMOVE,
};

verus! {

/// Whether a drawn pin may join the candidates: it is not the current pin's
/// number and has not been drawn before.
pub fn fresh_candidate(temp_pin_num: usize, pin_num: usize, pin_nums: &Vec<usize>) -> (fresh: bool)
    ensures
        fresh == (temp_pin_num != pin_num && !pin_nums@.contains(temp_pin_num)),
{
    if temp_pin_num == pin_num {
        return false;
    }
    let mut i: usize = 0;
    while i < pin_nums.len()
        invariant
            0 <= i <= pin_nums@.len(),
            forall|k: int| 0 <= k < i ==> pin_nums@[k] != temp_pin_num,
        decreases pin_nums@.len() - i,
    {
        if pin_nums[i] == temp_pin_num {
            return false;
        }
        i += 1;
    }
    true
}

/// A line between pins is the same whether its coordinates are read as
/// `u32` or as `i64`.
proof fn lemma_same_line(a: (u32, u32), b: (u32, u32))
    ensures
        line_points(a.0 as i64 as int, a.1 as i64 as int, b.0 as i64 as int, b.1 as i64 as int)
            == line_points(a.0 as int, a.1 as int, b.0 as int, b.1 as int),
{
    assert(a.0 as i64 as int == a.0 as int && a.1 as i64 as int == a.1 as int);
    assert(b.0 as i64 as int == b.0 as int && b.1 as i64 as int == b.1 as int);
}

/// Whether `penalty` can score the line from `a` to `b` on the grid: every
/// pixel lies in the grid and the sums stay within `i32`.
pub fn penalty_in_reach(arr: &Vec<Vec<i16>>, a: (u32, u32), b: (u32, u32)) -> (ok: bool)
    ensures
        ok == penalty_ok(grid_view(arr), a, b),
{
    let ghost s = grid_view(arr);
    let ghost pts = line_points(a.0 as int, a.1 as int, b.0 as int, b.1 as int);
    proof {
        lemma_same_line(a, b);
        lemma_line_properties(a.0 as int, a.1 as int, b.0 as int, b.1 as int);
    }
    let pixels = line_pixels(a.0 as i64, a.1 as i64, b.0 as i64, b.1 as i64);
    if pixels.len() > 42949672 {
        return false;
    }
    proof {
        assert(pts.take(0) =~= Seq::<(int, int)>::empty());
    }
    let mut sum: i32 = 0;
    let mut i: usize = 0;
    while i < pixels.len()
        invariant
            pixels_match(pixels@, pts),
            pts == line_points(a.0 as int, a.1 as int, b.0 as int, b.1 as int),
            s == grid_view(arr),
            REMOVE * pts.len() <= i32::MAX,
            0 <= i <= pts.len(),
            forall|k: int| 0 <= k < i ==> in_grid(s, #[trigger] pts[k]),
            0 <= sum,
            sum == line_abs_sum(s, pts.take(i as int)),
        decreases pixels.len() - i,
    {
        let (x, y) = pixels[i];
        proof {
            lemma_same_line(a, b);
            lemma_line_properties(a.0 as int, a.1 as int, b.0 as int, b.1 as int);
            assert((x as int, y as int) == pts[i as int]);
            assert(0 <= x <= u32::MAX && 0 <= y <= u32::MAX);
        }
        if x < 0 || y < 0 || y as usize >= arr.len() || x as usize >= arr[y as usize].len() {
            assert(!in_grid(s, pts[i as int]));
            return false;
        }
        let v: i32 = arr[y as usize][x as usize] as i32;
        let av: i32 = if v < 0 { -v } else { v };
        proof {
            assert(pts.take(i + 1).drop_last() =~= pts.take(i as int));
            assert(pts.take(i + 1).last() == pts[i as int]);
            assert(s[y as int][x as int] == arr@[y as int]@[x as int]);
            assert(line_abs_sum(s, pts.take(i + 1)) == sum + av);
        }
        if sum > i32::MAX - av {
            proof {
                lemma_abs_sum_prefix(s, pts, i + 1);
            }
            return false;
        }
        sum = sum + av;
        i += 1;
    }
    assert(pts.take(pts.len() as int) =~= pts);
    true
}

/// What `draw_line_2` needs of the thread from `a` to `b`: every pixel of the
/// line lies in the image and in the grid, and raising it by `REMOVE` stays
/// within `i16`.
pub open spec fn thread_ok(size: (u32, u32), s: Seq<Seq<i16>>, a: (u32, u32), b: (u32, u32)) -> bool {
    let pts = line_points(a.0 as int, a.1 as int, b.0 as int, b.1 as int);
    &&& line_in_image(size, a.0 as i64, a.1 as i64, b.0 as i64, b.1 as i64)
    &&& line_in_grid(s, a.0 as i64, a.1 as i64, b.0 as i64, b.1 as i64)
    &&& forall|i: int| 0 <= i < pts.len() ==> s[(#[trigger] pts[i]).1][pts[i].0] + REMOVE <= i16::MAX
}

/// Whether `draw_line_2` can draw the thread from `a` to `b`.
pub fn thread_in_reach(img: &RgbaCanvas, arr: &Vec<Vec<i16>>, a: (u32, u32), b: (u32, u32)) -> (ok: bool)
    ensures
        ok == thread_ok(canvas_size(*img), grid_view(arr), a, b),
{
    let ghost s = grid_view(arr);
    let ghost size = canvas_size(*img);
    let ghost pts = line_points(a.0 as int, a.1 as int, b.0 as int, b.1 as int);
    proof {
        lemma_same_line(a, b);
        lemma_line_properties(a.0 as int, a.1 as int, b.0 as int, b.1 as int);
    }
    let width = img.width();
    let height = img.height();
    let pixels = line_pixels(a.0 as i64, a.1 as i64, b.0 as i64, b.1 as i64);
    let mut i: usize = 0;
    while i < pixels.len()
        invariant
            pixels_match(pixels@, pts),
            pts == line_points(a.0 as int, a.1 as int, b.0 as int, b.1 as int),
            s == grid_view(arr),
            size == (width, height),
            size == canvas_size(*img),
            0 <= i <= pts.len(),
            forall|k: int| 0 <= k < i ==> in_grid(s, #[trigger] pts[k]),
            forall|k: int| 0 <= k < i ==> in_image(size, (#[trigger] pts[k]).0, pts[k].1),
            forall|k: int| 0 <= k < i ==> s[(#[trigger] pts[k]).1][pts[k].0] + REMOVE <= i16::MAX,
        decreases pixels.len() - i,
    {
        let (x, y) = pixels[i];
        proof {
            lemma_same_line(a, b);
            lemma_line_properties(a.0 as int, a.1 as int, b.0 as int, b.1 as int);
            assert((x as int, y as int) == pts[i as int]);
            assert(0 <= x <= u32::MAX && 0 <= y <= u32::MAX);
        }
        if x < 0 || y < 0 || x >= width as i64 || y >= height as i64 {
            assert(!in_image(size, pts[i as int].0, pts[i as int].1));
            return false;
        }
        if y as usize >= arr.len() || x as usize >= arr[y as usize].len() {
            assert(!in_grid(s, pts[i as int]));
            return false;
        }
        proof {
            assert(s[y as int][x as int] == arr@[y as int]@[x as int]);
        }
        if arr[y as usize][x as usize] > i16::MAX - REMOVE {
            return false;
        }
        i += 1;
    }
    true
}

/// The position of the darkest candidate.
pub open spec fn darkest(s: Seq<Seq<i16>>, pin: (u32, u32), pins: Seq<(u32, u32)>, pin_nums: Seq<usize>) -> int {
    choose|n: int| is_darkest(s, pin, pins, pin_nums, n)
}

/// At most one position is the darkest candidate.
pub proof fn lemma_darkest_unique(s: Seq<Seq<i16>>, pin: (u32, u32), pins: Seq<(u32, u32)>, pin_nums: Seq<usize>, n1: int, n2: int)
    requires
        is_darkest(s, pin, pins, pin_nums, n1),
        is_darkest(s, pin, pins, pin_nums, n2),
    ensures
        n1 == n2,
{
    if exists|j: int| 0 <= j < pin_nums.len() && #[trigger] candidate_score(s, pin, pins, pin_nums, j) < i32::MAX {
        if n1 < n2 {
            assert(candidate_score(s, pin, pins, pin_nums, n2) < candidate_score(s, pin, pins, pin_nums, n1));
            assert(candidate_score(s, pin, pins, pin_nums, n1) <= candidate_score(s, pin, pins, pin_nums, n2));
        } else if n2 < n1 {
            assert(candidate_score(s, pin, pins, pin_nums, n1) < candidate_score(s, pin, pins, pin_nums, n2));
            assert(candidate_score(s, pin, pins, pin_nums, n2) <= candidate_score(s, pin, pins, pin_nums, n1));
        }
    }
}

/// Whether a thread can be chosen at all: there are candidates, each names a
/// pin, and each candidate line can be scored.
pub open spec fn step_ready(s: Seq<Seq<i16>>, pin: (u32, u32), pins: Seq<(u32, u32)>, pin_nums: Seq<usize>) -> bool {
    &&& pin_nums.len() > 0
    &&& forall|i: int| 0 <= i < pin_nums.len() ==> #[trigger] pin_nums[i] < pins.len()
    &&& forall|i: int| 0 <= i < pin_nums.len() ==> penalty_ok(s, pin, pins[#[trigger] pin_nums[i] as int])
}

/// The pin the chosen thread ends at.
pub open spec fn chosen_pin(s: Seq<Seq<i16>>, pin: (u32, u32), pins: Seq<(u32, u32)>, pin_nums: Seq<usize>) -> (u32, u32) {
    pins[pin_nums[darkest(s, pin, pins, pin_nums)] as int]
}

/// One thread of the string art from `pin`: the darkest of the candidate lines
/// to `pins[pin_nums[i]]` is drawn with `draw_line_2`, and its position among
/// the candidates and its end pin are returned. When a candidate cannot be
/// scored, there is none, or the chosen thread cannot be drawn, nothing is
/// drawn and `None` comes back.
pub fn thread_step(
    img: &mut RgbaCanvas,
    arr: &mut Vec<Vec<i16>>,
    pins: &Vec<(u32, u32)>,
    pin_nums: &Vec<usize>,
    pin: (u32, u32),
) -> (next: Option<(usize, (u32, u32))>)
    ensures
        next is Some <==> step_ready(grid_view(old(arr)), pin, pins@, pin_nums@) && thread_ok(
            canvas_size(*old(img)),
            grid_view(old(arr)),
            pin,
            chosen_pin(grid_view(old(arr)), pin, pins@, pin_nums@),
        ),
        next is None ==> *final(img) == *old(img) && final(arr)@ == old(arr)@,
        next matches Some((num, to)) ==> {
            &&& num == darkest(grid_view(old(arr)), pin, pins@, pin_nums@)
            &&& to == chosen_pin(grid_view(old(arr)), pin, pins@, pin_nums@)
            &&& num < pin_nums@.len() && to == pins@[pin_nums@[num as int] as int]
            &&& forall|j: int| 0 <= j < pin_nums@.len() ==> thread_penalty(grid_view(old(arr)), pin, to)
                <= #[trigger] thread_penalty(grid_view(old(arr)), pin, pins@[pin_nums@[j] as int])
            &&& forall|j: int| 0 <= j < num ==> thread_penalty(grid_view(old(arr)), pin, to)
                < #[trigger] thread_penalty(grid_view(old(arr)), pin, pins@[pin_nums@[j] as int])
            &&& canvas_size(*final(img)) == canvas_size(*old(img))
            &&& canvas_pixels(*final(img)) == paint(
                canvas_pixels(*old(img)),
                line_points(pin.0 as int, pin.1 as int, to.0 as int, to.1 as int),
                [0, 0, 0, DRAW_OPACITY],
            )
            &&& grid_view(final(arr)) == bump(
                grid_view(old(arr)),
                line_points(pin.0 as int, pin.1 as int, to.0 as int, to.1 as int),
            )
        },
{
    let ghost s = grid_view(arr);
    if pin_nums.len() == 0 {
        return None;
    }
    let mut i: usize = 0;
    while i < pin_nums.len()
        invariant
            0 <= i <= pin_nums@.len(),
            s == grid_view(arr),
            forall|k: int| 0 <= k < i ==> #[trigger] pin_nums@[k] < pins@.len(),
            forall|k: int| 0 <= k < i ==> penalty_ok(s, pin, pins@[#[trigger] pin_nums@[k] as int]),
        decreases pin_nums@.len() - i,
    {
        if pin_nums[i] >= pins.len() {
            return None;
        }
        if !penalty_in_reach(arr, pin, pins[pin_nums[i]]) {
            return None;
        }
        i += 1;
    }
    let num = darkest_candidate(pin, pins, pin_nums, arr);
    proof {
        assert(is_darkest(s, pin, pins@, pin_nums@, num as int));
        lemma_darkest_unique(s, pin, pins@, pin_nums@, num as int, darkest(s, pin, pins@, pin_nums@));
    }
    let to = pins[pin_nums[num]];
    if !thread_in_reach(img, arr, pin, to) {
        return None;
    }
    draw_line_2(img, pin.0 as i64, pin.1 as i64, to.0 as i64, to.1 as i64, arr);
    Some((num, to))
}

} // verus!
