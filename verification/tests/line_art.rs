use image_manipulation::line_art::darkest_candidate;
use image_manipulation::image_model::RgbaCanvas;
use image_manipulation::line_art::{
    calulate_brightness_line, draw_generic_line, draw_line, draw_line_2, penalty, try_draw_line,
    DRAW_OPACITY, REMOVE,
};

fn grid(width: usize, height: usize, sign: i16) -> Vec<Vec<i16>> {
    (0..height)
        .map(|y| (0..width).map(|x| sign * (10 * y as i16 + x as i16)).collect())
        .collect()
}

fn blank(width: u32, height: u32) -> RgbaCanvas {
    RgbaCanvas::from_raw(width, height, vec![0u8; (4 * width * height) as usize]).unwrap()
}

fn pixel(raw: &[u8], width: u32, x: u32, y: u32) -> [u8; 4] {
    let i = (4 * (y * width + x)) as usize;
    [raw[i], raw[i + 1], raw[i + 2], raw[i + 3]]
}

const LINE: [(u32, u32); 6] = [(0, 0), (1, 0), (2, 1), (3, 1), (4, 1), (5, 2)];

#[test]
fn brightness_is_the_mean_along_the_line() {
    // pixels (0,0) (1,0) (2,1) (3,1) (4,1) (5,2): 0 + 1 + 12 + 13 + 14 + 25 = 65
    assert_eq!(calulate_brightness_line(0, 0, 5, 2, &grid(6, 3, 1)), 10);
    assert_eq!(calulate_brightness_line(5, 2, 5, 2, &grid(6, 3, 1)), 25);
}

#[test]
fn brightness_rounds_toward_zero() {
    assert_eq!(calulate_brightness_line(0, 0, 5, 2, &grid(6, 3, -1)), -10);
}

#[test]
fn penalty_credits_each_pixel() {
    // (65 - 50 * 6) / 6 = -235 / 6
    assert_eq!(penalty(0, 0, 5, 2, &grid(6, 3, 1)), -39);
    assert_eq!(penalty(0, 0, 5, 2, &grid(6, 3, -1)), -39);
    assert_eq!(penalty(2, 2, 2, 2, &vec![vec![0, 0, 0], vec![0, 0, 0], vec![0, 0, 500]]), 450);
}

#[test]
fn draw_line_colours_exactly_the_line() {
    let mut img = blank(6, 3);
    draw_line(&mut img, 0, 0, 5, 2, [1, 2, 3, 4]);
    let raw = img.into_raw();
    for y in 0..3 {
        for x in 0..6 {
            let expected = if LINE.contains(&(x, y)) { [1, 2, 3, 4] } else { [0, 0, 0, 0] };
            assert_eq!(pixel(&raw, 6, x, y), expected);
        }
    }
}

#[test]
fn draw_generic_line_runs_backwards_too() {
    let mut img = blank(6, 4);
    draw_generic_line(&mut img, 4, 1, 0, 3, [9, 9, 9, 9]);
    let raw = img.into_raw();
    let line = [(4, 1), (3, 1), (2, 2), (1, 2), (0, 3)];
    for y in 0..4 {
        for x in 0..6 {
            let expected = if line.contains(&(x, y)) { [9, 9, 9, 9] } else { [0, 0, 0, 0] };
            assert_eq!(pixel(&raw, 6, x, y), expected);
        }
    }
}

#[test]
fn draw_line_2_darkens_and_raises_once_per_pixel() {
    let mut img = blank(6, 3);
    let mut arr = grid(6, 3, 1);
    draw_line_2(&mut img, 0, 0, 5, 2, &mut arr);
    let raw = img.into_raw();
    for y in 0..3u32 {
        for x in 0..6u32 {
            let on_line = LINE.contains(&(x, y));
            let base = 10 * y as i16 + x as i16;
            assert_eq!(arr[y as usize][x as usize], if on_line { base + REMOVE } else { base });
            let expected = if on_line { [0, 0, 0, DRAW_OPACITY] } else { [0, 0, 0, 0] };
            assert_eq!(pixel(&raw, 6, x, y), expected);
        }
    }
}

#[test]
fn try_draw_line_refuses_lines_leaving_the_image() {
    let mut img = blank(4, 4);
    assert!(!try_draw_line(&mut img, 0, 0, 4, 2, [5, 5, 5, 5]));
    assert!(!try_draw_line(&mut img, -1, 0, 3, 3, [5, 5, 5, 5]));
    assert!(img.into_raw().iter().all(|&b| b == 0));

    let mut img = blank(4, 4);
    assert!(try_draw_line(&mut img, 0, 3, 3, 0, [5, 5, 5, 5]));
    let raw = img.into_raw();
    for y in 0..4u32 {
        for x in 0..4u32 {
            let expected = if x + y == 3 { [5, 5, 5, 5] } else { [0, 0, 0, 0] };
            assert_eq!(pixel(&raw, 4, x, y), expected);
        }
    }
}

#[test]
fn a_line_of_one_pixel() {
    let mut img = blank(3, 3);
    draw_line(&mut img, 1, 1, 1, 1, [7, 7, 7, 7]);
    let raw = img.into_raw();
    assert_eq!(pixel(&raw, 3, 1, 1), [7, 7, 7, 7]);
    assert_eq!(raw.iter().filter(|&&b| b == 7).count(), 4);
}

#[test]
fn darkest_candidate_takes_the_first_smallest_penalty() {
    let arr = grid(6, 3, 1);
    let pins = vec![(5, 2), (0, 2), (5, 0)];
    // penalties from (0, 0): -39, -40, -47
    assert_eq!(darkest_candidate((0, 0), &pins, &vec![0, 1, 2], &arr), 2);
    assert_eq!(darkest_candidate((0, 0), &pins, &vec![0, 1], &arr), 1);
    assert_eq!(darkest_candidate((0, 0), &pins, &vec![1, 1], &arr), 0);
    assert_eq!(darkest_candidate((0, 0), &pins, &vec![], &arr), 0);
}
