use image_manipulation::image_model::RgbaCanvas;
use image_manipulation::line_art::{line_pixels, DRAW_OPACITY, REMOVE};
use image_manipulation::thread_art::{fresh_candidate, penalty_in_reach, thread_in_reach, thread_step};

fn grid(width: usize, height: usize) -> Vec<Vec<i16>> {
    (0..height)
        .map(|y| (0..width).map(|x| 10 * y as i16 + x as i16).collect())
        .collect()
}

fn blank(width: u32, height: u32) -> RgbaCanvas {
    RgbaCanvas::from_raw(width, height, vec![0u8; (4 * width * height) as usize]).unwrap()
}

#[test]
fn the_pixels_of_a_line() {
    assert_eq!(line_pixels(0, 0, 5, 2), vec![(0, 0), (1, 0), (2, 1), (3, 1), (4, 1), (5, 2)]);
    assert_eq!(line_pixels(2, 3, 2, 0), vec![(2, 3), (2, 2), (2, 1), (2, 0)]);
    assert_eq!(line_pixels(4, 4, 4, 4), vec![(4, 4)]);
}

#[test]
fn fresh_candidates() {
    assert!(fresh_candidate(3, 0, &vec![1, 2]));
    assert!(!fresh_candidate(0, 0, &vec![1, 2]));
    assert!(!fresh_candidate(2, 0, &vec![1, 2]));
    assert!(fresh_candidate(5, 1, &vec![]));
}

#[test]
fn lines_that_can_be_scored() {
    let g = grid(6, 3);
    assert!(penalty_in_reach(&g, (0, 0), (5, 2)));
    assert!(!penalty_in_reach(&g, (0, 0), (6, 2)));
    let mut big = vec![vec![i16::MAX; 70000]; 1];
    // 70000 * 32767 leaves i32
    assert!(!penalty_in_reach(&big, (0, 0), (69999, 0)));
    big[0].truncate(100);
    assert!(penalty_in_reach(&big, (0, 0), (99, 0)));
}

#[test]
fn threads_that_can_be_drawn() {
    let canvas = blank(6, 3);
    let mut g = grid(6, 3);
    assert!(thread_in_reach(&canvas, &g, (0, 0), (5, 2)));
    assert!(!thread_in_reach(&blank(5, 3), &g, (0, 0), (5, 2)));
    g[1][3] = i16::MAX - REMOVE + 1;
    assert!(!thread_in_reach(&canvas, &g, (0, 0), (5, 2)));
    g[1][3] = i16::MAX - REMOVE;
    assert!(thread_in_reach(&canvas, &g, (0, 0), (5, 2)));
}

#[test]
fn a_thread_goes_along_the_darkest_line() {
    let mut canvas = blank(6, 3);
    let mut g = grid(6, 3);
    let pins = vec![(0, 0), (5, 0), (5, 2), (0, 2)];
    // from (0, 0): to (5, 0) the values are 0..5, to (5, 2) and (0, 2) they are larger
    let next = thread_step(&mut canvas, &mut g, &pins, &vec![2, 1, 3], (0, 0));
    assert_eq!(next, Some((1, (5, 0))));
    assert_eq!(g[0], vec![REMOVE, 1 + REMOVE, 2 + REMOVE, 3 + REMOVE, 4 + REMOVE, 5 + REMOVE]);
    assert_eq!(g[1], vec![10, 11, 12, 13, 14, 15]);
    let raw = canvas.into_raw();
    assert_eq!(&raw[0..4], &[0, 0, 0, DRAW_OPACITY]);
    assert_eq!(&raw[20..24], &[0, 0, 0, DRAW_OPACITY]);
    assert_eq!(&raw[24..28], &[0, 0, 0, 0]);
}

#[test]
fn a_thread_that_cannot_be_chosen_leaves_everything() {
    let mut canvas = blank(6, 3);
    let mut g = grid(6, 3);
    let pins = vec![(0, 0), (5, 0), (9, 9)];
    assert_eq!(thread_step(&mut canvas, &mut g, &pins, &vec![1, 2], (0, 0)), None);
    assert_eq!(thread_step(&mut canvas, &mut g, &pins, &vec![1, 7], (0, 0)), None);
    assert_eq!(thread_step(&mut canvas, &mut g, &pins, &vec![], (0, 0)), None);
    assert_eq!(g, grid(6, 3));
    assert!(canvas.into_raw().iter().all(|&b| b == 0));
}

#[test]
fn a_chosen_thread_that_would_overflow_is_refused() {
    let pins = vec![(0, 0), (5, 0), (5, 2)];
    // the line to (5, 2) does not pass (3, 0)
    let mut canvas = blank(6, 3);
    let mut g = grid(6, 3);
    g[0][3] = i16::MAX;
    assert_eq!(thread_step(&mut canvas, &mut g, &pins, &vec![2], (0, 0)), Some((0, (5, 2))));
    // the line to (5, 0) does, and raising it there would leave i16
    let mut canvas = blank(6, 3);
    let mut g = grid(6, 3);
    g[0][3] = i16::MAX;
    let before = g.clone();
    assert_eq!(thread_step(&mut canvas, &mut g, &pins, &vec![1], (0, 0)), None);
    assert_eq!(g, before);
}
