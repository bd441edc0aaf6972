use image_manipulation::circle_image::{
    add_circle, complex_params, menu_reply, paint_disc, place_circle, radius_reply, search_cells,
    Circle, MenuReply, RadiusReply,
};
use image_manipulation::image_model::RgbaCanvas;

fn blank(width: u32, height: u32) -> RgbaCanvas {
    RgbaCanvas::from_raw(width, height, vec![0u8; (4 * width * height) as usize]).unwrap()
}

fn painted(raw: &[u8], width: u32, x: u32, y: u32) -> bool {
    let i = (4 * (y * width + x)) as usize;
    raw[i..i + 4] != [0, 0, 0, 0]
}

#[test]
fn radius_limit_and_grid() {
    assert_eq!(complex_params((600, 400), 5), (10, 20));
    assert_eq!(complex_params((600, 400), 30), (30, 6));
    assert_eq!(complex_params((50, 80), 10), (10, 2));
}

#[test]
fn the_searched_cells() {
    let cells = search_cells(10, 20, (100, 100), 5);
    assert_eq!(
        cells,
        vec![(0, 0), (0, 1), (0, 2), (1, 0), (1, 1), (1, 2), (2, 0), (2, 1), (2, 2)]
    );
}

#[test]
fn a_disc_that_fits() {
    let mut img = blank(7, 7);
    paint_disc(&mut img, 3, 3, 2, (7, 7), [9, 9, 9, 9]);
    let raw = img.into_raw();
    for y in 0..7u32 {
        for x in 0..7u32 {
            let dx = x as i32 - 3;
            let dy = y as i32 - 3;
            assert_eq!(painted(&raw, 7, x, y), dx * dx + dy * dy < 4, "pixel ({}, {})", x, y);
        }
    }
    assert_eq!(raw.iter().filter(|&&b| b == 9).count(), 9 * 4);
}

#[test]
fn a_disc_that_does_not_fit_is_not_painted() {
    let mut img = blank(7, 7);
    paint_disc(&mut img, 1, 3, 2, (7, 7), [9, 9, 9, 9]);
    paint_disc(&mut img, 3, 6, 2, (7, 7), [9, 9, 9, 9]);
    assert!(img.into_raw().iter().all(|&b| b == 0));
}

#[test]
fn a_disc_touching_the_edge_fits() {
    let mut img = blank(4, 4);
    paint_disc(&mut img, 2, 2, 2, (4, 4), [1, 1, 1, 1]);
    let raw = img.into_raw();
    assert!(painted(&raw, 4, 2, 2));
    assert!(painted(&raw, 4, 1, 1));
    assert!(!painted(&raw, 4, 0, 0));
    assert!(!painted(&raw, 4, 0, 2));
}

#[test]
fn placing_circles() {
    let mut circles: Vec<Vec<Vec<Circle>>> = vec![vec![vec![]; 10]; 10];
    let mut img = blank(10, 10);
    add_circle(&mut circles, 7, 8, 1, (10, 10), 3);
    assert_eq!(circles[0][0], vec![((7, 8), 1)]);

    assert!(!place_circle(&mut circles, &mut img, 5, 5, -1, (10, 10), 3, [4, 4, 4, 4]));
    assert_eq!(circles[0][0].len(), 1);

    assert!(place_circle(&mut circles, &mut img, 5, 5, 3, (10, 10), 3, [4, 4, 4, 4]));
    assert_eq!(circles[0][0], vec![((7, 8), 1), ((5, 5), 3)]);
    let raw = img.into_raw();
    assert!(painted(&raw, 10, 5, 5));
    assert!(painted(&raw, 10, 3, 5));
    assert!(!painted(&raw, 10, 2, 5));
}

#[test]
fn effect_menu_replies() {
    assert_eq!(menu_reply("1\n"), MenuReply::Chosen('1'));
    assert_eq!(menu_reply("  2 "), MenuReply::Chosen('2'));
    assert_eq!(menu_reply("5\n"), MenuReply::OnlyOneOrTwo);
    assert_eq!(menu_reply("A"), MenuReply::OnlyOneOrTwo);
    assert_eq!(menu_reply("\n"), MenuReply::OnlyOneOrTwo);
    assert_eq!(menu_reply("12\n"), MenuReply::OnlyOneNumber);
    assert_eq!(menu_reply("é"), MenuReply::Chosen('é'));
}

#[test]
fn radius_prompt_replies() {
    assert_eq!(radius_reply(""), RadiusReply::Radius(30));
    assert_eq!(radius_reply("25"), RadiusReply::Radius(25));
    assert_eq!(radius_reply("-7"), RadiusReply::Radius(-7));
    assert_eq!(radius_reply("abc"), RadiusReply::OnlyNumbers);
    assert_eq!(radius_reply("1.5"), RadiusReply::NotANumber);
    assert_eq!(radius_reply("99999999999"), RadiusReply::NotANumber);
}
