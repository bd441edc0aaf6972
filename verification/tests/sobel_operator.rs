use image_manipulation::sobel_operator::{convolution, sobel_gradients};

const GX: [[i32; 3]; 3] = [[-1, 0, 1], [-2, 0, 2], [-1, 0, 1]];
const GY: [[i32; 3]; 3] = [[-1, -2, -1], [0, 0, 0], [1, 2, 1]];

#[test]
fn kernel_responses() {
    let m = [[1, 2, 3], [4, 5, 6], [7, 8, 9]];
    assert_eq!(convolution(GX, m), 8);
    assert_eq!(convolution(GY, m), 24);
    let flat = [[77, 77, 77], [77, 77, 77], [77, 77, 77]];
    assert_eq!(convolution(GX, flat), 0);
    assert_eq!(convolution(GY, flat), 0);
    let t = [[1, 4, 7], [2, 5, 8], [3, 6, 9]];
    assert_eq!(convolution(GY, m), convolution(GX, t));
}

#[test]
fn gradients_of_a_small_image() {
    let luma: Vec<u8> = (1..=9).collect();
    let g = sobel_gradients(&luma, 3, 3);
    assert_eq!(g.len(), 9);
    for (i, v) in g.iter().enumerate() {
        if i == 4 {
            assert_eq!(*v, (8, 24));
        } else {
            assert_eq!(*v, (0, 0));
        }
    }
}

#[test]
fn gradients_of_an_edge() {
    // a vertical edge: left half dark, right half bright
    let (w, h) = (4u32, 3u32);
    let luma: Vec<u8> = (0..w * h).map(|i| if i % w >= 2 { 255 } else { 0 }).collect();
    let g = sobel_gradients(&luma, w, h);
    assert_eq!(g[(w + 1) as usize], (1020, 0));
    assert_eq!(g[(w + 2) as usize], (1020, 0));
    assert_eq!(g[0], (0, 0));
    assert_eq!(g[(w + 3) as usize], (0, 0));
}

#[test]
fn gradients_of_a_flat_image_vanish() {
    let luma = vec![200u8; 25];
    assert!(sobel_gradients(&luma, 5, 5).iter().all(|&v| v == (0, 0)));
}
