use image_manipulation::delaunay_triangulation::convolution;

#[test]
fn it_works() {
    let gx = [[-1, 0, 1], [-2, 0, 2], [-1, 0, 1]];
    let gy = [[-1, -2, -1], [0, 0, 0], [1, 2, 1]];

    assert_eq!(convolution(gx, gy), 0);
}

#[test]
fn convolution_turns_the_kernel() {
    let k = [[1, 2, 3], [4, 5, 6], [7, 8, 9]];
    let corner = [[1, 0, 0], [0, 0, 0], [0, 0, 0]];
    assert_eq!(convolution(k, corner), 9);
    let ones = [[1, 1, 1], [1, 1, 1], [1, 1, 1]];
    assert_eq!(convolution(k, ones), 45);
    let t = [[1, 2, 3], [4, 5, 6], [7, 8, 9]];
    // 9*1 + 8*2 + 7*3 + 6*4 + 5*5 + 4*6 + 3*7 + 2*8 + 1*9
    assert_eq!(convolution(k, t), 165);
}
