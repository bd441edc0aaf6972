//! The integer half of the Sobel edge detector: 3x3 kernel responses of a
//! grayscale buffer. Gradient magnitude, direction and non-maximum
//! suppression work on `f32` values and stay with the caller.

use vstd::prelude::*;

verus! {

/// The product of kernel and matrix entries at row-major position `i` (0..9).
pub open spec fn conv_term(kernel: [[i32; 3]; 3], matrix: [[u8; 3]; 3], i: int) -> int {
    kernel[i / 3][i % 3] as int * matrix[i / 3][i % 3] as int
}

/// The sum of the first `n` terms, in row-major order.
pub open spec fn conv_partial(kernel: [[i32; 3]; 3], matrix: [[u8; 3]; 3], n: int) -> int
    decreases n,
{
    if n <= 0 {
        0
    } else {
        conv_partial(kernel, matrix, n - 1) + conv_term(kernel, matrix, n - 1)
    }
}

/// The response of a kernel to a 3x3 neighbourhood: the sum of the products
/// of corresponding entries.
pub open spec fn kernel_response(k: [[i32; 3]; 3], m: [[u8; 3]; 3]) -> int {
    k[0][0] * m[0][0] + k[0][1] * m[0][1] + k[0][2] * m[0][2]
        + k[1][0] * m[1][0] + k[1][1] * m[1][1] + k[1][2] * m[1][2]
        + k[2][0] * m[2][0] + k[2][1] * m[2][1] + k[2][2] * m[2][2]
}

/// Summing all nine terms in row-major order gives the kernel response.
pub proof fn lemma_conv_partial_full(k: [[i32; 3]; 3], m: [[u8; 3]; 3])
    ensures
        conv_partial(k, m, 9) == kernel_response(k, m),
{
    reveal_with_fuel(conv_partial, 10);
}

/// No product and no running sum of the convolution leaves the `i32` range.
pub open spec fn conv_fits(k: [[i32; 3]; 3], m: [[u8; 3]; 3]) -> bool {
    forall|i: int| 0 <= i < 9 ==> i32::MIN <= #[trigger] conv_term(k, m, i) <= i32::MAX
        && i32::MIN <= conv_partial(k, m, i + 1) <= i32::MAX
}

/// The response of `kernel` to `matrix`.
pub fn convolution(kernel: [[i32; 3]; 3], matrix: [[u8; 3]; 3]) -> (sum: i32)
    requires
        conv_fits(kernel, matrix),
    ensures
        sum == kernel_response(kernel, matrix),
{
    let mut sum: i32 = 0;
    let mut y: usize = 0;
    while y < 3
        invariant
            0 <= y <= 3,
            conv_fits(kernel, matrix),
            sum == conv_partial(kernel, matrix, 3 * y as int),
        decreases 3 - y,
    {
        let mut x: usize = 0;
        while x < 3
            invariant
                0 <= y < 3,
                0 <= x <= 3,
                conv_fits(kernel, matrix),
                sum == conv_partial(kernel, matrix, 3 * y + x),
            decreases 3 - x,
        {
            proof {
                let i = 3 * y + x;
                assert(i / 3 == y && i % 3 == x);
                assert(i32::MIN <= conv_term(kernel, matrix, i) <= i32::MAX);
            }
            sum += kernel[y][x] * matrix[y][x] as i32;
            x += 1;
        }
        y += 1;
    }
    proof {
        lemma_conv_partial_full(kernel, matrix);
    }
    sum
}

/// The horizontal Sobel kernel.
pub open spec fn sobel_gx() -> [[i32; 3]; 3] {
    [[-1i32, 0, 1], [-2i32, 0, 2], [-1i32, 0, 1]]
}

/// The vertical Sobel kernel.
pub open spec fn sobel_gy() -> [[i32; 3]; 3] {
    [[-1i32, -2i32, -1i32], [0, 0, 0], [1, 2, 1]]
}

/// Both Sobel kernels stay far inside the `i32` range on any 8-bit neighbourhood.
proof fn lemma_sobel_fits(m: [[u8; 3]; 3])
    ensures
        conv_fits(sobel_gx(), m),
        conv_fits(sobel_gy(), m),
{
    let gx = sobel_gx();
    let gy = sobel_gy();
    assert forall|i: int, j: int| 0 <= i < 3 && 0 <= j < 3 implies -2 <= #[trigger] gx[i][j] <= 2 by {}
    assert forall|i: int, j: int| 0 <= i < 3 && 0 <= j < 3 implies -2 <= #[trigger] gy[i][j] <= 2 by {}
    lemma_kernel_fits(gx, m);
    lemma_kernel_fits(gy, m);
}

/// A kernel whose entries lie in `[-2, 2]` stays far inside the `i32` range.
proof fn lemma_kernel_fits(k: [[i32; 3]; 3], m: [[u8; 3]; 3])
    requires
        forall|i: int, j: int| 0 <= i < 3 && 0 <= j < 3 ==> -2 <= #[trigger] k[i][j] <= 2,
    ensures
        conv_fits(k, m),
{
    assert forall|i: int| 0 <= i < 9 implies -510 <= #[trigger] conv_term(k, m, i) <= 510 by {
        let a = k[i / 3][i % 3] as int;
        let b = m[i / 3][i % 3] as int;
        assert(-2 <= a <= 2);
        assert(-510 <= a * b <= 510) by (nonlinear_arith)
            requires -2 <= a <= 2, 0 <= b <= 255;
    }
    assert forall|n: int| 0 <= n <= 9 implies -510 * n <= #[trigger] conv_partial(k, m, n) <= 510 * n by {
        lemma_partial_bound(k, m, n);
    }
    assert forall|i: int| 0 <= i < 9 implies i32::MIN <= #[trigger] conv_term(k, m, i) <= i32::MAX
        && i32::MIN <= conv_partial(k, m, i + 1) <= i32::MAX by {
        assert(-510 * (i + 1) <= conv_partial(k, m, i + 1) <= 510 * (i + 1));
    }
}

proof fn lemma_partial_bound(k: [[i32; 3]; 3], m: [[u8; 3]; 3], n: int)
    requires
        0 <= n <= 9,
        forall|i: int| 0 <= i < 9 ==> -510 <= #[trigger] conv_term(k, m, i) <= 510,
    ensures
        -510 * n <= conv_partial(k, m, n) <= 510 * n,
    decreases n,
{
    if n > 0 {
        lemma_partial_bound(k, m, n - 1);
        assert(-510 <= conv_term(k, m, n - 1) <= 510);
    }
}

/// The 3x3 neighbourhood of `(x, y)` in a row-major grayscale buffer of width `w`.
pub open spec fn neighbourhood(luma: Seq<u8>, w: int, x: int, y: int) -> [[u8; 3]; 3] {
    [
        [luma[(y - 1) * w + x - 1], luma[(y - 1) * w + x], luma[(y - 1) * w + x + 1]],
        [luma[y * w + x - 1], luma[y * w + x], luma[y * w + x + 1]],
        [luma[(y + 1) * w + x - 1], luma[(y + 1) * w + x], luma[(y + 1) * w + x + 1]],
    ]
}

/// Whether `(x, y)` is an inner pixel of a `w` by `h` image (not on its border).
pub open spec fn is_interior(w: int, h: int, x: int, y: int) -> bool {
    x > 0 && y > 0 && x < w - 1 && y < h - 1
}

/// The horizontal and vertical Sobel responses at `(x, y)`; `(0, 0)` on the border.
pub open spec fn sobel_at(luma: Seq<u8>, w: int, h: int, x: int, y: int) -> (i32, i32) {
    if is_interior(w, h, x, y) {
        let m = neighbourhood(luma, w, x, y);
        (kernel_response(sobel_gx(), m) as i32, kernel_response(sobel_gy(), m) as i32)
    } else {
        (0, 0)
    }
}

/// The Sobel responses of every pixel of a `width` by `height` grayscale image
/// stored row-major in `img_buffer`, in the same order; border pixels get `(0, 0)`.
pub fn sobel_gradients(img_buffer: &Vec<u8>, width: u32, height: u32) -> (gradient: Vec<(i32, i32)>)
    requires
        width * height <= u32::MAX,
        img_buffer@.len() == width * height,
    ensures
        gradient@.len() == width * height,
        forall|y: int, x: int| 0 <= y < height && 0 <= x < width ==>
            #[trigger] gradient@[y * (width as int) + x] == sobel_at(img_buffer@, width as int, height as int, x, y),
{
    let gx: [[i32; 3]; 3] = [[-1, 0, 1], [-2, 0, 2], [-1, 0, 1]];
    let gy: [[i32; 3]; 3] = [[-1, -2, -1], [0, 0, 0], [1, 2, 1]];
    assert(gx == sobel_gx());
    assert(gy == sobel_gy());

    let mut gradient: Vec<(i32, i32)> = Vec::new();
    let ghost luma = img_buffer@;
    let ghost w = width as int;
    let ghost h = height as int;

    let mut y: u32 = 0;
    while y < height
        invariant
            0 <= y <= height,
            width * height <= u32::MAX,
            luma == img_buffer@,
            luma.len() == width * height,
            w == width && h == height,
            gx == sobel_gx() && gy == sobel_gy(),
            gradient@.len() == y * width,
            forall|yy: int, xx: int| 0 <= yy < y && 0 <= xx < width ==>
                #[trigger] gradient@[yy * w + xx] == sobel_at(luma, w, h, xx, yy),
        decreases height - y,
    {
        let mut x: u32 = 0;
        while x < width
            invariant
                0 <= y < height,
                0 <= x <= width,
                width * height <= u32::MAX,
                luma == img_buffer@,
                luma.len() == width * height,
                w == width && h == height,
                gx == sobel_gx() && gy == sobel_gy(),
                gradient@.len() == y * width + x,
                forall|yy: int, xx: int| 0 <= yy < y && 0 <= xx < width ==>
                    #[trigger] gradient@[yy * w + xx] == sobel_at(luma, w, h, xx, yy),
                forall|xx: int| 0 <= xx < x ==>
                    #[trigger] gradient@[y * w + xx] == sobel_at(luma, w, h, xx, y as int),
            decreases width - x,
        {
            proof {
                assert((y as int) * w + x < w * h) by (nonlinear_arith)
                    requires 0 <= y < h, 0 <= x < w;
            }
            let ghost before = gradient@;
            if x > 0 && y > 0 && x < width - 1 && y < height - 1 {
                proof {
                    assert(((y + 1) as int) * w + x + 1 < w * h) by (nonlinear_arith)
                        requires 0 < y < h - 1, 0 < x < w - 1;
                    assert(((y - 1) as int) * w + x - 1 >= 0) by (nonlinear_arith)
                        requires 0 < y, 0 < x, w >= 0;
                    assert(((y - 1) as int) * w == y * w - w) by (nonlinear_arith);
                    assert(((y + 1) as int) * w == y * w + w) by (nonlinear_arith);
                }
                let img_matrix: [[u8; 3]; 3] = [
                    [img_buffer[((y - 1) * width + x - 1) as usize], img_buffer[((y - 1) * width + x) as usize], img_buffer[((y - 1) * width + x + 1) as usize]],
                    [img_buffer[(y * width + x - 1) as usize], img_buffer[(y * width + x) as usize], img_buffer[(y * width + x + 1) as usize]],
                    [img_buffer[((y + 1) * width + x - 1) as usize], img_buffer[((y + 1) * width + x) as usize], img_buffer[((y + 1) * width + x + 1) as usize]],
                ];
                proof {
                    assert(img_matrix == neighbourhood(luma, w, x as int, y as int));
                    lemma_sobel_fits(img_matrix);
                }
                let result_x = convolution(gx, img_matrix);
                let result_y = convolution(gy, img_matrix);
                gradient.push((result_x, result_y));
            } else {
                gradient.push((0, 0));
            }
            proof {
                assert forall|yy: int, xx: int| 0 <= yy < y && 0 <= xx < width implies
                    #[trigger] gradient@[yy * w + xx] == sobel_at(luma, w, h, xx, yy) by {
                    assert(yy * w + xx < y * w) by (nonlinear_arith)
                        requires 0 <= yy < y, 0 <= xx < w;
                    assert(gradient@[yy * w + xx] == before[yy * w + xx]);
                }
            }
            x += 1;
        }
        proof {
            assert forall|yy: int, xx: int| 0 <= yy < y + 1 && 0 <= xx < width implies
                #[trigger] gradient@[yy * w + xx] == sobel_at(luma, w, h, xx, yy) by {
                if yy == y {
                    assert(gradient@[y * w + xx] == sobel_at(luma, w, h, xx, y as int));
                }
            }
            assert((y + 1) as int * w == y * w + w) by (nonlinear_arith);
        }
        y += 1;
    }
    proof {
        assert(y == height);
        assert(height * width == width * height) by (nonlinear_arith);
    }
    gradient
}

/// The Sobel kernels do not respond to a flat region: on a neighbourhood whose
/// nine values are equal, both responses are zero.
pub proof fn lemma_sobel_flat(m: [[u8; 3]; 3])
    requires
        forall|i: int, j: int| 0 <= i < 3 && 0 <= j < 3 ==> #[trigger] m[i][j] == m[0][0],
    ensures
        kernel_response(sobel_gx(), m) == 0,
        kernel_response(sobel_gy(), m) == 0,
{
    assert(m[0][1] == m[0][0] && m[0][2] == m[0][0]);
    assert(m[1][0] == m[0][0] && m[1][1] == m[0][0] && m[1][2] == m[0][0]);
    assert(m[2][0] == m[0][0] && m[2][1] == m[0][0] && m[2][2] == m[0][0]);
    let gx = sobel_gx();
    let gy = sobel_gy();
    assert(gx[0][0] == -1 && gx[0][1] == 0 && gx[0][2] == 1);
    assert(gx[1][0] == -2 && gx[1][1] == 0 && gx[1][2] == 2);
    assert(gx[2][0] == -1 && gx[2][1] == 0 && gx[2][2] == 1);
    assert(gy[0][0] == -1 && gy[0][1] == -2 && gy[0][2] == -1);
    assert(gy[1][0] == 0 && gy[1][1] == 0 && gy[1][2] == 0);
    assert(gy[2][0] == 1 && gy[2][1] == 2 && gy[2][2] == 1);
}

/// The matrix mirrored along its main diagonal.
pub open spec fn transpose(m: [[u8; 3]; 3]) -> [[u8; 3]; 3] {
    [[m[0][0], m[1][0], m[2][0]], [m[0][1], m[1][1], m[2][1]], [m[0][2], m[1][2], m[2][2]]]
}

/// The vertical kernel is the horizontal one turned on its side: its response
/// to a neighbourhood is the horizontal response to the transposed neighbourhood.
pub proof fn lemma_sobel_transpose(m: [[u8; 3]; 3])
    ensures
        kernel_response(sobel_gy(), m) == kernel_response(sobel_gx(), transpose(m)),
{
}

/// At an inner pixel the horizontal response weighs the right column minus the
/// left one with weights 1, 2, 1 from top to bottom, and the vertical response
/// the bottom row minus the top one with weights 1, 2, 1 from left to right.
pub proof fn lemma_sobel_weights(luma: Seq<u8>, w: int, h: int, x: int, y: int)
    requires
        is_interior(w, h, x, y),
        luma.len() == w * h,
    ensures
        sobel_at(luma, w, h, x, y).0 == (luma[(y - 1) * w + x + 1] - luma[(y - 1) * w + x - 1])
            + 2 * (luma[y * w + x + 1] - luma[y * w + x - 1])
            + (luma[(y + 1) * w + x + 1] - luma[(y + 1) * w + x - 1]),
        sobel_at(luma, w, h, x, y).1 == (luma[(y + 1) * w + x - 1] - luma[(y - 1) * w + x - 1])
            + 2 * (luma[(y + 1) * w + x] - luma[(y - 1) * w + x])
            + (luma[(y + 1) * w + x + 1] - luma[(y - 1) * w + x + 1]),
{
    let m = neighbourhood(luma, w, x, y);
    let gx = sobel_gx();
    let gy = sobel_gy();
    assert(gx[0][0] == -1 && gx[0][1] == 0 && gx[0][2] == 1);
    assert(gx[1][0] == -2 && gx[1][1] == 0 && gx[1][2] == 2);
    assert(gx[2][0] == -1 && gx[2][1] == 0 && gx[2][2] == 1);
    assert(gy[0][0] == -1 && gy[0][1] == -2 && gy[0][2] == -1);
    assert(gy[1][0] == 0 && gy[1][1] == 0 && gy[1][2] == 0);
    assert(gy[2][0] == 1 && gy[2][1] == 2 && gy[2][2] == 1);
    lemma_sobel_in_range(m);
}

/// Both Sobel responses of a neighbourhood lie in `[-1020, 1020]`.
proof fn lemma_sobel_in_range(m: [[u8; 3]; 3])
    ensures
        -1020 <= kernel_response(sobel_gx(), m) <= 1020,
        -1020 <= kernel_response(sobel_gy(), m) <= 1020,
{
    let gx = sobel_gx();
    let gy = sobel_gy();
    assert(gx[0][0] == -1 && gx[0][1] == 0 && gx[0][2] == 1);
    assert(gx[1][0] == -2 && gx[1][1] == 0 && gx[1][2] == 2);
    assert(gx[2][0] == -1 && gx[2][1] == 0 && gx[2][2] == 1);
    assert(gy[0][0] == -1 && gy[0][1] == -2 && gy[0][2] == -1);
    assert(gy[1][0] == 0 && gy[1][1] == 0 && gy[1][2] == 0);
    assert(gy[2][0] == 1 && gy[2][1] == 2 && gy[2][2] == 1);
}

} // verus!
