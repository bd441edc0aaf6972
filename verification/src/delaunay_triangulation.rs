//! A true 2-D convolution of 3x3 integer matrices: the kernel is turned by
//! 180 degrees before it is laid over the matrix.

use vstd::prelude::*;

verus! {

/// The product at row-major position `i` (0..9) of the turned kernel and the matrix.
pub open spec fn flip_term(kernel: [[i32; 3]; 3], test: [[i32; 3]; 3], i: int) -> int {
    kernel[2 - i / 3][2 - i % 3] as int * test[i / 3][i % 3] as int
}

/// The sum of the first `n` such products, in row-major order.
pub open spec fn flip_partial(kernel: [[i32; 3]; 3], test: [[i32; 3]; 3], n: int) -> int
    decreases n,
{
    if n <= 0 {
        0
    } else {
        flip_partial(kernel, test, n - 1) + flip_term(kernel, test, n - 1)
    }
}

/// The kernel turned by 180 degrees.
pub open spec fn rotate_half(k: [[i32; 3]; 3]) -> [[i32; 3]; 3] {
    [[k[2][2], k[2][1], k[2][0]], [k[1][2], k[1][1], k[1][0]], [k[0][2], k[0][1], k[0][0]]]
}

/// The sum of the products of corresponding entries of two 3x3 matrices.
pub open spec fn entrywise_sum(k: [[i32; 3]; 3], t: [[i32; 3]; 3]) -> int {
    k[0][0] * t[0][0] + k[0][1] * t[0][1] + k[0][2] * t[0][2]
        + k[1][0] * t[1][0] + k[1][1] * t[1][1] + k[1][2] * t[1][2]
        + k[2][0] * t[2][0] + k[2][1] * t[2][1] + k[2][2] * t[2][2]
}

/// The convolution of `test` with `kernel`: the entrywise product sum of the
/// turned kernel and the matrix.
pub open spec fn convolution_value(kernel: [[i32; 3]; 3], test: [[i32; 3]; 3]) -> int {
    entrywise_sum(rotate_half(kernel), test)
}

/// No product and no running sum of the convolution leaves the `i32` range.
pub open spec fn flip_fits(kernel: [[i32; 3]; 3], test: [[i32; 3]; 3]) -> bool {
    forall|i: int| 0 <= i < 9 ==> i32::MIN <= #[trigger] flip_term(kernel, test, i) <= i32::MAX
        && i32::MIN <= flip_partial(kernel, test, i + 1) <= i32::MAX
}

proof fn lemma_flip_partial_full(k: [[i32; 3]; 3], t: [[i32; 3]; 3])
    ensures
        flip_partial(k, t, 9) == convolution_value(k, t),
{
    reveal_with_fuel(flip_partial, 10);
}

/// The two Sobel kernels, as the edge detector uses them.
#[allow(dead_code)]
fn sobel() {
    let _gx: [[i32; 3]; 3] = [[-1, 0, 1], [-2, 0, 2], [-1, 0, 1]];
    let _gy: [[i32; 3]; 3] = [[-1, -2, -1], [0, 0, 0], [1, 2, 1]];
}

/// The convolution of `test` with the kernel `gx_y`: each entry of `test`
/// is multiplied by the kernel entry at the mirrored position, and the products
/// are summed.
pub fn convolution(gx_y: [[i32; 3]; 3], test: [[i32; 3]; 3]) -> (sum: i32)
    requires
        flip_fits(gx_y, test),
    ensures
        sum == convolution_value(gx_y, test),
{
    let mut sum: i32 = 0;
    let mut y: usize = 0;
    while y < 3
        invariant
            0 <= y <= 3,
            flip_fits(gx_y, test),
            sum == flip_partial(gx_y, test, 3 * y as int),
        decreases 3 - y,
    {
        let mut x: usize = 0;
        while x < 3
            invariant
                0 <= y < 3,
                0 <= x <= 3,
                flip_fits(gx_y, test),
                sum == flip_partial(gx_y, test, 3 * y + x),
            decreases 3 - x,
        {
            proof {
                let i = 3 * y + x;
                assert(i / 3 == y && i % 3 == x);
                assert(i32::MIN <= flip_term(gx_y, test, i) <= i32::MAX);
            }
            let temp = gx_y[3 - 1 - y][3 - 1 - x] * test[y][x];
            sum += temp;
            x += 1;
        }
        y += 1;
    }
    proof {
        lemma_flip_partial_full(gx_y, test);
    }
    sum
}

/// Turning the kernel twice gives it back, so convolving with the turned
/// kernel is the plain entrywise product sum with the kernel as given.
pub proof fn lemma_rotate_twice(k: [[i32; 3]; 3], t: [[i32; 3]; 3])
    ensures
        convolution_value(rotate_half(k), t) == entrywise_sum(k, t),
{
}

} // verus!
