//! Planar YUV 4:2:0 layout arithmetic and the video job of the video path.
//! The colour conversions themselves work on `f32` values and stay with the
//! caller.

use vstd::prelude::*;

verus! {

/// `a / b` rounded up.
pub fn div_ceil(a: usize, b: usize) -> (q: usize)
    requires
        b > 0,
        a + b - 1 <= usize::MAX,
    ensures
        q == (a + b - 1) / (b as int),
        q * b >= a,
        q * b < a + b,
{
    proof {
        let q = (a + b - 1) / (b as int);
        assert(q * b >= a && q * b < a + b) by (nonlinear_arith)
            requires b > 0, a >= 0, q == (a + b - 1) / (b as int);
    }
    (a + (b - 1)) / b
}

/// The number of samples in each chroma plane of a `width` by `height` image:
/// one per 2x2 block, counting partial blocks at the edges.
pub open spec fn chroma_plane_len(width: int, height: int) -> int {
    ((width + 1) / 2) * ((height + 1) / 2)
}

/// The chroma sample that covers pixel `(x, y)`.
pub open spec fn chroma_index(width: int, x: int, y: int) -> int {
    (y / 2) * (width / 2) + x / 2
}

/// The sizes of the three planes of a `width` by `height` image in YUV 4:2:0:
/// the luma plane has one sample per pixel, each chroma plane one per 2x2 block.
pub fn yuv420p_plane_sizes(width: usize, height: usize) -> (sizes: (usize, usize))
    requires
        width * height <= usize::MAX,
        width + 1 <= usize::MAX,
        height + 1 <= usize::MAX,
    ensures
        sizes.0 == width * height,
        sizes.1 == chroma_plane_len(width as int, height as int),
{
    let uv_width = div_ceil(width, 2);
    let uv_height = div_ceil(height, 2);
    proof {
        if width > 0 && height > 0 {
            assert(uv_width <= width && uv_height <= height);
            assert(uv_width * uv_height <= width * height) by (nonlinear_arith)
                requires uv_width <= width, uv_height <= height, uv_width >= 0, uv_height >= 0;
        } else if width == 0 {
            assert(uv_width == 0);
            assert(uv_width * uv_height == 0) by (nonlinear_arith) requires uv_width == 0;
        } else {
            assert(uv_height == 0);
            assert(uv_width * uv_height == 0) by (nonlinear_arith) requires uv_height == 0;
        }
    }
    (width * height, uv_width * uv_height)
}

/// The chroma sample of pixel `(x, y)`, as the converter indexes it: row
/// `y / 2` of a plane `width / 2` samples wide. It always lies inside a chroma
/// plane of the image.
pub fn uv_index(x: usize, y: usize, width: usize, height: usize) -> (i: usize)
    requires
        x < width,
        y < height,
        width * height <= usize::MAX,
    ensures
        i == chroma_index(width as int, x as int, y as int),
        i < chroma_plane_len(width as int, height as int),
{
    proof {
        let (w, h, xx, yy) = (width as int, height as int, x as int, y as int);
        let wc = (w + 1) / 2;
        let hc = (h + 1) / 2;
        let w2 = w / 2;
        assert(xx / 2 <= wc - 1 && yy / 2 <= hc - 1 && w2 <= wc && w2 <= w && yy / 2 <= h);
        assert((yy / 2) * w2 <= (hc - 1) * wc) by (nonlinear_arith)
            requires 0 <= yy / 2 <= hc - 1, 0 <= w2 <= wc;
        assert((hc - 1) * wc + wc == hc * wc) by (nonlinear_arith);
        assert((yy / 2) * w2 <= h * w) by (nonlinear_arith)
            requires 0 <= yy / 2 <= h, 0 <= w2 <= w;
        assert(h * w == w * h) by (nonlinear_arith);
        assert(hc * wc <= w * h) by (nonlinear_arith)
            requires 0 <= wc <= w, 0 <= hc <= h;
    }
    (y / 2) * (width / 2) + (x / 2)
}

/// `value` rounded up with the mask `!(alignment - 1)`: for a power-of-two
/// `alignment`, the least multiple of `alignment` not below `value`.
pub fn align_to_multiple(value: u32, alignment: u32) -> (r: u32)
    requires
        alignment >= 1,
        value + alignment - 1 <= u32::MAX,
    ensures
        r == ((value + alignment - 1) as u32) & !((alignment - 1) as u32),
        crate::image_shader::is_pow2(alignment) ==> r % alignment == 0 && value <= r < value + alignment,
{
    proof {
        if crate::image_shader::is_pow2(alignment) {
            crate::image_shader::lemma_align_pow2(value, alignment);
        }
    }
    (value + (alignment - 1)) & !(alignment - 1)
}

/// The video this program reads, and where it writes the edge-detected result.
pub fn read_video() -> (job: (&'static str, &'static str))
    ensures
        job.0@ == "tests/Drone.mp4"@,
        job.1@ == "tests/Drone_result.mp4"@,
{
    ("tests/Drone.mp4", "tests/Drone_result.mp4")
}

/// A chroma plane spread back to full resolution: pixel `(x, y)` of the
/// `width` by `height` result takes the sample `uv_index(x, y)` covering it.
pub fn upsample_chroma(plane: &Vec<u8>, width: usize, height: usize) -> (full: Vec<u8>)
    requires
        width * height <= usize::MAX,
        forall|x: int, y: int| 0 <= x < width && 0 <= y < height ==> chroma_index(width as int, x, y) < plane@.len(),
    ensures
        full@.len() == width * height,
        forall|x: int, y: int| 0 <= x < width && 0 <= y < height ==>
            #[trigger] full@[y * (width as int) + x] == plane@[chroma_index(width as int, x, y)],
{
    let mut full_res_plane: Vec<u8> = Vec::new();
    let ghost w = width as int;
    let mut y: usize = 0;
    while y < height
        invariant
            0 <= y <= height,
            w == width,
            width * height <= usize::MAX,
            forall|x: int, y: int| 0 <= x < width && 0 <= y < height ==> chroma_index(w, x, y) < plane@.len(),
            full_res_plane@.len() == y * w,
            forall|xx: int, yy: int| 0 <= xx < width && 0 <= yy < y ==>
                #[trigger] full_res_plane@[yy * w + xx] == plane@[chroma_index(w, xx, yy)],
        decreases height - y,
    {
        let mut x: usize = 0;
        while x < width
            invariant
                0 <= y < height,
                0 <= x <= width,
                w == width,
                width * height <= usize::MAX,
                forall|x: int, y: int| 0 <= x < width && 0 <= y < height ==> chroma_index(w, x, y) < plane@.len(),
                full_res_plane@.len() == y * w + x,
                forall|xx: int, yy: int| 0 <= xx < width && 0 <= yy < y ==>
                    #[trigger] full_res_plane@[yy * w + xx] == plane@[chroma_index(w, xx, yy)],
                forall|xx: int| 0 <= xx < x ==>
                    #[trigger] full_res_plane@[y * w + xx] == plane@[chroma_index(w, xx, y as int)],
            decreases width - x,
        {
            let uv_index = uv_index(x, y, width, height);
            proof {
                assert(chroma_index(w, x as int, y as int) < plane@.len());
            }
            let ghost before = full_res_plane@;
            full_res_plane.push(plane[uv_index]);
            proof {
                assert forall|xx: int, yy: int| 0 <= xx < width && 0 <= yy < y implies
                    #[trigger] full_res_plane@[yy * w + xx] == plane@[chroma_index(w, xx, yy)] by {
                    assert(yy * w + xx < y * w) by (nonlinear_arith)
                        requires 0 <= yy < y, 0 <= xx < w;
                    assert(full_res_plane@[yy * w + xx] == before[yy * w + xx]);
                }
            }
            x += 1;
        }
        proof {
            assert forall|xx: int, yy: int| 0 <= xx < width && 0 <= yy < y + 1 implies
                #[trigger] full_res_plane@[yy * w + xx] == plane@[chroma_index(w, xx, yy)] by {
                if yy == y {
                    assert(full_res_plane@[y * w + xx] == plane@[chroma_index(w, xx, y as int)]);
                }
            }
            assert((y + 1) as int * w == y * w + w) by (nonlinear_arith);
        }
        y += 1;
    }
    proof {
        assert(height * w == width * height) by (nonlinear_arith)
            requires w == width;
    }
    full_res_plane
}

} // verus!
