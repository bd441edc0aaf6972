//! Size arithmetic for rendering an image through a fragment shader: the
//! output texture is padded to multiples of 64 pixels.

use vstd::prelude::*;

verus! {

/// Whether `a` is a power of two.
pub open spec fn is_pow2(a: u32) -> bool {
    a > 0 && a & ((a - 1) as u32) == 0
}

/// Rounding up with the mask trick: for a power-of-two `alignment`, the result
/// is the least multiple of `alignment` that is at least `value`.
pub proof fn lemma_align_pow2(value: u32, alignment: u32)
    requires
        is_pow2(alignment),
        value + alignment - 1 <= u32::MAX,
    ensures
        ({
            let r = ((value + alignment - 1) as u32) & !((alignment - 1) as u32);
            &&& r % alignment == 0
            &&& value <= r
            &&& r < value + alignment
        }),
{
    assert(({
        let r = ((value + alignment - 1) as u32) & !((alignment - 1) as u32);
        &&& r % alignment == 0
        &&& value <= r
        &&& r < value + alignment
    })) by (bit_vector)
        requires
            alignment > 0,
            alignment & ((alignment - 1) as u32) == 0,
            value + alignment - 1 <= 0xffff_ffff;
}

/// `value` rounded up with the mask `!(alignment - 1)`: for a power-of-two
/// `alignment`, the least multiple of `alignment` not below `value`.
pub fn align_to_multiple(value: u32, alignment: u32) -> (r: u32)
    requires
        alignment >= 1,
        value + alignment - 1 <= u32::MAX,
    ensures
        r == ((value + alignment - 1) as u32) & !((alignment - 1) as u32),
        is_pow2(alignment) ==> r % alignment == 0 && value <= r < value + alignment,
{
    proof {
        if is_pow2(alignment) {
            lemma_align_pow2(value, alignment);
        }
    }
    (value + (alignment - 1)) & !(alignment - 1)
}

/// The sizes of the padded output of a shader pass over an image.
pub struct PaddedLayout {
    /// The larger side, rounded up to a multiple of 64.
    pub padded_size: u32,
    /// The width, rounded up to a multiple of 64.
    pub padded_width: u32,
    /// The height, rounded up to a multiple of 64.
    pub padded_height: u32,
    /// Bytes of the read-back buffer: four per pixel of a `padded_size` square.
    pub buffer_size: u64,
}

/// The least multiple of 64 that is at least `v`.
pub open spec fn round_up_64(v: int) -> int {
    if v % 64 == 0 { v } else { v - v % 64 + 64 }
}

/// Rounding up to 64: the result is a multiple of 64, at least `v` and less
/// than `v + 64`.
pub proof fn lemma_round_up_64(v: int)
    requires
        v >= 0,
    ensures
        round_up_64(v) % 64 == 0,
        v <= round_up_64(v) < v + 64,
{
}

/// The padded output sizes of a shader pass over a `img_width` by `img_height`
/// image: each side and the larger side rounded up to a multiple of 64, and a
/// read-back buffer of four bytes per pixel of the padded square.
pub fn padded_layout(img_width: u32, img_height: u32) -> (layout: PaddedLayout)
    requires
        img_width + 63 <= u32::MAX,
        img_height + 63 <= u32::MAX,
        4 * round_up_64(if img_width >= img_height { img_width as int } else { img_height as int })
            * round_up_64(if img_width >= img_height { img_width as int } else { img_height as int }) <= u32::MAX,
    ensures
        layout.padded_width == round_up_64(img_width as int),
        layout.padded_height == round_up_64(img_height as int),
        layout.padded_size == round_up_64(if img_width >= img_height { img_width as int } else { img_height as int }),
        layout.buffer_size == 4 * layout.padded_size * layout.padded_size,
        layout.padded_width % 64 == 0 && img_width <= layout.padded_width < img_width + 64,
        layout.padded_height % 64 == 0 && img_height <= layout.padded_height < img_height + 64,
        layout.padded_size % 64 == 0,
        img_width <= layout.padded_size && img_height <= layout.padded_size,
        layout.padded_size < img_width + 64 || layout.padded_size < img_height + 64,
{
    assert(is_pow2(64)) by (bit_vector);
    let longest = img_width.max(img_height);
    let padded_size = align_to_multiple(longest, 64);
    let padded_width = align_to_multiple(img_width, 64);
    let padded_height = align_to_multiple(img_height, 64);
    proof {
        assert(padded_size == round_up_64(longest as int));
        assert(padded_width == round_up_64(img_width as int));
        assert(padded_height == round_up_64(img_height as int));
        assert(4 * padded_size * padded_size <= u32::MAX);
        assert(0 <= 4 * padded_size) by (nonlinear_arith);
        assert(4 * padded_size <= 4 * padded_size * padded_size) by (nonlinear_arith)
            requires padded_size >= 1 || padded_size == 0;
    }
    proof {
        lemma_round_up_64(img_width as int);
        lemma_round_up_64(img_height as int);
        lemma_round_up_64(longest as int);
    }
    let buffer_size = (4 * padded_size * padded_size) as u64;
    PaddedLayout { padded_size, padded_width, padded_height, buffer_size }
}

} // verus!
