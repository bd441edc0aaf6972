use image_manipulation::read_video::upsample_chroma;
use image_manipulation::compute_shader::workgroup_counts;
use image_manipulation::image_shader::{align_to_multiple, padded_layout};
use image_manipulation::read_video::{self, div_ceil, read_video, uv_index, yuv420p_plane_sizes};

#[test]
fn alignment_rounds_up_to_the_multiple() {
    assert_eq!(align_to_multiple(100, 64), 128);
    assert_eq!(align_to_multiple(128, 64), 128);
    assert_eq!(align_to_multiple(0, 64), 0);
    assert_eq!(align_to_multiple(1, 1), 1);
    // not a power of two: the mask arithmetic, as written
    assert_eq!(align_to_multiple(5, 6), 10);
    assert_eq!(read_video::align_to_multiple(65, 64), 128);
}

#[test]
fn padded_layout_of_an_image() {
    let l = padded_layout(100, 50);
    assert_eq!(l.padded_width, 128);
    assert_eq!(l.padded_height, 64);
    assert_eq!(l.padded_size, 128);
    assert_eq!(l.buffer_size, 65536);
    let l = padded_layout(64, 640);
    assert_eq!((l.padded_width, l.padded_height, l.padded_size, l.buffer_size), (64, 640, 640, 1_638_400));
}

#[test]
fn division_rounding_up() {
    assert_eq!(div_ceil(7, 2), 4);
    assert_eq!(div_ceil(8, 2), 4);
    assert_eq!(div_ceil(0, 3), 0);
    assert_eq!(div_ceil(1, 1), 1);
}

#[test]
fn yuv_planes() {
    assert_eq!(yuv420p_plane_sizes(5, 3), (15, 6));
    assert_eq!(yuv420p_plane_sizes(4, 4), (16, 4));
    assert_eq!(uv_index(4, 2, 5, 3), 4);
    assert_eq!(uv_index(0, 0, 5, 3), 0);
    assert_eq!(uv_index(3, 3, 4, 4), 3);
}

#[test]
fn dispatch_sizes() {
    assert_eq!(workgroup_counts(1000, true), (8, 1, 1));
    assert_eq!(workgroup_counts(1024, true), (8, 1, 1));
    assert_eq!(workgroup_counts(0, true), (0, 1, 1));
    assert_eq!(workgroup_counts(1000, false), (65535, 0, 1));
    assert_eq!(workgroup_counts(200_000, false), (65535, 3, 1));
}

#[test]
fn the_video_job() {
    assert_eq!(read_video(), ("tests/Drone.mp4", "tests/Drone_result.mp4"));
}

#[test]
fn chroma_spread_to_full_resolution() {
    let plane = vec![10, 11, 12, 13, 14, 15];
    assert_eq!(
        upsample_chroma(&plane, 5, 3),
        vec![10, 10, 11, 11, 12, 10, 10, 11, 11, 12, 12, 12, 13, 13, 14]
    );
    assert_eq!(upsample_chroma(&vec![1, 2, 3, 4], 4, 4), vec![1, 1, 2, 2, 1, 1, 2, 2, 3, 3, 4, 4, 3, 3, 4, 4]);
}
