//! Image manipulation helpers: line rasterisation for string art, Sobel
//! gradients, circle placement for the circle-image effect, and the size
//! arithmetic behind the GPU and video paths.

pub mod image_model;
pub mod line_art;
pub mod thread_art;
pub mod program_menu;
pub mod sobel_operator;
pub mod text_input;
pub mod delaunay_triangulation;
pub mod circle_image;
pub mod compute_shader;
pub mod image_shader;
pub mod read_video;
