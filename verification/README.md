# image_manipulation

Image effects built around a verified core.

- `src/` is the library, checked by Verus: line rasterisation and the
  string-art thread choice (`line_art`, `thread_art`), Sobel gradients and 3x3
  convolutions (`sobel_operator`, `delaunay_triangulation`), circle placement
  and disc painting for the circle-image effect (`circle_image`), the buffer
  and dispatch arithmetic of the GPU and video paths (`image_shader`,
  `compute_shader`, `read_video`), and the menus (`program_menu`,
  `text_input`). Images are held as an `image::RgbaImage` behind
  `image_model::RgbaCanvas`.
- `app/` is the program around it: file and terminal I/O, random choices,
  the GPU and video plumbing, and the effects whose arithmetic is in `f32`.
- `tests/` runs the library on concrete values.
