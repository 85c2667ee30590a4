# splattar

The verified core of a pipeline that turns walkthrough video into a
Gaussian-surfel model to explore: bitstream parsing, hardware decode planning,
GPU scheduling, model files, and the state machines of the viewers. It is
written in Verus; every function carries a contract that is proved.

- `src/` is the library. Video: `bitstream`, `h264`, `h265`, `hevc_demux`,
  `nvdec`, `nvdec_h265`, `mp4_reader`, `stream`, `reorder`, `keyframes`,
  `sharpness`. GPU: `context`, `buffers`, `prefix_sum`, `sort`, `profile`,
  `render`. Files: `ply`, `colmap`, `sh`. Training: `init`, `atlas`,
  `plane_sweep`, `ssim`. Poses: `pyramid`, `detect`, `pairwise`. Viewers:
  `windowed`, `overlay`, `frame_player`. Shared: `ordering`, `text`, `words`.
- `app/` performs what the library plans: files, Vulkan and wgpu devices,
  windows, and the floating-point arithmetic.
- `tests/` runs the library on concrete values.

Public proof functions state what holds of the library as a whole, such as
that the levels of the prefix sum compute an exclusive scan, that eight radix
passes sort stably, or that a written model reads back bit for bit.

Three functions are trusted: they call `bytemuck::bytes_of`,
`bytemuck::pod_collect_to_vec` and `String::from_utf8`. The doc comment of each
says what is taken from it.
