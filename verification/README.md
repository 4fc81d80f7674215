# rhi

The host-side logic of a small Vulkan compute and render hardware interface, verified with
Verus: every function in `src/` carries a contract that Verus proves, except three small
wrappers around the standard library whose contracts Verus takes on trust, as their doc
comments say: `string_from_utf8` (`String::from_utf8`, in `colmap`), and
`u64_from_ne_bytes` and `u64_to_ne_bytes` (`u64::from_ne_bytes` and `u64::to_ne_bytes`,
in `dispatch`).

## Layout

- `src/` — the verified library.
  - Tiled-tensor layouts: `dim`, `shape`, `layout`, `major`, `tile_tensor`, with the laws of
    layouts in `layout_laws` and the arithmetic they rest on in `seqmath`.
  - Shader interfaces: `shader_type` (host type layouts and their checks against slangc's
    reflection), `shader_reflection`, `shader_parameter`, `kernel_check`, `vector`, `puzzles`.
  - The render graph: `render_graph` (passes, hazards, dependencies), `topo` (the
    breadth-first topological order), `barriers` (the barriers before each pass and the
    execution plan), `dispatch` (what enqueuing a dispatch, fill or copy declares).
  - Device bookkeeping: `arena` (generational ids), `permutation` (shader permutation
    indices), `descriptor_pool` (descriptor set caching and pool accounting), `timeline`
    (timeline semaphores, retire queues, frame rings), `frame_loop` (the decisions of a
    render loop), `surface` (device, surface format, present mode and extent choices).
  - COLMAP binary reconstructions: `colmap`.
- `tests/` — tests run against the compiled library.
- `app/` — the parts that touch the outside world: reading COLMAP files and reflection JSON
  from disk, and the Vulkan calls that carry out what the library decides.
