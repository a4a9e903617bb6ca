# isolated_layer

Bookkeeping for isolated drawing layers: parts of a scene that are drawn into textures of
their own, processed by effects, composited into what lies below them, and kept for later
frames while nothing that they were made from has changed.

The library in `src/` decides; it is written in Rust with contracts that Verus proves.

- `content`, `output_key`, `retained`, `retention_laws`: which pixels may be used again.
- `free_pool`, `pool`, `scratch`, `format`: textures that wait for their next use, and the
  memory that they take.
- `layer`, `batch`, `recording`, `drawing`: what was recorded, in exact paint order.
- `effect`, `evidence`, `effect_plan`, `blur`, `filters`, `kernel_cache`: effects, what they
  read, and the passes that they take.
- `context`, `capture`, `composition`, `region`, `geometry`, `rounding`, `float_bits`: where
  layers are captured and composited, pixel by pixel.
- `frame`, `traversal`, `commands`, `renderer`, `state`, `diagnostics`: one draw from its
  start to its end, and what outlasts it.
- `request`, `widget`, `root_target`, `screenshot`: what callers ask for.

Floating-point numbers are held as their bits. Arithmetic on them is done by the caller, who
passes it in as functions; comparing and rounding them is done here.

`app/` draws with wgpu: it owns the device and its textures and runs the steps that the
library plans. `tests/` runs the library.
