# lumit_bridge

The verified core of the lumit/kiriko editor bridge, written in Verus.

- `src/` — the library, every function proved against its contract:
  - `pixels` — solid tiles, contain-fit geometry and the letterboxing
    bilinear resize of RGBA8 frames (exact integer arithmetic);
  - `media` — the footage probe cache the snapshot reads, the thumbnail
    cache and the box-filter downscaler;
  - `cancel` — the latest-wins render gate;
  - `ids`, `text` — UUID ids and blank-text checks;
  - `items`, `beats`, `effects`, `fxkeys`, `keybatch`, `recovery`,
    `selection` — the decisions behind the project-item and relink, marker,
    effect-stack, keyframe-channel, keyframe-batch, recovery-path and
    row-selection ops.
- `tests/` — scenario tests run against the compiled library.
- `app/` — the command surface and editor panels around the library: the
  document model, file and media I/O, floating-point colour and keyframe
  work, and egui drawing.
