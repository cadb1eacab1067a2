# iced_waveform

A waveform plot for iced. `src/` is the verified library:

- `sample`: order of single-precision samples held as their bit patterns, with
  the NaN-ignoring minimum and maximum of `f32::min` / `f32::max`.
- `lod`: the level-of-detail pyramid of min/max spans and its range query.
- `state`: the interaction states and the reaction to each pointer event.
- `curve`, `viewport`, `error`: the curve's axis, the clip rectangle, errors.

`app/` holds the iced widget, shader program, GPU pipeline and the view state
kept in floating-point coordinates; it calls the library for the pyramid, the
interaction decisions and the clip rectangle.
