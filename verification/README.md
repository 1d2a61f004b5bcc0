# rotorvec

A vector index built on block-diagonal rotor quantization: vectors are
normalized, rotated by small per-block rotations (2D Givens, Cl(3,0) rotors,
quaternions, optionally after a signed Walsh-Hadamard pre-pass), quantized
to 2–4 bit Lloyd-Max codes and stored as bit planes.

## Layout

* `src/` — the library, verified with Verus. It holds everything of the
  index that is integer logic: bit-plane packing and the 4-bit blocked
  layout, the index store and its stable external ids, O(1) removal, the
  `.rv` / `.rvim` file formats, top-k selection over order-preserving score
  keys, the `u16` lane sums of the 4-bit lookup-table scorer, rotation
  kinds and the block layout of a rotation, the seeded Walsh signs, and
  the benchmark harness's argument parsing, dataset file parsing,
  ground-truth cache format and recall count. Norms and scores are `f32`
  values carried as their bit patterns.
* `app/` — the benchmark program and the floating-point side of the index
  (rotation matrices, encoding, scoring), which call into the library.
* `tests/` — tests of the library on concrete values.
