//! Block-diagonal rotor quantization index: the integer side of the
//! library, verified with Verus.
//!
//! * [`pack`] — bit-plane packing of quantized codes and the 4-bit blocked
//!   layout used by the lookup-table search kernel.
//! * [`index`] / [`id_map`] — the index and its stable external ids:
//!   stored codes and norms, appends, O(1) removal, search slot selection.
//! * [`io`] — the `.rv` and `.rvim` file formats as functions on bytes.
//! * [`search`] — top-k selection over order keys, the score key of an
//!   `f32`, and the `u16` lane sums of the 4-bit lookup-table scorer.
//! * [`rotor`] — rotation kinds, their tags and names, the block layout of
//!   a rotation, and the Walsh-Hadamard signs.
//! * [`wht`] — the power-of-two test and the seeded sign generator.
//! * [`text`] — character-level parsing and printing helpers.
//! * [`benchmark`] — the decision logic of the benchmark harness.
//!
//! Norms and scores are IEEE-754 `f32` values; the library carries them as
//! their bit patterns (`u32`) and never does floating-point arithmetic.
pub mod benchmark;
pub mod id_map;
pub mod index;
pub mod io;
pub mod pack;
pub mod rotor;
pub mod search;
pub mod text;
pub mod wht;

pub use id_map::IdMapIndex;
pub use index::RotorQuantIndex;
pub use rotor::Rotation;

use vstd::prelude::*;

verus! {

/// Default rotor seed. Two indices with the same `(dim, rotation, seed)`
/// produce bit-identical block matrices.
pub const DEFAULT_ROTOR_SEED: u64 = 0x0707_04EC_u64;

/// Default rotation kind: Cl(3,0) rotors.
pub const DEFAULT_ROTATION: Rotation = Rotation::Rotor3;

/// Number of vectors that share one block of the 4-bit blocked layout.
pub const BLOCK: usize = 32;

/// Byte-groups the 4-bit scorer adds into its `u16` lanes between two
/// flushes to floating point: each group adds at most 255, so 256 groups
/// stay below 65536.
pub const FLUSH_EVERY: usize = 256;

} // verus!
