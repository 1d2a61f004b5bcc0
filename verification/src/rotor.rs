//! Block-rotation parameterizations.
//!
//! The rotation matrices themselves are floating point and are generated
//! outside this crate; what lives here is which family an index uses, its
//! block size, and its stable on-disk tag.
use vstd::prelude::*;

use crate::text::{
    chars_of, is_ascii_lowercase_of, lemma_lower_is_lowercase, lower_code, lower_equals, lower_is,
};
use crate::wht::{chacha8_bools, is_power_of_two, make_sign_vector};

verus! {

/// Which block-diagonal rotation family the index uses.
#[derive(Clone, Copy, Debug, PartialEq, Eq, Structural)]
pub enum Rotation {
    /// 2D Givens (PlanarQuant). Block size 2, 1 angle per group.
    Planar2,
    /// Cl(3,0) Clifford rotor (RotorQuant). Block size 3, 4 params per group.
    Rotor3,
    /// 4D quaternion left-iso rotation (IsoQuant). Block size 4.
    Iso4,
    /// Signed fast Walsh-Hadamard pre-pass followed by `Rotor3` block
    /// rotation. `dim` must be a power of two.
    WalshRotor3,
}

/// Block size of each rotation family.
pub open spec fn block_size_of(r: Rotation) -> usize {
    match r {
        Rotation::Planar2 => 2,
        Rotation::Rotor3 => 3,
        Rotation::Iso4 => 4,
        Rotation::WalshRotor3 => 3,
    }
}

/// Stable on-disk tag of each rotation family.
pub open spec fn rotation_tag(r: Rotation) -> u8 {
    match r {
        Rotation::Planar2 => 2,
        Rotation::Rotor3 => 3,
        Rotation::Iso4 => 4,
        Rotation::WalshRotor3 => 5,
    }
}

/// The rotation family a tag names, if any.
pub open spec fn rotation_of_tag(b: u8) -> Option<Rotation> {
    if b == 2 {
        Some(Rotation::Planar2)
    } else if b == 3 {
        Some(Rotation::Rotor3)
    } else if b == 4 {
        Some(Rotation::Iso4)
    } else if b == 5 {
        Some(Rotation::WalshRotor3)
    } else {
        None
    }
}

impl Rotation {
    /// Number of coordinates each block rotation acts on.
    pub fn block_size(self) -> (bs: usize)
        ensures
            bs == block_size_of(self),
    {
        match self {
            Rotation::Planar2 => 2,
            Rotation::Rotor3 => 3,
            Rotation::Iso4 => 4,
            Rotation::WalshRotor3 => 3,
        }
    }

    /// True iff this rotation kind applies a signed Walsh-Hadamard pre-pass
    /// (cross-block mixing) before the block-diagonal rotation.
    pub fn uses_walsh(self) -> (b: bool)
        ensures
            b == (self == Rotation::WalshRotor3),
    {
        match self {
            Rotation::WalshRotor3 => true,
            _ => false,
        }
    }

    /// Stable on-disk tag.
    pub fn as_byte(self) -> (b: u8)
        ensures
            b == rotation_tag(self),
    {
        match self {
            Rotation::Planar2 => 2,
            Rotation::Rotor3 => 3,
            Rotation::Iso4 => 4,
            Rotation::WalshRotor3 => 5,
        }
    }

    /// The rotation kind an on-disk tag names; `None` for unknown tags.
    pub fn from_byte(b: u8) -> (r: Option<Self>)
        ensures
            r == rotation_of_tag(b),
    {
        match b {
            2 => Some(Rotation::Planar2),
            3 => Some(Rotation::Rotor3),
            4 => Some(Rotation::Iso4),
            5 => Some(Rotation::WalshRotor3),
            _ => None,
        }
    }
}

/// Reading back the tag of a rotation kind gives that kind again.
pub proof fn lemma_rotation_tag_roundtrip(r: Rotation)
    ensures
        rotation_of_tag(rotation_tag(r)) == Some(r),
{
}

/// A tag that names a rotation kind is that kind's tag: no two kinds share
/// a tag and no other byte decodes.
pub proof fn lemma_rotation_tag_exact(b: u8)
    ensures
        rotation_of_tag(b) matches Some(r) ==> rotation_tag(r) == b,
        rotation_of_tag(b) is None <==> !(2 <= b <= 5),
{
}

/// Added (wrapping) to an index's seed to seed the Walsh sign generator,
/// so that the signs and the block rotors come from separate streams.
pub const WALSH_SEED_OFFSET: u64 = 0x57_4854;

/// The seed the Walsh signs of an index seeded with `seed` are drawn from.
pub open spec fn walsh_seed(seed: u64) -> u64 {
    vstd::wrapping::u64_specs::wrapping_add(seed, WALSH_SEED_OFFSET)
}

/// The signs of the Walsh-Hadamard pre-pass (`true` for `+1`), for the
/// rotation kinds that use one; `None` for the others. The transform needs
/// `dim` to be a power of two.
pub fn precompute_walsh_signs(dim: usize, kind: Rotation, seed: u64) -> (r: Option<Vec<bool>>)
    requires
        kind == Rotation::WalshRotor3 ==> is_power_of_two(dim as int),
    ensures
        match r {
            Some(signs) => kind == Rotation::WalshRotor3 && signs@ == chacha8_bools(
                walsh_seed(seed),
                dim as nat,
            ),
            None => kind != Rotation::WalshRotor3,
        },
{
    if !kind.uses_walsh() {
        return None;
    }
    Some(make_sign_vector(dim, seed.wrapping_add(WALSH_SEED_OFFSET)))
}

// ---------------------------------------------------------------- block layout

/// How the matrix of one block of the block-diagonal rotation is made.
#[derive(Clone, Copy, Debug, PartialEq, Eq, Structural)]
pub enum BlockMatrix {
    /// The identity: no random numbers are drawn for it.
    Identity,
    /// A 2D Givens rotation from one random angle.
    Givens,
    /// A 3×3 rotation from a random unit Cl(3,0) rotor.
    Rotor,
    /// A 4×4 left-isoclinic rotation from a random unit quaternion.
    Quaternion,
}

/// Number of blocks that cover `dim` coordinates: `ceil(dim / bs)`.
pub open spec fn n_groups_of(dim: int, bs: int) -> int {
    if dim % bs == 0 {
        dim / bs
    } else {
        dim / bs + 1
    }
}

/// The random matrix family of a rotation kind (the Walsh variant rotates
/// its blocks with rotors).
pub open spec fn random_block_of(kind: Rotation) -> BlockMatrix {
    match kind {
        Rotation::Planar2 => BlockMatrix::Givens,
        Rotation::Rotor3 => BlockMatrix::Rotor,
        Rotation::Iso4 => BlockMatrix::Quaternion,
        Rotation::WalshRotor3 => BlockMatrix::Rotor,
    }
}

/// Block `g` of the rotation for `dim` coordinates: a trailing block that
/// is only partly covered by real coordinates is the identity, so that it
/// never rotates signal into the zero padding; every other block is random.
pub open spec fn block_matrix_of(dim: int, kind: Rotation, g: int) -> BlockMatrix {
    let bs = block_size_of(kind) as int;
    if dim % bs != 0 && g == n_groups_of(dim, bs) - 1 {
        BlockMatrix::Identity
    } else {
        random_block_of(kind)
    }
}

/// The blocks of the rotation for `dim` coordinates, in order, and the
/// padded dimension they cover (`blocks.len() * block_size`); input
/// vectors are zero-padded to that length before rotating.
pub fn block_plan(dim: usize, kind: Rotation) -> (r: (Vec<BlockMatrix>, usize))
    requires
        n_groups_of(dim as int, block_size_of(kind) as int) * block_size_of(kind) <= usize::MAX,
    ensures
        r.0@.len() == n_groups_of(dim as int, block_size_of(kind) as int),
        r.1 == r.0@.len() * block_size_of(kind),
        dim <= r.1 < dim + block_size_of(kind),
        forall|g: int| 0 <= g < r.0@.len() ==> #[trigger] r.0@[g] == block_matrix_of(dim as int, kind, g),
{
    let bs = kind.block_size();
    let has_partial_last = dim % bs != 0;
    let n_groups = if has_partial_last {
        dim / bs + 1
    } else {
        dim / bs
    };
    let random = match kind {
        Rotation::Planar2 => BlockMatrix::Givens,
        Rotation::Rotor3 => BlockMatrix::Rotor,
        Rotation::Iso4 => BlockMatrix::Quaternion,
        Rotation::WalshRotor3 => BlockMatrix::Rotor,
    };
    let mut blocks: Vec<BlockMatrix> = Vec::new();
    for g in 0..n_groups
        invariant
            bs == block_size_of(kind),
            has_partial_last == (dim % bs != 0),
            n_groups == n_groups_of(dim as int, bs as int),
            random == random_block_of(kind),
            blocks@.len() == g,
            forall|t: int| 0 <= t < g ==> #[trigger] blocks@[t] == block_matrix_of(dim as int, kind, t),
    {
        if has_partial_last && g == n_groups - 1 {
            blocks.push(BlockMatrix::Identity);
        } else {
            blocks.push(random);
        }
    }
    proof {
        vstd::arithmetic::div_mod::lemma_fundamental_div_mod(dim as int, bs as int);
    }
    (blocks, n_groups * bs)
}

/// When `dim` is a multiple of 8, only the 3-wide rotor blocks can leave a
/// partly covered trailing block: 2- and 4-wide blocks tile `dim` exactly,
/// so Givens and quaternion rotations never contain an identity block.
pub proof fn lemma_identity_block_only_for_rotors(dim: int, kind: Rotation, g: int)
    requires
        dim >= 0,
        dim % 8 == 0,
        block_matrix_of(dim, kind, g) == BlockMatrix::Identity,
    ensures
        kind == Rotation::Rotor3 || kind == Rotation::WalshRotor3,
{
    if kind == Rotation::Planar2 {
        assert(dim % 2 == 0);
    } else if kind == Rotation::Iso4 {
        assert(dim % 4 == 0);
    }
}

/// Growing `dim` never changes a block that was fully covered: such a block
/// is random under both dimensions. Since the identity block draws no random
/// numbers, two indices with the same kind and seed but different `dim`
/// draw the same matrices for the blocks they fully share.
pub proof fn lemma_full_blocks_shared(dim1: int, dim2: int, kind: Rotation, g: int)
    requires
        0 <= dim1 <= dim2,
        0 <= g < n_groups_of(dim1, block_size_of(kind) as int),
        block_matrix_of(dim1, kind, g) != BlockMatrix::Identity,
    ensures
        block_matrix_of(dim2, kind, g) == block_matrix_of(dim1, kind, g),
        block_matrix_of(dim1, kind, g) == random_block_of(kind),
{
    let bs = block_size_of(kind) as int;
    vstd::arithmetic::div_mod::lemma_fundamental_div_mod(dim1, bs);
    vstd::arithmetic::div_mod::lemma_fundamental_div_mod(dim2, bs);
    assert((g + 1) * bs <= dim1) by (nonlinear_arith)
        requires
            bs > 0,
            0 <= g,
            dim1 == bs * (dim1 / bs) + dim1 % bs,
            0 <= dim1 % bs < bs,
            g < dim1 / bs,
    ;
    assert(g < dim2 / bs) by (nonlinear_arith)
        requires
            bs > 0,
            0 <= g,
            (g + 1) * bs <= dim2,
            dim2 == bs * (dim2 / bs) + dim2 % bs,
            0 <= dim2 % bs < bs,
    ;
}

// ---------------------------------------------------------------- names

/// The rotation kind a user-facing name selects, ignoring ASCII case:
/// `planar2`/`planar`/`givens`, `rotor3`/`rotor`/`clifford`,
/// `iso4`/`iso`/`quaternion`, or `walshrotor3`/`walsh`/`walsh-rotor3`/
/// `rotor3+walsh`.
pub open spec fn rotation_named(s: Seq<char>) -> Option<Rotation> {
    if lower_is(s, "planar2"@) || lower_is(s, "planar"@) || lower_is(s, "givens"@) {
        Some(Rotation::Planar2)
    } else if lower_is(s, "rotor3"@) || lower_is(s, "rotor"@) || lower_is(s, "clifford"@) {
        Some(Rotation::Rotor3)
    } else if lower_is(s, "iso4"@) || lower_is(s, "iso"@) || lower_is(s, "quaternion"@) {
        Some(Rotation::Iso4)
    } else if lower_is(s, "walshrotor3"@) || lower_is(s, "walsh"@) || lower_is(s, "walsh-rotor3"@)
        || lower_is(s, "rotor3+walsh"@) {
        Some(Rotation::WalshRotor3)
    } else {
        None
    }
}

/// Read a rotation kind from its name, case-insensitively; `None` for a
/// name of no kind.
pub fn parse_rotation(s: &str) -> (r: Option<Rotation>)
    ensures
        r == rotation_named(s@),
{
    let c = chars_of(s);
    if lower_equals(&c, "planar2") || lower_equals(&c, "planar") || lower_equals(&c, "givens") {
        Some(Rotation::Planar2)
    } else if lower_equals(&c, "rotor3") || lower_equals(&c, "rotor") || lower_equals(
        &c,
        "clifford",
    ) {
        Some(Rotation::Rotor3)
    } else if lower_equals(&c, "iso4") || lower_equals(&c, "iso") || lower_equals(
        &c,
        "quaternion",
    ) {
        Some(Rotation::Iso4)
    } else if lower_equals(&c, "walshrotor3") || lower_equals(&c, "walsh") || lower_equals(
        &c,
        "walsh-rotor3",
    ) || lower_equals(&c, "rotor3+walsh") {
        Some(Rotation::WalshRotor3)
    } else {
        None
    }
}

/// Rotation names are read without regard to ASCII case: a name selects
/// the same kind as its lowercased form, so every case variant of a
/// canonical name selects that name's kind.
pub proof fn lemma_rotation_named_ignores_case(s: Seq<char>, t: Seq<char>)
    requires
        is_ascii_lowercase_of(t, s),
    ensures
        rotation_named(s) == rotation_named(t),
{
    lemma_lower_is_lowercase(s, t, "planar2"@);
    lemma_lower_is_lowercase(s, t, "planar"@);
    lemma_lower_is_lowercase(s, t, "givens"@);
    lemma_lower_is_lowercase(s, t, "rotor3"@);
    lemma_lower_is_lowercase(s, t, "rotor"@);
    lemma_lower_is_lowercase(s, t, "clifford"@);
    lemma_lower_is_lowercase(s, t, "iso4"@);
    lemma_lower_is_lowercase(s, t, "iso"@);
    lemma_lower_is_lowercase(s, t, "quaternion"@);
    lemma_lower_is_lowercase(s, t, "walshrotor3"@);
    lemma_lower_is_lowercase(s, t, "walsh"@);
    lemma_lower_is_lowercase(s, t, "walsh-rotor3"@);
    lemma_lower_is_lowercase(s, t, "rotor3+walsh"@);
}

/// The canonical name of each rotation kind.
pub open spec fn rotation_name(r: Rotation) -> Seq<char> {
    match r {
        Rotation::Planar2 => "planar2"@,
        Rotation::Rotor3 => "rotor3"@,
        Rotation::Iso4 => "iso4"@,
        Rotation::WalshRotor3 => "walshrotor3"@,
    }
}

/// The canonical name of a rotation kind: `planar2`, `rotor3`, `iso4` or
/// `walshrotor3`.
pub fn rotation_to_str(r: Rotation) -> (s: &'static str)
    ensures
        s@ == rotation_name(r),
{
    match r {
        Rotation::Planar2 => "planar2",
        Rotation::Rotor3 => "rotor3",
        Rotation::Iso4 => "iso4",
        Rotation::WalshRotor3 => "walshrotor3",
    }
}

/// A lowercase word spelled by itself lowercased: every character of it
/// is already lowercase.
proof fn lemma_lower_is_self(w: Seq<char>)
    requires
        forall|i: int| 0 <= i < w.len() ==> !(0x41 <= #[trigger] (w[i] as u32) <= 0x5A),
    ensures
        lower_is(w, w),
{
    assert forall|i: int| 0 <= i < w.len() implies #[trigger] lower_code(w[i]) == w[i] as u32 by {
        assert(!(0x41 <= (w[i] as u32) <= 0x5A));
    }
}

/// Reading back the canonical name of a rotation kind gives that kind.
pub proof fn lemma_rotation_name_roundtrip(r: Rotation)
    ensures
        rotation_named(rotation_name(r)) == Some(r),
{
    reveal_strlit("planar2");
    reveal_strlit("planar");
    reveal_strlit("givens");
    reveal_strlit("rotor3");
    reveal_strlit("rotor");
    reveal_strlit("clifford");
    reveal_strlit("iso4");
    reveal_strlit("iso");
    reveal_strlit("quaternion");
    reveal_strlit("walshrotor3");
    reveal_strlit("walsh");
    reveal_strlit("walsh-rotor3");
    let w = rotation_name(r);
    lemma_lower_is_self(w);
    match r {
        Rotation::Planar2 => {},
        Rotation::Rotor3 => {
            assert(!lower_is(w, "planar"@)) by {
                assert(lower_code(w[0]) != "planar"@[0] as u32);
            }
            assert(!lower_is(w, "givens"@)) by {
                assert(lower_code(w[0]) != "givens"@[0] as u32);
            }
        },
        Rotation::Iso4 => {
            assert(!lower_is(w, "planar2"@) && !lower_is(w, "planar"@) && !lower_is(w, "givens"@));
            assert(!lower_is(w, "rotor3"@) && !lower_is(w, "rotor"@) && !lower_is(w, "clifford"@));
        },
        Rotation::WalshRotor3 => {
            assert(!lower_is(w, "planar2"@) && !lower_is(w, "planar"@) && !lower_is(w, "givens"@));
            assert(!lower_is(w, "rotor3"@) && !lower_is(w, "rotor"@) && !lower_is(w, "clifford"@));
            assert(!lower_is(w, "iso4"@) && !lower_is(w, "iso"@) && !lower_is(w, "quaternion"@));
        },
    }
}

} // verus!
