//! The rotorvec index file formats, as functions on bytes.
//!
//! Two formats:
//! * `.rv`   — `RotorQuantIndex`: 4-byte magic "RVEC", a version byte, the
//!   rotation tag, the 9-byte core header (bits `u8`, dim `u32`, n `u32`),
//!   the packed codes, the norms (`4 * n` bytes) and the 8-byte seed.
//! * `.rvim` — `IdMapIndex`: 4-byte magic "RVIM", then the same layout,
//!   followed by the `slot_to_id` table of `n` `u64` values.
//!
//! All integers are little-endian. Norms are stored as the little-endian
//! bytes of their IEEE-754 bit patterns, which this crate carries as `u32`.
use vstd::prelude::*;
use vstd::bytes::{
    spec_u32_from_le_bytes, spec_u32_to_le_bytes, spec_u64_from_le_bytes, spec_u64_to_le_bytes,
    u32_from_le_bytes, u32_to_le_bytes, u64_from_le_bytes, u64_to_le_bytes,
    lemma_auto_spec_u32_to_from_le_bytes, lemma_auto_spec_u64_to_from_le_bytes,
};
use vstd::slice::{slice_subrange, slice_to_vec};
use crate::rotor::{Rotation, rotation_of_tag, rotation_tag};

verus! {

/// Magic bytes of a `.rv` file: "RVEC".
pub const RV_MAGIC: [u8; 4] = [0x52, 0x56, 0x45, 0x43];

/// Magic bytes of a `.rvim` file: "RVIM".
pub const RVIM_MAGIC: [u8; 4] = [0x52, 0x56, 0x49, 0x4D];

/// Format version written and accepted.
pub const VERSION: u8 = 2;

/// Size of the core header: bits (1), dim (4), n (4).
pub const CORE_HEADER_SIZE: usize = 9;

/// Offset of the core header: magic (4), version (1), rotation tag (1).
pub const CORE_AT: usize = 6;

/// Why a byte buffer is not a valid index file.
#[derive(Debug, PartialEq, Eq, Structural)]
pub enum FormatError {
    /// The data ends before the format says it should.
    UnexpectedEof,
    /// The first four bytes are not the expected magic.
    WrongMagic,
    /// The version byte is not [`VERSION`]; it carries the byte found.
    UnsupportedVersion(u8),
    /// The rotation tag names no rotation kind; it carries the byte found.
    UnknownRotation(u8),
    /// An id table names the same id twice.
    DuplicateIds,
}

// ---------------------------------------------------------------- writing

/// Little-endian bytes of 32-bit words, four per word.
pub open spec fn words_bytes(words: Seq<u32>) -> Seq<u8> {
    Seq::new(4 * words.len(), |k: int| spec_u32_to_le_bytes(words[k / 4])[k % 4])
}

/// Little-endian bytes of the ids, eight per id.
pub open spec fn ids_bytes(ids: Seq<u64>) -> Seq<u8> {
    Seq::new(8 * ids.len(), |k: int| spec_u64_to_le_bytes(ids[k / 8])[k % 8])
}

/// The core section: header, packed codes and norms.
pub open spec fn core_bytes(
    bits: usize,
    dim: usize,
    n_vectors: usize,
    packed_codes: Seq<u8>,
    norms: Seq<u32>,
) -> Seq<u8> {
    seq![bits as u8] + spec_u32_to_le_bytes(dim as u32) + spec_u32_to_le_bytes(n_vectors as u32)
        + packed_codes + words_bytes(norms)
}

/// Bytes of a `.rv` file.
pub open spec fn rv_bytes(
    bits: usize,
    dim: usize,
    n_vectors: usize,
    rotation: Rotation,
    seed: u64,
    packed_codes: Seq<u8>,
    norms: Seq<u32>,
) -> Seq<u8> {
    RV_MAGIC@ + seq![VERSION, rotation_tag(rotation)] + core_bytes(
        bits,
        dim,
        n_vectors,
        packed_codes,
        norms,
    ) + spec_u64_to_le_bytes(seed)
}

/// Bytes of a `.rvim` file.
pub open spec fn rvim_bytes(
    bits: usize,
    dim: usize,
    n_vectors: usize,
    rotation: Rotation,
    seed: u64,
    packed_codes: Seq<u8>,
    norms: Seq<u32>,
    slot_to_id: Seq<u64>,
) -> Seq<u8> {
    RVIM_MAGIC@ + seq![VERSION, rotation_tag(rotation)] + core_bytes(
        bits,
        dim,
        n_vectors,
        packed_codes,
        norms,
    ) + spec_u64_to_le_bytes(seed) + ids_bytes(slot_to_id)
}

fn push_all(out: &mut Vec<u8>, bytes: Vec<u8>)
    ensures
        final(out)@ == old(out)@ + bytes@,
{
    let mut b = bytes;
    out.append(&mut b);
}

pub(crate) fn write_words(out: &mut Vec<u8>, words: &[u32])
    ensures
        final(out)@ == old(out)@ + words_bytes(words@),
{
    let ghost start = out@;
    for i in 0..words.len()
        invariant
            out@ == start + words_bytes(words@.take(i as int)),
    {
        proof {
            lemma_auto_spec_u32_to_from_le_bytes();
        }
        let ghost prev = out@;
        push_all(out, u32_to_le_bytes(words[i]));
        assert(words_bytes(words@.take(i + 1)) =~= words_bytes(words@.take(i as int))
            + spec_u32_to_le_bytes(words@[i as int])) by {
            lemma_auto_spec_u32_to_from_le_bytes();
            assert forall|k: int| 0 <= k < 4 * (i + 1) implies #[trigger] words_bytes(
                words@.take(i + 1),
            )[k] == (words_bytes(words@.take(i as int)) + spec_u32_to_le_bytes(
                words@[i as int],
            ))[k] by {
                if k < 4 * i {
                    assert(k / 4 < i);
                } else {
                    assert(k / 4 == i);
                    assert(k % 4 == k - 4 * i);
                }
            }
        }
    }
    assert(words@.take(words@.len() as int) =~= words@);
}

fn write_ids(out: &mut Vec<u8>, ids: &[u64])
    ensures
        final(out)@ == old(out)@ + ids_bytes(ids@),
{
    let ghost start = out@;
    for i in 0..ids.len()
        invariant
            out@ == start + ids_bytes(ids@.take(i as int)),
    {
        push_all(out, u64_to_le_bytes(ids[i]));
        assert(ids_bytes(ids@.take(i + 1)) =~= ids_bytes(ids@.take(i as int))
            + spec_u64_to_le_bytes(ids@[i as int])) by {
            lemma_auto_spec_u64_to_from_le_bytes();
            assert forall|k: int| 0 <= k < 8 * (i + 1) implies #[trigger] ids_bytes(
                ids@.take(i + 1),
            )[k] == (ids_bytes(ids@.take(i as int)) + spec_u64_to_le_bytes(ids@[i as int]))[k] by {
                if k < 8 * i {
                    assert(k / 8 < i);
                } else {
                    assert(k / 8 == i);
                    assert(k % 8 == k - 8 * i);
                }
            }
        }
    }
    assert(ids@.take(ids@.len() as int) =~= ids@);
}

/// Append the core section: bits, dim, n, packed codes, norms.
fn write_core(
    out: &mut Vec<u8>,
    bits: usize,
    dim: usize,
    n_vectors: usize,
    packed_codes: &[u8],
    norms: &[u32],
)
    ensures
        final(out)@ == old(out)@ + core_bytes(bits, dim, n_vectors, packed_codes@, norms@),
{
    let ghost start = out@;
    out.push(bits as u8);
    push_all(out, u32_to_le_bytes(dim as u32));
    push_all(out, u32_to_le_bytes(n_vectors as u32));
    push_all(out, slice_to_vec(packed_codes));
    write_words(out, norms);
    assert(out@ =~= start + core_bytes(bits, dim, n_vectors, packed_codes@, norms@));
}

/// Serialize a `RotorQuantIndex` as a `.rv` file.
pub fn write(
    bits: usize,
    dim: usize,
    n_vectors: usize,
    rotation: Rotation,
    seed: u64,
    packed_codes: &[u8],
    norms: &[u32],
) -> (out: Vec<u8>)
    ensures
        out@ == rv_bytes(bits, dim, n_vectors, rotation, seed, packed_codes@, norms@),
{
    let mut out: Vec<u8> = Vec::new();
    push_all(&mut out, slice_to_vec(&RV_MAGIC));
    out.push(VERSION);
    out.push(rotation.as_byte());
    write_core(&mut out, bits, dim, n_vectors, packed_codes, norms);
    push_all(&mut out, u64_to_le_bytes(seed));
    assert(out@ =~= rv_bytes(bits, dim, n_vectors, rotation, seed, packed_codes@, norms@));
    out
}

/// Serialize an `IdMapIndex` as a `.rvim` file.
pub fn write_id_map(
    bits: usize,
    dim: usize,
    n_vectors: usize,
    rotation: Rotation,
    seed: u64,
    packed_codes: &[u8],
    norms: &[u32],
    slot_to_id: &[u64],
) -> (out: Vec<u8>)
    requires
        slot_to_id@.len() == n_vectors,
    ensures
        out@ == rvim_bytes(
            bits,
            dim,
            n_vectors,
            rotation,
            seed,
            packed_codes@,
            norms@,
            slot_to_id@,
        ),
{
    let mut out: Vec<u8> = Vec::new();
    push_all(&mut out, slice_to_vec(&RVIM_MAGIC));
    out.push(VERSION);
    out.push(rotation.as_byte());
    write_core(&mut out, bits, dim, n_vectors, packed_codes, norms);
    push_all(&mut out, u64_to_le_bytes(seed));
    write_ids(&mut out, slot_to_id);
    assert(out@ =~= rvim_bytes(
        bits,
        dim,
        n_vectors,
        rotation,
        seed,
        packed_codes@,
        norms@,
        slot_to_id@,
    ));
    out
}

} // verus!

verus! {

// ---------------------------------------------------------------- reading

/// The `u32` stored little-endian at `at`.
pub open spec fn le32(d: Seq<u8>, at: int) -> u32 {
    spec_u32_from_le_bytes(d.subrange(at, at + 4))
}

/// The `u64` stored little-endian at `at`.
pub open spec fn le64(d: Seq<u8>, at: int) -> u64 {
    spec_u64_from_le_bytes(d.subrange(at, at + 8))
}

/// What the magic and version bytes say: `None` when both are as expected.
pub open spec fn magic_error(d: Seq<u8>, want: Seq<u8>) -> Option<FormatError> {
    if d.len() < 4 {
        Some(FormatError::UnexpectedEof)
    } else if d.subrange(0, 4) != want {
        Some(FormatError::WrongMagic)
    } else if d.len() < 5 {
        Some(FormatError::UnexpectedEof)
    } else if d[4] != VERSION {
        Some(FormatError::UnsupportedVersion(d[4]))
    } else {
        None
    }
}

/// The stored bits per coordinate.
pub open spec fn stored_bits(d: Seq<u8>) -> usize {
    d[CORE_AT as int] as usize
}

/// The stored dimension.
pub open spec fn stored_dim(d: Seq<u8>) -> usize {
    le32(d, CORE_AT + 1) as usize
}

/// The stored number of vectors.
pub open spec fn stored_n(d: Seq<u8>) -> usize {
    le32(d, CORE_AT + 5) as usize
}

/// Offset of the packed codes.
pub open spec fn packed_at() -> int {
    CORE_AT + CORE_HEADER_SIZE
}

/// Number of packed code bytes the header announces.
pub open spec fn packed_len(d: Seq<u8>) -> int {
    (stored_dim(d) / 8) as int * stored_bits(d) as int * stored_n(d) as int
}

/// Offset of the norms.
pub open spec fn norms_at(d: Seq<u8>) -> int {
    packed_at() + packed_len(d)
}

/// Offset of the seed.
pub open spec fn seed_at(d: Seq<u8>) -> int {
    norms_at(d) + 4 * stored_n(d)
}

/// Offset of the id table of a `.rvim` file (the end of a `.rv` file).
pub open spec fn ids_at(d: Seq<u8>) -> int {
    seed_at(d) + 8
}

/// The stored rotation kind.
pub open spec fn stored_rotation(d: Seq<u8>) -> Rotation {
    rotation_of_tag(d[5]).unwrap()
}

/// The stored packed codes.
pub open spec fn stored_packed(d: Seq<u8>) -> Seq<u8> {
    d.subrange(packed_at(), norms_at(d))
}

/// The stored norms (IEEE-754 bit patterns).
pub open spec fn stored_norms(d: Seq<u8>) -> Seq<u32> {
    Seq::new(stored_n(d) as nat, |i: int| le32(d, norms_at(d) + 4 * i))
}

/// The stored seed.
pub open spec fn stored_seed(d: Seq<u8>) -> u64 {
    le64(d, seed_at(d))
}

/// The stored id table of a `.rvim` file.
pub open spec fn stored_ids(d: Seq<u8>) -> Seq<u64> {
    Seq::new(stored_n(d) as nat, |i: int| le64(d, ids_at(d) + 8 * i))
}

/// Why `d` is not a file with magic `want` that ends at or before `end(d)`;
/// `None` when it is one.
pub open spec fn file_error(d: Seq<u8>, want: Seq<u8>, with_ids: bool) -> Option<FormatError> {
    if magic_error(d, want) is Some {
        magic_error(d, want)
    } else if d.len() < 6 {
        Some(FormatError::UnexpectedEof)
    } else if rotation_of_tag(d[5]) is None {
        Some(FormatError::UnknownRotation(d[5]))
    } else if d.len() < packed_at() {
        Some(FormatError::UnexpectedEof)
    } else if d.len() < ids_at(d) + if with_ids {
        8 * stored_n(d)
    } else {
        0
    } {
        Some(FormatError::UnexpectedEof)
    } else {
        None
    }
}

/// Why `d` is not a `.rv` file; `None` when it is one.
pub open spec fn rv_error(d: Seq<u8>) -> Option<FormatError> {
    file_error(d, RV_MAGIC@, false)
}

/// Why `d` is not a `.rvim` file; `None` when it is one.
pub open spec fn rvim_error(d: Seq<u8>) -> Option<FormatError> {
    file_error(d, RVIM_MAGIC@, true)
}

/// Check the magic bytes and the version byte at the start of `data`.
pub fn expect_magic(data: &[u8], want: &[u8; 4]) -> (r: Result<(), FormatError>)
    ensures
        match r {
            Ok(()) => magic_error(data@, want@) is None,
            Err(e) => magic_error(data@, want@) == Some(e),
        },
{
    if data.len() < 4 {
        return Err(FormatError::UnexpectedEof);
    }
    let mut i: usize = 0;
    while i < 4
        invariant
            4 <= data@.len(),
            0 <= i <= 4,
            forall|t: int| 0 <= t < i ==> data@[t] == want@[t],
        decreases 4 - i,
    {
        if data[i] != want[i] {
            assert(data@.subrange(0, 4)[i as int] != want@[i as int]);
            return Err(FormatError::WrongMagic);
        }
        i = i + 1;
    }
    assert(data@.subrange(0, 4) =~= want@);
    if data.len() < 5 {
        return Err(FormatError::UnexpectedEof);
    }
    if data[4] != VERSION {
        return Err(FormatError::UnsupportedVersion(data[4]));
    }
    Ok(())
}

/// Read the core section (header, packed codes, norms) at `CORE_AT`.
/// Returns the fields and the offset just past the norms.
fn read_core(data: &[u8]) -> (r: Result<(usize, usize, usize, Vec<u8>, Vec<u32>, usize), FormatError>)
    requires
        data@.len() >= 6,
    ensures
        match r {
            Ok((bits, dim, n, packed, norms, next)) => {
                &&& data@.len() >= seed_at(data@)
                &&& data@.len() >= packed_at()
                &&& bits == stored_bits(data@)
                &&& dim == stored_dim(data@)
                &&& n == stored_n(data@)
                &&& packed@ == stored_packed(data@)
                &&& norms@ == stored_norms(data@)
                &&& next == seed_at(data@)
            },
            Err(e) => e == FormatError::UnexpectedEof && (data@.len() < packed_at()
                || data@.len() < seed_at(data@)),
        },
{
    let len = data.len();
    if len < CORE_AT + CORE_HEADER_SIZE {
        return Err(FormatError::UnexpectedEof);
    }
    let bits = data[CORE_AT] as usize;
    let dim = u32_from_le_bytes(slice_subrange(data, CORE_AT + 1, CORE_AT + 5)) as usize;
    let n = u32_from_le_bytes(slice_subrange(data, CORE_AT + 5, CORE_AT + 9)) as usize;
    let start = CORE_AT + CORE_HEADER_SIZE;
    let d8 = (dim / 8) as u128;
    let b128 = bits as u128;
    let n128 = n as u128;
    proof {
        assert(dim / 8 <= 0x2000_0000 && bits <= 255 && n <= 0xffff_ffff);
        assert(d8 * b128 <= 0x2000_0000 * 255 && d8 * b128 * n128 <= 0x2000_0000 * 255 * 0xffff_ffff)
            by (nonlinear_arith)
            requires
                d8 <= 0x2000_0000,
                b128 <= 255,
                n128 <= 0xffff_ffff,
        ;
    }
    let wide_len: u128 = d8 * b128 * n128;
    proof {
        assert(wide_len as int == packed_len(data@)) by (nonlinear_arith)
            requires
                dim / 8 <= 0x2000_0000,
                bits <= 255,
                n <= 0xffff_ffff,
                wide_len == ((dim / 8) as u128) * (bits as u128) * (n as u128),
                packed_len(data@) == (dim / 8) as int * bits as int * n as int,
        ;
    }
    if wide_len > (len - start) as u128 {
        return Err(FormatError::UnexpectedEof);
    }
    let plen = wide_len as usize;
    let packed = slice_to_vec(slice_subrange(data, start, start + plen));
    let nat_ = start + plen;
    if (n as u128) * 4 > (len - nat_) as u128 {
        return Err(FormatError::UnexpectedEof);
    }
    let mut norms: Vec<u32> = Vec::new();
    for i in 0..n
        invariant
            len == data@.len(),
            nat_ == norms_at(data@),
            n == stored_n(data@),
            nat_ + 4 * n <= len,
            norms@.len() == i,
            forall|t: int| 0 <= t < i ==> norms@[t] == le32(data@, norms_at(data@) + 4 * t),
    {
        let at = nat_ + 4 * i;
        norms.push(u32_from_le_bytes(slice_subrange(data, at, at + 4)));
    }
    assert(norms@ =~= stored_norms(data@));
    Ok((bits, dim, n, packed, norms, nat_ + 4 * n))
}

/// Parse a `.rv` file.
pub fn load(data: &[u8]) -> (r: Result<(usize, usize, usize, Rotation, u64, Vec<u8>, Vec<u32>), FormatError>)
    ensures
        match r {
            Ok((bits, dim, n, rotation, seed, packed, norms)) => {
                &&& rv_error(data@) is None
                &&& bits == stored_bits(data@)
                &&& dim == stored_dim(data@)
                &&& n == stored_n(data@)
                &&& rotation == stored_rotation(data@)
                &&& seed == stored_seed(data@)
                &&& packed@ == stored_packed(data@)
                &&& norms@ == stored_norms(data@)
            },
            Err(e) => rv_error(data@) == Some(e),
        },
{
    expect_magic(data, &RV_MAGIC)?;
    if data.len() < 6 {
        return Err(FormatError::UnexpectedEof);
    }
    let rotation = match Rotation::from_byte(data[5]) {
        Some(r) => r,
        None => {
            return Err(FormatError::UnknownRotation(data[5]));
        },
    };
    let (bits, dim, n, packed, norms, at) = read_core(data)?;
    if data.len() - at < 8 {
        return Err(FormatError::UnexpectedEof);
    }
    let seed = u64_from_le_bytes(slice_subrange(data, at, at + 8));
    Ok((bits, dim, n, rotation, seed, packed, norms))
}

/// Parse a `.rvim` file.
pub fn load_id_map(data: &[u8]) -> (r: Result<
    (usize, usize, usize, Rotation, u64, Vec<u8>, Vec<u32>, Vec<u64>),
    FormatError,
>)
    ensures
        match r {
            Ok((bits, dim, n, rotation, seed, packed, norms, ids)) => {
                &&& rvim_error(data@) is None
                &&& bits == stored_bits(data@)
                &&& dim == stored_dim(data@)
                &&& n == stored_n(data@)
                &&& rotation == stored_rotation(data@)
                &&& seed == stored_seed(data@)
                &&& packed@ == stored_packed(data@)
                &&& norms@ == stored_norms(data@)
                &&& ids@ == stored_ids(data@)
            },
            Err(e) => rvim_error(data@) == Some(e),
        },
{
    expect_magic(data, &RVIM_MAGIC)?;
    if data.len() < 6 {
        return Err(FormatError::UnexpectedEof);
    }
    let rotation = match Rotation::from_byte(data[5]) {
        Some(r) => r,
        None => {
            return Err(FormatError::UnknownRotation(data[5]));
        },
    };
    let (bits, dim, n, packed, norms, at) = read_core(data)?;
    let len = data.len();
    if len - at < 8 {
        return Err(FormatError::UnexpectedEof);
    }
    let seed = u64_from_le_bytes(slice_subrange(data, at, at + 8));
    let ids_start = at + 8;
    if (n as u128) * 8 > (len - ids_start) as u128 {
        return Err(FormatError::UnexpectedEof);
    }
    let mut ids: Vec<u64> = Vec::new();
    for i in 0..n
        invariant
            len == data@.len(),
            ids_start == ids_at(data@),
            n == stored_n(data@),
            ids_start + 8 * n <= len,
            ids@.len() == i,
            forall|t: int| 0 <= t < i ==> ids@[t] == le64(data@, ids_at(data@) + 8 * t),
    {
        let at_i = ids_start + 8 * i;
        ids.push(u64_from_le_bytes(slice_subrange(data, at_i, at_i + 8)));
    }
    assert(ids@ =~= stored_ids(data@));
    Ok((bits, dim, n, rotation, seed, packed, norms, ids))
}

} // verus!

verus! {

// ---------------------------------------------------------------- laws

proof fn lemma_core_fields(
    d: Seq<u8>,
    prefix: Seq<u8>,
    bits: usize,
    dim: usize,
    n_vectors: usize,
    packed_codes: Seq<u8>,
    norms: Seq<u32>,
    rest: Seq<u8>,
)
    requires
        prefix.len() == CORE_AT,
        d == prefix + core_bytes(bits, dim, n_vectors, packed_codes, norms) + rest,
        bits <= 255,
        dim <= u32::MAX,
        n_vectors <= u32::MAX,
        packed_codes.len() == (dim / 8) as int * bits as int * n_vectors as int,
        norms.len() == n_vectors,
    ensures
        d.subrange(0, CORE_AT as int) == prefix,
        stored_bits(d) == bits,
        stored_dim(d) == dim,
        stored_n(d) == n_vectors,
        stored_packed(d) == packed_codes,
        stored_norms(d) == norms,
        seed_at(d) == CORE_AT + 9 + packed_codes.len() + 4 * n_vectors,
        d.subrange(seed_at(d), d.len() as int) == rest,
{
    lemma_auto_spec_u32_to_from_le_bytes();
    let c = core_bytes(bits, dim, n_vectors, packed_codes, norms);
    let db = spec_u32_to_le_bytes(dim as u32);
    let nb = spec_u32_to_le_bytes(n_vectors as u32);
    assert(d.subrange(0, CORE_AT as int) =~= prefix);
    assert(d[CORE_AT as int] == bits as u8);
    assert(d.subrange(CORE_AT + 1, CORE_AT + 5) =~= db);
    assert(d.subrange(CORE_AT + 5, CORE_AT + 9) =~= nb);
    assert(stored_dim(d) == dim);
    assert(stored_n(d) == n_vectors);
    assert(packed_len(d) == packed_codes.len());
    assert(stored_packed(d) =~= packed_codes);
    let na = norms_at(d);
    assert forall|i: int| 0 <= i < n_vectors implies #[trigger] stored_norms(d)[i] == norms[i] by {
        assert(d.subrange(na + 4 * i, na + 4 * i + 4) =~= spec_u32_to_le_bytes(norms[i])) by {
            assert forall|t: int| 0 <= t < 4 implies d.subrange(na + 4 * i, na + 4 * i + 4)[t]
                == spec_u32_to_le_bytes(norms[i])[t] by {
                assert(d[na + 4 * i + t] == words_bytes(norms)[4 * i + t]);
                assert((4 * i + t) / 4 == i);
                assert((4 * i + t) % 4 == t);
            }
        }
    }
    assert(stored_norms(d) =~= norms);
    assert(d.subrange(seed_at(d), d.len() as int) =~= rest);
}

/// Reading back a written `.rv` file gives every field that was written,
/// whenever the fields fit the format (bits in a byte, dim and n in 32
/// bits) and the code and norm buffers have the sizes the header announces.
pub proof fn lemma_rv_roundtrip(
    bits: usize,
    dim: usize,
    n_vectors: usize,
    rotation: Rotation,
    seed: u64,
    packed_codes: Seq<u8>,
    norms: Seq<u32>,
)
    requires
        bits <= 255,
        dim <= u32::MAX,
        n_vectors <= u32::MAX,
        packed_codes.len() == (dim / 8) as int * bits as int * n_vectors as int,
        norms.len() == n_vectors,
    ensures
        ({
            let d = rv_bytes(bits, dim, n_vectors, rotation, seed, packed_codes, norms);
            &&& rv_error(d) is None
            &&& stored_bits(d) == bits
            &&& stored_dim(d) == dim
            &&& stored_n(d) == n_vectors
            &&& stored_rotation(d) == rotation
            &&& stored_seed(d) == seed
            &&& stored_packed(d) == packed_codes
            &&& stored_norms(d) == norms
        }),
{
    lemma_auto_spec_u64_to_from_le_bytes();
    let d = rv_bytes(bits, dim, n_vectors, rotation, seed, packed_codes, norms);
    let prefix = RV_MAGIC@ + seq![VERSION, rotation_tag(rotation)];
    let sb = spec_u64_to_le_bytes(seed);
    assert(d == prefix + core_bytes(bits, dim, n_vectors, packed_codes, norms) + sb);
    lemma_core_fields(d, prefix, bits, dim, n_vectors, packed_codes, norms, sb);
    assert(d.subrange(0, 4) =~= RV_MAGIC@) by {
        assert(d.subrange(0, 4) =~= prefix.subrange(0, 4));
    }
    assert(d[4] == VERSION && d[5] == rotation_tag(rotation)) by {
        assert(d[4] == prefix[4]);
        assert(d[5] == prefix[5]);
    }
    assert(d.subrange(seed_at(d), seed_at(d) + 8) =~= sb);
}

/// Reading back a written `.rvim` file gives every field that was written,
/// the id table included, under the same size conditions as `.rv` files.
pub proof fn lemma_rvim_roundtrip(
    bits: usize,
    dim: usize,
    n_vectors: usize,
    rotation: Rotation,
    seed: u64,
    packed_codes: Seq<u8>,
    norms: Seq<u32>,
    slot_to_id: Seq<u64>,
)
    requires
        bits <= 255,
        dim <= u32::MAX,
        n_vectors <= u32::MAX,
        packed_codes.len() == (dim / 8) as int * bits as int * n_vectors as int,
        norms.len() == n_vectors,
        slot_to_id.len() == n_vectors,
    ensures
        ({
            let d = rvim_bytes(
                bits,
                dim,
                n_vectors,
                rotation,
                seed,
                packed_codes,
                norms,
                slot_to_id,
            );
            &&& rvim_error(d) is None
            &&& stored_bits(d) == bits
            &&& stored_dim(d) == dim
            &&& stored_n(d) == n_vectors
            &&& stored_rotation(d) == rotation
            &&& stored_seed(d) == seed
            &&& stored_packed(d) == packed_codes
            &&& stored_norms(d) == norms
            &&& stored_ids(d) == slot_to_id
        }),
{
    lemma_auto_spec_u64_to_from_le_bytes();
    let d = rvim_bytes(bits, dim, n_vectors, rotation, seed, packed_codes, norms, slot_to_id);
    let prefix = RVIM_MAGIC@ + seq![VERSION, rotation_tag(rotation)];
    let sb = spec_u64_to_le_bytes(seed);
    let ib = ids_bytes(slot_to_id);
    assert(d == prefix + core_bytes(bits, dim, n_vectors, packed_codes, norms) + (sb + ib));
    lemma_core_fields(d, prefix, bits, dim, n_vectors, packed_codes, norms, sb + ib);
    assert(d.subrange(0, 4) =~= RVIM_MAGIC@) by {
        assert(d.subrange(0, 4) =~= prefix.subrange(0, 4));
    }
    assert(d[4] == VERSION && d[5] == rotation_tag(rotation)) by {
        assert(d[4] == prefix[4]);
        assert(d[5] == prefix[5]);
    }
    let sa = seed_at(d);
    assert(d.subrange(sa, d.len() as int) == sb + ib);
    assert(d.subrange(sa, sa + 8) =~= sb) by {
        assert forall|t: int| 0 <= t < 8 implies d.subrange(sa, sa + 8)[t] == sb[t] by {
            assert(d[sa + t] == d.subrange(sa, d.len() as int)[t]);
        }
    }
    let ia = ids_at(d);
    assert forall|i: int| 0 <= i < n_vectors implies #[trigger] stored_ids(d)[i] == slot_to_id[i] by {
        assert(d.subrange(ia + 8 * i, ia + 8 * i + 8) =~= spec_u64_to_le_bytes(slot_to_id[i])) by {
            assert forall|t: int| 0 <= t < 8 implies d.subrange(ia + 8 * i, ia + 8 * i + 8)[t]
                == spec_u64_to_le_bytes(slot_to_id[i])[t] by {
                assert(d[ia + 8 * i + t] == d.subrange(sa, d.len() as int)[8 + 8 * i + t]);
                assert(ib[8 * i + t] == spec_u64_to_le_bytes(slot_to_id[(8 * i + t) / 8])[(8 * i
                    + t) % 8]);
                assert((8 * i + t) / 8 == i);
                assert((8 * i + t) % 8 == t);
            }
        }
    }
    assert(stored_ids(d) =~= slot_to_id);
}

} // verus!
