//! Bit-plane packing of quantized codes.
//!
//! Each coordinate is quantized to `bits` bits. For each vector we store
//! `bits` planes; each plane is a bit-vector of length `dim` packed
//! MSB-first into `dim / 8` bytes. Plane `p` holds bit `p` of every
//! coordinate.
use vstd::prelude::*;
use vstd::arithmetic::div_mod::lemma_fundamental_div_mod_converse;
use crate::BLOCK;

verus! {

/// Bit `k` of `x` (0 = least significant), as `0` or `1`.
pub open spec fn bit_of(x: u8, k: u8) -> u8 {
    (x >> k) & 1
}

/// Eight bits, most significant first, assembled into one byte.
pub open spec fn pack8(b0: u8, b1: u8, b2: u8, b3: u8, b4: u8, b5: u8, b6: u8, b7: u8) -> u8 {
    (b0 << 7u8) | (b1 << 6u8) | (b2 << 5u8) | (b3 << 4u8) | (b4 << 3u8) | (b5 << 2u8) | (b6
        << 1u8) | b7
}

/// The byte of plane `p` that covers the eight codes starting at `base`:
/// its bit `7 - t` is bit `p` of `codes[base + t]`.
pub open spec fn plane_byte(codes: Seq<u8>, base: int, p: u8) -> u8 {
    pack8(
        bit_of(codes[base], p),
        bit_of(codes[base + 1], p),
        bit_of(codes[base + 2], p),
        bit_of(codes[base + 3], p),
        bit_of(codes[base + 4], p),
        bit_of(codes[base + 5], p),
        bit_of(codes[base + 6], p),
        bit_of(codes[base + 7], p),
    )
}

/// Packed bytes of one vector row: `bits` planes of `dim / 8` bytes each.
pub open spec fn row_bytes(dim: int, bits: int) -> int {
    bits * (dim / 8)
}

/// The bit-plane image of `n` rows of `dim` codes: row `i` starts at
/// `i * row_bytes`, plane `p` of it at `p * (dim / 8)` within the row.
pub open spec fn packed_spec(codes: Seq<u8>, n: int, dim: int, bits: int) -> Seq<u8> {
    Seq::new((n * row_bytes(dim, bits)) as nat, |k: int| packed_byte_at(codes, dim, bits, k))
}

/// Byte `k` of the bit-plane image: it belongs to row `k / row_bytes`, to
/// plane `(k % row_bytes) / (dim / 8)` and to byte position
/// `(k % row_bytes) % (dim / 8)` within that plane.
pub open spec fn packed_byte_at(codes: Seq<u8>, dim: int, bits: int, k: int) -> u8 {
    let plane = dim / 8;
    let row = row_bytes(dim, bits);
    plane_byte(codes, (k / row) * dim + 8 * ((k % row) % plane), ((k % row) / plane) as u8)
}

/// The code of coordinate `j` read back from the first `nplanes` planes of
/// the row that starts at `base`: bit `q` of the code is bit `7 - j % 8` of
/// the byte `j / 8` of plane `q`.
pub open spec fn gather_code(packed: Seq<u8>, base: int, plane: int, j: int, nplanes: nat) -> u8
    decreases nplanes,
{
    if nplanes == 0 {
        0
    } else {
        let q = (nplanes - 1) as nat;
        gather_code(packed, base, plane, j, q) | (bit_of(
            packed[base + q * plane + j / 8],
            (7 - j % 8) as u8,
        ) << (q as u8))
    }
}

/// The codes of vector `vec_idx` read back from its bit planes.
pub open spec fn unpacked_spec(packed: Seq<u8>, vec_idx: int, dim: int, bits: int) -> Seq<u8> {
    Seq::new(
        dim as nat,
        |j: int| gather_code(packed, vec_idx * row_bytes(dim, bits), dim / 8, j, bits as nat),
    )
}

proof fn lemma_test_bit(x: u8, k: u8)
    requires
        k < 8,
    ensures
        (x & (1u8 << k) != 0) == (bit_of(x, k) == 1),
        bit_of(x, k) == 0 || bit_of(x, k) == 1,
{
    assert((x & (1u8 << k) != 0) == (((x >> k) & 1) == 1)) by (bit_vector)
        requires
            k < 8,
    ;
    assert(((x >> k) & 1) == 0 || ((x >> k) & 1) == 1) by (bit_vector);
}

proof fn lemma_set_bit(c: u8, b: u8, q: u8)
    requires
        q < 8,
        b == 0 || b == 1,
    ensures
        b == 1 ==> (c | (1u8 << q)) == (c | (b << q)),
        b == 0 ==> c == (c | (b << q)),
{
    assert(b == 1 ==> (c | (1u8 << q)) == (c | (b << q))) by (bit_vector);
    assert(b == 0 ==> c == (c | (b << q))) by (bit_vector);
}

fn plane_byte_exec(codes: &[u8], base: usize, p: u8) -> (byte: u8)
    requires
        base + 8 <= codes@.len(),
        p < 8,
    ensures
        byte == plane_byte(codes@, base as int, p),
{
    (((codes[base] >> p) & 1) << 7u8) | (((codes[base + 1] >> p) & 1) << 6u8) | (((codes[base
        + 2] >> p) & 1) << 5u8) | (((codes[base + 3] >> p) & 1) << 4u8) | (((codes[base + 4] >> p)
        & 1) << 3u8) | (((codes[base + 5] >> p) & 1) << 2u8) | (((codes[base + 6] >> p) & 1)
        << 1u8) | ((codes[base + 7] >> p) & 1)
}

/// Where byte `i * row + p * plane + b` of the bit-plane image comes from.
proof fn lemma_packed_position(i: int, p: int, b: int, plane: int, row: int, bits: int)
    requires
        0 <= i,
        0 <= p < bits,
        0 <= b < plane,
        row == bits * plane,
    ensures
        (i * row + p * plane + b) / row == i,
        (i * row + p * plane + b) % row == p * plane + b,
        (p * plane + b) / plane == p,
        (p * plane + b) % plane == b,
        p * plane + b < row,
{
    assert(p * plane + b < row) by (nonlinear_arith)
        requires
            0 <= p < bits,
            0 <= b < plane,
            row == bits * plane,
    ;
    lemma_fundamental_div_mod_converse(i * row + p * plane + b, row, i, p * plane + b);
    lemma_fundamental_div_mod_converse(p * plane + b, plane, p, b);
}

/// Pack quantized codes (one byte per coordinate) into bit-plane format.
/// Returns `n * bits * dim / 8` bytes.
pub fn pack_codes(codes: &[u8], n: usize, dim: usize, bits: usize) -> (packed: Vec<u8>)
    requires
        codes@.len() == n * dim,
        dim % 8 == 0,
        bits <= 8,
        n * row_bytes(dim as int, bits as int) <= usize::MAX,
    ensures
        packed@ == packed_spec(codes@, n as int, dim as int, bits as int),
{
    let plane = dim / 8;
    proof {
        assert(0 <= bits * plane <= n * (bits * plane) || n == 0) by (nonlinear_arith)
            requires
                bits >= 0,
                plane >= 0,
        ;
    }
    let row = if n == 0 { 0 } else { bits * plane };
    let clen = codes.len();
    let mut packed: Vec<u8> = Vec::new();
    assert(0 * row == 0);
    for i in 0..n
        invariant
            codes@.len() == n * dim,
            clen == codes@.len(),
            dim % 8 == 0,
            bits <= 8,
            plane == dim / 8,
            n > 0 ==> row == bits * plane,
            n * (bits * plane) <= usize::MAX,
            packed@.len() == i * row,
            forall|k: int|
                0 <= k < packed@.len() ==> packed@[k] == packed_byte_at(
                    codes@,
                    dim as int,
                    bits as int,
                    k,
                ),
    {
        proof {
            assert((i + 1) * row <= n * row && (i + 1) * row == i * row + row && (i + 1) * dim
                <= n * dim && (i + 1) * dim == i * dim + dim) by (nonlinear_arith)
                requires
                    i < n,
                    row >= 0,
                    dim >= 0,
            ;
            assert(i * row + 0 * plane == i * row);
        }
        for p in 0..bits
            invariant
                codes@.len() == n * dim,
                clen == codes@.len(),
                dim % 8 == 0,
                bits <= 8,
                plane == dim / 8,
                row == bits * plane,
                i < n,
                (i + 1) * row <= n * row,
                (i + 1) * row == i * row + row,
                (i + 1) * dim <= n * dim,
                (i + 1) * dim == i * dim + dim,
                n * row <= usize::MAX,
                packed@.len() == i * row + p * plane,
                forall|k: int|
                    0 <= k < packed@.len() ==> packed@[k] == packed_byte_at(
                        codes@,
                        dim as int,
                        bits as int,
                        k,
                    ),
        {
            for b in 0..plane
                invariant
                    codes@.len() == n * dim,
                    clen == codes@.len(),
                    dim % 8 == 0,
                    bits <= 8,
                    plane == dim / 8,
                    row == bits * plane,
                    i < n,
                    p < bits,
                    (i + 1) * row <= n * row,
                    (i + 1) * row == i * row + row,
                    (i + 1) * dim <= n * dim,
                    (i + 1) * dim == i * dim + dim,
                    n * row <= usize::MAX,
                    packed@.len() == i * row + p * plane + b,
                    forall|k: int|
                        0 <= k < packed@.len() ==> packed@[k] == packed_byte_at(
                            codes@,
                            dim as int,
                            bits as int,
                            k,
                        ),
            {
                proof {
                    lemma_packed_position(i as int, p as int, b as int, plane as int, row as int, bits as int);
                }
                let base = i * dim + 8 * b;
                let byte = plane_byte_exec(codes, base, p as u8);
                packed.push(byte);
            }
            proof {
                assert(i * row + p * plane + plane == i * row + (p + 1) * plane) by (nonlinear_arith);
            }
        }
    }
    proof {
        assert(packed@.len() == n * row_bytes(dim as int, bits as int));
    }
    assert(packed@ =~= packed_spec(codes@, n as int, dim as int, bits as int));
    packed
}

/// Decode coordinate `j` of the row that starts at `base`.
fn decode_code(packed: &[u8], base: usize, plane: usize, j: usize, bits: usize) -> (code: u8)
    requires
        bits <= 8,
        j < 8 * plane,
        base + bits * plane <= packed@.len(),
    ensures
        code == gather_code(packed@, base as int, plane as int, j as int, bits as nat),
{
    let byte_pos = j / 8;
    let bit_pos = 7 - (j % 8);
    let mask = 1u8 << (bit_pos as u8);
    let mut code = 0u8;
    let len = packed.len();
    for p in 0..bits
        invariant
            bits <= 8,
            j < 8 * plane,
            base + bits * plane <= packed@.len(),
            byte_pos == j / 8,
            bit_pos == 7 - j % 8,
            mask == 1u8 << (bit_pos as u8),
            len == packed@.len(),
            code == gather_code(packed@, base as int, plane as int, j as int, p as nat),
    {
        proof {
            assert(p * plane + byte_pos < bits * plane && p * plane <= bits * plane) by (nonlinear_arith)
                requires
                    p < bits,
                    byte_pos < plane,
            ;
        }
        let byte = packed[base + p * plane + byte_pos];
        proof {
            lemma_test_bit(byte, bit_pos as u8);
            lemma_set_bit(code, bit_of(byte, bit_pos as u8), p as u8);
        }
        if byte & mask != 0 {
            code = code | (1u8 << (p as u8));
        }
    }
    code
}

/// Unpack bit-plane codes for a single vector back into per-coordinate
/// codes. Returns a vector of length `dim`.
pub fn unpack_vector(packed: &[u8], vec_idx: usize, dim: usize, bits: usize) -> (codes: Vec<u8>)
    requires
        bits <= 8,
        bits == 0 || dim % 8 == 0,
        (vec_idx + 1) * row_bytes(dim as int, bits as int) <= packed@.len(),
    ensures
        codes@ == unpacked_spec(packed@, vec_idx as int, dim as int, bits as int),
{
    let plane = dim / 8;
    let len = packed.len();
    proof {
        let r = bits * plane;
        assert((vec_idx + 1) * r == vec_idx * r + r && 0 <= vec_idx * r && 0 <= r) by (nonlinear_arith)
            requires r >= 0;
    }
    let row = bits * plane;
    let base = vec_idx * row;
    let mut codes: Vec<u8> = Vec::new();
    for j in 0..dim
        invariant
            bits <= 8,
            bits == 0 || dim % 8 == 0,
            plane == dim / 8,
            row == bits * plane,
            base == vec_idx * row,
            base + row <= packed@.len(),
            codes@.len() == j,
            forall|t: int|
                0 <= t < j ==> codes@[t] == gather_code(
                    packed@,
                    base as int,
                    plane as int,
                    t,
                    bits as nat,
                ),
    {
        let c = if bits == 0 {
            0u8
        } else {
            decode_code(packed, base, plane, j, bits)
        };
        codes.push(c);
    }
    assert(codes@ =~= unpacked_spec(packed@, vec_idx as int, dim as int, bits as int));
    codes
}

} // verus!

verus! {

/// `true` when `x` is a valid `bits`-bit code, i.e. `x < 2^bits`.
pub open spec fn fits_in_bits(x: u8, bits: int) -> bool {
    (x as int) < code_limit(bits)
}

/// `2^bits`, the number of distinct `bits`-bit codes.
pub open spec fn code_limit(bits: int) -> int
    decreases bits,
{
    if bits <= 0 {
        1
    } else {
        2 * code_limit(bits - 1)
    }
}

/// The low `m` bits of `x`.
pub open spec fn low_bits(x: u8, m: u8) -> u8 {
    ((x as u16) & (((1u16 << m) - 1u16) as u16)) as u8
}

proof fn lemma_pack8_bits(b0: u8, b1: u8, b2: u8, b3: u8, b4: u8, b5: u8, b6: u8, b7: u8)
    requires
        b0 <= 1,
        b1 <= 1,
        b2 <= 1,
        b3 <= 1,
        b4 <= 1,
        b5 <= 1,
        b6 <= 1,
        b7 <= 1,
    ensures
        bit_of(pack8(b0, b1, b2, b3, b4, b5, b6, b7), 7) == b0,
        bit_of(pack8(b0, b1, b2, b3, b4, b5, b6, b7), 6) == b1,
        bit_of(pack8(b0, b1, b2, b3, b4, b5, b6, b7), 5) == b2,
        bit_of(pack8(b0, b1, b2, b3, b4, b5, b6, b7), 4) == b3,
        bit_of(pack8(b0, b1, b2, b3, b4, b5, b6, b7), 3) == b4,
        bit_of(pack8(b0, b1, b2, b3, b4, b5, b6, b7), 2) == b5,
        bit_of(pack8(b0, b1, b2, b3, b4, b5, b6, b7), 1) == b6,
        bit_of(pack8(b0, b1, b2, b3, b4, b5, b6, b7), 0) == b7,
{
    assert(((((b0 << 7u8) | (b1 << 6u8) | (b2 << 5u8) | (b3 << 4u8) | (b4 << 3u8) | (b5 << 2u8)
        | (b6 << 1u8) | b7) >> 7u8) & 1) == b0 && ((((b0 << 7u8) | (b1 << 6u8) | (b2 << 5u8) | (b3
        << 4u8) | (b4 << 3u8) | (b5 << 2u8) | (b6 << 1u8) | b7) >> 6u8) & 1) == b1 && ((((b0
        << 7u8) | (b1 << 6u8) | (b2 << 5u8) | (b3 << 4u8) | (b4 << 3u8) | (b5 << 2u8) | (b6
        << 1u8) | b7) >> 5u8) & 1) == b2 && ((((b0 << 7u8) | (b1 << 6u8) | (b2 << 5u8) | (b3
        << 4u8) | (b4 << 3u8) | (b5 << 2u8) | (b6 << 1u8) | b7) >> 4u8) & 1) == b3 && ((((b0
        << 7u8) | (b1 << 6u8) | (b2 << 5u8) | (b3 << 4u8) | (b4 << 3u8) | (b5 << 2u8) | (b6
        << 1u8) | b7) >> 3u8) & 1) == b4 && ((((b0 << 7u8) | (b1 << 6u8) | (b2 << 5u8) | (b3
        << 4u8) | (b4 << 3u8) | (b5 << 2u8) | (b6 << 1u8) | b7) >> 2u8) & 1) == b5 && ((((b0
        << 7u8) | (b1 << 6u8) | (b2 << 5u8) | (b3 << 4u8) | (b4 << 3u8) | (b5 << 2u8) | (b6
        << 1u8) | b7) >> 1u8) & 1) == b6 && ((((b0 << 7u8) | (b1 << 6u8) | (b2 << 5u8) | (b3
        << 4u8) | (b4 << 3u8) | (b5 << 2u8) | (b6 << 1u8) | b7) >> 0u8) & 1) == b7)
        by (bit_vector)
        requires
            b0 <= 1,
            b1 <= 1,
            b2 <= 1,
            b3 <= 1,
            b4 <= 1,
            b5 <= 1,
            b6 <= 1,
            b7 <= 1,
    ;
}

proof fn lemma_bit_is_01(x: u8, k: u8)
    ensures
        bit_of(x, k) <= 1,
{
    assert(((x >> k) & 1) <= 1) by (bit_vector);
}

/// Bit `7 - t` of a plane byte is bit `q` of the `t`-th code it covers.
proof fn lemma_plane_byte_bit(codes: Seq<u8>, base: int, q: u8, t: int)
    requires
        0 <= t < 8,
    ensures
        bit_of(plane_byte(codes, base, q), (7 - t) as u8) == bit_of(codes[base + t], q),
{
    lemma_bit_is_01(codes[base], q);
    lemma_bit_is_01(codes[base + 1], q);
    lemma_bit_is_01(codes[base + 2], q);
    lemma_bit_is_01(codes[base + 3], q);
    lemma_bit_is_01(codes[base + 4], q);
    lemma_bit_is_01(codes[base + 5], q);
    lemma_bit_is_01(codes[base + 6], q);
    lemma_bit_is_01(codes[base + 7], q);
    lemma_pack8_bits(
        bit_of(codes[base], q),
        bit_of(codes[base + 1], q),
        bit_of(codes[base + 2], q),
        bit_of(codes[base + 3], q),
        bit_of(codes[base + 4], q),
        bit_of(codes[base + 5], q),
        bit_of(codes[base + 6], q),
        bit_of(codes[base + 7], q),
    );
    assert(t == 0 || t == 1 || t == 2 || t == 3 || t == 4 || t == 5 || t == 6 || t == 7);
}

proof fn lemma_low_bits_step(x: u8, m: u8)
    requires
        m < 8,
    ensures
        low_bits(x, (m + 1) as u8) == (low_bits(x, m) | (bit_of(x, m) << m)),
        low_bits(x, 0) == 0,
{
    let m1 = (m + 1) as u8;
    assert((((x as u16) & (((1u16 << m1) - 1u16) as u16)) as u8) == ((((x as u16) & (((1u16
        << m) - 1u16) as u16)) as u8) | (((x >> m) & 1) << m))) by (bit_vector)
        requires
            m < 8,
            m1 == m + 1,
    ;
    assert((((x as u16) & (((1u16 << 0u8) - 1u16) as u16)) as u8) == 0) by (bit_vector);
}

proof fn lemma_low_bits_full(x: u8, bits: int)
    requires
        0 <= bits <= 8,
        fits_in_bits(x, bits),
    ensures
        low_bits(x, bits as u8) == x,
{
    reveal_with_fuel(code_limit, 9);
    if bits == 0 {
        assert(x == 0);
        lemma_low_bits_step(x, 0);
    } else if bits == 1 {
        assert(x < 2 ==> (((x as u16) & (((1u16 << 1u8) - 1u16) as u16)) as u8) == x) by (bit_vector);
    } else if bits == 2 {
        assert(x < 4 ==> (((x as u16) & (((1u16 << 2u8) - 1u16) as u16)) as u8) == x) by (bit_vector);
    } else if bits == 3 {
        assert(x < 8 ==> (((x as u16) & (((1u16 << 3u8) - 1u16) as u16)) as u8) == x) by (bit_vector);
    } else if bits == 4 {
        assert(x < 16 ==> (((x as u16) & (((1u16 << 4u8) - 1u16) as u16)) as u8) == x) by (bit_vector);
    } else if bits == 5 {
        assert(x < 32 ==> (((x as u16) & (((1u16 << 5u8) - 1u16) as u16)) as u8) == x) by (bit_vector);
    } else if bits == 6 {
        assert(x < 64 ==> (((x as u16) & (((1u16 << 6u8) - 1u16) as u16)) as u8) == x) by (bit_vector);
    } else if bits == 7 {
        assert(x < 128 ==> (((x as u16) & (((1u16 << 7u8) - 1u16) as u16)) as u8) == x) by (bit_vector);
    } else {
        assert((((x as u16) & (((1u16 << 8u8) - 1u16) as u16)) as u8) == x) by (bit_vector);
    }
}

/// Decoding one coordinate of a packed row recovers the low `m` bits of the
/// code that was packed there.
proof fn lemma_gather_packed(
    codes: Seq<u8>,
    n: int,
    dim: int,
    bits: int,
    i: int,
    j: int,
    m: nat,
)
    requires
        0 <= i < n,
        0 <= j < dim,
        dim % 8 == 0,
        0 <= bits <= 8,
        m <= bits,
        codes.len() == n * dim,
    ensures
        gather_code(packed_spec(codes, n, dim, bits), i * row_bytes(dim, bits), dim / 8, j, m)
            == low_bits(codes[i * dim + j], m as u8),
    decreases m,
{
    let plane = dim / 8;
    let row = row_bytes(dim, bits);
    let c = codes[i * dim + j];
    if m == 0 {
        lemma_low_bits_step(c, 0);
    } else {
        let q = (m - 1) as nat;
        lemma_gather_packed(codes, n, dim, bits, i, j, q);
        let b = j / 8;
        let t = j % 8;
        lemma_packed_position(i, q as int, b, plane, row, bits);
        assert(i * row + q * plane + b < n * row) by (nonlinear_arith)
            requires
                0 <= i < n,
                0 <= q * plane + b < row,
        ;
        let k = i * row + q * plane + b;
        assert(packed_spec(codes, n, dim, bits)[k] == plane_byte(codes, i * dim + 8 * b, q as u8));
        lemma_plane_byte_bit(codes, i * dim + 8 * b, q as u8, t);
        assert(i * dim + 8 * b + t == i * dim + j);
        lemma_low_bits_step(c, q as u8);
    }
}

/// Reading a row back recovers exactly the codes that were packed into it,
/// whenever every code fits in `bits` bits.
pub proof fn lemma_pack_unpack_roundtrip(codes: Seq<u8>, n: int, dim: int, bits: int, i: int)
    requires
        0 <= i < n,
        dim >= 0,
        dim % 8 == 0,
        0 <= bits <= 8,
        codes.len() == n * dim,
        forall|x: int| 0 <= x < codes.len() ==> fits_in_bits(#[trigger] codes[x], bits),
    ensures
        unpacked_spec(packed_spec(codes, n, dim, bits), i, dim, bits) == codes.subrange(
            i * dim,
            i * dim + dim,
        ),
{
    let lhs = unpacked_spec(packed_spec(codes, n, dim, bits), i, dim, bits);
    let rhs = codes.subrange(i * dim, i * dim + dim);
    assert((i + 1) * dim <= n * dim && (i + 1) * dim == i * dim + dim) by (nonlinear_arith)
        requires
            i < n,
            dim >= 0,
    ;
    assert forall|j: int| 0 <= j < dim implies lhs[j] == rhs[j] by {
        lemma_gather_packed(codes, n, dim, bits, i, j, bits as nat);
        lemma_low_bits_full(codes[i * dim + j], bits);
    }
    assert(lhs =~= rhs);
}

/// Reading a row back gives every packed code cut to its low `bits` bits,
/// whatever the codes are.
pub proof fn lemma_pack_unpack_masked(codes: Seq<u8>, n: int, dim: int, bits: int, i: int)
    requires
        0 <= i < n,
        dim >= 0,
        dim % 8 == 0,
        0 <= bits <= 8,
        codes.len() == n * dim,
    ensures
        unpacked_spec(packed_spec(codes, n, dim, bits), i, dim, bits) == codes.subrange(
            i * dim,
            i * dim + dim,
        ).map_values(|c: u8| low_bits(c, bits as u8)),
{
    let lhs = unpacked_spec(packed_spec(codes, n, dim, bits), i, dim, bits);
    let rhs = codes.subrange(i * dim, i * dim + dim).map_values(|c: u8| low_bits(c, bits as u8));
    assert((i + 1) * dim <= n * dim && (i + 1) * dim == i * dim + dim) by (nonlinear_arith)
        requires
            i < n,
            dim >= 0,
    ;
    assert forall|j: int| 0 <= j < dim implies lhs[j] == rhs[j] by {
        lemma_gather_packed(codes, n, dim, bits, i, j, bits as nat);
    }
    assert(lhs =~= rhs);
}

proof fn lemma_plane_byte_same(s1: Seq<u8>, base1: int, s2: Seq<u8>, base2: int, p: u8)
    requires
        0 <= base1,
        base1 + 8 <= s1.len(),
        0 <= base2,
        base2 + 8 <= s2.len(),
        s1.subrange(base1, base1 + 8) == s2.subrange(base2, base2 + 8),
    ensures
        plane_byte(s1, base1, p) == plane_byte(s2, base2, p),
{
    let w1 = s1.subrange(base1, base1 + 8);
    let w2 = s2.subrange(base2, base2 + 8);
    assert(s1[base1] == w1[0] && s2[base2] == w2[0]);
    assert(s1[base1 + 1] == w1[1] && s2[base2 + 1] == w2[1]);
    assert(s1[base1 + 2] == w1[2] && s2[base2 + 2] == w2[2]);
    assert(s1[base1 + 3] == w1[3] && s2[base2 + 3] == w2[3]);
    assert(s1[base1 + 4] == w1[4] && s2[base2 + 4] == w2[4]);
    assert(s1[base1 + 5] == w1[5] && s2[base2 + 5] == w2[5]);
    assert(s1[base1 + 6] == w1[6] && s2[base2 + 6] == w2[6]);
    assert(s1[base1 + 7] == w1[7] && s2[base2 + 7] == w2[7]);
}

/// Packing two sets of rows one after the other gives the packing of the
/// first set followed by that of the second: rows are packed
/// independently.
pub proof fn lemma_pack_concat(a: Seq<u8>, b: Seq<u8>, n1: int, n2: int, dim: int, bits: int)
    requires
        n1 >= 0,
        n2 >= 0,
        dim >= 0,
        dim % 8 == 0,
        0 <= bits <= 8,
        a.len() == n1 * dim,
        b.len() == n2 * dim,
    ensures
        packed_spec(a + b, n1 + n2, dim, bits) == packed_spec(a, n1, dim, bits) + packed_spec(
            b,
            n2,
            dim,
            bits,
        ),
{
    let row = row_bytes(dim, bits);
    let plane = dim / 8;
    let ab = a + b;
    let lhs = packed_spec(ab, n1 + n2, dim, bits);
    let rhs = packed_spec(a, n1, dim, bits) + packed_spec(b, n2, dim, bits);
    assert(row >= 0 && (n1 + n2) * row == n1 * row + n2 * row && n1 * row >= 0 && n2 * row >= 0)
        by (nonlinear_arith)
        requires
            n1 >= 0,
            n2 >= 0,
            bits >= 0,
            plane >= 0,
            row == bits * plane,
    ;
    assert(lhs.len() == rhs.len());
    assert forall|k: int| 0 <= k < lhs.len() implies lhs[k] == rhs[k] by {
        assert(row > 0) by (nonlinear_arith)
            requires
                0 <= k < (n1 + n2) * row,
                n1 + n2 >= 0,
                row >= 0,
        ;
        assert(plane > 0) by (nonlinear_arith)
            requires
                row > 0,
                row == bits * plane,
                bits >= 0,
                plane >= 0,
        ;
        let rem = k % row;
        let j0 = 8 * (rem % plane);
        assert(0 <= rem % plane < plane);
        assert(0 <= j0 && j0 + 8 <= dim) by (nonlinear_arith)
            requires
                0 <= rem % plane < plane,
                j0 == 8 * (rem % plane),
                plane == dim / 8,
                dim % 8 == 0,
                dim >= 0,
        ;
        if k < n1 * row {
            let r = k / row;
            assert(0 <= r < n1) by (nonlinear_arith)
                requires
                    0 <= k < n1 * row,
                    row > 0,
                    r == k / row,
            ;
            assert((r + 1) * dim <= n1 * dim && (r + 1) * dim == r * dim + dim) by (nonlinear_arith)
                requires
                    0 <= r < n1,
                    dim >= 0,
            ;
            assert(r * dim >= 0) by (nonlinear_arith)
                requires
                    r >= 0,
                    dim >= 0,
            ;
            assert(ab.subrange(r * dim + j0, r * dim + j0 + 8) =~= a.subrange(
                r * dim + j0,
                r * dim + j0 + 8,
            ));
            lemma_plane_byte_same(ab, r * dim + j0, a, r * dim + j0, (rem / plane) as u8);
            assert(rhs[k] == packed_spec(a, n1, dim, bits)[k]);
        } else {
            let k2 = k - n1 * row;
            let r2 = k2 / row;
            let rem2 = k2 % row;
            assert(0 <= k2 < n2 * row);
            assert(0 <= r2 < n2) by (nonlinear_arith)
                requires
                    0 <= k2 < n2 * row,
                    row > 0,
                    r2 == k2 / row,
            ;
            assert(0 <= rem2 < row);
            vstd::arithmetic::div_mod::lemma_fundamental_div_mod(k2, row);
            assert(k == (n1 + r2) * row + rem2) by (nonlinear_arith)
                requires
                    k2 == k - n1 * row,
                    k2 == row * r2 + rem2,
            ;
            lemma_fundamental_div_mod_converse(k, row, n1 + r2, rem2);
            assert(rem == rem2);
            assert(k / row == n1 + r2);
            assert((r2 + 1) * dim <= n2 * dim && (r2 + 1) * dim == r2 * dim + dim) by (nonlinear_arith)
                requires
                    0 <= r2 < n2,
                    dim >= 0,
            ;
            assert(r2 * dim >= 0 && (n1 + r2) * dim == n1 * dim + r2 * dim) by (nonlinear_arith)
                requires
                    r2 >= 0,
                    dim >= 0,
            ;
            let x = (n1 + r2) * dim + j0;
            let y = r2 * dim + j0;
            assert(x == a.len() + y);
            assert(ab.subrange(x, x + 8) =~= b.subrange(y, y + 8));
            lemma_plane_byte_same(ab, (n1 + r2) * dim + j0, b, r2 * dim + j0, (rem / plane) as u8);
            assert(rhs[k] == packed_spec(b, n2, dim, bits)[k2]);
        }
    }
    assert(lhs =~= rhs);
}

} // verus!

verus! {

/// Number of `BLOCK`-vector blocks needed for `n` vectors (rounded up).
pub open spec fn n_blocks_spec(n: int) -> int {
    (n + BLOCK as int - 1) / BLOCK as int
}

/// Byte `k` of the 4-bit blocked layout. It belongs to block
/// `k / (dim / 2 * BLOCK)`, byte group `g` and lane `lane` within that block;
/// for vector `v = block * BLOCK + lane < n` it holds the code of coordinate
/// `2 * g` in its high nibble and that of coordinate `2 * g + 1` in its low
/// nibble, and lanes past the last vector hold zero.
pub open spec fn repack_byte_at(packed: Seq<u8>, n: int, dim: int, k: int) -> u8 {
    let stride = (dim / 2) * BLOCK as int;
    let block = k / stride;
    let g = (k % stride) / BLOCK as int;
    let lane = (k % stride) % BLOCK as int;
    let v = block * BLOCK as int + lane;
    if v < n {
        let base = v * row_bytes(dim, 4);
        let hi = gather_code(packed, base, dim / 8, 2 * g, 4) & 0x0F;
        let lo = gather_code(packed, base, dim / 8, 2 * g + 1, 4) & 0x0F;
        (hi << 4u8) | lo
    } else {
        0
    }
}

/// The whole 4-bit blocked layout of `n` packed vectors.
pub open spec fn repack_spec(packed: Seq<u8>, n: int, dim: int) -> Seq<u8> {
    Seq::new(
        (n_blocks_spec(n) * (dim / 2) * BLOCK as int) as nat,
        |k: int| repack_byte_at(packed, n, dim, k),
    )
}

/// Repack 4-bit bit-plane codes into the blocked layout used by the
/// lookup-table search kernel: for block `b`, byte group `g` and lane `l`,
/// byte `b * (dim / 2) * BLOCK + g * BLOCK + l` packs the codes of
/// coordinates `2g` (high nibble) and `2g + 1` (low nibble) of vector
/// `b * BLOCK + l`; lanes past the last vector are zero.
///
/// Returns `(blocked_bytes, n_blocks)`.
pub fn repack_4bit(packed_codes: &[u8], n_vectors: usize, dim: usize) -> (res: (Vec<u8>, usize))
    requires
        dim % 8 == 0,
        n_vectors * row_bytes(dim as int, 4) <= packed_codes@.len(),
        n_blocks_spec(n_vectors as int) * (dim / 2) * BLOCK as int <= usize::MAX,
    ensures
        res.1 == n_blocks_spec(n_vectors as int),
        res.0@ == repack_spec(packed_codes@, n_vectors as int, dim as int),
{
    let bits: usize = 4;
    let plane = dim / 8;
    let n_byte_groups = dim / 2;
    let n_blocks = n_vectors / BLOCK + if n_vectors % BLOCK == 0 {
        0
    } else {
        1
    };
    let plen = packed_codes.len();
    proof {
        assert(n_blocks == n_blocks_spec(n_vectors as int));
        assert(0 <= n_byte_groups * BLOCK <= n_blocks * (n_byte_groups * BLOCK) || n_blocks == 0)
            by (nonlinear_arith)
            requires
                n_byte_groups >= 0,
        ;
        assert(n_blocks * n_byte_groups * BLOCK == n_blocks * (n_byte_groups * BLOCK))
            by (nonlinear_arith);
    }
    let stride = if n_blocks == 0 {
        0
    } else {
        n_byte_groups * BLOCK
    };
    let row = bits * plane;
    let mut blocked: Vec<u8> = Vec::new();
    assert(0 * stride == 0);
    for block in 0..n_blocks
        invariant
            dim % 8 == 0,
            bits == 4,
            plane == dim / 8,
            row == bits * plane,
            n_byte_groups == dim / 2,
            n_blocks > 0 ==> stride == n_byte_groups * BLOCK,
            n_blocks * stride <= usize::MAX,
            n_vectors * row <= plen,
            plen == packed_codes@.len(),
            blocked@.len() == block * stride,
            forall|k: int|
                0 <= k < blocked@.len() ==> blocked@[k] == repack_byte_at(
                    packed_codes@,
                    n_vectors as int,
                    dim as int,
                    k,
                ),
    {
        proof {
            assert((block + 1) * stride <= n_blocks * stride && (block + 1) * stride == block
                * stride + stride) by (nonlinear_arith)
                requires
                    block < n_blocks,
                    stride >= 0,
            ;
            assert(block * stride + 0 * BLOCK == block * stride);
        }
        for g in 0..n_byte_groups
            invariant
                dim % 8 == 0,
                bits == 4,
                plane == dim / 8,
                row == bits * plane,
                n_byte_groups == dim / 2,
                stride == n_byte_groups * BLOCK,
                block < n_blocks,
                (block + 1) * stride <= n_blocks * stride,
                (block + 1) * stride == block * stride + stride,
                n_blocks * stride <= usize::MAX,
                n_vectors * row <= plen,
                plen == packed_codes@.len(),
                blocked@.len() == block * stride + g * BLOCK,
                forall|k: int|
                    0 <= k < blocked@.len() ==> blocked@[k] == repack_byte_at(
                        packed_codes@,
                        n_vectors as int,
                        dim as int,
                        k,
                    ),
        {
            for lane in 0..BLOCK
                invariant
                    dim % 8 == 0,
                    bits == 4,
                    plane == dim / 8,
                    row == bits * plane,
                    n_byte_groups == dim / 2,
                    stride == n_byte_groups * BLOCK,
                    block < n_blocks,
                    g < n_byte_groups,
                    (block + 1) * stride <= n_blocks * stride,
                    (block + 1) * stride == block * stride + stride,
                    n_blocks * stride <= usize::MAX,
                    n_vectors * row <= plen,
                    plen == packed_codes@.len(),
                    blocked@.len() == block * stride + g * BLOCK + lane,
                    forall|k: int|
                        0 <= k < blocked@.len() ==> blocked@[k] == repack_byte_at(
                            packed_codes@,
                            n_vectors as int,
                            dim as int,
                            k,
                        ),
            {
                proof {
                    lemma_packed_position(
                        block as int,
                        g as int,
                        lane as int,
                        BLOCK as int,
                        stride as int,
                        n_byte_groups as int,
                    );
                }
                proof {
                    assert(block * BLOCK + lane < n_blocks * stride) by (nonlinear_arith)
                        requires
                            block < n_blocks,
                            lane < BLOCK,
                            g < n_byte_groups,
                            stride == n_byte_groups * BLOCK,
                    ;
                }
                let v = block * BLOCK + lane;
                let byte = if v < n_vectors {
                    proof {
                        assert(v * row + row <= n_vectors * row) by (nonlinear_arith)
                            requires
                                v < n_vectors,
                                row >= 0,
                        ;
                    }
                    let base = v * row;
                    let hi = decode_code(packed_codes, base, plane, 2 * g, bits) & 0x0F;
                    let lo = decode_code(packed_codes, base, plane, 2 * g + 1, bits) & 0x0F;
                    (hi << 4u8) | lo
                } else {
                    0u8
                };
                blocked.push(byte);
            }
            proof {
                assert(block * stride + g * BLOCK + BLOCK == block * stride + (g + 1) * BLOCK)
                    by (nonlinear_arith);
            }
        }
    }
    proof {
        let nb = n_blocks_spec(n_vectors as int);
        let ng = dim as int / 2;
        assert(nb == n_blocks);
        assert(n_blocks * stride == nb * ng * BLOCK as int) by (nonlinear_arith)
            requires
                nb == n_blocks,
                ng == n_byte_groups,
                n_blocks > 0 ==> stride == n_byte_groups * BLOCK,
                n_blocks == 0 ==> stride == 0,
        ;
    }
    assert(blocked@ =~= repack_spec(packed_codes@, n_vectors as int, dim as int));
    (blocked, n_blocks)
}

} // verus!

verus! {

/// Byte `k` of the 4-bit blocked layout, written directly in terms of the
/// per-coordinate codes of the vectors.
pub open spec fn blocked_byte_from_codes(codes: Seq<u8>, n: int, dim: int, k: int) -> u8 {
    let stride = (dim / 2) * BLOCK as int;
    let block = k / stride;
    let g = (k % stride) / BLOCK as int;
    let lane = (k % stride) % BLOCK as int;
    let v = block * BLOCK as int + lane;
    if v < n {
        ((codes[v * dim + 2 * g] & 0x0F) << 4u8) | (codes[v * dim + 2 * g + 1] & 0x0F)
    } else {
        0
    }
}

proof fn lemma_low_nibble(x: u8)
    ensures
        low_bits(x, 4) & 0x0F == x & 0x0F,
{
    assert((((x as u16) & (((1u16 << 4u8) - 1u16) as u16)) as u8) & 0x0F == x & 0x0F)
        by (bit_vector);
}

/// Repacking the bit planes of `n` vectors of 4-bit codes puts, at every
/// (block, group, lane) position, the two nibbles of the codes of
/// coordinates `2g` and `2g + 1` of vector `block * BLOCK + lane`, and zero
/// in lanes past the last vector.
pub proof fn lemma_repack_of_packed(codes: Seq<u8>, n: int, dim: int, k: int)
    requires
        n >= 0,
        dim >= 0,
        dim % 8 == 0,
        codes.len() == n * dim,
        0 <= k < n_blocks_spec(n) * (dim / 2) * BLOCK as int,
    ensures
        repack_spec(packed_spec(codes, n, dim, 4), n, dim)[k] == blocked_byte_from_codes(
            codes,
            n,
            dim,
            k,
        ),
{
    let stride = (dim / 2) * BLOCK as int;
    assert(stride > 0) by (nonlinear_arith)
        requires
            0 <= k < n_blocks_spec(n) * (dim / 2) * BLOCK as int,
            n_blocks_spec(n) >= 0,
            dim / 2 >= 0,
            stride == (dim / 2) * BLOCK as int,
    ;
    let g = (k % stride) / BLOCK as int;
    let lane = (k % stride) % BLOCK as int;
    let v = (k / stride) * BLOCK as int + lane;
    if v < n {
        assert(0 <= k % stride < stride);
        assert(0 <= g < dim / 2) by (nonlinear_arith)
            requires
                0 <= k % stride < stride,
                stride == (dim / 2) * BLOCK as int,
                g == (k % stride) / BLOCK as int,
        ;
        assert(v >= 0) by (nonlinear_arith)
            requires
                k >= 0,
                stride > 0,
                lane >= 0,
                v == (k / stride) * BLOCK as int + lane,
        ;
        lemma_gather_packed(codes, n, dim, 4, v, 2 * g, 4);
        lemma_gather_packed(codes, n, dim, 4, v, 2 * g + 1, 4);
        lemma_low_nibble(codes[v * dim + 2 * g]);
        lemma_low_nibble(codes[v * dim + 2 * g + 1]);
    }
}

} // verus!
