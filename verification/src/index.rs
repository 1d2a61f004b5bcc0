//! The positional quantized-vector store behind `RotorQuantIndex`.
//!
//! This crate holds everything of the index that is not floating point:
//! its shape, the bit-plane codes of every stored vector, the per-vector
//! norms (as IEEE-754 bit patterns), removal, serialization, and the
//! selection of search results from score keys. Encoding vectors and
//! computing scores happen outside it.
use vstd::prelude::*;
use crate::io::{self, FormatError};
use crate::pack::row_bytes;
use crate::rotor::Rotation;
use crate::search::{is_top_k, top_k_slots};
use crate::{DEFAULT_ROTATION, DEFAULT_ROTOR_SEED};

verus! {

/// A quantized vector index: its shape, its rotation kind and seed, and
/// the bit-plane codes and norm bits of every stored vector, by slot.
pub struct RotorQuantIndex {
    dim: usize,
    bits: usize,
    rotation: Rotation,
    n_vectors: usize,
    seed: u64,
    packed_codes: Vec<u8>,
    norms: Vec<u32>,
}

/// The stored bytes after `swap_remove(idx)` on `n` rows of `row` bytes:
/// row `idx` takes the bytes of the last row, and the last row is dropped.
pub open spec fn swap_remove_rows(codes: Seq<u8>, idx: int, n: int, row: int) -> Seq<u8> {
    let last = n - 1;
    Seq::new(
        (last * row) as nat,
        |k: int|
            if idx != last && idx * row <= k < idx * row + row {
                codes[last * row + (k - idx * row)]
            } else {
                codes[k]
            },
    )
}

/// The stored norms after `swap_remove(idx)`.
pub open spec fn swap_remove_norms(norms: Seq<u32>, idx: int) -> Seq<u32> {
    norms.update(idx, norms.last()).drop_last()
}

/// Row `q` of a row-major result buffer with rows of `k` entries, read as
/// slots.
pub open spec fn slots_of_row(res: Seq<i64>, q: int, k: int) -> Seq<usize> {
    Seq::new(k as nat, |r: int| res[q * k + r] as usize)
}

/// The `k` actually used by a search: `k` capped at the number of stored
/// vectors, and at least one.
pub open spec fn effective_k(k: int, n: int) -> int {
    let capped = if k < n {
        k
    } else {
        n
    };
    if capped < 1 {
        1
    } else {
        capped
    }
}

impl RotorQuantIndex {
    /// Vector dimension.
    pub closed spec fn spec_dim(&self) -> usize {
        self.dim
    }

    /// Bits per quantized coordinate.
    pub closed spec fn spec_bits(&self) -> usize {
        self.bits
    }

    /// Rotation kind.
    pub closed spec fn spec_rotation(&self) -> Rotation {
        self.rotation
    }

    /// Seed of the rotation's random stream.
    pub closed spec fn spec_seed(&self) -> u64 {
        self.seed
    }

    /// Number of stored vectors.
    pub closed spec fn spec_len(&self) -> usize {
        self.n_vectors
    }

    /// The bit-plane codes of all stored vectors, row after row.
    pub closed spec fn codes(&self) -> Seq<u8> {
        self.packed_codes@
    }

    /// The norms of all stored vectors, as IEEE-754 bit patterns.
    pub closed spec fn norm_bits(&self) -> Seq<u32> {
        self.norms@
    }

    /// Bytes per stored vector.
    pub open spec fn row(&self) -> int {
        row_bytes(self.spec_dim() as int, self.spec_bits() as int)
    }

    /// The codes and norms agree with the number of stored vectors.
    pub open spec fn wf(&self) -> bool {
        &&& self.codes().len() == self.spec_len() * self.row()
        &&& self.norm_bits().len() == self.spec_len()
    }

    /// An empty index with the default rotation and seed. `dim` must be a
    /// multiple of 8; `bits` must be 2, 3, or 4.
    pub fn new(dim: usize, bits: usize) -> (r: Self)
        requires
            2 <= bits <= 4,
            dim % 8 == 0,
        ensures
            r.wf(),
            r.spec_dim() == dim,
            r.spec_bits() == bits,
            r.spec_rotation() == DEFAULT_ROTATION,
            r.spec_seed() == DEFAULT_ROTOR_SEED,
            r.spec_len() == 0,
    {
        Self::with_options(dim, bits, DEFAULT_ROTATION, DEFAULT_ROTOR_SEED)
    }

    /// An empty index with an explicit rotation kind and the default seed.
    pub fn with_rotation(dim: usize, bits: usize, rotation: Rotation) -> (r: Self)
        requires
            2 <= bits <= 4,
            dim % 8 == 0,
        ensures
            r.wf(),
            r.spec_dim() == dim,
            r.spec_bits() == bits,
            r.spec_rotation() == rotation,
            r.spec_seed() == DEFAULT_ROTOR_SEED,
            r.spec_len() == 0,
    {
        Self::with_options(dim, bits, rotation, DEFAULT_ROTOR_SEED)
    }

    /// An empty index with the default rotation and an explicit seed.
    pub fn with_seed(dim: usize, bits: usize, seed: u64) -> (r: Self)
        requires
            2 <= bits <= 4,
            dim % 8 == 0,
        ensures
            r.wf(),
            r.spec_dim() == dim,
            r.spec_bits() == bits,
            r.spec_rotation() == DEFAULT_ROTATION,
            r.spec_seed() == seed,
            r.spec_len() == 0,
    {
        Self::with_options(dim, bits, DEFAULT_ROTATION, seed)
    }

    /// An empty index with an explicit rotation kind and seed.
    pub fn with_options(dim: usize, bits: usize, rotation: Rotation, seed: u64) -> (r: Self)
        requires
            2 <= bits <= 4,
            dim % 8 == 0,
        ensures
            r.wf(),
            r.spec_dim() == dim,
            r.spec_bits() == bits,
            r.spec_rotation() == rotation,
            r.spec_seed() == seed,
            r.spec_len() == 0,
    {
        RotorQuantIndex {
            dim,
            bits,
            rotation,
            n_vectors: 0,
            seed,
            packed_codes: Vec::new(),
            norms: Vec::new(),
        }
    }

    /// Rebuild an index from its stored parts.
    pub(crate) fn from_parts(
        dim: usize,
        bits: usize,
        rotation: Rotation,
        n_vectors: usize,
        seed: u64,
        packed_codes: Vec<u8>,
        norms: Vec<u32>,
    ) -> (r: Self)
        ensures
            r.spec_dim() == dim,
            r.spec_bits() == bits,
            r.spec_rotation() == rotation,
            r.spec_seed() == seed,
            r.spec_len() == n_vectors,
            r.codes() == packed_codes@,
            r.norm_bits() == norms@,
    {
        RotorQuantIndex { dim, bits, rotation, n_vectors, seed, packed_codes, norms }
    }

    /// Append already encoded vectors: their bit-plane rows (one row of
    /// `row()` bytes per vector) and their norms.
    pub fn add_encoded(&mut self, packed: &[u8], norms: &[u32])
        requires
            old(self).wf(),
            packed@.len() == norms@.len() * old(self).row(),
            old(self).spec_len() + norms@.len() <= usize::MAX,
        ensures
            final(self).wf(),
            final(self).codes() == old(self).codes() + packed@,
            final(self).norm_bits() == old(self).norm_bits() + norms@,
            final(self).spec_len() == old(self).spec_len() + norms@.len(),
            final(self).spec_dim() == old(self).spec_dim(),
            final(self).spec_bits() == old(self).spec_bits(),
            final(self).spec_rotation() == old(self).spec_rotation(),
            final(self).spec_seed() == old(self).spec_seed(),
    {
        let ghost row = self.row();
        let ghost n0 = self.n_vectors as int;
        let mut p = vstd::slice::slice_to_vec(packed);
        let mut q = vstd::slice::slice_to_vec(norms);
        self.packed_codes.append(&mut p);
        self.norms.append(&mut q);
        self.n_vectors = self.n_vectors + norms.len();
        proof {
            let n1 = self.n_vectors as int;
            let c = norms@.len() as int;
            assert(n0 * row + c * row == n1 * row) by (nonlinear_arith)
                requires
                    n1 == n0 + c,
            ;
        }
    }

    /// Remove the vector at `idx` in O(1) by swap-with-last. Order is not
    /// preserved. Returns the old index of the moved vector.
    pub fn swap_remove(&mut self, idx: usize) -> (moved_from: usize)
        requires
            old(self).wf(),
            idx < old(self).spec_len(),
            old(self).spec_dim() % 8 == 0,
        ensures
            final(self).wf(),
            moved_from == old(self).spec_len() - 1,
            final(self).spec_len() == old(self).spec_len() - 1,
            final(self).codes() == swap_remove_rows(
                old(self).codes(),
                idx as int,
                old(self).spec_len() as int,
                old(self).row(),
            ),
            final(self).norm_bits() == swap_remove_norms(old(self).norm_bits(), idx as int),
            final(self).spec_dim() == old(self).spec_dim(),
            final(self).spec_bits() == old(self).spec_bits(),
            final(self).spec_rotation() == old(self).spec_rotation(),
            final(self).spec_seed() == old(self).spec_seed(),
    {
        let ghost old_codes = self.packed_codes@;
        let ghost n = self.n_vectors as int;
        let ghost row = self.row();
        let plen = self.packed_codes.len();
        proof {
            assert(self.dim * self.bits / 8 == self.bits * (self.dim / 8)) by (nonlinear_arith)
                requires
                    self.dim % 8 == 0,
            ;
            assert(0 <= row <= n * row && (n - 1) * row + row == n * row) by (nonlinear_arith)
                requires
                    n >= 1,
                    row >= 0,
            ;
        }
        assert(self.bits * (self.dim / 8) == row);
        assert(row <= plen);
        let bytes_per_vec = self.bits * (self.dim / 8);
        let last = self.n_vectors - 1;
        if idx != last {
            proof {
                assert(idx * row + row <= last * row) by (nonlinear_arith)
                    requires
                        idx < last,
                        row >= 0,
                ;
            }
            assert(last * row <= plen);
            let src = last * bytes_per_vec;
            let dst = idx * bytes_per_vec;
            let mut t: usize = 0;
            while t < bytes_per_vec
                invariant
                    t <= bytes_per_vec,
                    bytes_per_vec == row,
                    src == last * row,
                    dst == idx * row,
                    dst + row <= src,
                    src + row == n * row,
                    plen == n * row,
                    self.norms@ == old(self).norms@,
                    self.n_vectors == old(self).n_vectors,
                    self.dim == old(self).dim,
                    self.bits == old(self).bits,
                    self.rotation == old(self).rotation,
                    self.seed == old(self).seed,
                    idx < last,
                    last == n - 1,
                    self.packed_codes@.len() == old_codes.len(),
                    old_codes.len() == n * row,
                    forall|k: int|
                        0 <= k < old_codes.len() ==> #[trigger] self.packed_codes@[k] == if dst <= k
                            < dst + t {
                            old_codes[src + (k - dst)]
                        } else {
                            old_codes[k]
                        },
                decreases bytes_per_vec - t,
            {
                let b = self.packed_codes[src + t];
                self.packed_codes.set(dst + t, b);
                t = t + 1;
            }
            let moved = self.norms[last];
            self.norms.set(idx, moved);
        }
        let ghost mid = self.packed_codes@;
        self.packed_codes.truncate(last * bytes_per_vec);
        let ghost before_pop = self.norms@;
        self.norms.pop();
        self.n_vectors = self.n_vectors - 1;
        proof {
            assert(self.packed_codes@ =~= swap_remove_rows(old_codes, idx as int, n, row));
            assert(self.norms@ =~= swap_remove_norms(old(self).norms@, idx as int));
        }
        last
    }

    /// Number of stored vectors.
    pub fn len(&self) -> (n: usize)
        ensures
            n == self.spec_len(),
    {
        self.n_vectors
    }

    /// Whether no vector is stored.
    pub fn is_empty(&self) -> (b: bool)
        ensures
            b == (self.spec_len() == 0),
    {
        self.n_vectors == 0
    }

    /// Vector dimension.
    pub fn dim(&self) -> (d: usize)
        ensures
            d == self.spec_dim(),
    {
        self.dim
    }

    /// Bits per quantized coordinate.
    pub fn bits(&self) -> (b: usize)
        ensures
            b == self.spec_bits(),
    {
        self.bits
    }

    /// Rotation kind.
    pub fn rotation(&self) -> (r: Rotation)
        ensures
            r == self.spec_rotation(),
    {
        self.rotation
    }

    /// Seed of the rotation's random stream.
    pub fn seed(&self) -> (s: u64)
        ensures
            s == self.spec_seed(),
    {
        self.seed
    }

    /// The bit-plane codes of all stored vectors.
    pub fn packed_codes(&self) -> (c: &[u8])
        ensures
            c@ == self.codes(),
    {
        self.packed_codes.as_slice()
    }

    /// The norms of all stored vectors, as IEEE-754 bit patterns.
    pub fn norms(&self) -> (n: &[u32])
        ensures
            n@ == self.norm_bits(),
    {
        self.norms.as_slice()
    }

    /// The result rows of a search over `nq` queries, given one score key
    /// per (query, stored vector) pair, row-major, where a higher key means
    /// a better match. Returns the slots, `nq` rows of `k_used` entries
    /// each, and `k_used`, which is `k` capped at the number of stored
    /// vectors and at least one. Row `q` holds the best-first top-`k_used`
    /// selection over that query's keys; with no stored vector every entry
    /// is `-1`.
    pub fn search_slots(&self, keys: &[u32], nq: usize, k: usize) -> (res: (Vec<i64>, usize))
        requires
            self.wf(),
            keys@.len() == nq * self.spec_len(),
            nq * effective_k(k as int, self.spec_len() as int) <= usize::MAX,
            self.spec_len() <= i64::MAX,
        ensures
            res.1 == effective_k(k as int, self.spec_len() as int),
            res.1 == vstd::math::max(vstd::math::min(k as int, self.spec_len() as int), 1),
            res.0@.len() == nq * res.1,
            self.spec_len() == 0 ==> forall|i: int| 0 <= i < res.0@.len() ==> #[trigger] res.0@[i] == -1,
            self.spec_len() > 0 ==> forall|i: int| 0 <= i < res.0@.len() ==> #[trigger] res.0@[i] >= 0,
            self.spec_len() > 0 ==> forall|q: int|
                0 <= q < nq ==> #[trigger] is_top_k(
                    keys@.subrange(q * self.spec_len(), (q + 1) * self.spec_len()),
                    res.1 as int,
                    slots_of_row(res.0@, q, res.1 as int),
                ),
    {
        let n = self.n_vectors;
        let capped = if k < n {
            k
        } else {
            n
        };
        let kk = if capped < 1 {
            1
        } else {
            capped
        };
        let total = nq * kk;
        let mut out: Vec<i64> = Vec::new();
        if n == 0 {
            for i in 0..total
                invariant
                    out@.len() == i,
                    forall|t: int| 0 <= t < i ==> #[trigger] out@[t] == -1,
            {
                out.push(-1);
            }
            return (out, kk);
        }
        let klen = keys.len();
        assert(0 * kk == 0);
        for q in 0..nq
            invariant
                n == self.spec_len(),
                n > 0,
                kk == effective_k(k as int, n as int),
                kk <= n,
                klen == keys@.len(),
                klen == nq * n,
                total == nq * kk,
                n <= i64::MAX,
                out@.len() == q * kk,
                forall|i: int| 0 <= i < out@.len() ==> #[trigger] out@[i] >= 0,
                forall|q2: int|
                    0 <= q2 < q ==> #[trigger] is_top_k(
                        keys@.subrange(q2 * n, (q2 + 1) * n),
                        kk as int,
                        slots_of_row(out@, q2, kk as int),
                    ),
        {
            proof {
                assert((q + 1) * n <= nq * n && (q + 1) * n == q * n + n && (q + 1) * kk <= nq
                    * kk && (q + 1) * kk == q * kk + kk) by (nonlinear_arith)
                    requires
                        q < nq,
                ;
            }
            let ghost before = out@;
            let row_keys = vstd::slice::slice_subrange(keys, q * n, q * n + n);
            let sel = top_k_slots(row_keys, kk);
            for r in 0..kk
                invariant
                    sel@.len() == kk,
                    kk <= n,
                    n <= i64::MAX,
                    forall|t: int| 0 <= t < kk ==> #[trigger] sel@[t] < n,
                    out@.len() == q * kk + r,
                    out@.subrange(0, q * kk) == before,
                    before.len() == q * kk,
                    forall|t: int| 0 <= t < r ==> #[trigger] out@[q * kk + t] == sel@[t] as i64,
                    forall|i: int| 0 <= i < out@.len() ==> #[trigger] out@[i] >= 0,
            {
                out.push(sel[r] as i64);
                assert(out@.subrange(0, q * kk) =~= before);
            }
            proof {
                assert(slots_of_row(out@, q as int, kk as int) =~= sel@);
                assert forall|q2: int|
                    0 <= q2 < q + 1 implies #[trigger] is_top_k(
                    keys@.subrange(q2 * n, (q2 + 1) * n),
                    kk as int,
                    slots_of_row(out@, q2, kk as int),
) by {
                    if q2 < q {
                        assert(q2 * kk + kk <= q * kk) by (nonlinear_arith)
                            requires
                                q2 < q,
                        ;
                        assert forall|r: int| 0 <= r < kk implies #[trigger] slots_of_row(
                            out@,
                            q2,
                            kk as int,
                        )[r] == slots_of_row(before, q2, kk as int)[r] by {
                            assert(out@.subrange(0, q * kk)[q2 * kk + r] == before[q2 * kk + r]);
                        }
                        assert(slots_of_row(out@, q2, kk as int) =~= slots_of_row(
                            before,
                            q2,
                            kk as int,
                        ));
                    }
                }
            }
        }
        (out, kk)
    }

    /// Serialize as a `.rv` file.
    pub fn write(&self) -> (out: Vec<u8>)
        ensures
            out@ == io::rv_bytes(
                self.spec_bits(),
                self.spec_dim(),
                self.spec_len(),
                self.spec_rotation(),
                self.spec_seed(),
                self.codes(),
                self.norm_bits(),
            ),
    {
        io::write(
            self.bits,
            self.dim,
            self.n_vectors,
            self.rotation,
            self.seed,
            self.packed_codes.as_slice(),
            self.norms.as_slice(),
        )
    }

    /// Parse a `.rv` file.
    pub fn load(data: &[u8]) -> (r: Result<Self, FormatError>)
        ensures
            match r {
                Ok(idx) => {
                    &&& io::rv_error(data@) is None
                    &&& idx.wf()
                    &&& idx.spec_bits() == io::stored_bits(data@)
                    &&& idx.spec_dim() == io::stored_dim(data@)
                    &&& idx.spec_len() == io::stored_n(data@)
                    &&& idx.spec_rotation() == io::stored_rotation(data@)
                    &&& idx.spec_seed() == io::stored_seed(data@)
                    &&& idx.codes() == io::stored_packed(data@)
                    &&& idx.norm_bits() == io::stored_norms(data@)
                },
                Err(e) => io::rv_error(data@) == Some(e),
            },
    {
        let (bits, dim, n_vectors, rotation, seed, packed_codes, norms) = io::load(data)?;
        proof {
            assert(packed_codes@.len() == n_vectors * row_bytes(dim as int, bits as int))
                by (nonlinear_arith)
                requires
                    packed_codes@.len() == (dim / 8) as int * bits as int * n_vectors as int,
            ;
        }
        Ok(Self::from_parts(dim, bits, rotation, n_vectors, seed, packed_codes, norms))
    }
}

/// The code buffer of a well-formed index has the size the file header
/// announces: `(dim / 8) * bits * n` bytes.
pub proof fn lemma_codes_len(idx: RotorQuantIndex)
    requires
        idx.wf(),
    ensures
        idx.codes().len() == (idx.spec_dim() / 8) as int * idx.spec_bits() as int
            * idx.spec_len() as int,
{
    let d8 = idx.spec_dim() as int / 8;
    let b = idx.spec_bits() as int;
    let n = idx.spec_len() as int;
    assert(n * (b * d8) == d8 * b * n) by (nonlinear_arith);
}

/// Writing an index and reading the bytes back gives a well-formed file
/// whose every field is the index's own, whenever the fields fit the
/// format (bits in a byte, dim and length in 32 bits).
pub proof fn lemma_index_write_load(idx: RotorQuantIndex)
    requires
        idx.wf(),
        idx.spec_bits() <= 255,
        idx.spec_dim() <= u32::MAX,
        idx.spec_len() <= u32::MAX,
    ensures
        ({
            let d = io::rv_bytes(
                idx.spec_bits(),
                idx.spec_dim(),
                idx.spec_len(),
                idx.spec_rotation(),
                idx.spec_seed(),
                idx.codes(),
                idx.norm_bits(),
            );
            &&& io::rv_error(d) is None
            &&& io::stored_bits(d) == idx.spec_bits()
            &&& io::stored_dim(d) == idx.spec_dim()
            &&& io::stored_n(d) == idx.spec_len()
            &&& io::stored_rotation(d) == idx.spec_rotation()
            &&& io::stored_seed(d) == idx.spec_seed()
            &&& io::stored_packed(d) == idx.codes()
            &&& io::stored_norms(d) == idx.norm_bits()
        }),
{
    lemma_codes_len(idx);
    io::lemma_rv_roundtrip(
        idx.spec_bits(),
        idx.spec_dim(),
        idx.spec_len(),
        idx.spec_rotation(),
        idx.spec_seed(),
        idx.codes(),
        idx.norm_bits(),
    );
}

/// Removing the last vector right after appending it restores the stored
/// codes and norms: `swap_remove` of the newest slot undoes `add_encoded`
/// of one vector.
pub proof fn lemma_swap_remove_undoes_add(
    codes: Seq<u8>,
    norms: Seq<u32>,
    n: int,
    row: int,
    added_row: Seq<u8>,
    added_norm: u32,
)
    requires
        n >= 0,
        row >= 0,
        codes.len() == n * row,
        norms.len() == n,
        added_row.len() == row,
    ensures
        swap_remove_rows(codes + added_row, n, n + 1, row) == codes,
        swap_remove_norms(norms.push(added_norm), n) == norms,
{
    let all = codes + added_row;
    assert((n + 1 - 1) * row == n * row);
    assert(swap_remove_rows(all, n, n + 1, row) =~= codes);
    assert(norms.push(added_norm).update(n, added_norm).drop_last() =~= norms);
}

/// A search returns `min(k, n)` results per query for `n` stored vectors,
/// and one (a padding slot) when `k` is zero or nothing is stored: never
/// more than asked for, and never more than there are.
pub proof fn lemma_effective_k(k: int, n: int)
    requires
        k >= 0,
        n >= 0,
    ensures
        effective_k(k, n) == vstd::math::max(vstd::math::min(k, n), 1),
        1 <= k ==> effective_k(k, n) <= k,
        1 <= n ==> effective_k(k, n) <= n,
        1 <= k <= n ==> effective_k(k, n) == k,
        1 <= n <= k ==> effective_k(k, n) == n,
        k == 0 || n == 0 ==> effective_k(k, n) == 1,
{
}

} // verus!
