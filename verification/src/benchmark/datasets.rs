//! The datasets the benchmark harness can run on, with their names and
//! dimensions.
use vstd::prelude::*;
use vstd::arithmetic::div_mod::{lemma_fundamental_div_mod, lemma_fundamental_div_mod_converse};
use vstd::arithmetic::mul::{lemma_mul_inequality, lemma_mul_is_distributive_add_other_way};
use vstd::bytes::u32_from_le_bytes;
use vstd::slice::slice_subrange;

use crate::text::{decimal, push_decimal};
use crate::io::le32;

verus! {

/// A benchmark dataset.
#[derive(Clone, Copy, Debug, PartialEq, Eq, Structural)]
pub enum Dataset {
    /// SIFT-1M: one million 128-dimensional vectors.
    Sift1M,
    /// GloVe-100 word vectors, zero-padded from 100 to 104 dimensions so
    /// that the dimension is a multiple of 8.
    GloVe100,
    /// Synthetic Gaussian unit vectors.
    Random { n: usize, dim: usize },
}

/// The name a dataset is reported under.
pub open spec fn dataset_name(d: Dataset) -> Seq<char> {
    match d {
        Dataset::Sift1M => "sift-1m"@,
        Dataset::GloVe100 => "glove-100"@,
        Dataset::Random { n, dim } => "random-n"@ + decimal(n as nat) + "-d"@ + decimal(
            dim as nat,
        ),
    }
}

/// The vector dimension the index is built with.
pub open spec fn dataset_dim(d: Dataset) -> usize {
    match d {
        Dataset::Sift1M => 128,
        Dataset::GloVe100 => 104,
        Dataset::Random { dim, .. } => dim,
    }
}

impl Dataset {
    /// The dataset's name: `sift-1m`, `glove-100` or `random-n{n}-d{dim}`.
    pub fn name(&self) -> (s: String)
        ensures
            s@ == dataset_name(*self),
    {
        match self {
            Dataset::Sift1M => {
                proof {
                    reveal_strlit("sift-1m");
                }
                String::from_str("sift-1m")
            },
            Dataset::GloVe100 => {
                proof {
                    reveal_strlit("glove-100");
                }
                String::from_str("glove-100")
            },
            Dataset::Random { n, dim } => {
                let mut s = String::from_str("random-n");
                push_decimal(&mut s, *n);
                s.append("-d");
                push_decimal(&mut s, *dim);
                s
            },
        }
    }

    /// The dimension vectors of this dataset have once loaded (GloVe-100
    /// is padded to 104).
    pub fn dim(&self) -> (d: usize)
        ensures
            d == dataset_dim(*self),
    {
        match self {
            Dataset::Sift1M => 128,
            Dataset::GloVe100 => 104,
            Dataset::Random { dim, .. } => *dim,
        }
    }
}

// ---------------------------------------------------------------- .fvecs / .ivecs

/// Largest dimension a `.fvecs` file may announce.
pub const MAX_FVECS_DIM: usize = 1_000_000;

/// Largest row length an `.ivecs` file may announce.
pub const MAX_IVECS_K: usize = 100_000;

/// Why a `.fvecs` / `.ivecs` buffer was not read.
#[derive(Debug, PartialEq, Eq, Structural)]
pub enum VecsError {
    /// The data ends inside the first record header.
    UnexpectedEof,
    /// The first header announces a dimension of zero, a negative one, or
    /// one above the format's limit; it carries the header as read.
    ImplausibleDim(i32),
    /// The length is not a whole number of records.
    SizeMismatch { len: usize, record_size: usize },
}

/// The dimension the first record header announces.
pub open spec fn vecs_dim(d: Seq<u8>) -> int {
    (le32(d, 0) as i32) as int
}

/// Bytes per record: a 4-byte header and `dim` 4-byte values.
pub open spec fn vecs_record_size(d: Seq<u8>) -> int {
    4 + 4 * vecs_dim(d)
}

/// Why `d` is not a file of records of at most `max_dim` values, if it is not.
pub open spec fn vecs_error(d: Seq<u8>, max_dim: int) -> Option<VecsError> {
    if d.len() < 4 {
        Some(VecsError::UnexpectedEof)
    } else if vecs_dim(d) <= 0 || vecs_dim(d) > max_dim {
        Some(VecsError::ImplausibleDim(le32(d, 0) as i32))
    } else if d.len() as int % vecs_record_size(d) != 0 {
        Some(
            VecsError::SizeMismatch {
                len: d.len() as usize,
                record_size: vecs_record_size(d) as usize,
            },
        )
    } else {
        None
    }
}

/// Value `t` of the file, counting across records and skipping every
/// record's header (only the first header is checked).
pub open spec fn vecs_value(d: Seq<u8>, t: int) -> u32 {
    le32(d, (t / vecs_dim(d)) * vecs_record_size(d) + 4 + 4 * (t % vecs_dim(d)))
}

/// Every value of the file, record after record, as raw 32-bit words.
pub open spec fn vecs_values(d: Seq<u8>) -> Seq<u32> {
    Seq::new(
        ((d.len() as int / vecs_record_size(d)) * vecs_dim(d)) as nat,
        |t: int| vecs_value(d, t),
    )
}

fn read_records(data: &[u8], max_dim: usize) -> (r: Result<(Vec<u32>, usize), VecsError>)
    requires
        0 < max_dim <= MAX_FVECS_DIM,
    ensures
        match r {
            Ok((v, dim)) => vecs_error(data@, max_dim as int) is None && v@ == vecs_values(data@)
                && dim == vecs_dim(data@),
            Err(e) => vecs_error(data@, max_dim as int) == Some(e),
        },
{
    let len = data.len();
    if len < 4 {
        return Err(VecsError::UnexpectedEof);
    }
    let header = u32_from_le_bytes(slice_subrange(data, 0, 4));
    let signed = #[verifier::truncate] (header as i32);
    if signed <= 0 || signed as usize > max_dim {
        return Err(VecsError::ImplausibleDim(signed));
    }
    let dim = signed as usize;
    let rs = 4 + 4 * dim;
    if len % rs != 0 {
        return Err(VecsError::SizeMismatch { len, record_size: rs });
    }
    let n = len / rs;
    proof {
        lemma_fundamental_div_mod(len as int, rs as int);
        assert(n * rs == len) by (nonlinear_arith)
            requires
                len == rs * (len / rs) + len % rs,
                len % rs == 0,
                n == len / rs,
        ;
    }
    let ghost d = data@;
    let mut out: Vec<u32> = Vec::new();
    let mut base: usize = 0;
    assert(0 * rs == 0 && 0 * dim == 0);
    for r in 0..n
        invariant
            len == d.len(),
            d == data@,
            dim == vecs_dim(d),
            0 < dim <= max_dim <= MAX_FVECS_DIM,
            rs == vecs_record_size(d),
            n * rs == len,
            base == r * rs,
            out@.len() == r * dim,
            forall|t: int| 0 <= t < out@.len() ==> #[trigger] out@[t] == vecs_value(d, t),
    {
        proof {
            lemma_mul_inequality(r as int + 1, n as int, rs as int);
            lemma_mul_is_distributive_add_other_way(rs as int, r as int, 1);
            lemma_mul_is_distributive_add_other_way(dim as int, r as int, 1);
        }
        for j in 0..dim
            invariant
                len == d.len(),
                d == data@,
                dim == vecs_dim(d),
                0 < dim,
                rs == 4 + 4 * dim,
                rs == vecs_record_size(d),
                base == r * rs,
                base + rs <= len,
                out@.len() == r * dim + j,
                forall|t: int| 0 <= t < out@.len() ==> #[trigger] out@[t] == vecs_value(d, t),
        {
            let at = base + 4 + 4 * j;
            let w = u32_from_le_bytes(slice_subrange(data, at, at + 4));
            proof {
                let t = r * dim + j;
                lemma_fundamental_div_mod_converse(t, dim as int, r as int, j as int);
                assert(vecs_value(d, t) == le32(d, at as int));
            }
            out.push(w);
        }
        base = base + rs;
    }
    assert(out@ =~= vecs_values(d));
    Ok((out, dim))
}

/// Read the values of an `.fvecs` buffer (records of a little-endian `i32`
/// dimension and that many `f32` values) as raw bit patterns, record after
/// record.
pub fn read_fvecs(data: &[u8]) -> (r: Result<Vec<u32>, VecsError>)
    ensures
        match r {
            Ok(v) => vecs_error(data@, MAX_FVECS_DIM as int) is None && v@ == vecs_values(data@),
            Err(e) => vecs_error(data@, MAX_FVECS_DIM as int) == Some(e),
        },
{
    match read_records(data, MAX_FVECS_DIM) {
        Ok((v, _)) => Ok(v),
        Err(e) => Err(e),
    }
}

/// Read an `.ivecs` buffer (records of a little-endian `i32` row length
/// `k` and `k` `i32` values): the values, record after record, and `k`.
pub fn read_ivecs(data: &[u8]) -> (r: Result<(Vec<i32>, usize), VecsError>)
    ensures
        match r {
            Ok((v, k)) => {
                &&& vecs_error(data@, MAX_IVECS_K as int) is None
                &&& k == vecs_dim(data@)
                &&& v@.len() == vecs_values(data@).len()
                &&& forall|t: int| 0 <= t < v@.len() ==> #[trigger] v@[t] == vecs_values(data@)[t] as i32
            },
            Err(e) => vecs_error(data@, MAX_IVECS_K as int) == Some(e),
        },
{
    match read_records(data, MAX_IVECS_K) {
        Ok((words, k)) => {
            let mut v: Vec<i32> = Vec::new();
            for t in 0..words.len()
                invariant
                    v@.len() == t,
                    forall|i: int| 0 <= i < t ==> #[trigger] v@[i] == words@[i] as i32,
            {
                v.push(#[verifier::truncate] (words[t] as i32));
            }
            Ok((v, k))
        },
        Err(e) => Err(e),
    }
}

/// `values`, read as rows of `dim`, each widened to `target` by zeros at
/// its end; a partial last row is dropped.
pub open spec fn padded_rows(values: Seq<u32>, dim: int, target: int) -> Seq<u32> {
    Seq::new(
        ((values.len() as int / dim) * target) as nat,
        |i: int|
            if i % target < dim {
                values[(i / target) * dim + i % target]
            } else {
                0u32
            },
    )
}

/// Widen rows of `dim` values to `target` values by zero padding (the bit
/// pattern 0 is `+0.0`), so that a dataset whose dimension is not a
/// multiple of 8 can be indexed.
pub fn pad_rows(values: &[u32], dim: usize, target: usize) -> (out: Vec<u32>)
    requires
        0 < dim < target,
        (values@.len() as int / dim as int) * target <= usize::MAX,
    ensures
        out@ == padded_rows(values@, dim as int, target as int),
{
    let vlen = values.len();
    let n = vlen / dim;
    proof {
        lemma_fundamental_div_mod(values@.len() as int, dim as int);
        assert(n * dim <= values@.len()) by (nonlinear_arith)
            requires
                values@.len() as int == dim * (values@.len() as int / dim as int) + values@.len() as int % (dim as int),
                values@.len() as int % (dim as int) >= 0,
                n == values@.len() as int / dim as int,
        ;
    }
    let mut out: Vec<u32> = Vec::new();
    assert(0 * target == 0 && 0 * dim == 0);
    for r in 0..n
        invariant
            0 < dim < target,
            n == values@.len() as int / dim as int,
            vlen == values@.len(),
            n * dim <= vlen,
            n * target <= usize::MAX,
            out@.len() == r * target,
            forall|t: int|
                0 <= t < out@.len() ==> #[trigger] out@[t] == padded_rows(
                    values@,
                    dim as int,
                    target as int,
                )[t],
    {
        proof {
            lemma_mul_inequality(r as int + 1, n as int, dim as int);
            lemma_mul_inequality(r as int + 1, n as int, target as int);
            lemma_mul_is_distributive_add_other_way(dim as int, r as int, 1);
            lemma_mul_is_distributive_add_other_way(target as int, r as int, 1);
        }
        let src = r * dim;
        for j in 0..target
            invariant
                0 < dim < target,
                n == values@.len() as int / dim as int,
                r < n,
                src == r * dim,
                vlen == values@.len(),
                src + dim <= vlen,
                (r + 1) * target <= n * target,
                (r + 1) * target == r * target + target,
                n * target <= usize::MAX,
                out@.len() == r * target + j,
                forall|t: int|
                    0 <= t < out@.len() ==> #[trigger] out@[t] == padded_rows(
                        values@,
                        dim as int,
                        target as int,
                    )[t],
        {
            let ghost t = r * target + j;
            proof {
                lemma_fundamental_div_mod_converse(t, target as int, r as int, j as int);
                assert(t < n * target);
            }
            if j < dim {
                out.push(values[src + j]);
            } else {
                out.push(0);
            }
        }
    }
    assert(out@ =~= padded_rows(values@, dim as int, target as int));
    out
}

} // verus!
