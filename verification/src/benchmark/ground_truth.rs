//! Ground truth for the benchmark: the cache file format for exact top-k
//! neighbour ids, and the hit count behind recall@k.
use vstd::prelude::*;
use vstd::arithmetic::div_mod::{lemma_fundamental_div_mod, lemma_div_multiples_vanish};
use vstd::arithmetic::mul::{lemma_mul_inequality, lemma_mul_is_distributive_add_other_way};
use vstd::bytes::{
    spec_u32_to_le_bytes, u32_from_le_bytes, u32_to_le_bytes, lemma_auto_spec_u32_to_from_le_bytes,
};
use vstd::slice::slice_subrange;

use crate::io::{le32, words_bytes, write_words};

verus! {

// ---------------------------------------------------------------- recall

/// Entries of `a` whose value, cut to `i32`, occurs in `t`; an entry
/// that occurs twice in `a` counts twice.
pub open spec fn row_hits(a: Seq<i64>, t: Seq<i32>) -> nat
    decreases a.len(),
{
    if a.len() == 0 {
        0
    } else {
        row_hits(a.drop_last(), t) + if t.contains(a.last() as i32) {
            1nat
        } else {
            0nat
        }
    }
}

/// Hits over the first `nq` rows of `k` entries each.
pub open spec fn total_hits(approx: Seq<i64>, truth: Seq<i32>, k: int, nq: nat) -> nat
    decreases nq,
{
    if nq == 0 {
        0
    } else {
        let q = nq - 1;
        total_hits(approx, truth, k, q as nat) + row_hits(
            approx.subrange(q * k, q * k + k),
            truth.subrange(q * k, q * k + k),
        )
    }
}

proof fn lemma_row_hits_bound(a: Seq<i64>, t: Seq<i32>)
    ensures
        row_hits(a, t) <= a.len(),
    decreases a.len(),
{
    if a.len() > 0 {
        lemma_row_hits_bound(a.drop_last(), t);
    }
}

proof fn lemma_row_hits_count(a: Seq<i64>, t: Seq<i32>, m: int)
    requires
        0 <= m <= a.len(),
    ensures
        Set::new(|j: int| 0 <= j < m && t.contains(a[j] as i32)).finite(),
        Set::new(|j: int| 0 <= j < m && t.contains(a[j] as i32)).len() == row_hits(a.take(m), t),
    decreases m,
{
    let sm = Set::new(|j: int| 0 <= j < m && t.contains(a[j] as i32));
    if m == 0 {
        assert(sm =~= Set::<int>::empty());
        assert(a.take(0).len() == 0);
    } else {
        let sp = Set::new(|j: int| 0 <= j < m - 1 && t.contains(a[j] as i32));
        lemma_row_hits_count(a, t, m - 1);
        assert(a.take(m).drop_last() =~= a.take(m - 1));
        assert(a.take(m).last() == a[m - 1]);
        if t.contains(a[m - 1] as i32) {
            assert(sm =~= sp.insert(m - 1));
            assert(!sp.contains(m - 1));
        } else {
            assert(sm =~= sp);
        }
    }
}

/// The recall count of each query is computed against that query's own
/// truth row only: query `q` adds exactly the number of positions `j < k`
/// whose approximate result `approx[q * k + j]` (cut to `i32`) occurs in
/// `truth[q * k .. q * k + k]`; and no query adds anything before the
/// first.
pub proof fn lemma_total_hits_per_query(approx: Seq<i64>, truth: Seq<i32>, k: int, q: nat)
    requires
        k >= 0,
        (q + 1) * k <= approx.len(),
        (q + 1) * k <= truth.len(),
    ensures
        total_hits(approx, truth, k, 0) == 0,
        Set::new(
            |j: int| 0 <= j < k && truth.subrange(q * k, q * k + k).contains(approx[q * k + j] as i32),
        ).finite(),
        total_hits(approx, truth, k, (q + 1) as nat) - total_hits(approx, truth, k, q) == Set::new(
            |j: int| 0 <= j < k && truth.subrange(q * k, q * k + k).contains(approx[q * k + j] as i32),
        ).len(),
{
    assert((q + 1) * k == q * k + k && q * k >= 0) by (nonlinear_arith)
        requires
            k >= 0,
            q >= 0,
    ;
    let arow = approx.subrange(q * k, q * k + k);
    let trow = truth.subrange(q * k, q * k + k);
    lemma_row_hits_count(arow, trow, k);
    assert(arow.take(k) =~= arow);
    assert(Set::new(|j: int| 0 <= j < k && trow.contains(arow[j] as i32)) =~= Set::new(
        |j: int| 0 <= j < k && truth.subrange(q * k, q * k + k).contains(approx[q * k + j] as i32),
    ));
}

fn slice_contains(t: &[i32], lo: usize, hi: usize, x: i32) -> (b: bool)
    requires
        lo <= hi <= t@.len(),
    ensures
        b == t@.subrange(lo as int, hi as int).contains(x),
{
    let ghost s = t@.subrange(lo as int, hi as int);
    for i in lo..hi
        invariant
            lo <= hi <= t@.len(),
            s == t@.subrange(lo as int, hi as int),
            forall|j: int| lo <= j < i ==> t@[j] != x,
    {
        if t[i] == x {
            assert(s[i - lo] == x);
            return true;
        }
    }
    assert forall|j: int| 0 <= j < s.len() implies s[j] != x by {
        assert(s[j] == t@[lo + j]);
    }
    false
}

/// The number of approximate results that are true neighbours, summed
/// over the `approx.len() / k` queries: row `q` of `approx` is checked
/// against row `q` of `truth`. recall@k is this count divided by
/// `queries * k`.
pub fn recall_hits(approx: &[i64], truth: &[i32], k: usize) -> (h: usize)
    requires
        k > 0,
        truth@.len() >= (approx@.len() / k as nat) * k,
    ensures
        h == total_hits(approx@, truth@, k as int, approx@.len() / k as nat),
        h <= (approx@.len() / k as nat) * k,
{
    let alen = approx.len();
    let nq = alen / k;
    proof {
        lemma_fundamental_div_mod(approx@.len() as int, k as int);
        assert(nq * k <= approx@.len()) by (nonlinear_arith)
            requires
                approx@.len() as int == k * (approx@.len() as int / k as int) + approx@.len() as int % (k as int),
                approx@.len() as int % (k as int) >= 0,
                nq == approx@.len() as int / k as int,
        ;
    }
    let mut total: usize = 0;
    let mut q: usize = 0;
    while q < nq
        invariant
            k > 0,
            nq == approx@.len() / k as nat,
            alen == approx@.len(),
            nq * k <= alen,
            nq * k <= truth@.len(),
            q <= nq,
            total == total_hits(approx@, truth@, k as int, q as nat),
            total <= q * k,
        decreases nq - q,
    {
        proof {
            lemma_mul_inequality(q as int + 1, nq as int, k as int);
            lemma_mul_is_distributive_add_other_way(k as int, q as int, 1);
            assert((q + 1) * k == q * k + k);
            assert(q * k + k <= nq * k);
        }
        let base = q * k;
        let ghost trow = truth@.subrange(base as int, base + k);
        let mut hits: usize = 0;
        for j in 0..k
            invariant
                alen == approx@.len(),
                base + k <= alen,
                base + k <= truth@.len(),
                trow == truth@.subrange(base as int, base + k),
                hits == row_hits(approx@.subrange(base as int, base + j), trow),
                hits <= j,
        {
            let x = #[verifier::truncate] (approx[base + j] as i32);
            let found = slice_contains(truth, base, base + k, x);
            proof {
                let a = approx@.subrange(base as int, base + j + 1);
                assert(a.drop_last() =~= approx@.subrange(base as int, base + j));
                assert(a.last() == approx@[base + j]);
            }
            if found {
                hits = hits + 1;
            }
        }
        proof {
            lemma_row_hits_bound(approx@.subrange(base as int, base + k), trow);
        }
        total = total + hits;
        q = q + 1;
    }
    total
}

// ---------------------------------------------------------------- cache file

/// The ids as the 32-bit words they are stored as.
pub open spec fn truth_words(indices: Seq<i32>) -> Seq<u32> {
    Seq::new(indices.len(), |i: int| indices[i] as u32)
}

/// Bytes of a ground-truth cache file: the row count and `k` as
/// little-endian `u32` (each cut to 32 bits), then every id as a
/// little-endian `i32`.
pub open spec fn truth_bytes(indices: Seq<i32>, k: usize) -> Seq<u8> {
    spec_u32_to_le_bytes((indices.len() / k as nat) as u32) + spec_u32_to_le_bytes(k as u32)
        + words_bytes(truth_words(indices))
}

/// Encode `indices` (rows of `k` ids) as a ground-truth cache file.
pub fn encode_ground_truth(indices: &[i32], k: usize) -> (out: Vec<u8>)
    requires
        k > 0,
    ensures
        out@ == truth_bytes(indices@, k),
{
    let n = (indices.len() / k) as u32;
    let mut out = u32_to_le_bytes(n);
    let mut kb = u32_to_le_bytes(k as u32);
    out.append(&mut kb);
    let mut words: Vec<u32> = Vec::new();
    for i in 0..indices.len()
        invariant
            words@ == truth_words(indices@.take(i as int)),
    {
        words.push(indices[i] as u32);
        assert(words@ =~= truth_words(indices@.take(i + 1)));
    }
    assert(indices@.take(indices@.len() as int) =~= indices@);
    write_words(&mut out, &words);
    out
}

/// Why a ground-truth cache file was not read.
#[derive(Debug, PartialEq, Eq, Structural)]
pub enum TruthError {
    /// The file ends before the ids it announces.
    UnexpectedEof,
    /// The file holds rows of another length than the one asked for.
    WrongK { stored: usize, expected: usize },
}

/// Row count stored in a cache file.
pub open spec fn stored_rows(d: Seq<u8>) -> int {
    le32(d, 0) as int
}

/// Row length stored in a cache file.
pub open spec fn stored_k(d: Seq<u8>) -> int {
    le32(d, 4) as int
}

/// Why `d` is not a cache file of rows of `expected_k` ids, if it is not.
pub open spec fn truth_error(d: Seq<u8>, expected_k: usize) -> Option<TruthError> {
    if d.len() < 8 {
        Some(TruthError::UnexpectedEof)
    } else if stored_k(d) != expected_k {
        Some(TruthError::WrongK { stored: stored_k(d) as usize, expected: expected_k })
    } else if d.len() - 8 < 4 * (stored_rows(d) * stored_k(d)) {
        Some(TruthError::UnexpectedEof)
    } else {
        None
    }
}

/// The ids a cache file holds; bytes after them are ignored.
pub open spec fn stored_truth(d: Seq<u8>) -> Seq<i32> {
    Seq::new((stored_rows(d) * stored_k(d)) as nat, |i: int| le32(d, 8 + 4 * i) as i32)
}

/// Read a ground-truth cache file whose rows should hold `expected_k` ids.
pub fn decode_ground_truth(data: &[u8], expected_k: usize) -> (r: Result<Vec<i32>, TruthError>)
    ensures
        match r {
            Ok(v) => truth_error(data@, expected_k) is None && v@ == stored_truth(data@),
            Err(e) => truth_error(data@, expected_k) == Some(e),
        },
{
    let len = data.len();
    if len < 8 {
        return Err(TruthError::UnexpectedEof);
    }
    let n = u32_from_le_bytes(slice_subrange(data, 0, 4));
    let k = u32_from_le_bytes(slice_subrange(data, 4, 8));
    if k as usize != expected_k {
        return Err(TruthError::WrongK { stored: k as usize, expected: expected_k });
    }
    proof {
        assert((n as u64) * (k as u64) <= 0xffff_fffe_0000_0001) by (nonlinear_arith)
            requires
                n <= 0xffff_ffff,
                k <= 0xffff_ffff,
        ;
    }
    let count: u64 = n as u64 * k as u64;
    proof {
        assert(count == stored_rows(data@) * stored_k(data@));
    }
    if (count as u128) * 4 > (len - 8) as u128 {
        return Err(TruthError::UnexpectedEof);
    }
    let count = count as usize;
    let mut out: Vec<i32> = Vec::new();
    for i in 0..count
        invariant
            len == data@.len(),
            count == stored_rows(data@) * stored_k(data@),
            8 + 4 * count <= len,
            out@.len() == i,
            forall|t: int| 0 <= t < i ==> out@[t] == le32(data@, 8 + 4 * t) as i32,
    {
        let at = 8 + 4 * i;
        out.push(#[verifier::truncate] (u32_from_le_bytes(slice_subrange(data, at, at + 4)) as i32));
    }
    assert(out@ =~= stored_truth(data@));
    Ok(out)
}

/// Reading back an encoded cache file with the `k` it was written with
/// gives the ids that were written, whenever they form whole rows and the
/// row count and `k` fit in 32 bits.
pub proof fn lemma_truth_roundtrip(indices: Seq<i32>, k: usize)
    requires
        k > 0,
        k <= u32::MAX,
        indices.len() % (k as nat) == 0,
        indices.len() / (k as nat) <= u32::MAX,
    ensures
        truth_error(truth_bytes(indices, k), k) is None,
        stored_truth(truth_bytes(indices, k)) == indices,
{
    lemma_auto_spec_u32_to_from_le_bytes();
    let d = truth_bytes(indices, k);
    let rows = indices.len() / (k as nat);
    let w = truth_words(indices);
    assert(d.subrange(0, 4) =~= spec_u32_to_le_bytes(rows as u32));
    assert(d.subrange(4, 8) =~= spec_u32_to_le_bytes(k as u32));
    assert(stored_rows(d) == rows);
    assert(stored_k(d) == k);
    lemma_fundamental_div_mod(indices.len() as int, k as int);
    assert(rows * k == indices.len()) by (nonlinear_arith)
        requires
            indices.len() == k * (indices.len() / (k as nat)) + indices.len() % (k as nat),
            indices.len() % (k as nat) == 0,
            rows == indices.len() / (k as nat),
    ;
    assert(d.len() == 8 + 4 * indices.len());
    assert forall|i: int| 0 <= i < indices.len() implies #[trigger] stored_truth(d)[i]
        == indices[i] by {
        assert(d.subrange(8 + 4 * i, 8 + 4 * i + 4) =~= spec_u32_to_le_bytes(w[i])) by {
            assert forall|t: int| 0 <= t < 4 implies d.subrange(8 + 4 * i, 8 + 4 * i + 4)[t]
                == spec_u32_to_le_bytes(w[i])[t] by {
                assert(d[8 + 4 * i + t] == words_bytes(w)[4 * i + t]);
                assert((4 * i + t) / 4 == i);
                assert((4 * i + t) % 4 == t);
            }
        }
        let x = indices[i];
        assert((x as u32) as i32 == x) by (bit_vector);
    }
    assert(stored_truth(d) =~= indices);
}

} // verus!
