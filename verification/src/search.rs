//! Search kernels: top-k selection, and the integer half of the 4-bit
//! lookup-table scorer.
//!
//! Scores are floating point and computed outside this crate; they arrive
//! here as order-preserving integer keys, one per stored vector, and the
//! selection of the best `k` happens here. The 4-bit scorer adds up `u8`
//! lookup-table entries per vector in `u16` lanes; that sum is computed
//! here, and turned into a score outside.
use vstd::prelude::*;

use crate::pack::{
    blocked_byte_from_codes, lemma_repack_of_packed, n_blocks_spec, packed_spec, repack_spec,
};
use crate::{BLOCK, FLUSH_EVERY};

verus! {

/// Slot value that pads a result row when fewer than `k` vectors exist.
pub const NO_SLOT: usize = usize::MAX;

/// The number of real (non-padding) entries in a top-`k` row over `n` keys.
pub open spec fn n_selected(n: int, k: int) -> int {
    if n < k {
        n
    } else {
        k
    }
}

/// `sel` is a best-first top-`k` selection over `keys`:
/// * it has exactly `k` entries; the first `min(n, k)` are distinct
///   positions of `keys`, the rest are `NO_SLOT`;
/// * the selected keys are in non-increasing order;
/// * no position left out has a key above the smallest selected key.
///
/// Which of several equal keys is taken, and in which order equal keys
/// appear, is left open.
pub open spec fn is_top_k(keys: Seq<u32>, k: int, sel: Seq<usize>) -> bool {
    let m = n_selected(keys.len() as int, k);
    &&& sel.len() == k
    &&& forall|r: int| 0 <= r < m ==> #[trigger] sel[r] < keys.len()
    &&& forall|r: int| m <= r < k ==> #[trigger] sel[r] == NO_SLOT
    &&& forall|r1: int, r2: int| 0 <= r1 < r2 < m ==> sel[r1] != sel[r2]
    &&& forall|r1: int, r2: int|
        0 <= r1 < r2 < m ==> keys[sel[r1] as int] >= keys[sel[r2] as int]
    &&& forall|j: int|
        0 <= j < keys.len() && !sel.subrange(0, m).contains(j as usize) ==> forall|r: int|
            0 <= r < m ==> #[trigger] keys[j] <= keys[#[trigger] sel[r] as int]
}

/// Buffer invariant after scanning positions `0..vi`.
spec fn buffer_ok(keys: Seq<u32>, k: int, vi: int, b: Seq<usize>) -> bool {
    &&& b.len() == n_selected(vi, k)
    &&& forall|r: int| 0 <= r < b.len() ==> #[trigger] b[r] < vi
    &&& distinct(b)
    &&& sorted_best_first(keys, b)
    &&& forall|j: int|
        0 <= j < vi && !b.contains(j as usize) ==> forall|r: int|
            0 <= r < b.len() ==> #[trigger] keys[j] <= keys[#[trigger] b[r] as int]
    &&& vi <= k ==> forall|j: usize| j < vi ==> #[trigger] b.contains(j)
}

spec fn distinct(b: Seq<usize>) -> bool {
    forall|r1: int, r2: int| 0 <= r1 < r2 < b.len() ==> b[r1] != b[r2]
}

spec fn sorted_best_first(keys: Seq<u32>, b: Seq<usize>) -> bool {
    forall|r1: int, r2: int| 0 <= r1 < r2 < b.len() ==> keys[b[r1] as int] >= keys[b[r2] as int]
}

proof fn lemma_swap_contains(before: Seq<usize>, after: Seq<usize>, i: int, x: usize)
    requires
        0 < i < before.len(),
        after == before.update(i - 1, before[i]).update(i, before[i - 1]),
    ensures
        after.contains(x) <==> before.contains(x),
{
    if after.contains(x) {
        let r = choose|r: int| 0 <= r < after.len() && after[r] == x;
        if r == i - 1 {
            assert(before[i] == x);
        } else if r == i {
            assert(before[i - 1] == x);
        } else {
            assert(before[r] == x);
        }
    }
    if before.contains(x) {
        let r = choose|r: int| 0 <= r < before.len() && before[r] == x;
        if r == i - 1 {
            assert(after[i] == x);
        } else if r == i {
            assert(after[i - 1] == x);
        } else {
            assert(after[r] == x);
        }
    }
}

/// Move the entry at `start` towards the front until the buffer is sorted
/// best-first again.
fn bubble_up(keys: &[u32], buf: &mut Vec<usize>, start: usize)
    requires
        start < old(buf)@.len(),
        forall|r: int| 0 <= r < old(buf)@.len() ==> #[trigger] old(buf)@[r] < keys@.len(),
        distinct(old(buf)@),
        forall|r1: int, r2: int|
            0 <= r1 < r2 < old(buf)@.len() && r1 != start && r2 != start ==> keys@[old(
                buf,
            )@[r1] as int] >= keys@[old(buf)@[r2] as int],
        forall|r: int|
            start < r < old(buf)@.len() ==> keys@[old(buf)@[start as int] as int] >= keys@[
            #[trigger] old(buf)@[r] as int],
    ensures
        final(buf)@.len() == old(buf)@.len(),
        forall|x: usize| #[trigger] final(buf)@.contains(x) <==> old(buf)@.contains(x),
        distinct(final(buf)@),
        sorted_best_first(keys@, final(buf)@),
{
    let ghost orig = buf@;
    let mut i = start;
    while i > 0 && keys[buf[i - 1]] < keys[buf[i]]
        invariant
            i <= start < buf@.len(),
            buf@.len() == orig.len(),
            forall|x: usize| #[trigger] buf@.contains(x) <==> orig.contains(x),
            forall|r: int| 0 <= r < buf@.len() ==> #[trigger] buf@[r] < keys@.len(),
            distinct(buf@),
            forall|r1: int, r2: int|
                0 <= r1 < r2 < buf@.len() && r1 != i && r2 != i ==> keys@[buf@[r1] as int]
                    >= keys@[buf@[r2] as int],
            forall|r: int|
                i < r < buf@.len() ==> keys@[buf@[i as int] as int] >= keys@[#[trigger] buf@[r] as int],
        decreases i,
    {
        let a = buf[i - 1];
        let c = buf[i];
        let ghost before = buf@;
        buf.set(i - 1, c);
        buf.set(i, a);
        proof {
            assert(buf@ == before.update(i - 1, before[i as int]).update(i as int, before[i - 1]));
            assert forall|x: usize| #[trigger] buf@.contains(x) <==> orig.contains(x) by {
                lemma_swap_contains(before, buf@, i as int, x);
            }
        }
        i = i - 1;
    }
    proof {
        assert forall|r1: int, r2: int|
            0 <= r1 < r2 < buf@.len() implies keys@[buf@[r1] as int] >= keys@[buf@[r2] as int] by {
            if r2 == i && r1 < i {
                assert(keys@[buf@[r1] as int] >= keys@[buf@[i - 1] as int] || r1 == i - 1);
            }
        }
    }
}

/// Positions of the `k` highest keys, best first. When fewer than `k` keys
/// exist the row is padded with `NO_SLOT`.
pub fn top_k_slots(keys: &[u32], k: usize) -> (sel: Vec<usize>)
    ensures
        is_top_k(keys@, k as int, sel@),
{
    let n = keys.len();
    let mut buf: Vec<usize> = Vec::new();
    for vi in 0..n
        invariant
            n == keys@.len(),
            buffer_ok(keys@, k as int, vi as int, buf@),
    {
        let key = keys[vi];
        let ghost b0 = buf@;
        if buf.len() < k {
            buf.push(vi);
            let ghost b1 = buf@;
            let last = buf.len() - 1;
            bubble_up(keys, &mut buf, last);
            proof {
                assert forall|r: int| 0 <= r < buf@.len() implies #[trigger] buf@[r] < vi + 1 by {
                    assert(buf@.contains(buf@[r]));
                    assert(b1.contains(buf@[r]));
                }
                assert forall|j: usize| j < vi + 1 implies #[trigger] buf@.contains(j) by {
                    if j < vi {
                        assert(b0.contains(j));
                        let r = choose|r: int| 0 <= r < b0.len() && b0[r] == j;
                        assert(b1[r] == j);
                        assert(b1.contains(j));
                    } else {
                        assert(b1[b1.len() - 1] == vi);
                        assert(b1.contains(j));
                    }
                }
            }
        } else if k > 0 && key > keys[buf[k - 1]] {
            let ghost e = b0[k - 1];
            buf.set(k - 1, vi);
            let ghost b1 = buf@;
            proof {
                assert(b1 == b0.update(k - 1, vi));
                assert(distinct(b1)) by {
                    assert forall|r1: int, r2: int| 0 <= r1 < r2 < b1.len() implies b1[r1]
                        != b1[r2] by {
                        if r2 == k - 1 {
                            assert(b0[r1] < vi);
                        }
                    }
                }
            }
            bubble_up(keys, &mut buf, k - 1);
            proof {
                assert forall|r: int| 0 <= r < buf@.len() implies #[trigger] buf@[r] < vi + 1 by {
                    assert(buf@.contains(buf@[r]));
                    assert(b1.contains(buf@[r]));
                }
                assert forall|j: int|
                    0 <= j < vi + 1 && !buf@.contains(j as usize) implies forall|r: int|
                        0 <= r < buf@.len() ==> #[trigger] keys@[j] <= keys@[#[trigger] buf@[r] as int] by {
                    assert(!b1.contains(j as usize));
                    assert(j != vi) by {
                        assert(b1[k - 1] == vi);
                    }
                    assert(keys@[j] <= keys@[e as int]) by {
                        if j as usize != e {
                            assert(!b0.contains(j as usize)) by {
                                if b0.contains(j as usize) {
                                    let r = choose|r: int| 0 <= r < b0.len() && b0[r] == j as usize;
                                    assert(r != k - 1);
                                    assert(b1[r] == j as usize);
                                }
                            }
                            assert(keys@[j] <= keys@[b0[k - 1] as int]);
                        }
                    }
                    assert forall|r: int| 0 <= r < buf@.len() implies keys@[j] <= keys@[
                        #[trigger] buf@[r] as int] by {
                        assert(buf@.contains(buf@[r]));
                        assert(b1.contains(buf@[r]));
                        let r2 = choose|r2: int| 0 <= r2 < b1.len() && b1[r2] == buf@[r];
                        if r2 != k - 1 {
                            assert(b1[r2] == b0[r2]);
                            assert(keys@[b0[r2] as int] >= keys@[b0[k - 1] as int]) by {
                                if r2 < k - 1 {
                                }
                            }
                        }
                    }
                }
            }
        } else {
            proof {
                assert forall|j: int|
                    0 <= j < vi + 1 && !buf@.contains(j as usize) implies forall|r: int|
                        0 <= r < buf@.len() ==> #[trigger] keys@[j] <= keys@[#[trigger] buf@[r] as int] by {
                    if j == vi {
                        assert forall|r: int| 0 <= r < buf@.len() implies keys@[j] <= keys@[
                            #[trigger] buf@[r] as int] by {
                            if r < k - 1 {
                                assert(keys@[buf@[r] as int] >= keys@[buf@[k - 1] as int]);
                            }
                        }
                    }
                }
            }
        }
    }
    let ghost b = buf@;
    while buf.len() < k
        invariant
            b.len() == n_selected(n as int, k as int),
            b.len() <= buf@.len() <= k,
            buf@.subrange(0, b.len() as int) == b,
            forall|r: int| b.len() <= r < buf@.len() ==> #[trigger] buf@[r] == NO_SLOT,
        decreases k - buf@.len(),
    {
        buf.push(NO_SLOT);
        assert(buf@.subrange(0, b.len() as int) =~= b);
    }
    proof {
        let m = b.len() as int;
        assert(buf@.subrange(0, m) == b);
        assert(buffer_ok(keys@, k as int, n as int, b));
        assert forall|r: int| 0 <= r < m implies #[trigger] buf@[r] < keys@.len() by {
            assert(buf@[r] == b[r]);
        }
        assert forall|r1: int, r2: int| 0 <= r1 < r2 < m implies buf@[r1] != buf@[r2] && keys@[
            buf@[r1] as int] >= keys@[buf@[r2] as int] by {
            assert(buf@[r1] == b[r1]);
            assert(buf@[r2] == b[r2]);
        }
        assert forall|j: int|
            0 <= j < keys@.len() && !buf@.subrange(0, m).contains(j as usize) implies forall|r: int|
                0 <= r < m ==> #[trigger] keys@[j] <= keys@[#[trigger] buf@[r] as int] by {
            assert(!b.contains(j as usize));
            assert forall|r: int| 0 <= r < m implies #[trigger] keys@[j] <= keys@[
                #[trigger] buf@[r] as int] by {
                assert(buf@[r] == b[r]);
            }
        }
    }
    buf
}

// ---------------------------------------------------------------- score keys

/// The order of single-precision values on their bit patterns (sign bit,
/// then magnitude), for patterns that are not NaN: `a` is strictly below
/// `b`. Negative and positive zero are equal.
pub open spec fn ieee_less(a: u32, b: u32) -> bool {
    let ma = a & 0x7FFF_FFFFu32;
    let mb = b & 0x7FFF_FFFFu32;
    let na = a & 0x8000_0000u32 != 0;
    let nb = b & 0x8000_0000u32 != 0;
    if ma == 0 && mb == 0 {
        false
    } else if na && !nb {
        true
    } else if !na && nb {
        false
    } else if !na {
        ma < mb
    } else {
        ma > mb
    }
}

/// A bit pattern that is not NaN: its exponent bits are not all ones, or
/// its mantissa is zero (an infinity).
pub open spec fn not_nan(a: u32) -> bool {
    a & 0x7FFF_FFFFu32 <= 0x7F80_0000u32
}

/// The search key of a score given by its bit pattern: a NaN gets the
/// lowest key, 0, so it never displaces a real score; otherwise positive
/// scores get the sign bit set and negative ones all bits flipped.
pub open spec fn key_of(bits: u32) -> u32 {
    if bits & 0x7FFF_FFFFu32 > 0x7F80_0000u32 {
        0
    } else if bits & 0x8000_0000u32 != 0 {
        !bits
    } else {
        bits | 0x8000_0000u32
    }
}

/// The search key of an `f32` score, from the score's bit pattern.
pub fn score_key(bits: u32) -> (k: u32)
    ensures
        k == key_of(bits),
{
    if bits & 0x7FFF_FFFFu32 > 0x7F80_0000u32 {
        0
    } else if bits & 0x8000_0000u32 != 0 {
        !bits
    } else {
        bits | 0x8000_0000u32
    }
}

/// Keys order scores as the scores are ordered: a strictly lower score has
/// a strictly lower key, so the top keys are the top scores; and a NaN has
/// a lower key than every score that is not NaN.
pub proof fn lemma_key_order(a: u32, b: u32)
    ensures
        not_nan(a) && not_nan(b) && ieee_less(a, b) ==> key_of(a) < key_of(b),
        !not_nan(a) && not_nan(b) ==> key_of(a) < key_of(b),
{
    assert(not_nan(a) && not_nan(b) && ieee_less(a, b) ==> key_of(a) < key_of(b)) by (bit_vector);
    assert(!not_nan(a) && not_nan(b) ==> key_of(a) < key_of(b)) by (bit_vector);
}

/// Scores that are not NaN never share a key; all NaNs share the key 0.
pub proof fn lemma_key_injective(a: u32, b: u32)
    ensures
        not_nan(a) && not_nan(b) && key_of(a) == key_of(b) ==> a == b,
        !not_nan(a) ==> key_of(a) == 0,
{
    assert(not_nan(a) && not_nan(b) && key_of(a) == key_of(b) ==> a == b) by (bit_vector);
}

// ---------------------------------------------------------------- 4-bit lookup tables

/// Bytes of lookup table per byte-group: a 16-entry sub-table for the high
/// nibble (even coordinate) followed by one for the low nibble (odd).
pub const LUT_GROUP_BYTES: usize = 32;

/// What one code byte of byte-group `g` adds to its vector's lane: the
/// high-nibble entry plus the low-nibble entry, added as `u8` (wrapping).
pub open spec fn group_score(luts: Seq<u8>, g: int, code: u8) -> int {
    (luts[g * 32 + (code >> 4u8) as int] as int + luts[g * 32 + 16 + (code & 0x0Fu8) as int] as int)
        % 256
}

/// The code byte of byte-group `g` for lane `lane` of the block at `block_offset`.
pub open spec fn block_code(codes: Seq<u8>, block_offset: int, g: int, lane: int) -> u8 {
    codes[block_offset + g * 32 + lane]
}

/// Lane `lane`'s sum over byte-groups `g_start..g_end`.
pub open spec fn lane_total(
    codes: Seq<u8>,
    luts: Seq<u8>,
    block_offset: int,
    g_start: int,
    g_end: int,
    lane: int,
) -> int
    decreases g_end - g_start,
{
    if g_end <= g_start {
        0
    } else {
        lane_total(codes, luts, block_offset, g_start, g_end - 1, lane) + group_score(
            luts,
            g_end - 1,
            block_code(codes, block_offset, g_end - 1, lane),
        )
    }
}

proof fn lemma_lane_total_bound(
    codes: Seq<u8>,
    luts: Seq<u8>,
    block_offset: int,
    g_start: int,
    g_end: int,
    lane: int,
)
    requires
        g_start <= g_end,
    ensures
        0 <= lane_total(codes, luts, block_offset, g_start, g_end, lane) <= 255 * (g_end - g_start),
    decreases g_end - g_start,
{
    if g_end > g_start {
        lemma_lane_total_bound(codes, luts, block_offset, g_start, g_end - 1, lane);
    }
}

/// One flush batch of the 4-bit scorer for one block of `BLOCK` vectors:
/// lane `l` gets the sum over byte-groups `g_start..g_end` of the two
/// sub-table entries its code byte selects. With at most `FLUSH_EVERY`
/// groups per batch the `u16` lanes hold the exact sum, never wrapping.
pub fn accumulate_block(
    blocked_codes: &[u8],
    luts: &[u8],
    block_offset: usize,
    g_start: usize,
    g_end: usize,
) -> (acc: Vec<u16>)
    requires
        g_start <= g_end,
        g_end - g_start <= FLUSH_EVERY,
        block_offset + g_end * BLOCK <= blocked_codes@.len(),
        g_end * LUT_GROUP_BYTES <= luts@.len(),
    ensures
        acc@.len() == BLOCK,
        forall|lane: int|
            0 <= lane < BLOCK ==> #[trigger] acc@[lane] as int == lane_total(
                blocked_codes@,
                luts@,
                block_offset as int,
                g_start as int,
                g_end as int,
                lane,
            ),
{
    let clen = blocked_codes.len();
    let llen = luts.len();
    let mut acc: Vec<u16> = Vec::new();
    for lane in 0..BLOCK
        invariant
            acc@.len() == lane,
            forall|l: int| 0 <= l < lane ==> #[trigger] acc@[l] == 0,
    {
        acc.push(0);
    }
    for g in g_start..g_end
        invariant
            g_start <= g_end,
            g_end - g_start <= FLUSH_EVERY,
            clen == blocked_codes@.len(),
            llen == luts@.len(),
            block_offset + g_end * BLOCK <= clen,
            g_end * LUT_GROUP_BYTES <= llen,
            acc@.len() == BLOCK,
            forall|l: int|
                0 <= l < BLOCK ==> #[trigger] acc@[l] as int == lane_total(
                    blocked_codes@,
                    luts@,
                    block_offset as int,
                    g_start as int,
                    g as int,
                    l,
                ),
    {
        let lp = g * LUT_GROUP_BYTES;
        let cp = block_offset + g * BLOCK;
        for lane in 0..BLOCK
            invariant
                g_start <= g < g_end,
                g_end - g_start <= FLUSH_EVERY,
                clen == blocked_codes@.len(),
                llen == luts@.len(),
                block_offset + g_end * BLOCK <= clen,
                g_end * LUT_GROUP_BYTES <= llen,
                lp == g * 32,
                cp == block_offset + g * 32,
                acc@.len() == BLOCK,
                forall|l: int|
                    0 <= l < lane ==> #[trigger] acc@[l] as int == lane_total(
                        blocked_codes@,
                        luts@,
                        block_offset as int,
                        g_start as int,
                        g + 1,
                        l,
                    ),
                forall|l: int|
                    lane <= l < BLOCK ==> #[trigger] acc@[l] as int == lane_total(
                        blocked_codes@,
                        luts@,
                        block_offset as int,
                        g_start as int,
                        g as int,
                        l,
                    ),
        {
            let c = blocked_codes[cp + lane];
            let hi = (c >> 4u8) as usize;
            let lo = (c & 0x0Fu8) as usize;
            assert(c >> 4u8 < 16u8) by (bit_vector);
            assert(c & 0x0Fu8 < 16u8) by (bit_vector);
            let s: u16 = (luts[lp + hi] as u16 + luts[lp + 16 + lo] as u16) % 256;
            proof {
                lemma_lane_total_bound(
                    blocked_codes@,
                    luts@,
                    block_offset as int,
                    g_start as int,
                    g as int,
                    lane as int,
                );
                assert(block_code(blocked_codes@, block_offset as int, g as int, lane as int) == c);
                assert(s as int == group_score(luts@, g as int, c));
                assert(255 * (g - g_start) <= 255 * 255) by (nonlinear_arith)
                    requires
                        g - g_start < FLUSH_EVERY,
                        FLUSH_EVERY == 256,
                ;
            }
            let cur = acc[lane];
            acc.set(lane, cur + s);
        }
    }
    acc
}

/// What vector `v` adds up over byte-groups `g0..g1` when each group is
/// looked up straight from its codes: the high-nibble table at the code of
/// coordinate `2g` plus the low-nibble table at the code of `2g + 1`.
pub open spec fn code_total(codes: Seq<u8>, dim: int, luts: Seq<u8>, v: int, g0: int, g1: int) -> int
    decreases g1 - g0,
{
    if g1 <= g0 {
        0
    } else {
        let g = g1 - 1;
        code_total(codes, dim, luts, v, g0, g) + (luts[g * 32 + (codes[v * dim + 2 * g] & 0x0Fu8)
            as int] as int + luts[g * 32 + 16 + (codes[v * dim + 2 * g + 1] & 0x0Fu8) as int] as int)
            % 256
    }
}

proof fn lemma_nibbles(hi: u8, lo: u8)
    ensures
        ((((hi & 0x0Fu8) << 4u8) | (lo & 0x0Fu8)) >> 4u8) == hi & 0x0Fu8,
        ((((hi & 0x0Fu8) << 4u8) | (lo & 0x0Fu8)) & 0x0Fu8) == lo & 0x0Fu8,
{
    assert(((((hi & 0x0Fu8) << 4u8) | (lo & 0x0Fu8)) >> 4u8) == hi & 0x0Fu8) by (bit_vector);
    assert(((((hi & 0x0Fu8) << 4u8) | (lo & 0x0Fu8)) & 0x0Fu8) == lo & 0x0Fu8) by (bit_vector);
}

/// The 4-bit scorer scores each vector by its own codes: for vector
/// `v = b * BLOCK + lane`, the lane sum that [`accumulate_block`] computes
/// over the blocked layout that `repack_4bit` makes of the packed codes is
/// the sum of the table entries that `v`'s codes select.
pub proof fn lemma_lane_total_is_code_total(
    codes: Seq<u8>,
    n: int,
    dim: int,
    luts: Seq<u8>,
    b: int,
    lane: int,
    g0: int,
    g1: int,
)
    requires
        n >= 0,
        dim >= 0,
        dim % 8 == 0,
        codes.len() == n * dim,
        0 <= lane < BLOCK,
        0 <= b * BLOCK + lane < n,
        0 <= g0 <= g1 <= dim / 2,
    ensures
        lane_total(
            repack_spec(packed_spec(codes, n, dim, 4), n, dim),
            luts,
            b * (dim / 2) * BLOCK,
            g0,
            g1,
            lane,
        ) == code_total(codes, dim, luts, b * BLOCK + lane, g0, g1),
    decreases g1 - g0,
{
    if g1 > g0 {
        let g = g1 - 1;
        lemma_lane_total_is_code_total(codes, n, dim, luts, b, lane, g0, g);
        let stride = (dim / 2) * BLOCK as int;
        let off = b * (dim / 2) * BLOCK as int;
        let k = off + g * 32 + lane;
        let v = b * BLOCK as int + lane;
        assert(b >= 0) by (nonlinear_arith)
            requires
                0 <= b * BLOCK + lane,
                lane < BLOCK,
                BLOCK == 32,
        ;
        assert(off == b * stride) by (nonlinear_arith)
            requires
                off == b * (dim / 2) * BLOCK as int,
                stride == (dim / 2) * BLOCK as int,
        ;
        assert(0 <= g * 32 + lane < stride) by (nonlinear_arith)
            requires
                0 <= g < dim / 2,
                0 <= lane < 32,
                stride == (dim / 2) * 32,
        ;
        vstd::arithmetic::div_mod::lemma_fundamental_div_mod_converse(k, stride, b, g * 32 + lane);
        vstd::arithmetic::div_mod::lemma_fundamental_div_mod_converse(g * 32 + lane, 32, g, lane);
        assert(b < n_blocks_spec(n)) by (nonlinear_arith)
            requires
                0 <= b,
                b * 32 + lane < n,
                0 <= lane,
                n_blocks_spec(n) == (n + 32 - 1) / 32,
        ;
        assert(k < n_blocks_spec(n) * (dim / 2) * BLOCK as int) by (nonlinear_arith)
            requires
                k == b * stride + g * 32 + lane,
                0 <= g * 32 + lane < stride,
                0 <= b < n_blocks_spec(n),
                stride == (dim / 2) * 32,
                BLOCK == 32,
        ;
        lemma_repack_of_packed(codes, n, dim, k);
        let blocked = repack_spec(packed_spec(codes, n, dim, 4), n, dim);
        assert(blocked[k] == blocked_byte_from_codes(codes, n, dim, k));
        assert(block_code(blocked, off, g, lane) == blocked[k]);
        lemma_nibbles(codes[v * dim + 2 * g], codes[v * dim + 2 * g + 1]);
    }
}

} // verus!
