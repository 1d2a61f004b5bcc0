use rotorvec::pack::{pack_codes, repack_4bit};
use rotorvec::search::score_key;
use rotorvec::search::{accumulate_block, top_k_slots, NO_SLOT};
use rotorvec::{RotorQuantIndex, BLOCK, FLUSH_EVERY};

#[test]
fn top_k_picks_highest_best_first() {
    let keys = vec![5u32, 9, 1, 7, 3];
    assert_eq!(top_k_slots(&keys, 3), vec![1, 3, 0]);
    assert_eq!(top_k_slots(&keys, 1), vec![1]);
    assert_eq!(top_k_slots(&keys, 5), vec![1, 3, 0, 4, 2]);
}

#[test]
fn top_k_pads_when_fewer_keys() {
    let keys = vec![2u32, 8];
    assert_eq!(top_k_slots(&keys, 4), vec![1, 0, NO_SLOT, NO_SLOT]);
    assert_eq!(top_k_slots(&[], 2), vec![NO_SLOT, NO_SLOT]);
    assert_eq!(top_k_slots(&keys, 0), Vec::<usize>::new());
}

#[test]
fn top_k_with_ties_keeps_order_by_key() {
    let keys = vec![4u32, 4, 4, 1];
    let sel = top_k_slots(&keys, 2);
    assert_eq!(sel.len(), 2);
    assert!(sel[0] != sel[1]);
    assert!(sel.iter().all(|&s| s < 3));
}

#[test]
fn search_slots_caps_k_and_sorts_rows() {
    let mut idx = RotorQuantIndex::new(8, 2);
    // three vectors, two bytes each
    idx.add_encoded(&[1, 2, 3, 4, 5, 6], &[10, 20, 30]);
    // two queries, three keys each
    let keys = vec![1u32, 3, 2, 9, 7, 8];
    let (slots, k) = idx.search_slots(&keys, 2, 10);
    assert_eq!(k, 3);
    assert_eq!(slots, vec![1, 2, 0, 0, 2, 1]);
    let (slots, k) = idx.search_slots(&keys, 2, 0);
    assert_eq!(k, 1);
    assert_eq!(slots, vec![1, 0]);
}

#[test]
fn search_slots_on_empty_index() {
    let idx = RotorQuantIndex::new(8, 4);
    let (slots, k) = idx.search_slots(&[], 3, 5);
    assert_eq!(k, 1);
    assert_eq!(slots, vec![-1, -1, -1]);
}

fn lut_with(hi: [u8; 16], lo: [u8; 16]) -> Vec<u8> {
    let mut v = hi.to_vec();
    v.extend_from_slice(&lo);
    v
}

#[test]
fn accumulate_block_sums_nibble_lookups() {
    let mut hi = [0u8; 16];
    let mut lo = [0u8; 16];
    for k in 0..16 {
        hi[k] = k as u8;
        lo[k] = 100 + k as u8;
    }
    // two byte-groups with the same tables
    let mut luts = lut_with(hi, lo);
    luts.extend(lut_with(hi, lo));
    // codes: group 0 then group 1, one byte per lane
    let mut codes = vec![0u8; 2 * BLOCK];
    for lane in 0..BLOCK {
        codes[lane] = ((lane % 16) as u8) << 4 | 1; // hi = lane % 16, lo = 1
        codes[BLOCK + lane] = 0x23; // hi = 2, lo = 3
    }
    let acc = accumulate_block(&codes, &luts, 0, 0, 2);
    assert_eq!(acc.len(), BLOCK);
    for lane in 0..BLOCK {
        let want = (lane % 16) as u16 + 101 + 2 + 103;
        assert_eq!(acc[lane], want, "lane {lane}");
    }
    // only the second group
    let acc = accumulate_block(&codes, &luts, 0, 1, 2);
    assert!(acc.iter().all(|&a| a == 105));
    // no group
    let acc = accumulate_block(&codes, &luts, 0, 1, 1);
    assert!(acc.iter().all(|&a| a == 0));
}

#[test]
fn accumulate_block_wraps_each_group_in_u8() {
    let luts = lut_with([200u8; 16], [100u8; 16]);
    let codes = vec![0u8; BLOCK];
    let acc = accumulate_block(&codes, &luts, 0, 0, 1);
    // 200 + 100 = 300 wraps to 44 in u8 arithmetic
    assert!(acc.iter().all(|&a| a == 44));
}

#[test]
fn accumulate_block_full_batch_does_not_overflow() {
    let groups = FLUSH_EVERY;
    let mut luts = Vec::new();
    for _ in 0..groups {
        luts.extend(lut_with([127u8; 16], [127u8; 16]));
    }
    let codes = vec![0xFFu8; groups * BLOCK + 5];
    let acc = accumulate_block(&codes, &luts, 5, 0, groups);
    assert!(acc.iter().all(|&a| a as usize == 254 * groups));
}

#[test]
fn score_keys_follow_score_order() {
    let scores = [
        f32::NEG_INFINITY,
        -1e30,
        -2.5,
        -1.0,
        -1e-40,
        0.0,
        1e-40,
        0.5,
        3.0,
        1e30,
        f32::INFINITY,
    ];
    for w in scores.windows(2) {
        assert!(score_key(w[0].to_bits()) < score_key(w[1].to_bits()), "{} vs {}", w[0], w[1]);
    }
    assert_eq!(score_key(0.0f32.to_bits()), 0x8000_0000);
    assert_eq!(score_key((-0.0f32).to_bits()), 0x7FFF_FFFF);
    assert_eq!(score_key(1.0f32.to_bits()), 0xBF80_0000);
    assert_eq!(score_key((-1.0f32).to_bits()), 0x407F_FFFF);
}

#[test]
fn top_k_over_score_keys_picks_best_scores() {
    let scores = [0.25f32, -3.0, 7.5, 0.0, 7.25, -0.5];
    let keys: Vec<u32> = scores.iter().map(|s| score_key(s.to_bits())).collect();
    assert_eq!(top_k_slots(&keys, 3), vec![2, 4, 0]);
}

#[test]
fn lut_lane_sums_match_direct_code_lookups() {
    let dim = 16;
    let n = 40; // two blocks, the second one partial
    let codes: Vec<u8> = (0..n * dim).map(|i| ((i * 7 + i / dim) % 16) as u8).collect();
    let packed = pack_codes(&codes, n, dim, 4);
    let (blocked, n_blocks) = repack_4bit(&packed, n, dim);
    let groups = dim / 2;
    let luts: Vec<u8> = (0..groups * 32).map(|i| ((i * 13) % 128) as u8).collect();
    for b in 0..n_blocks {
        let acc = accumulate_block(&blocked, &luts, b * groups * BLOCK, 0, groups);
        for lane in 0..BLOCK {
            let v = b * BLOCK + lane;
            if v >= n {
                continue;
            }
            let mut want = 0u16;
            for g in 0..groups {
                let hi = codes[v * dim + 2 * g] as usize;
                let lo = codes[v * dim + 2 * g + 1] as usize;
                want += (luts[g * 32 + hi] as u16 + luts[g * 32 + 16 + lo] as u16) % 256;
            }
            assert_eq!(acc[lane], want, "vector {v}");
        }
    }
}

#[test]
fn nan_scores_rank_last() {
    let nan = f32::NAN.to_bits();
    let neg_nan = (-f32::NAN).to_bits();
    assert_eq!(score_key(nan), 0);
    assert_eq!(score_key(neg_nan), 0);
    assert!(score_key(nan) < score_key(f32::NEG_INFINITY.to_bits()));
    let scores = [f32::NAN, -5.0, 1.0, f32::NAN, 0.5];
    let keys: Vec<u32> = scores.iter().map(|s| score_key(s.to_bits())).collect();
    assert_eq!(top_k_slots(&keys, 3), vec![2, 4, 1]);
}
