use rotorvec::pack::{pack_codes, repack_4bit, unpack_vector};
use rotorvec::BLOCK;

#[test]
fn pack_roundtrip() {
    for &bits in &[2, 3, 4] {
        let dim = 64;
        let n = 5;
        let max_code = (1u8 << bits) - 1;
        let codes: Vec<u8> = (0..n * dim).map(|i| (i as u8) & max_code).collect();
        let packed = pack_codes(&codes, n, dim, bits);
        assert_eq!(packed.len(), n * bits * dim / 8);
        for i in 0..n {
            let recovered = unpack_vector(&packed, i, dim, bits);
            assert_eq!(&recovered[..], &codes[i * dim..(i + 1) * dim]);
        }
    }
}

#[test]
fn repack_4bit_layout() {
    let dim = 64;
    let n = 35; // forces 2 blocks (32 + 3 padded)
    let codes: Vec<u8> = (0..n * dim).map(|i| (i as u8) & 0x0F).collect();
    let packed = pack_codes(&codes, n, dim, 4);
    let (blocked, n_blocks) = repack_4bit(&packed, n, dim);

    assert_eq!(n_blocks, 2);
    let n_byte_groups = dim / 2;
    assert_eq!(blocked.len(), n_blocks * n_byte_groups * BLOCK);

    for vec_idx in 0..n {
        let block = vec_idx / BLOCK;
        let lane = vec_idx % BLOCK;
        for g in 0..n_byte_groups {
            let want_hi = codes[vec_idx * dim + 2 * g] & 0x0F;
            let want_lo = codes[vec_idx * dim + 2 * g + 1] & 0x0F;
            let want = (want_hi << 4) | want_lo;
            let got = blocked[block * n_byte_groups * BLOCK + g * BLOCK + lane];
            assert_eq!(
                got, want,
                "vec {vec_idx} group {g}: got {got:#04x}, want {want:#04x}"
            );
        }
    }

    for lane in (n % BLOCK)..BLOCK {
        for g in 0..n_byte_groups {
            let got = blocked[n_byte_groups * BLOCK + g * BLOCK + lane];
            assert_eq!(got, 0, "padded lane {lane} group {g} should be zero");
        }
    }
}

#[test]
fn pack_codes_bit_planes_exact() {
    // One vector of 8 coordinates at 2 bits: plane 0 holds the low bits,
    // plane 1 the high bits, each MSB-first.
    let codes = vec![0u8, 1, 2, 3, 3, 2, 1, 0];
    let packed = pack_codes(&codes, 1, 8, 2);
    // low bits: 0 1 0 1 1 0 1 0 -> 0b0101_1010
    // high bits: 0 0 1 1 1 1 0 0 -> 0b0011_1100
    assert_eq!(packed, vec![0b0101_1010, 0b0011_1100]);
    assert_eq!(unpack_vector(&packed, 0, 8, 2), codes);
}

#[test]
fn pack_codes_keeps_vector_order() {
    let dim = 16;
    let codes: Vec<u8> = (0..3 * dim).map(|i| ((i * 5) % 8) as u8).collect();
    let packed = pack_codes(&codes, 3, dim, 3);
    assert_eq!(packed.len(), 3 * 3 * dim / 8);
    let first = pack_codes(&codes[..dim], 1, dim, 3);
    let third = pack_codes(&codes[2 * dim..], 1, dim, 3);
    assert_eq!(&packed[..6], &first[..]);
    assert_eq!(&packed[12..], &third[..]);
    assert_eq!(unpack_vector(&packed, 1, dim, 3), codes[dim..2 * dim].to_vec());
}

#[test]
fn pack_codes_empty() {
    let packed = pack_codes(&[], 0, 64, 4);
    assert!(packed.is_empty());
}

#[test]
fn repack_4bit_exact_block() {
    // 32 vectors of 8 coordinates fill one block exactly.
    let dim = 8;
    let n = 32;
    let codes: Vec<u8> = (0..n * dim).map(|i| ((i / dim + i % dim) % 16) as u8).collect();
    let packed = pack_codes(&codes, n, dim, 4);
    let (blocked, n_blocks) = repack_4bit(&packed, n, dim);
    assert_eq!(n_blocks, 1);
    assert_eq!(blocked.len(), 4 * BLOCK);
    // vector 5, group 1: coordinates 2 and 3 are 7 and 8 -> 0x78
    assert_eq!(blocked[BLOCK + 5], 0x78);
}

#[test]
fn repack_4bit_no_vectors() {
    let (blocked, n_blocks) = repack_4bit(&[], 0, 64);
    assert_eq!(n_blocks, 0);
    assert!(blocked.is_empty());
}

#[test]
fn pack_of_concatenation_is_concatenation_of_packs() {
    let dim = 16;
    let a: Vec<u8> = (0..2 * dim).map(|i| (i % 8) as u8).collect();
    let b: Vec<u8> = (0..3 * dim).map(|i| ((i * 3) % 8) as u8).collect();
    let whole = pack_codes(&[a.clone(), b.clone()].concat(), 5, dim, 3);
    let parts = [pack_codes(&a, 2, dim, 3), pack_codes(&b, 3, dim, 3)].concat();
    assert_eq!(whole, parts);
}

#[test]
fn unpack_masks_codes_to_bits() {
    let codes: Vec<u8> = vec![0xFF, 0x13, 7, 4, 0x80, 0x42, 3, 9];
    let packed = pack_codes(&codes, 1, 8, 2);
    let want: Vec<u8> = codes.iter().map(|c| c & 0b11).collect();
    assert_eq!(unpack_vector(&packed, 0, 8, 2), want);
}
