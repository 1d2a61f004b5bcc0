use rotorvec::io::{self, FormatError, RV_MAGIC, RVIM_MAGIC, VERSION};
use rotorvec::pack::pack_codes;
use rotorvec::{IdMapIndex, Rotation, RotorQuantIndex};

/// Encoded rows for `n` vectors of `dim` coordinates at `bits` bits,
/// derived from `seed`, and one norm bit pattern per vector.
fn encoded(n: usize, dim: usize, bits: usize, seed: u64) -> (Vec<u8>, Vec<u32>) {
    let max_code = (1u64 << bits) - 1;
    let codes: Vec<u8> = (0..n * dim)
        .map(|i| ((i as u64 * 2654435761 + seed * 97) >> 3 & max_code) as u8)
        .collect();
    let packed = pack_codes(&codes, n, dim, bits);
    let norms: Vec<u32> = (0..n).map(|i| (1.0f32 + i as f32 + seed as f32).to_bits()).collect();
    (packed, norms)
}

const ALL_ROTATIONS: [Rotation; 3] = [Rotation::Planar2, Rotation::Rotor3, Rotation::Iso4];

#[test]
fn constructors_record_options() {
    let idx = RotorQuantIndex::with_options(64, 3, Rotation::Iso4, 99);
    assert_eq!(idx.dim(), 64);
    assert_eq!(idx.bits(), 3);
    assert_eq!(idx.rotation(), Rotation::Iso4);
    assert_eq!(idx.seed(), 99);
    assert_eq!(idx.len(), 0);
    assert!(idx.is_empty());
    let idx = RotorQuantIndex::with_seed(8, 2, 5);
    assert_eq!(idx.rotation(), Rotation::Rotor3);
    assert_eq!(idx.seed(), 5);
    let idx = RotorQuantIndex::with_rotation(8, 2, Rotation::Planar2);
    assert_eq!(idx.seed(), rotorvec::DEFAULT_ROTOR_SEED);
}

#[test]
fn add_encoded_appends() {
    let mut idx = RotorQuantIndex::new(64, 4);
    let (p1, n1) = encoded(3, 64, 4, 1);
    let (p2, n2) = encoded(2, 64, 4, 2);
    idx.add_encoded(&p1, &n1);
    idx.add_encoded(&p2, &n2);
    assert_eq!(idx.len(), 5);
    assert_eq!(idx.packed_codes().len(), 5 * 32);
    assert_eq!(&idx.packed_codes()[..96], &p1[..]);
    assert_eq!(&idx.packed_codes()[96..], &p2[..]);
    assert_eq!(&idx.norms()[..3], &n1[..]);
    assert_eq!(&idx.norms()[3..], &n2[..]);
}

#[test]
fn swap_remove_moves_last_into_hole() {
    let mut idx = RotorQuantIndex::new(8, 2);
    idx.add_encoded(&[1, 2, 3, 4, 5, 6, 7, 8], &[10, 20, 30, 40]);
    let moved = idx.swap_remove(1);
    assert_eq!(moved, 3);
    assert_eq!(idx.len(), 3);
    assert_eq!(idx.packed_codes(), &[1, 2, 7, 8, 5, 6]);
    assert_eq!(idx.norms(), &[10, 40, 30]);
    // removing the last one just truncates
    let moved = idx.swap_remove(2);
    assert_eq!(moved, 2);
    assert_eq!(idx.packed_codes(), &[1, 2, 7, 8]);
    assert_eq!(idx.norms(), &[10, 40]);
}

#[test]
fn save_load_roundtrip_all_variants() {
    for &rot in &ALL_ROTATIONS {
        let dim = 64;
        let n = 30;
        let bits = 4;
        let (packed, norms) = encoded(n, dim, bits, 11);
        let mut idx = RotorQuantIndex::with_rotation(dim, bits, rot);
        idx.add_encoded(&packed, &norms);
        let keys: Vec<u32> = (0..2 * n as u32).map(|i| (i * 7919) % 101).collect();
        let before = idx.search_slots(&keys, 2, 5);

        let bytes = idx.write();
        let loaded = RotorQuantIndex::load(&bytes).unwrap();
        assert_eq!(loaded.rotation(), rot);
        assert_eq!(loaded.dim(), dim);
        assert_eq!(loaded.bits(), bits);
        assert_eq!(loaded.len(), n);
        assert_eq!(loaded.seed(), idx.seed());
        assert_eq!(loaded.packed_codes(), idx.packed_codes());
        assert_eq!(loaded.norms(), idx.norms());
        let after = loaded.search_slots(&keys, 2, 5);
        assert_eq!(before, after);
    }
}

#[test]
fn rv_file_layout() {
    let mut idx = RotorQuantIndex::with_options(8, 2, Rotation::Iso4, 0x0102_0304_0506_0708);
    idx.add_encoded(&[0xAA, 0xBB], &[0x1122_3344]);
    let bytes = idx.write();
    let mut want = b"RVEC".to_vec();
    want.extend([VERSION, 4, 2]);
    want.extend(8u32.to_le_bytes());
    want.extend(1u32.to_le_bytes());
    want.extend([0xAA, 0xBB]);
    want.extend(0x1122_3344u32.to_le_bytes());
    want.extend(0x0102_0304_0506_0708u64.to_le_bytes());
    assert_eq!(bytes, want);
    assert_eq!(&bytes[..4], &RV_MAGIC);
}

#[test]
fn load_reports_each_format_error() {
    let mut idx = RotorQuantIndex::new(8, 2);
    idx.add_encoded(&[1, 2], &[3]);
    let good = idx.write();

    assert_eq!(RotorQuantIndex::load(&good[..3]).err(), Some(FormatError::UnexpectedEof));
    let mut wrong = good.clone();
    wrong[0] = b'X';
    assert_eq!(RotorQuantIndex::load(&wrong).err(), Some(FormatError::WrongMagic));
    let mut version = good.clone();
    version[4] = 9;
    assert_eq!(
        RotorQuantIndex::load(&version).err(),
        Some(FormatError::UnsupportedVersion(9))
    );
    let mut rot = good.clone();
    rot[5] = 77;
    assert_eq!(RotorQuantIndex::load(&rot).err(), Some(FormatError::UnknownRotation(77)));
    assert_eq!(
        RotorQuantIndex::load(&good[..good.len() - 1]).err(),
        Some(FormatError::UnexpectedEof)
    );
    // an .rvim file is not an .rv file
    let m = IdMapIndex::new(8, 2);
    assert_eq!(RotorQuantIndex::load(&m.write()).err(), Some(FormatError::WrongMagic));
    assert!(RotorQuantIndex::load(&good).is_ok());
}

#[test]
fn expect_magic_checks_magic_then_version() {
    assert_eq!(io::expect_magic(b"RVE", &RV_MAGIC), Err(FormatError::UnexpectedEof));
    assert_eq!(io::expect_magic(b"RVIMx", &RV_MAGIC), Err(FormatError::WrongMagic));
    assert_eq!(io::expect_magic(b"RVEC", &RV_MAGIC), Err(FormatError::UnexpectedEof));
    assert_eq!(
        io::expect_magic(&[b'R', b'V', b'I', b'M', 1], &RVIM_MAGIC),
        Err(FormatError::UnsupportedVersion(1))
    );
    assert_eq!(io::expect_magic(&[b'R', b'V', b'I', b'M', VERSION], &RVIM_MAGIC), Ok(()));
}

#[test]
fn id_map_basic() {
    let dim = 64;
    let bits = 4;
    let (packed, norms) = encoded(5, dim, bits, 21);
    let ids = vec![100u64, 200, 300, 400, 500];

    let mut idx = IdMapIndex::with_rotation(dim, bits, Rotation::Planar2);
    idx.add_encoded_with_ids(&packed, &norms, &ids);
    assert_eq!(idx.len(), 5);
    assert!(idx.contains(300));

    assert!(idx.remove(300));
    assert!(!idx.contains(300));
    assert_eq!(idx.len(), 4);

    // one query whose best match is the vector stored under id 100
    let n = idx.len();
    let keys: Vec<u32> = (0..n as u32).map(|s| if s == 0 { 1000 } else { s }).collect();
    let (slots, k) = idx.index().search_slots(&keys, 1, 4);
    assert_eq!(k, 4);
    let returned_ids = idx.ids_for_slots(&slots);
    assert!(returned_ids.contains(&100));
    assert!(!returned_ids.contains(&300));
}

#[test]
fn id_map_remove_keeps_other_ids() {
    let mut idx = IdMapIndex::new(8, 2);
    idx.add_encoded_with_ids(&[1, 1, 2, 2, 3, 3], &[10, 20, 30], &[7, 8, 9]);
    assert!(!idx.remove(42));
    assert_eq!(idx.len(), 3);
    assert!(idx.remove(7));
    // the last vector (id 9) moved into slot 0
    assert_eq!(idx.index().packed_codes(), &[3, 3, 2, 2]);
    assert_eq!(idx.index().norms(), &[30, 20]);
    assert_eq!(idx.ids_for_slots(&[0, 1, -1]), vec![9, 8, u64::MAX]);
    assert!(idx.contains(8) && idx.contains(9) && !idx.contains(7));
    assert!(idx.remove(9));
    assert!(idx.remove(8));
    assert!(idx.is_empty());
}

#[test]
fn id_map_write_load_roundtrip() {
    let mut idx = IdMapIndex::with_options(16, 3, Rotation::WalshRotor3, 4);
    let (packed, norms) = encoded(4, 16, 3, 5);
    idx.add_encoded_with_ids(&packed, &norms, &[40, 10, 30, 20]);
    idx.remove(10);
    let bytes = idx.write();
    assert_eq!(&bytes[..4], &RVIM_MAGIC);
    let loaded = IdMapIndex::load(&bytes).unwrap();
    assert_eq!(loaded.len(), 3);
    assert_eq!(loaded.rotation(), Rotation::WalshRotor3);
    assert_eq!(loaded.dim(), 16);
    assert_eq!(loaded.bits(), 3);
    for id in [40, 30, 20] {
        assert!(loaded.contains(id));
    }
    assert!(!loaded.contains(10));
    assert_eq!(loaded.ids_for_slots(&[0, 1, 2]), idx.ids_for_slots(&[0, 1, 2]));
    assert_eq!(loaded.index().packed_codes(), idx.index().packed_codes());
}

#[test]
fn id_map_load_rejects_duplicate_ids() {
    let bytes = io::write_id_map(2, 8, 2, Rotation::Rotor3, 0, &[1, 2, 3, 4], &[5, 6], &[7, 7]);
    assert_eq!(IdMapIndex::load(&bytes).err(), Some(FormatError::DuplicateIds));
    let bytes = io::write_id_map(2, 8, 2, Rotation::Rotor3, 0, &[1, 2, 3, 4], &[5, 6], &[7, 8]);
    assert!(IdMapIndex::load(&bytes).is_ok());
    // a truncated id table
    assert_eq!(
        IdMapIndex::load(&bytes[..bytes.len() - 1]).err(),
        Some(FormatError::UnexpectedEof)
    );
}

#[test]
fn swap_remove_of_newest_undoes_add() {
    let mut idx = RotorQuantIndex::new(8, 2);
    idx.add_encoded(&[1, 2, 3, 4], &[10, 20]);
    let codes = idx.packed_codes().to_vec();
    let norms = idx.norms().to_vec();
    idx.add_encoded(&[9, 9], &[99]);
    assert_eq!(idx.swap_remove(2), 2);
    assert_eq!(idx.packed_codes(), &codes[..]);
    assert_eq!(idx.norms(), &norms[..]);
}

#[test]
fn id_map_remove_undoes_add() {
    let mut idx = IdMapIndex::new(8, 2);
    idx.add_encoded_with_ids(&[1, 1, 2, 2], &[10, 20], &[5, 6]);
    let codes = idx.index().packed_codes().to_vec();
    idx.add_encoded_with_ids(&[3, 3], &[30], &[7]);
    assert!(idx.contains(7));
    assert!(idx.remove(7));
    assert!(!idx.contains(7));
    assert!(idx.contains(5) && idx.contains(6));
    assert_eq!(idx.index().packed_codes(), &codes[..]);
    assert_eq!(idx.ids_for_slots(&[0, 1]), vec![5, 6]);
}
