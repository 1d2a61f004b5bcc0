use rotorvec::rotor::{block_plan, BlockMatrix};
use rotorvec::rotor::{parse_rotation, rotation_to_str};
use rand::{Rng, SeedableRng};
use rand_chacha::ChaCha8Rng;
use rotorvec::rotor::{precompute_walsh_signs, WALSH_SEED_OFFSET};
use rotorvec::wht::{is_pow2, make_sign_vector};
use rotorvec::{Rotation, RotorQuantIndex, DEFAULT_ROTATION};

#[test]
fn rotation_byte_roundtrip() {
    for &kind in &[Rotation::Planar2, Rotation::Rotor3, Rotation::Iso4] {
        assert_eq!(Rotation::from_byte(kind.as_byte()), Some(kind));
    }
    assert_eq!(Rotation::from_byte(99), None);
}

#[test]
fn rotation_bytes_and_block_sizes() {
    assert_eq!(Rotation::Planar2.as_byte(), 2);
    assert_eq!(Rotation::Rotor3.as_byte(), 3);
    assert_eq!(Rotation::Iso4.as_byte(), 4);
    assert_eq!(Rotation::WalshRotor3.as_byte(), 5);
    assert_eq!(Rotation::from_byte(5), Some(Rotation::WalshRotor3));
    for b in [0u8, 1, 6, 255] {
        assert_eq!(Rotation::from_byte(b), None);
    }
    assert_eq!(Rotation::Planar2.block_size(), 2);
    assert_eq!(Rotation::Rotor3.block_size(), 3);
    assert_eq!(Rotation::Iso4.block_size(), 4);
    assert_eq!(Rotation::WalshRotor3.block_size(), 3);
    assert!(Rotation::WalshRotor3.uses_walsh());
    assert!(!Rotation::Rotor3.uses_walsh());
}

#[test]
fn is_pow2_basic() {
    for &n in &[1usize, 2, 4, 8, 16, 64, 128, 1024, 4096] {
        assert!(is_pow2(n), "{n} should be pow2");
    }
    for &n in &[0usize, 3, 5, 6, 7, 100, 384, 1536] {
        assert!(!is_pow2(n), "{n} should not be pow2");
    }
}

#[test]
fn is_pow2_extremes() {
    assert!(is_pow2(1usize << 63));
    assert!(!is_pow2(usize::MAX));
}

#[test]
fn sign_vector_deterministic() {
    let a = make_sign_vector(64, 42);
    let b = make_sign_vector(64, 42);
    assert_eq!(a, b);
    let c = make_sign_vector(64, 43);
    assert_ne!(a, c);
    for &x in &a {
        let s: f32 = if x { 1.0 } else { -1.0 };
        assert!(s == 1.0 || s == -1.0);
    }
}

#[test]
fn sign_vector_matches_chacha8_stream() {
    let mut rng = ChaCha8Rng::seed_from_u64(7);
    let want: Vec<bool> = (0..32).map(|_| rng.gen::<bool>()).collect();
    assert_eq!(make_sign_vector(32, 7), want);
    assert_eq!(make_sign_vector(0, 7), Vec::<bool>::new());
}

#[test]
fn walsh_signs_only_for_walsh_rotation() {
    assert_eq!(precompute_walsh_signs(64, Rotation::Rotor3, 1), None);
    assert_eq!(precompute_walsh_signs(64, Rotation::Planar2, 1), None);
    assert_eq!(precompute_walsh_signs(64, Rotation::Iso4, 1), None);
    let signs = precompute_walsh_signs(64, Rotation::WalshRotor3, 1).unwrap();
    assert_eq!(signs, make_sign_vector(64, 1 + WALSH_SEED_OFFSET));
    // The seed offset wraps around.
    let wrapped = precompute_walsh_signs(16, Rotation::WalshRotor3, u64::MAX).unwrap();
    assert_eq!(wrapped, make_sign_vector(16, WALSH_SEED_OFFSET - 1));
}

#[test]
fn default_rotation_is_rotor3() {
    let idx = RotorQuantIndex::new(64, 4);
    assert_eq!(idx.rotation(), Rotation::Rotor3);
    assert_eq!(DEFAULT_ROTATION, Rotation::Rotor3);
}

#[test]
fn block_plan_identity_only_on_partial_tail() {
    // 128 = 42 * 3 + 2: 43 rotor blocks, the last one partial
    let (blocks, padded) = block_plan(128, Rotation::Rotor3);
    assert_eq!(blocks.len(), 43);
    assert_eq!(padded, 129);
    assert!(blocks[..42].iter().all(|&b| b == BlockMatrix::Rotor));
    assert_eq!(blocks[42], BlockMatrix::Identity);
    // 126 = 42 * 3: no partial block
    let (blocks, padded) = block_plan(126, Rotation::Rotor3);
    assert_eq!((blocks.len(), padded), (42, 126));
    assert!(blocks.iter().all(|&b| b == BlockMatrix::Rotor));
    let (blocks, padded) = block_plan(64, Rotation::Planar2);
    assert_eq!((blocks.len(), padded), (32, 64));
    assert!(blocks.iter().all(|&b| b == BlockMatrix::Givens));
    let (blocks, padded) = block_plan(64, Rotation::Iso4);
    assert_eq!((blocks.len(), padded), (16, 64));
    assert!(blocks.iter().all(|&b| b == BlockMatrix::Quaternion));
    let (blocks, padded) = block_plan(64, Rotation::WalshRotor3);
    assert_eq!((blocks.len(), padded), (22, 66));
    assert_eq!(blocks[21], BlockMatrix::Identity);
    assert_eq!(blocks[0], BlockMatrix::Rotor);
    let (blocks, padded) = block_plan(0, Rotation::Rotor3);
    assert_eq!((blocks.len(), padded), (0, 0));
}

#[test]
fn parse_rotation_names() {
    for s in ["planar2", "planar", "givens", "PLANAR", "Givens"] {
        assert_eq!(parse_rotation(s), Some(Rotation::Planar2), "{s}");
    }
    for s in ["rotor3", "rotor", "clifford", "Rotor3", "CLIFFORD"] {
        assert_eq!(parse_rotation(s), Some(Rotation::Rotor3), "{s}");
    }
    for s in ["iso4", "iso", "quaternion", "ISO4", "Quaternion"] {
        assert_eq!(parse_rotation(s), Some(Rotation::Iso4), "{s}");
    }
    for s in ["walshrotor3", "walsh", "walsh-rotor3", "WalshRotor3", "WALSH", "rotor3+walsh", "Rotor3+Walsh"] {
        assert_eq!(parse_rotation(s), Some(Rotation::WalshRotor3), "{s}");
    }
    for s in ["", "rotor 3", "walsh_rotor3", "planar22", " iso"] {
        assert_eq!(parse_rotation(s), None, "{s}");
    }
}

#[test]
fn rotation_names_roundtrip() {
    assert_eq!(rotation_to_str(Rotation::Planar2), "planar2");
    assert_eq!(rotation_to_str(Rotation::Rotor3), "rotor3");
    assert_eq!(rotation_to_str(Rotation::Iso4), "iso4");
    assert_eq!(rotation_to_str(Rotation::WalshRotor3), "walshrotor3");
    for r in [Rotation::Planar2, Rotation::Rotor3, Rotation::Iso4, Rotation::WalshRotor3] {
        assert_eq!(parse_rotation(rotation_to_str(r)), Some(r));
    }
}

#[test]
fn rotor3_trailing_partial_block_is_identity() {
    // dim=128 isn't divisible by 3 — last block (g=42) is the identity.
    let (blocks, padded) = block_plan(128, Rotation::Rotor3);
    let n_groups = blocks.len();
    assert_eq!(n_groups, 43);
    assert_eq!(padded, 129);
    assert_eq!(blocks[n_groups - 1], BlockMatrix::Identity, "trailing partial block should be I");
    assert_ne!(blocks[0], BlockMatrix::Identity, "first block should be a real rotation");
}

#[test]
fn rotor3_full_block_dim_unchanged() {
    // dim divisible by 3 — every block is a real rotation.
    let (blocks, padded) = block_plan(126, Rotation::Rotor3);
    let n_groups = blocks.len();
    assert_eq!(n_groups, 42);
    assert_eq!(padded, 126);
    for g in 0..n_groups {
        assert_ne!(blocks[g], BlockMatrix::Identity, "block {g} should be a real rotation");
    }
}
