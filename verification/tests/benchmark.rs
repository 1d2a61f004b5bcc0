use rotorvec::benchmark::cli::{parse_dataset, parse_methods, CliError};
use rotorvec::benchmark::datasets::{pad_rows, read_fvecs, read_ivecs, Dataset, VecsError};
use rotorvec::benchmark::ground_truth::{
    decode_ground_truth, encode_ground_truth, recall_hits, TruthError,
};
use rotorvec::benchmark::runner::Method;
use rotorvec::text::NumberError;
use rotorvec::Rotation;

#[test]
fn dataset_names_and_dims() {
    assert_eq!(Dataset::Sift1M.name(), "sift-1m");
    assert_eq!(Dataset::GloVe100.name(), "glove-100");
    assert_eq!(Dataset::Random { n: 5000, dim: 64 }.name(), "random-n5000-d64");
    assert_eq!(Dataset::Random { n: 0, dim: 8 }.name(), "random-n0-d8");
    assert_eq!(Dataset::Sift1M.dim(), 128);
    assert_eq!(Dataset::GloVe100.dim(), 104);
    assert_eq!(Dataset::Random { n: 1, dim: 24 }.dim(), 24);
}

#[test]
fn method_labels_and_order() {
    assert_eq!(Method::TurboVec.label(), "turbovec");
    assert_eq!(Method::RvPlanar2.label(), "rotorvec planar2");
    assert_eq!(Method::RvRotor3.label(), "rotorvec rotor3 ");
    assert_eq!(Method::RvIso4.label(), "rotorvec iso4   ");
    assert_eq!(
        Method::all(),
        vec![Method::TurboVec, Method::RvPlanar2, Method::RvRotor3, Method::RvIso4]
    );
    assert_eq!(Method::TurboVec.rotation(), None);
    assert_eq!(Method::RvPlanar2.rotation(), Some(Rotation::Planar2));
    assert_eq!(Method::RvRotor3.rotation(), Some(Rotation::Rotor3));
    assert_eq!(Method::RvIso4.rotation(), Some(Rotation::Iso4));
}

#[test]
fn parse_dataset_names() {
    for s in ["sift-1m", "sift", "sift-128"] {
        assert_eq!(parse_dataset(s), Ok(Dataset::Sift1M));
    }
    for s in ["glove-100", "glove"] {
        assert_eq!(parse_dataset(s), Ok(Dataset::GloVe100));
    }
    assert_eq!(parse_dataset("Sift"), Err(CliError::UnknownDataset("Sift".to_string())));
    assert_eq!(parse_dataset(""), Err(CliError::UnknownDataset(String::new())));
}

#[test]
fn parse_dataset_random_forms() {
    assert_eq!(parse_dataset("random"), Ok(Dataset::Random { n: 100_000, dim: 128 }));
    assert_eq!(parse_dataset("random:500"), Ok(Dataset::Random { n: 500, dim: 128 }));
    assert_eq!(parse_dataset("random:500:64"), Ok(Dataset::Random { n: 500, dim: 64 }));
    assert_eq!(parse_dataset("random:+7:8:ignored"), Ok(Dataset::Random { n: 7, dim: 8 }));
    assert_eq!(parse_dataset("randomly"), Ok(Dataset::Random { n: 100_000, dim: 128 }));
    assert_eq!(parse_dataset("random:1:0"), Ok(Dataset::Random { n: 1, dim: 0 }));
}

#[test]
fn parse_dataset_random_errors() {
    assert_eq!(parse_dataset("random:"), Err(CliError::InvalidNumber(NumberError::Empty)));
    assert_eq!(
        parse_dataset("random:x:9"),
        Err(CliError::InvalidNumber(NumberError::InvalidDigit))
    );
    assert_eq!(
        parse_dataset("random:5:-8"),
        Err(CliError::InvalidNumber(NumberError::InvalidDigit))
    );
    assert_eq!(
        parse_dataset("random:+"),
        Err(CliError::InvalidNumber(NumberError::InvalidDigit))
    );
    assert_eq!(
        parse_dataset("random:99999999999999999999999"),
        Err(CliError::InvalidNumber(NumberError::PosOverflow))
    );
    // the first problem from the left decides: an overflow before a bad digit
    assert_eq!(
        parse_dataset("random:99999999999999999999999x"),
        Err(CliError::InvalidNumber(NumberError::PosOverflow))
    );
    assert_eq!(
        parse_dataset("random:1x99999999999999999999999"),
        Err(CliError::InvalidNumber(NumberError::InvalidDigit))
    );
    assert_eq!(parse_dataset("random:10:12"), Err(CliError::DimNotMultipleOf8(12)));
    assert_eq!(
        CliError::DimNotMultipleOf8(12).message(),
        "random dataset dim must be a multiple of 8 (got 12)"
    );
    assert_eq!(CliError::UnknownDataset("foo".to_string()).message(), "unknown dataset: foo");
}

#[test]
fn number_errors_read_like_std() {
    for (text, kind) in [
        ("", NumberError::Empty),
        ("x", NumberError::InvalidDigit),
        ("99999999999999999999999", NumberError::PosOverflow),
    ] {
        let std_err = text.parse::<usize>().unwrap_err();
        assert_eq!(CliError::InvalidNumber(kind).message(), std_err.to_string());
    }
    assert_eq!(
        parse_dataset(&format!("random:{}", usize::MAX)),
        Ok(Dataset::Random { n: usize::MAX, dim: 128 })
    );
}

#[test]
fn parse_methods_lists() {
    assert_eq!(parse_methods("all"), Ok(Method::all().to_vec()));
    assert_eq!(parse_methods("tv"), Ok(vec![Method::TurboVec]));
    assert_eq!(
        parse_methods(" rotor3 ,planar, iso4,turbovec"),
        Ok(vec![Method::RvRotor3, Method::RvPlanar2, Method::RvIso4, Method::TurboVec])
    );
    assert_eq!(
        parse_methods("rv-planar,rv-rotor,rv-iso,planar2,rotor,iso"),
        Ok(vec![
            Method::RvPlanar2,
            Method::RvRotor3,
            Method::RvIso4,
            Method::RvPlanar2,
            Method::RvRotor3,
            Method::RvIso4
        ])
    );
}

#[test]
fn parse_methods_errors() {
    assert_eq!(
        parse_methods("rotor, bogus ,nope"),
        Err(CliError::UnknownMethod("bogus".to_string()))
    );
    assert_eq!(parse_methods(""), Err(CliError::UnknownMethod(String::new())));
    assert_eq!(parse_methods("tv,"), Err(CliError::UnknownMethod(String::new())));
    assert_eq!(parse_methods("ALL"), Err(CliError::UnknownMethod("ALL".to_string())));
    assert_eq!(
        CliError::UnknownMethod("x".to_string()).message(),
        "unknown method: x"
    );
}

#[test]
fn recall_hits_counts_overlaps() {
    // two queries, k = 3
    let approx = vec![1i64, 2, 3, 7, 7, 9];
    let truth = vec![3i32, 1, 5, 9, 8, 7];
    // query 0: 1 and 3 hit; query 1: 7 twice and 9 hit
    assert_eq!(recall_hits(&approx, &truth, 3), 5);
    // truncation to i32: 2^32 + 5 is 5
    assert_eq!(recall_hits(&[(1i64 << 32) + 5], &[5], 1), 1);
    // a partial last row is ignored
    assert_eq!(recall_hits(&[1, 2, 3], &[1, 2], 2), 2);
    assert_eq!(recall_hits(&[], &[], 4), 0);
    // padding slots never hit real ids
    assert_eq!(recall_hits(&[-1, -1], &[0, 1], 2), 0);
}

#[test]
fn ground_truth_roundtrip_and_layout() {
    let indices = vec![5i32, -1, 7, 1 << 30, 0, 3];
    let bytes = encode_ground_truth(&indices, 3);
    assert_eq!(&bytes[..4], &2u32.to_le_bytes());
    assert_eq!(&bytes[4..8], &3u32.to_le_bytes());
    assert_eq!(&bytes[12..16], &(-1i32).to_le_bytes());
    assert_eq!(bytes.len(), 8 + 4 * 6);
    assert_eq!(decode_ground_truth(&bytes, 3), Ok(indices.clone()));
    // trailing bytes are ignored
    let mut longer = bytes.clone();
    longer.push(0xEE);
    assert_eq!(decode_ground_truth(&longer, 3), Ok(indices));
}

#[test]
fn ground_truth_errors() {
    let bytes = encode_ground_truth(&[1, 2, 3, 4], 2);
    assert_eq!(
        decode_ground_truth(&bytes, 4),
        Err(TruthError::WrongK { stored: 2, expected: 4 })
    );
    assert_eq!(decode_ground_truth(&bytes[..7], 2), Err(TruthError::UnexpectedEof));
    assert_eq!(decode_ground_truth(&bytes[..bytes.len() - 1], 2), Err(TruthError::UnexpectedEof));
}

fn record(words: &[u32]) -> Vec<u8> {
    let mut v = (words.len() as i32).to_le_bytes().to_vec();
    for w in words {
        v.extend(w.to_le_bytes());
    }
    v
}

#[test]
fn fvecs_reads_records() {
    let a = [1.0f32.to_bits(), 2.5f32.to_bits()];
    let b = [(-3.0f32).to_bits(), 0.0f32.to_bits()];
    let mut data = record(&a);
    data.extend(record(&b));
    let v = read_fvecs(&data).unwrap();
    let floats: Vec<f32> = v.iter().map(|&w| f32::from_bits(w)).collect();
    assert_eq!(floats, vec![1.0, 2.5, -3.0, 0.0]);
}

#[test]
fn fvecs_errors() {
    assert_eq!(read_fvecs(&[1, 0]), Err(VecsError::UnexpectedEof));
    assert_eq!(read_fvecs(&0i32.to_le_bytes()), Err(VecsError::ImplausibleDim(0)));
    assert_eq!(read_fvecs(&(-4i32).to_le_bytes()), Err(VecsError::ImplausibleDim(-4)));
    assert_eq!(
        read_fvecs(&1_000_001i32.to_le_bytes()),
        Err(VecsError::ImplausibleDim(1_000_001))
    );
    let mut data = record(&[1, 2]);
    data.push(0);
    assert_eq!(
        read_fvecs(&data),
        Err(VecsError::SizeMismatch { len: 13, record_size: 12 })
    );
}

#[test]
fn ivecs_reads_rows_and_k() {
    let mut data = record(&[4, 5, 6]);
    data.extend(record(&[(-1i32) as u32, 8, 9]));
    assert_eq!(read_ivecs(&data), Ok((vec![4, 5, 6, -1, 8, 9], 3)));
    assert_eq!(
        read_ivecs(&100_001i32.to_le_bytes()),
        Err(VecsError::ImplausibleDim(100_001))
    );
}

#[test]
fn pad_rows_appends_zeros() {
    let v = vec![1u32, 2, 3, 4, 5, 6, 7];
    assert_eq!(pad_rows(&v, 3, 5), vec![1, 2, 3, 0, 0, 4, 5, 6, 0, 0]);
    assert_eq!(pad_rows(&[], 3, 8), Vec::<u32>::new());
}
