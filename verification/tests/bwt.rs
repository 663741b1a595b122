use rscompress::bwt::{get_counts, BurrowWheeler};
use rscompress::transform::{Transform, TransformError};
use rand::{rngs::OsRng, RngCore};

/// Helper function for testing one-way transformation
fn transform<M: Transform + Default>(input: &[u8], expected: &[u8]) {
    let mut model: M = Default::default();
    let result = model.transform(&input).unwrap();
    assert_eq!(result, expected)
}

/// Helper function for testing transformation roundtrips
fn roundtrip<M: Transform + Default>(input: &[u8]) {
    let mut model: M = Default::default();
    let tmp = model.transform(&input).unwrap();
    let result = model.reverse(&tmp).unwrap();
    assert_eq!(result, input)
}

/// Helper function for testing random transformation roundtrips
fn random_roundtrip<M: Transform + Default>(trips: usize, size: usize) {
    for _ in 0..trips {
        let mut input = vec![0u8; size];
        OsRng.fill_bytes(&mut input);
        let mut model: M = Default::default();
        let tmp = model.transform(&input).unwrap();
        let result = model.reverse(&tmp).unwrap();
        assert_eq!(result, input)
    }
}

#[test]
fn test_counts() {
    let mut data: [u8; 7] = [123, 139, 39, 62, 139, 139, 139];
    data.sort_unstable();

    let counts = get_counts(&data);
    assert_eq!(counts, [0, 0, 0, 0, 1, 2, 3])
}

#[test]
fn bwt_test_easy_transforms() {
    transform::<BurrowWheeler>(&[123, 139, 39, 62, 139], &[139, 139, 39, 62, 123]);
    transform::<BurrowWheeler>(&[230, 183, 108, 102, 230], &[230, 108, 183, 230, 102]);
    transform::<BurrowWheeler>("banana".as_bytes(), "annbaa".as_bytes());
    transform::<BurrowWheeler>("compressioncode".as_bytes(), "enodrsooccimpse".as_bytes());
}

#[test]
fn bwt_test_easy_roundtrip() {
    roundtrip::<BurrowWheeler>(&[34, 10, 0, 206, 40]);
    roundtrip::<BurrowWheeler>(&[123, 139, 39, 62, 139]);
    roundtrip::<BurrowWheeler>(&[230, 183, 108, 102, 230]);
    roundtrip::<BurrowWheeler>("compressioncode".as_bytes());
    roundtrip::<BurrowWheeler>("apple".as_bytes());
    roundtrip::<BurrowWheeler>("banana".as_bytes());
}

#[test]
fn bwt_test_random_roundtrip() {
    random_roundtrip::<BurrowWheeler>(100, 10_000);
    random_roundtrip::<BurrowWheeler>(100, 10_000);
    random_roundtrip::<BurrowWheeler>(100, 10_000);
    random_roundtrip::<BurrowWheeler>(100, 10_000);
    random_roundtrip::<BurrowWheeler>(100, 10_000);
}

#[test]
fn test_bwt_missing_index() {
    let mut model = BurrowWheeler::new();
    assert_eq!(
        model.reverse(&[1, 2, 3]).unwrap_err(),
        TransformError::MissingIndex
    );
}

#[test]
fn test_bwt_empty_input() {
    let mut model = BurrowWheeler::new();
    assert_eq!(
        model.transform(&[]).unwrap_err(),
        TransformError::EmptyBufferError
    );
    assert_eq!(
        model.reverse(&[]).unwrap_err(),
        TransformError::EmptyBufferError
    );
}

#[test]
fn test_bwt_tied_prefix_rotations() {
    // inputs whose rotations share long equal prefixes
    roundtrip::<BurrowWheeler>(&[123, 139, 39, 62, 139]);
    roundtrip::<BurrowWheeler>(&[1, 1, 1, 1, 1, 1]);
    roundtrip::<BurrowWheeler>(&[2, 1, 2, 1, 2, 1, 2, 1]);
    roundtrip::<BurrowWheeler>(&[0, 0, 1, 0, 0, 1, 0, 0]);
}
