use rscompress::runlength::{RunLength, RUN_BYTE_CODE};
use rscompress::transform::{Transform, TransformError};
use rand::{rngs::OsRng, RngCore};

/// Helper function for testing one-way transformation
fn transform<M: Transform + Default>(input: &[u8], expected: &[u8]) {
    let mut model: M = Default::default();
    let result = model.transform(&input).unwrap();
    assert_eq!(result, expected)
}

/// Helper function for testing reverse transformation
fn reverse<M: Transform + Default>(input: &[u8], expected: &[u8]) {
    let mut model: M = Default::default();
    let result = model.reverse(&input).unwrap();
    assert_eq!(result, expected)
}

/// Helper function for testing transformation roundtrips
fn roundtrip<M: Transform + Default>(input: &[u8]) {
    let mut model: M = Default::default();
    let tmp = model.transform(&input).unwrap();
    let result = model.reverse(&tmp).unwrap();
    assert_eq!(result, input)
}

/// Helper function for testing random transformation roundtrips
fn random_roundtrip<M: Transform + Default>(trips: usize) {
    for _ in 0..trips {
        let mut input = [0u8; 10_000];
        OsRng.fill_bytes(&mut input);
        let mut model: M = Default::default();
        let tmp = model.transform(&input).unwrap();
        let result = model.reverse(&tmp).unwrap();
        assert_eq!(result, input)
    }
}

#[test]
fn runlength_test_easy_transforms() {
    transform::<RunLength>(
        &[8, 2, 2, 2, 24, 32, 32, 1, 24],
        &[
            8,
            2,
            RUN_BYTE_CODE,
            RUN_BYTE_CODE,
            24,
            32,
            RUN_BYTE_CODE,
            1,
            24,
        ],
    );
}

#[test]
fn test_easy_reverses() {
    reverse::<RunLength>(
        &[
            8,
            2,
            RUN_BYTE_CODE,
            RUN_BYTE_CODE,
            24,
            32,
            RUN_BYTE_CODE,
            1,
            24,
        ],
        &[8, 2, 2, 2, 24, 32, 32, 1, 24],
    );
    reverse::<RunLength>(
        &[8, RUN_BYTE_CODE, RUN_BYTE_CODE, 8],
        &[8, 8, 8, RUN_BYTE_CODE],
    );
}

#[test]
fn test_roundtrip() {
    roundtrip::<RunLength>(&[8, 2, 2, 2, 24, 32, 32, 1, 24]);
    roundtrip::<RunLength>(&[8, 8, 8, 8, 2]);
    roundtrip::<RunLength>(&[8, 8, 1, 2, 2]);
    roundtrip::<RunLength>(&[8, 8, 8, 8]);
    roundtrip::<RunLength>(&[RUN_BYTE_CODE, 8, 8, 8]);
    roundtrip::<RunLength>(&[8, 1, 5, 8]);
}

#[test]
fn runlength_test_random_roundtrip() {
    random_roundtrip::<RunLength>(100);
    random_roundtrip::<RunLength>(100);
    random_roundtrip::<RunLength>(100);
    random_roundtrip::<RunLength>(100);
    random_roundtrip::<RunLength>(100);
}

#[test]
fn test_runlength_empty_input() {
    let mut model = RunLength::new();
    assert_eq!(
        model.transform(&[]).unwrap_err(),
        TransformError::EmptyBufferError
    );
    assert_eq!(
        model.reverse(&[]).unwrap_err(),
        TransformError::EmptyBufferError
    );
}
