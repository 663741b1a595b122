use rscompress::movetofront::MoveToFront;
use rscompress::transform::{Transform, TransformError};
use rand::{rngs::OsRng, RngCore};

/// Helper function for testing one-way transformation
fn transform<M: Transform + Default>(input: &[u8], expected: &[u8]) {
    let mut model: M = Default::default();
    let result = model.transform(&input).unwrap();
    assert_eq!(result, expected)
}

/// Helper function for testing reverse transformation
fn reverse<M: Transform + Default>(input: &[u8], expected: &[u8]) {
    let mut model: M = Default::default();
    let result = model.reverse(&input).unwrap();
    assert_eq!(result, expected)
}

/// Helper function for testing transformation roundtrips
fn roundtrip<M: Transform + Default>(input: &[u8]) {
    let mut model: M = Default::default();
    let tmp = model.transform(&input).unwrap();
    let result = model.reverse(&tmp).unwrap();
    assert_eq!(result, input)
}

/// Helper function for testing random transformation roundtrips
fn random_roundtrip<M: Transform + Default>(trips: usize) {
    for _ in 0..trips {
        let mut input = [0u8; 10_000];
        OsRng.fill_bytes(&mut input);
        let mut model: M = Default::default();
        let tmp = model.transform(&input).unwrap();
        let result = model.reverse(&tmp).unwrap();
        assert_eq!(result, input)
    }
}

#[test]
fn movetofront_test_easy_transforms() {
    transform::<MoveToFront>("bananaaa".as_bytes(), &[98, 98, 110, 1, 1, 1, 0, 0]);
}

#[test]
fn test_easy_reverse() {
    reverse::<MoveToFront>(&[98, 98, 110, 1, 1, 1, 0, 0], "bananaaa".as_bytes());
}

#[test]
fn movetofront_test_easy_roundtrip() {
    roundtrip::<MoveToFront>("bananaaa".as_bytes());
}

#[test]
fn movetofront_test_random_roundtrip() {
    random_roundtrip::<MoveToFront>(100);
    random_roundtrip::<MoveToFront>(100);
    random_roundtrip::<MoveToFront>(100);
    random_roundtrip::<MoveToFront>(100);
    random_roundtrip::<MoveToFront>(100);
}

#[test]
fn test_movetofront_corrupt_table() {
    let mut model = MoveToFront::default();
    // doubling one entry makes byte 0 vanish from the table
    model.table[0] = model.table[1];
    match Transform::transform(&mut model, &[5u8]) {
        Err(TransformError::SymbolNotFound(b)) => assert_eq!(b, 0),
        _ => panic!("a corrupted table must be refused"),
    }
}

#[test]
fn test_movetofront_empty_input() {
    let mut model = MoveToFront::default();
    assert_eq!(
        model.transform(&[]).unwrap_err(),
        TransformError::EmptyBufferError
    );
    assert_eq!(
        model.reverse(&[]).unwrap_err(),
        TransformError::EmptyBufferError
    );
}
