use rscompress::fenwick::{fenwick_with_string_frequencies as ffreq, Fenwick};
use rscompress::fenwick_map::Cartographer;
use rscompress::range::{Decoder, Encoder};
use rscompress::statistics::StatisticsError;
use rscompress::coding::CodeError;

type FenwickStatistics<T> = Fenwick<Cartographer<T>>;

fn get_skewed_example_two() -> FenwickStatistics<String> {
    let symbols: Vec<String> = vec![
        "A3".to_string(),
        "A2".to_string(),
        "A1".to_string(),
        "eof".to_string(),
    ];
    let freq: Vec<usize> = vec![23162, 975000, 1837, 1];
    ffreq(freq, symbols)
}

fn get_skewed_example_one() -> FenwickStatistics<String> {
    let symbols: Vec<String> = vec!["A3".to_string(), "A2".to_string(), "A1".to_string()];
    let freq: Vec<usize> = vec![231, 9750, 18];
    ffreq(freq, symbols)
}

fn get_swiss_example() -> FenwickStatistics<String> {
    let symbols: Vec<String> = vec![
        "_".to_string(),
        "M".to_string(),
        "I".to_string(),
        "W".to_string(),
        "S".to_string(),
    ];
    let freq: Vec<usize> = vec![1, 1, 2, 1, 5];
    ffreq(freq, symbols)
}

/// Encode a word against one model, then decode it back against an identical
/// fresh model, and expect the original word.
fn coding_roundtrip(make_stats: fn() -> FenwickStatistics<String>, word: &[&str]) {
    let mut enc = Encoder::new(Vec::new());
    let mut stats = make_stats();
    for sym in word {
        enc.drink(&sym.to_string(), &mut stats).unwrap();
    }
    enc.finish().unwrap();
    let bytes = enc.into_inner();

    let mut dec = Decoder::new(bytes, word.len());
    let mut stats = make_stats();
    let decoded: Vec<String> = (0..word.len())
        .map(|_| dec.decode(&mut stats).unwrap())
        .collect();
    let expected: Vec<String> = word.iter().map(|s| s.to_string()).collect();
    assert_eq!(decoded, expected);
}

#[test]
fn test_init() {
    let writer = Vec::new();
    let enc = Encoder::new(writer);

    assert_eq!(enc.get_ref_coder().low, 0);
    assert_eq!(enc.get_ref_coder().rng, u32::MAX);
}

#[test]
fn test_single_coding() {
    let writer = Vec::new();
    let mut enc = Encoder::new(writer);
    let mut ff = get_swiss_example();
    enc.drink(&"S".to_string(), &mut ff).unwrap();

    // encoding (low=5, high=10, total=10) from the full interval: the top
    // symbol absorbs the division remainder
    assert_eq!(enc.get_ref_coder().low, (u32::MAX >> 1) - 2);
    assert_eq!(enc.get_ref_coder().rng, (u32::MAX >> 1) + 3);

    // the decoder, primed with the flushed bytes and the same initial model,
    // returns the encoded symbol
    enc.finish().unwrap();
    let bytes = enc.into_inner();
    let mut dec = Decoder::new(bytes, 1);
    let mut ff2 = get_swiss_example();
    assert_eq!(dec.decode(&mut ff2).unwrap(), "S".to_string());
}

#[test]
fn test_coding() {
    let writer = Vec::new();
    let mut enc = Encoder::new(writer);
    let mut ff = get_swiss_example();
    let testword: Vec<String> = vec!["S", "W", "I", "S", "S", "_", "M", "I", "S", "S"]
        .iter_mut()
        .map(|x| x.to_string())
        .collect();
    for b in testword {
        enc.drink(&b, &mut ff).unwrap();
    }
}

#[test]
fn test_edge_case_one() {
    coding_roundtrip(get_skewed_example_one, &["A3", "A3", "A3", "A3", "A3"]);
}

#[test]
fn test_edge_case_two() {
    coding_roundtrip(get_skewed_example_two, &["A3", "A3", "A3", "A3", "eof"]);
}

#[test]
fn test_edge_case_three() {
    coding_roundtrip(get_skewed_example_one, &["A2", "A2", "A1", "A3", "A3"]);
}

#[test]
fn test_swiss_roundtrip() {
    coding_roundtrip(
        get_swiss_example,
        &["S", "W", "I", "S", "S", "_", "M", "I", "S", "S"],
    );
}

#[test]
fn test_unknown_symbol_is_refused() {
    let mut enc = Encoder::new(Vec::new());
    let mut ff = get_swiss_example();
    assert_eq!(
        enc.drink(&"X".to_string(), &mut ff).unwrap_err(),
        StatisticsError::UnknownSymbolError
    );
    assert_eq!(enc.get_ref().len(), 0);
}

#[test]
fn test_truncated_source_is_refused() {
    // encode enough symbols that the body holds renormalization bytes
    let mut enc = Encoder::new(Vec::new());
    let mut stats = get_skewed_example_one();
    let word = ["A1", "A1", "A1", "A1", "A1", "A1"];
    for sym in word.iter() {
        enc.drink(&sym.to_string(), &mut stats).unwrap();
    }
    enc.finish().unwrap();
    let mut bytes = enc.into_inner();
    // cut the stream short of its flush
    bytes.truncate(4);
    let mut dec = Decoder::new(bytes, word.len());
    let mut stats = get_skewed_example_one();
    let mut saw_io_error = false;
    for _ in 0..word.len() {
        match dec.decode(&mut stats) {
            Ok(_) => {}
            Err(e) => {
                assert_eq!(e, CodeError::IoError);
                saw_io_error = true;
                break;
            }
        }
    }
    assert!(saw_io_error);
}
