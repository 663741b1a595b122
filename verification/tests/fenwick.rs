use rscompress::fenwick::{
    fenwick_with_binary_frequencies, fenwick_with_string_frequencies,
    fenwick_with_vector_frequencies, backward, forward, Fenwick,
};
use rscompress::fenwick_map::{Cartographer, SymbolMap};
use rscompress::statistics::StatisticsError;
use rand::{rngs::OsRng, RngCore};
use std::collections::HashSet;

fn get_example_from_paper() -> Fenwick<Cartographer<u8>> {
    let sym: Vec<u8> = vec![1, 2, 3, 4, 5, 6, 7, 8, 9, 10, 11, 12, 13, 14];
    let freq: Vec<usize> = vec![1, 1, 1, 4, 3, 5, 2, 3, 6, 5, 4, 1, 1, 9];
    fenwick_with_binary_frequencies(freq, sym)
}

#[test]
fn fenwick_test_binary_cartographer_init() {
    let bcart = Cartographer::<u8>::new();

    assert_eq!(bcart.alphabet_size(), 0);
    assert_eq!(bcart.next_symbol(), 1);
}

#[test]
fn fenwick_test_binary_cartographer_install_symbols_linear() {
    let mut bcart = Cartographer::<u8>::new();
    for symbol in 0..25u8 {
        bcart.install(&symbol);
    }
    for symbol in 0..25u8 {
        assert_eq!(bcart.get_index_of(&symbol).unwrap(), symbol as usize + 1)
    }
}

#[test]
fn fenwick_test_binary_cartographer_install_symbols_random() {
    let mut bcart = Cartographer::<u8>::new();
    let mut symbols = vec![0u8; 10];
    OsRng.fill_bytes(&mut symbols);
    // Remove duplicates
    let symbols: Vec<u8> = symbols
        .into_iter()
        .collect::<HashSet<_>>()
        .into_iter()
        .collect();

    for symbol in symbols.iter() {
        bcart.install(symbol);
    }
    for symbol in symbols.iter().enumerate() {
        assert_eq!(bcart.get_index_of(&symbol.1).unwrap(), symbol.0 + 1)
    }
    assert_eq!(bcart.alphabet_size(), symbols.len());
    assert_eq!(*bcart.get_symbol_at(4).unwrap(), symbols[3]);
}

#[test]
fn map_test_binary_cartographer_init() {
    let bcart = Cartographer::<u8>::new();

    assert_eq!(bcart.alphabet_size(), 0);
    assert_eq!(bcart.next_symbol(), 1);
}

#[test]
fn test_vec_cartographer_init() {
    let bcart = Cartographer::<Vec<u8>>::new();

    assert_eq!(bcart.alphabet_size(), 0);
    assert_eq!(bcart.next_symbol(), 1);
}

#[test]
fn test_string_cartographer_init() {
    let bcart = Cartographer::<String>::new();

    assert_eq!(bcart.alphabet_size(), 0);
    assert_eq!(bcart.next_symbol(), 1);
}

#[test]
fn map_test_binary_cartographer_install_symbols_linear() {
    let mut bcart = Cartographer::<u8>::new();
    for symbol in 0..25u8 {
        bcart.install(&symbol);
    }
    for symbol in 0..25u8 {
        assert_eq!(bcart.get_index_of(&symbol).unwrap(), symbol as usize + 1)
    }
}

#[test]
fn test_vec_cartographer_install_symbols_linear() {
    let mut bcart = Cartographer::<Vec<u8>>::new();
    for symbol in 0..25u8 {
        bcart.install(&vec![symbol]);
    }
    for symbol in 0..25u8 {
        assert_eq!(bcart.get_index_of(&vec![symbol]).unwrap(), symbol as usize + 1)
    }
}

#[test]
fn test_string_cartographer_install_symbols_linear() {
    let mut bcart = Cartographer::<String>::new();

    for symbol in 0..25u8 {
        let k = format!("{}", symbol);
        bcart.install(&k);
    }
    for symbol in 0..25u8 {
        let k = format!("{}", symbol);
        assert_eq!(bcart.get_index_of(&k).unwrap(), symbol as usize + 1)
    }
}

#[test]
fn map_test_binary_cartographer_install_symbols_random() {
    let mut bcart = Cartographer::<u8>::new();
    let mut symbols = vec![0u8; 1000];
    OsRng.fill_bytes(&mut symbols);
    // Remove duplicates
    let symbols: Vec<u8> = symbols
        .into_iter()
        .collect::<HashSet<_>>()
        .into_iter()
        .collect();

    for symbol in symbols.iter() {
        bcart.install(symbol);
    }
    for symbol in symbols.iter().enumerate() {
        assert_eq!(bcart.get_index_of(&symbol.1).unwrap(), symbol.0 + 1)
    }
    assert_eq!(bcart.alphabet_size(), symbols.len());
    assert_eq!(*bcart.get_symbol_at(4).unwrap(), symbols[3]);
}

#[test]
fn test_vec_cartographer_install_symbols_random() {
    let mut bcart = Cartographer::<Vec<u8>>::new();

    for num in 0..10 {
        let mut symbols = vec![0u8; 1000];
        OsRng.fill_bytes(&mut symbols);
        let symbols: Vec<u8> = symbols
            .into_iter()
            .collect::<HashSet<_>>()
            .into_iter()
            .collect();
        bcart.install(&symbols);
        assert_eq!(bcart.get_index_of(&symbols).unwrap(), num + 1);
        assert_eq!(bcart.alphabet_size(), num + 1);
    }
}

#[test]
fn test_string_cartographer_install_symbols_random() {
    let mut bcart = Cartographer::<String>::new();
    let mut symbols = vec![0u8; 1000];
    OsRng.fill_bytes(&mut symbols);
    let symbols: Vec<u8> = symbols
        .into_iter()
        .collect::<HashSet<_>>()
        .into_iter()
        .collect();
    let symbols: Vec<String> = symbols.iter().map(|s| format!("{}", s)).collect();

    for symbol in symbols.iter() {
        bcart.install(symbol);
    }
    for symbol in symbols.iter().enumerate() {
        assert_eq!(bcart.get_index_of(&symbol.1).unwrap(), symbol.0 + 1)
    }
    assert_eq!(bcart.alphabet_size(), symbols.len());
    assert_eq!(*bcart.get_symbol_at(4).unwrap(), symbols[3]);
}

#[test]
fn test_binary_fenwick_init() {
    let f = Fenwick::<Cartographer<u8>>::new();

    assert_eq!(f.get_ref().len(), 1);
    assert_eq!(f.map.get_ref().len(), 0);
    assert_eq!(f.map.next_symbol(), 1);
    assert_eq!(f.get_ref(), &vec![0usize]);
}

#[test]
fn test_binary_fenwick_paper_example() {
    let mut f = Fenwick::<Cartographer<u8>>::new();
    let sym: Vec<u8> = vec![1, 2, 3, 4, 5, 6, 7, 8, 9, 10, 11, 12, 13, 14];
    let freq: Vec<usize> = vec![1, 1, 1, 4, 3, 5, 2, 3, 6, 5, 4, 1, 1, 9];
    for (x, mut count) in sym.iter().zip(freq) {
        while count > 0 {
            f.update_freq_count(x).unwrap();
            count -= 1;
        }
    }
    let expected: Vec<usize> = vec![0, 1, 2, 1, 7, 3, 8, 2, 20, 6, 11, 4, 16, 1, 10];
    assert_eq!(&expected, f.get_ref());
}

#[test]
fn test_binary_fenwick_with_frequencies() {
    let f = get_example_from_paper();
    let expected: Vec<usize> = vec![0, 1, 2, 1, 7, 3, 8, 2, 20, 6, 11, 4, 16, 1, 10];
    assert_eq!(&expected, f.get_ref());
}

#[test]
fn test_string_fenwick_with_frequencies() {
    let sym: Vec<String> = vec![
        "Sometimes I've believed as many as six impossible things".to_string(),
        "Who in the world am I? Ah, that's the great puzzle".to_string(),
        "Curiouser and curiouser!".to_string(),
        "How long is forever?".to_string(),
        "Sometimes, just one second".to_string(),
        "Why it's simply impassible!".to_string(),
        "Why, don't you mean impossible?".to_string(),
        "Would you tell me, please, which way I ought to go from here?".to_string(),
        "That depends a good deal on where you want to get to".to_string(),
        "I don't much care where".to_string(),
        "Then it doesn't much matter which way you go".to_string(),
        "So long as I get somewhere".to_string(),
        "Oh, you're sure to do that, if only you walk long enough".to_string(),
        "I knew who I was this morning, but I've changed a few times since then".to_string(),
    ];
    let freq: Vec<usize> = vec![1, 1, 1, 4, 3, 5, 2, 3, 6, 5, 4, 1, 1, 9];
    let f = fenwick_with_string_frequencies(freq, sym);
    let expected: Vec<usize> = vec![0, 1, 2, 1, 7, 3, 8, 2, 20, 6, 11, 4, 16, 1, 10];
    assert_eq!(&expected, f.get_ref());
}

#[test]
fn test_vector_fenwick_with_frequencies() {
    let sym: Vec<Vec<u8>> = vec![vec![1, 2], vec![3], vec![4, 5, 6], vec![7]];
    let freq: Vec<usize> = vec![2, 1, 3, 1];
    let f = fenwick_with_vector_frequencies(freq, sym);
    let expected: Vec<usize> = vec![0, 2, 3, 3, 7];
    assert_eq!(&expected, f.get_ref());
}

#[test]
fn test_normalization_and_count() {
    let mut f = get_example_from_paper();
    let norm1: Vec<usize> = vec![0, 1, 1, 1, 3, 1, 4, 1, 10, 3, 5, 2, 8, 1, 5]; // sum = 23
    let norm2: Vec<usize> = vec![0, 1, 1, 1, 1, 1, 2, 1, 5, 1, 2, 1, 4, 1, 2]; // sum = 11

    assert_eq!(f.get_total(), 46);
    f.normalize();
    assert_eq!(f.freq, norm1);
    assert_eq!(f.get_total(), 23);
    f.normalize();
    assert_eq!(f.freq, norm2);
    assert_eq!(f.get_total(), 11);
}

#[test]
fn test_backwards() {
    assert_eq!(backward(13), 12);
    assert_eq!(backward(8), 0);
    assert_eq!(backward(2), 0);
    assert_eq!(backward(9), 8);
    assert_eq!(backward(2), 0);
}

#[test]
fn test_forward() {
    assert_eq!(forward(13), 14);
    assert_eq!(forward(14), 16);
    assert_eq!(forward(16), 32);
}

#[test]
fn test_single_frequency_calculation() {
    let f = get_example_from_paper();

    assert_eq!(f.get_h_freq(1), 1);
    assert_eq!(f.get_h_freq(9), 26);
    assert_eq!(f.get_h_freq(7), 17);
    assert_eq!(f.get_h_freq(8), 20);
    assert_eq!(f.get_h_freq(12), 36);
    assert_eq!(f.get_h_freq(14), 46);
}

#[test]
fn test_frequency_tuple_calculation() {
    let f = get_example_from_paper();

    assert_eq!(f.get_freq_bounds(&8).unwrap(), (17, 20, 46));
    assert_eq!(f.get_freq_bounds(&3).unwrap(), (2, 3, 46));
    assert_eq!(f.get_freq_bounds(&10).unwrap(), (26, 31, 46));
    assert_eq!(f.get_freq_bounds(&14).unwrap(), (37, 46, 46));
}

#[test]
fn test_frequency_increment() {
    let mut f = get_example_from_paper();

    assert_eq!(f.get_h_freq(7), 17);
    f.update_freq_count(&7).unwrap();
    f.update_freq_count(&7).unwrap();
    assert_eq!(f.get_h_freq(7), 19);
    f.update_freq_count(&3).unwrap();
    f.update_freq_count(&8).unwrap();
    f.update_freq_count(&12).unwrap();
    assert_eq!(f.get_h_freq(3), 4);
    assert_eq!(f.get_h_freq(8), 24);
    assert_eq!(f.get_h_freq(12), 41);
}

#[test]
fn test_symbol_recovery() {
    let f = get_example_from_paper();
    assert_eq!(f.get_symbol(28).unwrap(), &9u8);
    assert_eq!(f.get_symbol(5).unwrap(), &3u8);
    assert_eq!(f.get_symbol(13).unwrap(), &5u8);
    assert_eq!(f.get_symbol(36).unwrap(), &12u8);
    assert_eq!(f.get_symbol(40).unwrap(), &13u8);
    assert_eq!(f.get_symbol(41).unwrap(), &13u8);
    assert_eq!(f.get_symbol(17).unwrap(), &7u8);
    assert_eq!(f.get_symbol(18).unwrap(), &7u8);
    assert_eq!(f.get_symbol(19).unwrap(), &7u8);
}

#[test]
fn test_feeder() {
    let data: Vec<u8> = vec![
        1, 2, 3, 4, 4, 4, 4, 5, 5, 5, 6, 6, 6, 6, 6, 7, 7, 8, 8, 8, 9, 9, 9, 9, 9, 9, 10, 10, 10,
        10, 10, 11, 11, 11, 11, 12, 13, 14, 14, 14, 14, 14, 14, 14, 14, 14,
    ];
    let expected = get_example_from_paper();
    let mut f = Fenwick::<Cartographer<u8>>::new();
    f.feed(&data).unwrap();
    assert_eq!(f.get_ref(), expected.get_ref())
}

#[test]
fn test_unknown_symbol_errors() {
    let f = get_example_from_paper();
    assert_eq!(
        f.get_freq_bounds(&42).unwrap_err(),
        StatisticsError::UnknownSymbolError
    );
    // a target at or past the total weight is refused
    assert_eq!(
        f.get_symbol(46).unwrap_err(),
        StatisticsError::UnknownSymbolError
    );
    assert_eq!(
        f.get_symbol(1000).unwrap_err(),
        StatisticsError::UnknownSymbolError
    );
    // a target below the first symbol's cumulative count is refused
    assert_eq!(
        f.get_symbol(0).unwrap_err(),
        StatisticsError::UnknownSymbolError
    );
}
