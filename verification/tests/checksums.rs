use rscompress::checksums::{Adler32, Checksum};
use rscompress::crc32::CRC32;

/// Helper function for calculating checksum
fn checksum<M: Checksum + Default>(input: &[u8], expected: u32) {
    let mut model: M = Default::default();
    model.update(&input);
    assert_eq!(model.checksum().unwrap(), expected)
}

#[test]
fn adler32_test_words() {
    checksum::<Adler32>("Wikipedia".as_bytes(), 0x11E60398);
    checksum::<Adler32>("Awesome-string-baby".as_bytes(), 0x49D50761);
    checksum::<Adler32>("This is great".as_bytes(), 0x20AF04C8);
}

#[test]
fn crc32_test_words() {
    checksum::<CRC32>("Wikipedia".as_bytes(), 0xadaac02e);
    checksum::<CRC32>("Awesome-string-baby".as_bytes(), 0x7900b113);
    checksum::<CRC32>("This is great".as_bytes(), 0xc6314444);
}

#[test]
fn test_incremental_matches_one_shot() {
    let data = "Awesome-string-baby".as_bytes();
    for split in 0..data.len() {
        let (a, b) = data.split_at(split);

        let mut incr = Adler32::new();
        incr.update(a);
        incr.update(b);
        let mut shot = Adler32::new();
        shot.update(data);
        assert_eq!(incr.checksum().unwrap(), shot.checksum().unwrap());

        let mut incr = CRC32::new();
        Checksum::update(&mut incr, a);
        Checksum::update(&mut incr, b);
        let mut shot = CRC32::new();
        Checksum::update(&mut shot, data);
        assert_eq!(
            Checksum::checksum(&incr).unwrap(),
            Checksum::checksum(&shot).unwrap()
        );
    }
}

#[test]
fn test_adler32_empty_input() {
    let model = Adler32::new();
    assert_eq!(model.checksum().unwrap(), 1);
}

#[test]
fn test_crc32_one_shot_helper() {
    assert_eq!(rscompress::crc32::crc32_of_bytes("Wikipedia".as_bytes()), 0xadaac02e);
    assert_eq!(rscompress::crc32::crc32_of_bytes(&[]), 0);
}
