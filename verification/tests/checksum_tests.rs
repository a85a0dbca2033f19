use faithtype::checksum::{checksum_of, Checksum};

#[test]
fn checksum_of_nothing_is_zero() {
    assert_eq!(Checksum::new().get(), 0);
    assert_eq!(checksum_of(&[]), 0);
}

#[test]
fn checksum_adds_big_endian_words() {
    let data = [0x00, 0x00, 0x00, 0x01, 0x00, 0x00, 0x00, 0x02];
    assert_eq!(checksum_of(&data), 3);
}

#[test]
fn checksum_fills_the_last_word_with_zeros() {
    assert_eq!(checksum_of(&[0x01]), 0x0100_0000);
    assert_eq!(checksum_of(&[0x01, 0x02, 0x03, 0x04, 0x05]), 0x0102_0304 + 0x0500_0000);
}

#[test]
fn checksum_wraps() {
    let data = [0xff, 0xff, 0xff, 0xff, 0x00, 0x00, 0x00, 0x02];
    assert_eq!(checksum_of(&data), 1);
}

#[test]
fn checksum_in_pieces_is_checksum_of_the_whole() {
    let data: Vec<u8> = (0..=255u8).collect();
    for cut in 0..data.len() {
        let mut checksum = Checksum::new();
        checksum.push(&data[..cut]);
        checksum.push(&data[cut..]);
        assert_eq!(checksum.get(), checksum_of(&data));
    }
}

#[test]
fn checksum_from_bytes() {
    let data = [0x12, 0x34, 0x56, 0x78, 0x9a];
    let mut checksum = Checksum::from(&data[..]);
    assert_eq!(checksum.get(), 0x1234_5678u32.wrapping_add(0x9a00_0000));
    checksum.push(&[0xbc, 0xde, 0xf0, 0x01]);
    assert_eq!(checksum.get(), 0x1234_5678u32.wrapping_add(0x9abc_def0).wrapping_add(0x0100_0000));
    assert_eq!(Checksum::default().get(), 0);
}

#[test]
fn checksum_of_a_long_table_wraps_without_fail() {
    let data = vec![0xffu8; 1 << 20];
    let words = (1u64 << 18) * 0xffff_ffffu64;
    assert_eq!(checksum_of(&data), (words % (1u64 << 32)) as u32);
}
