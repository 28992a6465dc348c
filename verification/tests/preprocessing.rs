use jisp_sha3::preprocessing::{
    be_encoding, flip_ordering, le_encoding, merge_bytes, merge_words, padding, split_bytes,
    suffix_to_u8,
};
use jisp_sha3::printer::{print_bytes_be, print_bytes_le};

#[test]
fn flip_ordering_turns_each_byte_round() {
    assert_eq!(flip_ordering(&vec![1]), vec![0x80]);
    assert_eq!(flip_ordering(&vec![1, 2, 3, 4]), vec![0x80, 0x40, 0xc0, 0x20]);
    assert_eq!(flip_ordering(&vec![0xa3, 0x00, 0xff, 0x0f]), vec![0xc5, 0x00, 0xff, 0xf0]);
    assert_eq!(flip_ordering(&vec![]), Vec::<u8>::new());
    let all: Vec<u8> = (0..=255).collect();
    assert_eq!(flip_ordering(&flip_ordering(&all)), all);
}

#[test]
fn flip_ordering_reverses_every_byte() {
    let all: Vec<u8> = (0..=255).collect();
    let flipped = flip_ordering(&all);
    for b in 0..256usize {
        let mut expected = 0u8;
        for bit in 0..8 {
            if (b >> bit) & 1 == 1 {
                expected |= 1 << (7 - bit);
            }
        }
        assert_eq!(flipped[b], expected);
    }
}

#[test]
fn encodings_of_text() {
    assert_eq!(be_encoding("abc"), vec![0x61, 0x62, 0x63]);
    assert_eq!(le_encoding("abc"), vec![0x86, 0x46, 0xc6]);
    assert_eq!(be_encoding(""), Vec::<u8>::new());
    assert_eq!(be_encoding("é"), vec![0xc3, 0xa9]);
    assert_eq!(le_encoding("é"), vec![0xc3, 0x95]);
}

#[test]
fn split_bytes_is_big_endian() {
    let words = vec![0x0102_0304_0506_0708];
    let bytes = split_bytes(&words);
    assert_eq!(bytes, vec![1, 2, 3, 4, 5, 6, 7, 8]);
    assert_eq!(
        split_bytes(&vec![u64::MAX, 0, 0x8000_0000_0000_0001]),
        vec![255, 255, 255, 255, 255, 255, 255, 255, 0, 0, 0, 0, 0, 0, 0, 0, 128, 0, 0, 0, 0, 0, 0, 1]
    );
    assert_eq!(split_bytes(&vec![]), Vec::<u8>::new());
}

#[test]
fn suffix_byte_values() {
    assert_eq!(suffix_to_u8(&vec![false, true]), 0b0110_0000);
    assert_eq!(suffix_to_u8(&vec![true, true, true, true]), 0b1111_1000);
    assert_eq!(suffix_to_u8(&vec![]), 0b1000_0000);
    assert_eq!(suffix_to_u8(&vec![true]), 0b1100_0000);
    assert_eq!(suffix_to_u8(&vec![false; 6]), 0b0000_0010);
    assert_eq!(suffix_to_u8(&vec![true; 6]), 0b1111_1110);
    assert_eq!(suffix_to_u8(&vec![true, false, true, false, true]), 0b1010_1100);
}

#[test]
fn merge_bytes_closes_the_last_word() {
    let suffix = vec![false, true];
    assert_eq!(merge_bytes(&vec![], &suffix), vec![0x6000_0000_0000_0000]);
    assert_eq!(merge_bytes(&vec![0; 7], &suffix), vec![0x60]);
    assert_eq!(merge_bytes(&vec![1, 2, 3], &suffix), vec![0x0102_0360_0000_0000]);
    assert_eq!(
        merge_bytes(&vec![1, 2, 3, 4, 5, 6, 7, 8], &suffix),
        vec![0x0102_0304_0506_0708, 0x6000_0000_0000_0000]
    );
    assert_eq!(
        merge_bytes(&vec![0xff; 9], &vec![true; 4]),
        vec![u64::MAX, 0xfff8_0000_0000_0000]
    );
}

#[test]
fn merge_words_fills_and_closes_the_last_block() {
    assert_eq!(merge_words::<3>(&vec![]), vec![[0, 0, 1]]);
    assert_eq!(merge_words::<3>(&vec![5]), vec![[5, 0, 1]]);
    assert_eq!(merge_words::<3>(&vec![5, 6, 8]), vec![[5, 6, 9]]);
    assert_eq!(merge_words::<3>(&vec![5, 6, 8, 2]), vec![[5, 6, 8], [2, 0, 1]]);
    assert_eq!(merge_words::<1>(&vec![4, 6]), vec![[4], [7]]);
}

#[test]
fn padding_of_seven_bytes_in_one_word() {
    let m = vec![0; 7];
    let suffix = vec![false, true];

    let res = padding::<1>(&m, &suffix)[0][0];
    let expected: u64 = 0b0110_0001;

    assert_eq!(res, expected);
}

#[test]
fn padding_at_the_block_boundary() {
    let suffix = vec![false, true];
    // a message that fills a block gets a whole block of padding
    let full = padding::<17>(&vec![0xabu8; 136], &suffix);
    assert_eq!(full.len(), 2);
    assert_eq!(full[0], [0xabab_abab_abab_ababu64; 17]);
    let mut last = [0u64; 17];
    last[0] = 0x6000_0000_0000_0000;
    last[16] = 1;
    assert_eq!(full[1], last);

    // one byte short of the boundary: the closing byte takes both ends
    let short = padding::<17>(&vec![0xabu8; 135], &suffix);
    assert_eq!(short.len(), 1);
    let mut only = [0xabab_abab_abab_ababu64; 17];
    only[16] = 0xabab_abab_abab_ab61;
    assert_eq!(short[0], only);

    // one byte over
    assert_eq!(padding::<17>(&vec![0xabu8; 137], &suffix).len(), 2);
    // the empty message
    let empty = padding::<17>(&vec![], &suffix);
    assert_eq!(empty.len(), 1);
    let mut block = [0u64; 17];
    block[0] = 0x6000_0000_0000_0000;
    block[16] = 1;
    assert_eq!(empty[0], block);
}

#[test]
fn padding_block_counts() {
    let suffix = vec![true; 4];
    for rate_bytes in [72usize, 104, 136, 144, 168] {
        for len in [0, 1, rate_bytes - 1, rate_bytes, rate_bytes + 1, 3 * rate_bytes] {
            let expected = len / rate_bytes + 1;
            let m = vec![0x33u8; len];
            let count = match rate_bytes {
                72 => padding::<9>(&m, &suffix).len(),
                104 => padding::<13>(&m, &suffix).len(),
                136 => padding::<17>(&m, &suffix).len(),
                144 => padding::<18>(&m, &suffix).len(),
                _ => padding::<21>(&m, &suffix).len(),
            };
            assert_eq!(count, expected);
        }
    }
}

#[test]
fn print_bytes_groups_by_four() {
    let m = vec![1, 2, 3, 4, 5, 6, 7, 8];
    let s = print_bytes_be(&m);
    assert_eq!(s, "01020304 05060708".to_owned());
    assert_eq!(print_bytes_be(&vec![]), "");
    assert_eq!(print_bytes_be(&vec![0xab]), "ab");
    assert_eq!(print_bytes_be(&vec![0, 0x0f, 0xf0, 0xff]), "000ff0ff");
    assert_eq!(print_bytes_be(&vec![0x9a, 0xbc, 0xde, 0xf0, 0x12]), "9abcdef0 12");
    assert_eq!(print_bytes_be(&vec![0x10; 9]), "10101010 10101010 10");
}

#[test]
fn print_bytes_le_turns_the_bytes_round() {
    let m = vec![1, 2, 3, 4];
    let s = print_bytes_le(&m);
    assert_eq!(s, "8040c020".to_owned());
    assert_eq!(print_bytes_le(&vec![0x86, 0x46, 0xc6, 0, 0x80]), "61626300 01");
}
