use jisp_sha3::internals::keccak::keccak;
use jisp_sha3::internals::sponge::{keccak_c, sponge, ParameterError};
use jisp_sha3::preprocessing::{flip_ordering, padding, split_bytes};
use jisp_sha3::printer::print_bytes_le;

fn from_hex(s: &str) -> Vec<u8> {
    let digits: Vec<u8> = s
        .bytes()
        .filter(|c| *c != b' ')
        .map(|c| match c {
            b'0'..=b'9' => c - b'0',
            b'a'..=b'f' => c - b'a' + 10,
            _ => c - b'A' + 10,
        })
        .collect();
    digits.chunks(2).map(|p| p[0] * 16 + p[1]).collect()
}

// A digest as published: the bytes of the lanes, each turned round.
fn published(s: &str) -> Vec<u8> {
    flip_ordering(&from_hex(s))
}

fn print_state_u8(s: String, v: &Vec<u8>) {
    println!("{}: {}", s, print_bytes_le(v));
}

#[test]
fn keccak_224() {
    let m = vec![];
    let suffix = vec![false, true];
    let res = keccak_c::<18>(&m, &suffix, 224);

    print_state_u8("Hash".to_owned(), &res);
    assert_eq!(res, published("6b4e03423667dbb73b6e15454f0eb1abd4597f9a1b078e3f5b5a6bc7"));
}

#[test]
fn keccak_224_heavy() {
    let m = vec![0xc5u8; 200];
    let suffix = vec![false, true];
    let res = keccak_c::<18>(&m, &suffix, 224);

    print_state_u8("Hash".to_owned(), &res);
    assert_eq!(res, published("9376816aba503f72f96ce7eb65ac095deee3be4bf9bbc2a1cb7e11e0"));
}

#[test]
fn keccak_512() {
    let m = vec![];
    let suffix = vec![false, true];
    let res = keccak_c::<9>(&m, &suffix, 512);

    print_state_u8("Hash".to_owned(), &res);
    assert_eq!(
        res,
        published(
            "a69f73cca23a9ac5c8b567dc185a756e97c982164fe25859e0d1dcc1475c80a6\
             15b2123af1f5f94c11e3e9402c3ac558f500199d95b6d3e301758586281dcd26"
        )
    );
}

#[test]
fn sponge_is_absorb_then_squeeze() {
    // one block in, one block out, by hand
    let m = vec![0x11u8; 20];
    let suffix = vec![true, true, true, true];
    let blocks = padding::<21>(&m, &suffix);
    assert_eq!(blocks.len(), 1);
    let mut state = [0u64; 25];
    for i in 0..21 {
        state[i] ^= blocks[0][i];
    }
    state = keccak(state, 24);
    let mut expected = split_bytes(&state[..21].to_vec());
    assert_eq!(keccak_c::<21>(&m, &suffix, 21 * 64), expected);

    // a second block of output comes from the permuted state
    let next = keccak(state, 24);
    expected.extend(split_bytes(&next[..21].to_vec()));
    assert_eq!(keccak_c::<21>(&m, &suffix, 2 * 21 * 64), expected);
    expected.truncate(21 * 8 + 3);
    assert_eq!(keccak_c::<21>(&m, &suffix, 21 * 64 + 17), expected);
}

#[test]
fn sponge_absorbs_every_block() {
    let m: Vec<u8> = (0..100u8).collect();
    let suffix = vec![false, true];
    let blocks = padding::<9>(&m, &suffix);
    assert_eq!(blocks.len(), 2);
    let mut state = [0u64; 25];
    for block in blocks {
        for i in 0..9 {
            state[i] ^= block[i];
        }
        state = keccak(state, 24);
    }
    let expected = split_bytes(&state[..9].to_vec());
    assert_eq!(keccak_c::<9>(&m, &suffix, 512)[..], expected[..64]);
}

#[test]
fn output_is_rounded_up_to_whole_bytes() {
    let m = vec![1, 2, 3];
    let suffix = vec![true, true, true, true];
    assert_eq!(keccak_c::<21>(&m, &suffix, 0).len(), 0);
    assert_eq!(keccak_c::<21>(&m, &suffix, 1).len(), 1);
    assert_eq!(keccak_c::<21>(&m, &suffix, 8).len(), 1);
    assert_eq!(keccak_c::<21>(&m, &suffix, 9).len(), 2);
    assert_eq!(keccak_c::<21>(&m, &suffix, 256).len(), 32);
    assert_eq!(keccak_c::<21>(&m, &suffix, 257).len(), 33);
    assert_eq!(keccak_c::<21>(&m, &suffix, 21 * 64).len(), 168);
    assert_eq!(keccak_c::<21>(&m, &suffix, 21 * 64 + 1).len(), 169);
    // a shorter output is the start of a longer one
    let long = keccak_c::<21>(&m, &suffix, 4000);
    let short = keccak_c::<21>(&m, &suffix, 257);
    assert_eq!(long.len(), 500);
    assert_eq!(short[..], long[..33]);
}

#[test]
fn checked_sponge_rejects_bad_parameters() {
    let m = vec![1, 2, 3];
    let long = vec![true; 7];
    let ok = vec![false, true];
    assert_eq!(sponge(17, &long, &m, 256), Err(ParameterError::SuffixTooLong));
    assert_eq!(sponge(0, &long, &m, 256), Err(ParameterError::SuffixTooLong));
    assert_eq!(sponge(0, &ok, &m, 256), Err(ParameterError::RateOutOfRange));
    assert_eq!(sponge(26, &ok, &m, 256), Err(ParameterError::RateOutOfRange));
    assert_eq!(sponge(usize::MAX, &ok, &m, 256), Err(ParameterError::RateOutOfRange));
}

#[test]
fn checked_sponge_agrees_with_keccak_c() {
    let m: Vec<u8> = (0..77u8).collect();
    let ok = vec![false, true];
    assert_eq!(sponge(18, &ok, &m, 224), Ok(keccak_c::<18>(&m, &ok, 224)));
    assert_eq!(sponge(17, &ok, &m, 256), Ok(keccak_c::<17>(&m, &ok, 256)));
    assert_eq!(sponge(1, &ok, &m, 100), Ok(keccak_c::<1>(&m, &ok, 100)));
    assert_eq!(sponge(25, &ok, &m, 64), Ok(keccak_c::<25>(&m, &ok, 64)));
    let six = vec![true, false, true, false, true, true];
    assert_eq!(sponge(9, &six, &m, 512), Ok(keccak_c::<9>(&m, &six, 512)));
    let none = vec![];
    assert_eq!(sponge(9, &none, &m, 512), Ok(keccak_c::<9>(&m, &none, 512)));
}
