use jisp_sha3::internals::sponge::keccak_c;
use jisp_sha3::preprocessing::{be_encoding, flip_ordering, le_encoding};
use jisp_sha3::printer::print_bytes_le;
use jisp_sha3::sha3::unofficial_sha::shake512;
use jisp_sha3::sha3::{sha3_224, sha3_256, sha3_384, sha3_512, shake128, shake256};

fn hex(v: &Vec<u8>) -> String {
    print_bytes_le(v).replace(' ', "")
}

#[test]
fn sha3_256_of_the_empty_message() {
    let digest = sha3_256(&vec![]);
    assert_eq!(digest.len(), 32);
    assert_eq!(hex(&digest), "a7ffc6f8bf1ed76651c14756a061d662f580ff4de43b49fa82d80a4b80f8434a");
}

#[test]
fn sha3_256_of_abc() {
    let digest = sha3_256(&le_encoding("abc"));
    assert_eq!(hex(&digest), "3a985da74fe225b2045c172d6bd390bd855f086e3e9d525b46bfe24511431532");
}

#[test]
fn shake128_of_the_empty_message() {
    let out = shake128(&vec![], 256);
    assert_eq!(out.len(), 32);
    assert_eq!(hex(&out), "7f9c2ba4e88f827d616045507605853ed73b8093f6efbc88eb1a6eacfa66ef26");
}

#[test]
fn sha3_224_of_abc_as_printed() {
    let hex = le_encoding("abc");
    let hash = sha3_224(&hex);
    let res = print_bytes_le(&hash);

    let expected = "e642824c 3f8cf24a d09234ee 7d3c766f c9a3a516 8d0c94ad 73b46fdf".to_owned();
    assert_eq!(res, expected);
}

#[test]
fn other_published_digests() {
    assert_eq!(
        hex(&sha3_224(&vec![])),
        "6b4e03423667dbb73b6e15454f0eb1abd4597f9a1b078e3f5b5a6bc7"
    );
    assert_eq!(
        hex(&sha3_384(&vec![])),
        "0c63a75b845e4f7d01107d852e4c2485c51a50aaaa94fc61995e71bbee983a2a\
         c3713831264adb47fb6bd1e058d5f004"
    );
    assert_eq!(
        hex(&sha3_384(&le_encoding("abc"))),
        "ec01498288516fc926459f58e2c6ad8df9b473cb0fc08c2596da7cf0e49be4b2\
         98d88cea927ac7f539f1edf228376d25"
    );
    assert_eq!(
        hex(&sha3_512(&le_encoding("abc"))),
        "b751850b1a57168a5693cd924b6b096e08f621827444f70d884f5d0240d2712e\
         10e116e9192af3c91a7ec57647e3934057340b4cf408d5a56592f8274eec53f0"
    );
    assert_eq!(
        hex(&shake256(&vec![], 256)),
        "46b9dd2b0ba88d13233b3feb743eeb243fcd52ea62b81b82b50c27646ed5762f"
    );
    assert_eq!(
        hex(&shake128(&le_encoding("abc"), 256)),
        "5881092dd818bf5cf8a3ddb793fbcba74097d5c526a6d35f97b83351940f2cc8"
    );
}

#[test]
fn long_message_over_several_blocks() {
    // 200 bytes 0xa3 as published; the lanes hold them turned round.
    let m = flip_ordering(&vec![0xa3u8; 200]);
    assert_eq!(m, vec![0xc5u8; 200]);
    assert_eq!(
        hex(&sha3_256(&m)),
        "79f38adec5c20307a98ef76e8324afbfd46cfd81b22e3973c65fa1bd9de31787"
    );
    assert_eq!(
        hex(&sha3_512(&m)),
        "e76dfad22084a8b1467fcf2ffa58361bec7628edf5f3fdc0e4805dc48caeeca8\
         1b7c13c30adf52a3659584739a2df46be589c51ca1a4a8416df6545a1ce8ba00"
    );
}

#[test]
fn variants_are_the_sponge_with_fixed_parameters() {
    let m = be_encoding("The quick brown fox jumps over the lazy dog");
    let hash = vec![false, true];
    let xof = vec![true; 4];
    assert_eq!(sha3_224(&m), keccak_c::<18>(&m, &hash, 224));
    assert_eq!(sha3_256(&m), keccak_c::<17>(&m, &hash, 256));
    assert_eq!(sha3_384(&m), keccak_c::<13>(&m, &hash, 384));
    assert_eq!(sha3_512(&m), keccak_c::<9>(&m, &hash, 512));
    assert_eq!(shake128(&m, 300), keccak_c::<21>(&m, &xof, 300));
    assert_eq!(shake256(&m, 300), keccak_c::<17>(&m, &xof, 300));
    assert_eq!(shake512(&m, 300), keccak_c::<9>(&m, &xof, 300));
}

#[test]
fn fixed_digests_have_their_lengths() {
    let m = vec![7u8; 33];
    assert_eq!(sha3_224(&m).len(), 28);
    assert_eq!(sha3_256(&m).len(), 32);
    assert_eq!(sha3_384(&m).len(), 48);
    assert_eq!(sha3_512(&m).len(), 64);
}

#[test]
fn shake_output_is_rounded_up_to_whole_bytes() {
    for len in [0usize, 1, 7, 136, 200] {
        let m = vec![0x5au8; len];
        assert_eq!(shake128(&m, 256).len(), 32);
    }
    let m = vec![1u8, 2, 3];
    assert_eq!(shake128(&m, 250).len(), 32);
    assert_eq!(shake128(&m, 257).len(), 33);
    assert_eq!(shake128(&m, 1).len(), 1);
    assert_eq!(shake128(&m, 0).len(), 0);
    assert_eq!(shake256(&m, 1025).len(), 129);
    assert_eq!(shake512(&m, 513).len(), 65);
    // the rounded-up output is the start of the next longer one
    assert_eq!(shake128(&m, 250), shake128(&m, 256));
    assert_eq!(shake128(&m, 257)[..32], shake128(&m, 256)[..]);
}

#[test]
fn shake512_differs_from_the_standard_functions() {
    let m = vec![1u8, 2, 3];
    assert_ne!(shake512(&m, 256), shake256(&m, 256));
    assert_ne!(shake512(&m, 512), sha3_512(&m));
}
