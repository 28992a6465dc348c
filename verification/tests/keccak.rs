use jisp_sha3::internals::keccak::{chi, iota, keccak, modulus, pi, rc, rho, round, theta, xor_sum};
use jisp_sha3::internals::state::{from_state, to_state, State};
use jisp_sha3::preprocessing::{flip_ordering, split_bytes};

// The round constants as published, least significant bit first.
const ROUND_CONSTANTS: [u64; 24] = [
    0x0000000000000001,
    0x0000000000008082,
    0x800000000000808A,
    0x8000000080008000,
    0x000000000000808B,
    0x0000000080000001,
    0x8000000080008081,
    0x8000000000008009,
    0x000000000000008A,
    0x0000000000000088,
    0x0000000080008009,
    0x000000008000000A,
    0x000000008000808B,
    0x800000000000008B,
    0x8000000000008089,
    0x8000000000008003,
    0x8000000000008002,
    0x8000000000000080,
    0x000000000000800A,
    0x800000008000000A,
    0x8000000080008081,
    0x8000000000008080,
    0x0000000080000001,
    0x8000000080008008,
];

// The rotation of each lane as published, in word order.
const OFFSETS: [u32; 25] = [
    0, 1, 62, 28, 27, 36, 44, 6, 55, 20, 3, 10, 43, 25, 39, 41, 45, 15, 21, 8, 18, 2, 61, 56, 14,
];

fn sample(seed: u64) -> [u64; 25] {
    let mut w = [0u64; 25];
    let mut x = seed;
    for i in 0..25 {
        x = x.wrapping_mul(6364136223846793005).wrapping_add(1442695040888963407);
        w[i] = x ^ (x >> 29);
    }
    w
}

fn print_state(s: String, state: &State) {
    let v = flip_ordering(&split_bytes(&from_state(state).to_vec()));
    println!("{}: {:02x?}", s, v);
}

#[test]
fn keccak_rc_test() {
    let result = rc(0);
    assert_eq!(result, 1);

    let result = rc(1);
    assert_eq!(result, 0);
}

#[test]
fn theta_basic() {
    let mut v = vec![0u64; 18];
    v[0] = 0b0110 << 60;
    v[17] = 1;
    let mut state = to_state(&v);
    state = theta(state);
    print_state(format!("theta"), &state);
    state = rho(state);
    print_state(format!("rho"), &state);
    state = pi(state);
    print_state(format!("pi"), &state);
    state = chi(state);
    print_state(format!("chi"), &state);
    state = iota(state, 0);
    print_state(format!("iota"), &state);
    assert_eq!(state.0[0].0[0].0, 0b1110 << 60);
}

#[test]
fn rc_is_periodic_and_takes_negative_positions() {
    for t in 0..255 {
        assert_eq!(rc(t), rc(t + 255));
        assert_eq!(rc(t), rc(t - 255));
    }
    assert_eq!(rc(255), 1);
    assert_eq!(rc(-255), 1);
}

#[test]
fn rc_first_values() {
    let expected: [u8; 16] = [1, 0, 0, 0, 0, 0, 0, 0, 1, 0, 1, 1, 0, 0, 0, 1];
    for t in 0..16 {
        assert_eq!(rc(t as i64), expected[t]);
    }
}

#[test]
fn modulus_and_xor_sum() {
    assert_eq!(modulus(-1, 255), 254);
    assert_eq!(modulus(255, 255), 0);
    assert_eq!(modulus(256, 255), 1);
    assert_eq!(modulus(7, 255), 7);
    assert_eq!(xor_sum(&vec![]), 0);
    assert_eq!(xor_sum(&vec![1, 0, 1, 1, 0]), 1);
    assert_eq!(xor_sum(&vec![1, 1]), 0);
}

#[test]
fn iota_folds_in_the_published_round_constants() {
    for i in 0..24 {
        let state = iota(State::default(), i as i64);
        let words = from_state(&state);
        assert_eq!(words[0], ROUND_CONSTANTS[i].reverse_bits());
        for k in 1..25 {
            assert_eq!(words[k], 0);
        }
    }
    let w = sample(3);
    let out = from_state(&iota(to_state(&w.to_vec()), 5));
    assert_eq!(out[0], w[0] ^ ROUND_CONSTANTS[5].reverse_bits());
    assert_eq!(out[1..], w[1..]);
}

#[test]
fn theta_is_linear() {
    for seed in 0..8u64 {
        let a = sample(seed);
        let b = sample(seed + 100);
        let mut ab = [0u64; 25];
        for i in 0..25 {
            ab[i] = a[i] ^ b[i];
        }
        let ta = from_state(&theta(to_state(&a.to_vec())));
        let tb = from_state(&theta(to_state(&b.to_vec())));
        let tab = from_state(&theta(to_state(&ab.to_vec())));
        for i in 0..25 {
            assert_eq!(tab[i], ta[i] ^ tb[i]);
        }
    }
}

#[test]
fn theta_of_a_single_bit() {
    // bit (0, 0, 5): columns 1 and 4 see it, column 4 one bit further on
    let mut w = [0u64; 25];
    w[0] = 1 << (63 - 5);
    let out = from_state(&theta(to_state(&w.to_vec())));
    for y in 0..5 {
        let own = if y == 0 { 1u64 << 58 } else { 0 };
        assert_eq!(out[5 * y], own);
        assert_eq!(out[1 + 5 * y], 1 << 58);
        assert_eq!(out[2 + 5 * y], 0);
        assert_eq!(out[3 + 5 * y], 0);
        assert_eq!(out[4 + 5 * y], 1 << 57);
    }
}

#[test]
fn theta_matches_the_word_formula() {
    let a = sample(11);
    let out = from_state(&theta(to_state(&a.to_vec())));
    let mut c = [0u64; 5];
    for x in 0..5 {
        c[x] = a[x] ^ a[x + 5] ^ a[x + 10] ^ a[x + 15] ^ a[x + 20];
    }
    for i in 0..25 {
        let x = i % 5;
        let d = c[(x + 4) % 5] ^ c[(x + 1) % 5].rotate_right(1);
        assert_eq!(out[i], a[i] ^ d);
    }
}

#[test]
fn rho_rotates_each_lane_by_its_offset() {
    let a = sample(21);
    let out = from_state(&rho(to_state(&a.to_vec())));
    for i in 0..25 {
        assert_eq!(out[i], a[i].rotate_right(OFFSETS[i]));
    }
    assert_eq!(out[0], a[0]);
}

#[test]
fn pi_moves_lanes_without_turning_them() {
    let a = sample(31);
    let out = from_state(&pi(to_state(&a.to_vec())));
    for x in 0..5 {
        for y in 0..5 {
            assert_eq!(out[x + 5 * y], a[(x + 3 * y) % 5 + 5 * x]);
        }
    }
}

#[test]
fn chi_on_single_bit_states() {
    // A lone bit has no partner two columns on: chi leaves it where it is.
    for x in 0..5usize {
        let mut w = [0u64; 25];
        w[x + 5 * 2] = 1 << 40;
        let out = from_state(&chi(to_state(&w.to_vec())));
        // The bit stays, and the lane two columns down the row sees it
        // through the zero lane between them.
        let mut expected = [0u64; 25];
        expected[x + 5 * 2] = 1 << 40;
        expected[(x + 3) % 5 + 5 * 2] = 1 << 40;
        assert_eq!(out, expected);
    }
    // With the lane between them set at the same bit, nothing is added.
    let mut w = [0u64; 25];
    w[2] = 1 << 7;
    w[1] = 1 << 7;
    let out = from_state(&chi(to_state(&w.to_vec())));
    let mut expected = [0u64; 25];
    expected[2] = 1 << 7;
    expected[1] = 1 << 7;
    expected[4] = 1 << 7;
    assert_eq!(out, expected);
}

#[test]
fn chi_matches_the_word_formula() {
    let a = sample(41);
    let out = from_state(&chi(to_state(&a.to_vec())));
    for x in 0..5 {
        for y in 0..5 {
            let expected = a[x + 5 * y] ^ (!a[(x + 1) % 5 + 5 * y] & a[(x + 2) % 5 + 5 * y]);
            assert_eq!(out[x + 5 * y], expected);
        }
    }
}

#[test]
fn round_is_the_five_steps_in_order() {
    let a = sample(51);
    for i in [0i64, 7, 23] {
        let whole = from_state(&round(to_state(&a.to_vec()), i));
        let steps = from_state(&iota(chi(pi(rho(theta(to_state(&a.to_vec()))))), i));
        assert_eq!(whole, steps);
    }
}

#[test]
fn keccak_of_the_zero_state() {
    let out = keccak([0u64; 25], 24);
    assert_eq!(out[0], 0xF1258F7940E1DDE7u64.reverse_bits());
    assert_eq!(out[1], 0x84D5CCF933C0478Au64.reverse_bits());
    assert_eq!(out[24], 0xEAF1FF7B5CECA249u64.reverse_bits());
    let again = keccak(out, 24);
    assert_eq!(again[0], 0x2D5C954DF96ECB3Cu64.reverse_bits());
}

#[test]
fn keccak_with_no_rounds_changes_nothing() {
    let a = sample(61);
    assert_eq!(keccak(a, 0), a);
}

#[test]
fn keccak_applies_the_last_rounds() {
    let a = sample(71);
    let mut state = to_state(&a.to_vec());
    for i in 19..24 {
        state = round(state, i);
    }
    assert_eq!(keccak(a, 5), from_state(&state));
    assert_eq!(keccak(a, 1), from_state(&round(to_state(&a.to_vec()), 23)));
}

#[test]
fn full_permutation_is_first_rounds_then_last_rounds() {
    let a = sample(81);
    let mut state = to_state(&a.to_vec());
    for i in 0..12 {
        state = round(state, i);
    }
    assert_eq!(keccak(from_state(&state), 12), keccak(a, 24));
}

#[test]
fn twelve_rounds_twice_repeat_the_last_twelve() {
    // Both halves of `keccak(keccak(s, 12), 12)` are the rounds 12 to 23, so
    // on the zero state it is not the full permutation.
    let zero = [0u64; 25];
    assert_ne!(keccak(keccak(zero, 12), 12), keccak(zero, 24));
    let mut state = to_state(&zero.to_vec());
    for _ in 0..2 {
        for i in 12..24 {
            state = round(state, i);
        }
    }
    assert_eq!(keccak(keccak(zero, 12), 12), from_state(&state));
}

#[test]
fn different_states_stay_different() {
    let a = sample(91);
    let mut b = a;
    b[13] ^= 1 << 20;
    for rounds in [1i64, 12, 24] {
        assert_ne!(keccak(a, rounds), keccak(b, rounds));
    }
    assert_ne!(
        from_state(&theta(to_state(&a.to_vec()))),
        from_state(&theta(to_state(&b.to_vec())))
    );
    assert_ne!(
        from_state(&chi(to_state(&a.to_vec()))),
        from_state(&chi(to_state(&b.to_vec())))
    );
}
