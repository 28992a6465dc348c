use jisp_sha3::internals::state::{from_state, to_state, Lane, Modulus, State};

#[test]
fn state_lane_get() {
    let lane = Lane(0b0010);
    assert_eq!(lane.get(63), 0);
    assert_eq!(lane.get(62), 1);
}

#[test]
fn state_lane_set() {
    let mut lane = Lane(1 << 63);
    lane.set(0, 1);
    assert_eq!(lane.0, 1 << 63);
    lane.set(1, 1);
    lane.set(0, 0);
    assert_eq!(lane.0, 1 << 62);
}

#[test]
fn modulus_wraps_negative_and_large_values() {
    assert_eq!((-1i64).md(64), 63);
    assert_eq!((-64i64).md(64), 0);
    assert_eq!(64i64.md(64), 0);
    assert_eq!(7i64.md(5), 2);
    assert_eq!((-6i64).md(5), 4);
    assert_eq!(3i64.md(5), 3);
}

#[test]
fn lane_index_wraps() {
    let lane = Lane(1);
    assert_eq!(lane.get(-1), 1);
    assert_eq!(lane.get(63 + 64), 1);
    assert_eq!(lane.get(64), 0);
    let mut lane = Lane(0);
    lane.set(-64, 1);
    assert_eq!(lane.0, 1 << 63);
}

#[test]
fn lane_bit_zero_is_most_significant() {
    let lane = Lane(0x8000_0000_0000_0001);
    assert_eq!(lane.get(0), 1);
    assert_eq!(lane.get(1), 0);
    assert_eq!(lane.get(62), 0);
    assert_eq!(lane.get(63), 1);
}

#[test]
fn set_with_the_bit_it_holds_changes_nothing() {
    let words = [0u64, u64::MAX, 0x0123_4567_89ab_cdef, 1 << 63, 1];
    for w in words {
        for z in 0..64 {
            let mut lane = Lane(w);
            let bit = lane.get(z);
            lane.set(z, bit);
            assert_eq!(lane.0, w);
        }
    }
}

#[test]
fn set_twice_is_set_once() {
    let words = [0u64, u64::MAX, 0x0123_4567_89ab_cdef];
    for w in words {
        for z in 0..64 {
            for bit in 0..2u8 {
                let mut once = Lane(w);
                once.set(z, bit);
                let mut twice = Lane(w);
                twice.set(z, bit);
                twice.set(z, bit);
                assert_eq!(once.0, twice.0);
                assert_eq!(once.get(z), bit);
            }
        }
    }
}

#[test]
fn to_state_places_words_by_column_then_row() {
    let v = vec![0, 0, 0, 0, 1, 2];
    let state = to_state(&v);
    assert_eq!(state[4][0].0, 1);
    assert_eq!(state[0][1].0, 2);
    assert_eq!(state.0[4].0[0].0, 1);
    assert_eq!(state.0[0].0[1].0, 2);
    assert_eq!(state[3][3].0, 0);
}

#[test]
fn state_index_wraps() {
    let mut v = vec![0u64; 25];
    v[4] = 1;
    v[5] = 2;
    let state = to_state(&v);
    assert_eq!(state[-1][0].0, 1);
    assert_eq!(state[9][5].0, 1);
    assert_eq!(state[5][-4].0, 2);
}

#[test]
fn index_mut_reaches_the_lane() {
    let mut state = State::default();
    state[6][-1] = Lane(9);
    assert_eq!(state.0[1].0[4].0, 9);
    assert_eq!(from_state(&state)[21], 9);
}

#[test]
fn from_state_undoes_to_state() {
    let mut v = [0; 25];
    v[4] = 1;
    v[5] = 2;
    let state = to_state(&v.to_vec());
    let v2 = from_state(&state);
    assert_eq!(v, v2);

    let mut w = [0u64; 25];
    for i in 0..25 {
        w[i] = 0x0101_0101_0101_0101u64.wrapping_mul(i as u64 + 1) ^ ((i as u64) << 60);
    }
    assert_eq!(from_state(&to_state(&w.to_vec())), w);
}

#[test]
fn default_state_is_zero() {
    assert_eq!(from_state(&State::default()), [0u64; 25]);
    assert_eq!(from_state(&to_state(&vec![])), [0u64; 25]);
}
