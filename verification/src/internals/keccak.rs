//! The Keccak-f[1600] permutation: theta, rho, pi, chi and iota over the
//! state, and the generator of the round constants.
//!
//! A state is handed from step to step as a [`State`]; the contracts speak
//! of its 25 lanes in word order, `state@`, and of single bits through
//! `bit_at`. The names `A`, `C`, `D` and `RC` are those of the standard.
#![allow(non_snake_case)]

use vstd::prelude::*;
use core::ops::IndexMut;
use crate::internals::state::{
    bit_at, bit_shift, cell, lane_at, leading_mask, lemma_bit_is_binary, lemma_bit_of_rotated,
    lemma_bit_of_xor, lemma_leading_mask_ends, lemma_view_after_write, lemma_write_next_bit,
    rotated, word_bit, word_with_bit, from_state, to_state, Lane, Modulus, Sheet, State,
};

verus! {

/// One step of the feedback register behind the round constants: the
/// register moves up by one bit, the bit that leaves its eight places is
/// folded back into bits 0, 4, 5 and 6, and eight bits are kept.
pub open spec fn lfsr_step(r: u32) -> u32 {
    let shifted = r << 1;
    if shifted & 0x100 != 0 {
        (shifted ^ 0x71) & 0xff
    } else {
        shifted & 0xff
    }
}

/// The feedback register after `n` steps from its initial value 1.
pub open spec fn lfsr(n: nat) -> u32
    decreases n,
{
    if n == 0 {
        1
    } else {
        lfsr_step(lfsr((n - 1) as nat))
    }
}

/// The round-constant bit `rc(t)`: bit 0 of the register after `t mod 255`
/// steps.
pub open spec fn spec_rc(t: int) -> u8 {
    (lfsr((t % 255) as nat) & 1) as u8
}

/// The exclusive or of all the values in `bits`.
pub open spec fn xor_all(bits: Seq<u8>) -> u8
    decreases bits.len(),
{
    if bits.len() == 0 {
        0
    } else {
        xor_all(bits.drop_last()) ^ bits.last()
    }
}

/// The exclusive or of all the bits in `v`.
pub fn xor_sum(v: &Vec<u8>) -> (r: u8)
    ensures
        r == xor_all(v@),
{
    let mut res: u8 = 0;
    let mut k: usize = 0;
    while k < v.len()
        invariant
            k <= v.len(),
            res == xor_all(v@.take(k as int)),
        decreases v.len() - k,
    {
        assert(v@.take(k + 1).drop_last() =~= v@.take(k as int));
        res = res ^ v[k];
        k = k + 1;
    }
    assert(v@.take(k as int) =~= v@);
    res
}

/// The residue of `x` modulo `m`, also for a negative `x`.
pub fn modulus(x: i64, m: u8) -> (r: u8)
    requires
        m > 0,
    ensures
        r == x as int % m as int,
{
    let step: i64 = m as i64;
    let mut x: i64 = x;
    let ghost start = x;
    while x < 0
        invariant
            0 < step == m,
            x as int % step as int == start as int % step as int,
        decreases (if x < 0 { -(x as int) } else { 0 }),
    {
        proof {
            vstd::arithmetic::div_mod::lemma_mod_add_multiples_vanish(x as int, step as int);
        }
        x += step;
    }
    while x >= step
        invariant
            0 < step == m,
            0 <= x,
            x as int % step as int == start as int % step as int,
        decreases x,
    {
        proof {
            vstd::arithmetic::div_mod::lemma_mod_sub_multiples_vanish(x as int, step as int);
        }
        x -= step;
    }
    proof {
        vstd::arithmetic::div_mod::lemma_small_mod(x as nat, step as nat);
    }
    x as u8
}

/// The round-constant bit for position `t` of the register's sequence.
pub fn rc(t: i64) -> (r: u8)
    ensures
        r == spec_rc(t as int),
        r <= 1,
{
    let mut reg: u32 = 1;
    let steps: u8 = modulus(t, 255);
    if steps == 0 {
        assert(1u32 & 1 == 1) by (bit_vector);
        return 1;
    }
    let mut i: u8 = 1;
    while i <= steps
        invariant
            1 <= i <= steps + 1,
            steps < 255,
            reg == lfsr((i - 1) as nat),
            reg <= 0xff,
        decreases steps + 1 - i,
    {
        let ghost before = reg;
        reg = reg << 1;
        let bit8: u32 = reg >> 8 & 1;
        reg ^= bit8;
        reg ^= bit8 << 4;
        reg ^= bit8 << 5;
        reg ^= bit8 << 6;
        reg &= 0xFF;
        assert(reg == lfsr_step(before) && reg <= 0xff) by (bit_vector)
            requires
                before <= 0xff,
                reg == ({
                    let s = before << 1;
                    let b = s >> 8 & 1;
                    (s ^ b ^ (b << 4) ^ (b << 5) ^ (b << 6)) & 0xff
                }),
        ;
        i = i + 1;
    }
    assert(reg & 1 <= 1) by (bit_vector);
    (reg & 1) as u8
}

/// The exclusive or of the five lanes of column `x`.
pub open spec fn column_parity(a: Seq<u64>, x: int) -> u64 {
    lane_at(a, x, 0) ^ lane_at(a, x, 1) ^ lane_at(a, x, 2) ^ lane_at(a, x, 3) ^ lane_at(a, x, 4)
}

/// `C[x, z]`: the exclusive or over `y` of the bits `(x, y, z)`.
pub open spec fn parity_bit(a: Seq<u64>, x: int, z: int) -> u8 {
    bit_at(a, x, 0, z) ^ bit_at(a, x, 1, z) ^ bit_at(a, x, 2, z) ^ bit_at(a, x, 3, z) ^ bit_at(
        a,
        x,
        4,
        z,
    )
}

/// `D[x, z]` for every `z` at once: the parity of column `x - 1`, and that
/// of column `x + 1` one bit further on.
pub open spec fn theta_effect(a: Seq<u64>, x: int) -> u64 {
    column_parity(a, x - 1) ^ rotated(column_parity(a, x + 1), 1)
}

/// The state after theta.
pub open spec fn spec_theta(a: Seq<u64>) -> Seq<u64> {
    Seq::new(25, |i: int| a[i] ^ theta_effect(a, i % 5))
}

/// The state after pi: lane `(x, y)` is the former lane `(x + 3y, x)`.
pub open spec fn spec_pi(a: Seq<u64>) -> Seq<u64> {
    Seq::new(25, |i: int| lane_at(a, i % 5 + 3 * (i / 5), i % 5))
}

/// The state after chi.
pub open spec fn spec_chi(a: Seq<u64>) -> Seq<u64> {
    Seq::new(25, |i: int| a[i] ^ (!lane_at(a, i % 5 + 1, i / 5) & lane_at(a, i % 5 + 2, i / 5)))
}

/// Where rho stands after `t` steps of its walk over the lanes: it starts
/// at `(1, 0)` and goes from `(x, y)` to `(y, 2x + 3y)`.
pub open spec fn rho_walk(t: nat) -> (int, int)
    decreases t,
{
    if t == 0 {
        (1, 0)
    } else {
        let (x, y) = rho_walk((t - 1) as nat);
        (y, (2 * x + 3 * y) % 5)
    }
}

/// The rotation of the lane that rho visits at step `t`.
pub open spec fn rho_shift(t: int) -> int {
    ((t + 1) * (t + 2) / 2) % 64
}

/// By how many bits rho rotates lane `(x, y)`.
pub open spec fn rho_offset(x: int, y: int) -> int {
    seq![
        0int, 1, 62, 28, 27,
        36, 44, 6, 55, 20,
        3, 10, 43, 25, 39,
        41, 45, 15, 21, 8,
        18, 2, 61, 56, 14,
    ][cell(x, y)]
}

/// The step of rho's walk that visits word `i`, for `i` from 1 to 24.
pub open spec fn rho_step_of(i: int) -> int {
    seq![
        24int, 0, 18, 6, 12,
        7, 23, 2, 9, 22,
        1, 3, 17, 16, 20,
        13, 8, 4, 5, 15,
        19, 10, 21, 14, 11,
    ][i]
}

/// The state after rho: every lane rotated by its offset.
pub open spec fn spec_rho(a: Seq<u64>) -> Seq<u64> {
    Seq::new(25, |i: int| rotated(a[i], rho_offset(i % 5, i / 5)))
}

/// Which bit of round constant `i` stands at bit index `z`: bit index
/// `2^j - 1` holds `rc(j + 7i)` for `j` from 0 to 6, every other one is 0.
pub open spec fn round_constant_bit(i: int, z: int) -> u8 {
    let p = z % 64;
    if p == 0 {
        spec_rc(7 * i)
    } else if p == 1 {
        spec_rc(1 + 7 * i)
    } else if p == 3 {
        spec_rc(2 + 7 * i)
    } else if p == 7 {
        spec_rc(3 + 7 * i)
    } else if p == 15 {
        spec_rc(4 + 7 * i)
    } else if p == 31 {
        spec_rc(5 + 7 * i)
    } else if p == 63 {
        spec_rc(6 + 7 * i)
    } else {
        0
    }
}

/// Round constant `i` as a lane.
pub open spec fn round_constant(i: int) -> u64 {
    ((spec_rc(7 * i) as u64) << 63) ^ ((spec_rc(1 + 7 * i) as u64) << 62) ^ ((spec_rc(
        2 + 7 * i,
    ) as u64) << 60) ^ ((spec_rc(3 + 7 * i) as u64) << 56) ^ ((spec_rc(4 + 7 * i) as u64) << 48)
        ^ ((spec_rc(5 + 7 * i) as u64) << 32) ^ (spec_rc(6 + 7 * i) as u64)
}

/// The state after iota of round `i`: the round constant goes into lane
/// `(0, 0)`.
pub open spec fn spec_iota(a: Seq<u64>, i: int) -> Seq<u64> {
    a.update(0, a[0] ^ round_constant(i))
}

/// The state after round `i`: theta, rho, pi, chi, iota.
pub open spec fn spec_round(a: Seq<u64>, i: int) -> Seq<u64> {
    spec_iota(spec_chi(spec_pi(spec_rho(spec_theta(a)))), i)
}

/// The state after the rounds `from..to`, in rising order.
pub open spec fn spec_rounds(a: Seq<u64>, from: int, to: int) -> Seq<u64>
    decreases to - from,
{
    if to <= from {
        a
    } else {
        spec_round(spec_rounds(a, from, to - 1), to - 1)
    }
}

/// The state after the last `rounds` of the 24 rounds: rounds
/// `24 - rounds .. 24`.
pub open spec fn spec_keccak(a: Seq<u64>, rounds: int) -> Seq<u64> {
    spec_rounds(a, 24 - rounds, 24)
}

/// Two states combined lane by lane with exclusive or.
pub open spec fn xor_states(a: Seq<u64>, b: Seq<u64>) -> Seq<u64> {
    Seq::new(25, |i: int| a[i] ^ b[i])
}

/// The lanes of `a` before place `cell(x, y)` in the order in which the
/// steps fill a state: column by column, each column from `y = 0` up.
pub open spec fn filled_before(i: int, x: int, y: int) -> bool {
    i % 5 < x || (i % 5 == x && i / 5 < y)
}

proof fn bv_bit_of_chi(a: u64, b: u64, c: u64, k: u64)
    by (bit_vector)
    requires
        k < 64,
    ensures
        (((a ^ (!b & c)) >> k) & 1) as u8 == (((a >> k) & 1) as u8) ^ (((((b >> k) & 1) as u8) ^ 1)
            & (((c >> k) & 1) as u8)),
{
}

proof fn bv_complement(b: u64)
    by (bit_vector)
    ensures
        b ^ u64::MAX == !b,
{
}

/// Chi bit by bit: `A'[x, y, z] = A[x, y, z] ^ ((A[x+1, y, z] ^ 1) & A[x+2, y, z])`.
pub proof fn lemma_chi_bits(a: Seq<u64>, x: int, y: int, z: int)
    requires
        a.len() == 25,
    ensures
        bit_at(spec_chi(a), x, y, z) == bit_at(a, x, y, z) ^ ((bit_at(a, x + 1, y, z) ^ 1) & bit_at(
            a,
            x + 2,
            y,
            z,
        )),
{
    let i = cell(x, y);
    assert(cell(i % 5 + 1, i / 5) == cell(x + 1, y));
    assert(cell(i % 5 + 2, i / 5) == cell(x + 2, y));
    bv_bit_of_chi(a[i], lane_at(a, x + 1, y), lane_at(a, x + 2, y), bit_shift(z));
}

/// Pi bit by bit: `A'[x, y, z] = A[x + 3y, x, z]`.
pub proof fn lemma_pi_bits(a: Seq<u64>, x: int, y: int, z: int)
    requires
        a.len() == 25,
    ensures
        bit_at(spec_pi(a), x, y, z) == bit_at(a, x + 3 * y, x, z),
{
    lemma_pi_source(x, y);
}

/// The lane that pi moves to `(x, y)`, seen from the word at `cell(x, y)`.
proof fn lemma_pi_source(x: int, y: int)
    ensures
        cell(cell(x, y) % 5 + 3 * (cell(x, y) / 5), cell(x, y) % 5) == cell(x + 3 * y, x),
{
    let i = cell(x, y);
    assert(i % 5 == x % 5 && i / 5 == y % 5);
    assert((x % 5 + 3 * (y % 5)) % 5 == (x + 3 * y) % 5) by {
        vstd::arithmetic::div_mod::lemma_fundamental_div_mod(x, 5);
        vstd::arithmetic::div_mod::lemma_fundamental_div_mod(y, 5);
        vstd::arithmetic::div_mod::lemma_mod_multiples_vanish(
            x / 5 + 3 * (y / 5),
            x % 5 + 3 * (y % 5),
            5,
        );
    }
}

proof fn bv_xor_with_zero(b: u8)
    by (bit_vector)
    ensures
        0u8 ^ b == b,
{
}

/// The exclusive or of five values, written out.
pub proof fn lemma_xor_all_five(bits: Seq<u8>)
    requires
        bits.len() == 5,
    ensures
        xor_all(bits) == bits[0] ^ bits[1] ^ bits[2] ^ bits[3] ^ bits[4],
{
    let b4 = bits.drop_last();
    let b3 = b4.drop_last();
    let b2 = b3.drop_last();
    let b1 = b2.drop_last();
    let b0 = b1.drop_last();
    assert(xor_all(b0) == 0);
    assert(xor_all(b1) == 0u8 ^ bits[0]);
    bv_xor_with_zero(bits[0]);
    assert(xor_all(b2) == xor_all(b1) ^ bits[1]);
    assert(xor_all(b3) == xor_all(b2) ^ bits[2]);
    assert(xor_all(b4) == xor_all(b3) ^ bits[3]);
}

/// A bit of a column's parity lane is the parity of the column's bits.
pub proof fn lemma_parity_bit(a: Seq<u64>, x: int, z: int)
    ensures
        word_bit(column_parity(a, x), z) == parity_bit(a, x, z),
{
    let l0 = lane_at(a, x, 0);
    let l1 = lane_at(a, x, 1);
    let l2 = lane_at(a, x, 2);
    let l3 = lane_at(a, x, 3);
    let l4 = lane_at(a, x, 4);
    lemma_bit_of_xor(l0, l1, z);
    lemma_bit_of_xor(l0 ^ l1, l2, z);
    lemma_bit_of_xor(l0 ^ l1 ^ l2, l3, z);
    lemma_bit_of_xor(l0 ^ l1 ^ l2 ^ l3, l4, z);
}

/// Theta bit by bit: `A'[x, y, z] = A[x, y, z] ^ D[x, z]` with
/// `D[x, z] = C[x - 1, z] ^ C[x + 1, z - 1]`.
pub proof fn lemma_theta_bits(a: Seq<u64>, x: int, y: int, z: int)
    requires
        a.len() == 25,
    ensures
        bit_at(spec_theta(a), x, y, z) == bit_at(a, x, y, z) ^ (parity_bit(a, x - 1, z)
            ^ parity_bit(a, x + 1, z - 1)),
{
    let i = cell(x, y);
    let before = column_parity(a, x - 1);
    let after = column_parity(a, x + 1);
    assert(column_parity(a, i % 5 - 1) == before);
    assert(column_parity(a, i % 5 + 1) == after);
    lemma_bit_of_xor(a[i], theta_effect(a, i % 5), z);
    lemma_bit_of_xor(before, rotated(after, 1), z);
    lemma_bit_of_rotated(after, 1, z);
    lemma_parity_bit(a, x - 1, z);
    lemma_parity_bit(a, x + 1, z - 1);
}

/// Theta: every bit takes in the parities of two neighbouring columns.
pub fn theta(state: State) -> (r: State)
    ensures
        r@ == spec_theta(state@),
        forall|x: int, y: int, z: int| #[trigger]
            bit_at(r@, x, y, z) == bit_at(state@, x, y, z) ^ (parity_bit(state@, x - 1, z)
                ^ parity_bit(state@, x + 1, z - 1)),
{
    // C and D hold one lane for each x: sheets along the x axis here.
    let mut C = Sheet::default();
    let mut D = Sheet::default();
    let mut A = State::default();

    // Fill C
    let mut x: i64 = 0;
    while x < 5
        invariant
            0 <= x <= 5,
            forall|j: int|
                0 <= j < 5 ==> (#[trigger] C.0[j]).0 == (if j < x {
                    column_parity(state@, j)
                } else {
                    0
                }),
        decreases 5 - x,
    {
        let ghost target = column_parity(state@, x as int);
        let ghost start = C;
        let mut z: i64 = 0;
        proof {
            lemma_leading_mask_ends(target);
        }
        while z < 64
            invariant
                0 <= x < 5,
                0 <= z <= 64,
                target == column_parity(state@, x as int),
                C.0@ == start.0@.update(x as int, Lane(target & leading_mask(z as int))),
            decreases 64 - z,
        {
            let mut bits: Vec<u8> = Vec::new();
            let mut i: i64 = 0;
            while i < 5
                invariant
                    0 <= x < 5,
                    0 <= i <= 5,
                    bits@ == Seq::new(i as nat, |j: int| bit_at(state@, x as int, j, z as int)),
                decreases 5 - i,
            {
                bits.push(state[x][i].get(z));
                i = i + 1;
                assert(bits@ =~= Seq::new(i as nat, |j: int| bit_at(state@, x as int, j, z as int)));
            }
            let sum = xor_sum(&bits);
            let ghost before = C;
            C.index_mut(x).set(z, sum);
            proof {
                lemma_xor_all_five(bits@);
                lemma_parity_bit(state@, x as int, z as int);
                lemma_write_next_bit(before.0[x as int].0, target, z as int);
                assert(C.0@ =~= start.0@.update(x as int, Lane(target & leading_mask(z + 1))));
            }
            z = z + 1;
        }
        proof {
            lemma_leading_mask_ends(target);
        }
        x = x + 1;
    }

    // Fill D
    let mut x: i64 = 0;
    while x < 5
        invariant
            0 <= x <= 5,
            forall|j: int| 0 <= j < 5 ==> (#[trigger] C.0[j]).0 == column_parity(state@, j),
            forall|j: int|
                0 <= j < 5 ==> (#[trigger] D.0[j]).0 == (if j < x {
                    theta_effect(state@, j)
                } else {
                    0
                }),
        decreases 5 - x,
    {
        let ghost target = theta_effect(state@, x as int);
        let ghost start = D;
        let mut z: i64 = 0;
        proof {
            lemma_leading_mask_ends(target);
        }
        while z < 64
            invariant
                0 <= x < 5,
                0 <= z <= 64,
                target == theta_effect(state@, x as int),
                forall|j: int| 0 <= j < 5 ==> (#[trigger] C.0[j]).0 == column_parity(state@, j),
                D.0@ == start.0@.update(x as int, Lane(target & leading_mask(z as int))),
            decreases 64 - z,
        {
            let a = C[x - 1].get(z);
            let b = C[x + 1].get(z - 1);
            let ghost before = D;
            D.index_mut(x).set(z, a ^ b);
            proof {
                let prev = column_parity(state@, x - 1);
                let next = column_parity(state@, x + 1);
                assert(C.0[(x - 1) % 5].0 == column_parity(state@, (x - 1) % 5));
                assert(C.0[(x + 1) % 5].0 == column_parity(state@, (x + 1) % 5));
                assert(column_parity(state@, (x - 1) % 5) == prev);
                assert(column_parity(state@, (x + 1) % 5) == next);
                lemma_bit_of_rotated(next, 1, z as int);
                lemma_bit_of_xor(prev, rotated(next, 1), z as int);
                lemma_write_next_bit(before.0[x as int].0, target, z as int);
                assert(D.0@ =~= start.0@.update(x as int, Lane(target & leading_mask(z + 1))));
            }
            z = z + 1;
        }
        proof {
            lemma_leading_mask_ends(target);
        }
        x = x + 1;
    }

    // Fill Result
    let mut x: i64 = 0;
    while x < 5
        invariant
            0 <= x <= 5,
            A@.len() == 25,
            forall|j: int| 0 <= j < 5 ==> (#[trigger] D.0[j]).0 == theta_effect(state@, j),
            forall|i: int|
                0 <= i < 25 ==> A@[i] == (if filled_before(i, x as int, 0) {
                    spec_theta(state@)[i]
                } else {
                    0
                }),
        decreases 5 - x,
    {
        let mut y: i64 = 0;
        while y < 5
            invariant
                0 <= x < 5,
                0 <= y <= 5,
                A@.len() == 25,
                forall|j: int| 0 <= j < 5 ==> (#[trigger] D.0[j]).0 == theta_effect(state@, j),
                forall|i: int|
                    0 <= i < 25 ==> A@[i] == (if filled_before(i, x as int, y as int) {
                        spec_theta(state@)[i]
                    } else {
                        0
                    }),
            decreases 5 - y,
        {
            let ghost target = spec_theta(state@)[cell(x as int, y as int)];
            let ghost start = A@;
            let mut z: i64 = 0;
            proof {
                lemma_leading_mask_ends(target);
            }
            while z < 64
                invariant
                    0 <= x < 5,
                    0 <= y < 5,
                    0 <= z <= 64,
                    start.len() == 25,
                    target == spec_theta(state@)[cell(x as int, y as int)],
                    D.0[x as int].0 == theta_effect(state@, x as int),
                    A@ == start.update(cell(x as int, y as int), target & leading_mask(z as int)),
                decreases 64 - z,
            {
                let a_xyz = state[x][y].get(z) ^ D[x].get(z);
                let ghost before = A;
                A.index_mut(x).index_mut(y).set(z, a_xyz);
                proof {
                    lemma_bit_of_xor(
                        lane_at(state@, x as int, y as int),
                        theta_effect(state@, x as int),
                        z as int,
                    );
                    lemma_view_after_write(before, A, x as int, y as int);
                    lemma_write_next_bit(before@[cell(x as int, y as int)], target, z as int);
                    assert(A@ =~= start.update(
                        cell(x as int, y as int),
                        target & leading_mask(z + 1),
                    ));
                }
                z = z + 1;
            }
            proof {
                lemma_leading_mask_ends(target);
            }
            y = y + 1;
        }
        x = x + 1;
    }
    proof {
        assert(A@ =~= spec_theta(state@));
        assert forall|x: int, y: int, z: int| #[trigger]
            bit_at(A@, x, y, z) == bit_at(state@, x, y, z) ^ (parity_bit(state@, x - 1, z)
                ^ parity_bit(state@, x + 1, z - 1)) by {
            lemma_theta_bits(state@, x, y, z);
        }
    }
    A
}

proof fn lemma_rho_walk_values()
    ensures
        rho_walk(0) == (1int, 0int),
        rho_walk(1) == (0int, 2int),
        rho_walk(2) == (2int, 1int),
        rho_walk(3) == (1int, 2int),
        rho_walk(4) == (2int, 3int),
        rho_walk(5) == (3int, 3int),
        rho_walk(6) == (3int, 0int),
        rho_walk(7) == (0int, 1int),
        rho_walk(8) == (1int, 3int),
        rho_walk(9) == (3int, 1int),
        rho_walk(10) == (1int, 4int),
        rho_walk(11) == (4int, 4int),
        rho_walk(12) == (4int, 0int),
        rho_walk(13) == (0int, 3int),
        rho_walk(14) == (3int, 4int),
        rho_walk(15) == (4int, 3int),
        rho_walk(16) == (3int, 2int),
        rho_walk(17) == (2int, 2int),
        rho_walk(18) == (2int, 0int),
        rho_walk(19) == (0int, 4int),
        rho_walk(20) == (4int, 2int),
        rho_walk(21) == (2int, 4int),
        rho_walk(22) == (4int, 1int),
        rho_walk(23) == (1int, 1int),
{
    assert(rho_walk(0) == (1int, 0int));
    assert(rho_walk(1) == (0int, 2int));
    assert(rho_walk(2) == (2int, 1int));
    assert(rho_walk(3) == (1int, 2int));
    assert(rho_walk(4) == (2int, 3int));
    assert(rho_walk(5) == (3int, 3int));
    assert(rho_walk(6) == (3int, 0int));
    assert(rho_walk(7) == (0int, 1int));
    assert(rho_walk(8) == (1int, 3int));
    assert(rho_walk(9) == (3int, 1int));
    assert(rho_walk(10) == (1int, 4int));
    assert(rho_walk(11) == (4int, 4int));
    assert(rho_walk(12) == (4int, 0int));
    assert(rho_walk(13) == (0int, 3int));
    assert(rho_walk(14) == (3int, 4int));
    assert(rho_walk(15) == (4int, 3int));
    assert(rho_walk(16) == (3int, 2int));
    assert(rho_walk(17) == (2int, 2int));
    assert(rho_walk(18) == (2int, 0int));
    assert(rho_walk(19) == (0int, 4int));
    assert(rho_walk(20) == (4int, 2int));
    assert(rho_walk(21) == (2int, 4int));
    assert(rho_walk(22) == (4int, 1int));
    assert(rho_walk(23) == (1int, 1int));
}

/// The walk of rho stays on the lanes other than `(0, 0)`, and the lane on
/// which it stands at step `t` is rotated by `(t + 1)(t + 2) / 2` bits.
pub proof fn lemma_rho_walk(t: int)
    requires
        0 <= t < 24,
    ensures
        ({
            let (x, y) = rho_walk(t as nat);
            &&& 0 <= x < 5
            &&& 0 <= y < 5
            &&& cell(x, y) != 0
            &&& rho_offset(x, y) == rho_shift(t)
            &&& rho_step_of(cell(x, y)) == t
        }),
{
    lemma_rho_walk_values();
    if t == 0 {
        assert(rho_offset(1, 0) == 1 && rho_step_of(1) == 0 && rho_shift(0) == 1);
    } else if t == 1 {
        assert(rho_offset(0, 2) == 3 && rho_step_of(10) == 1 && rho_shift(1) == 3);
    } else if t == 2 {
        assert(rho_offset(2, 1) == 6 && rho_step_of(7) == 2 && rho_shift(2) == 6);
    } else if t == 3 {
        assert(rho_offset(1, 2) == 10 && rho_step_of(11) == 3 && rho_shift(3) == 10);
    } else if t == 4 {
        assert(rho_offset(2, 3) == 15 && rho_step_of(17) == 4 && rho_shift(4) == 15);
    } else if t == 5 {
        assert(rho_offset(3, 3) == 21 && rho_step_of(18) == 5 && rho_shift(5) == 21);
    } else if t == 6 {
        assert(rho_offset(3, 0) == 28 && rho_step_of(3) == 6 && rho_shift(6) == 28);
    } else if t == 7 {
        assert(rho_offset(0, 1) == 36 && rho_step_of(5) == 7 && rho_shift(7) == 36);
    } else if t == 8 {
        assert(rho_offset(1, 3) == 45 && rho_step_of(16) == 8 && rho_shift(8) == 45);
    } else if t == 9 {
        assert(rho_offset(3, 1) == 55 && rho_step_of(8) == 9 && rho_shift(9) == 55);
    } else if t == 10 {
        assert(rho_offset(1, 4) == 2 && rho_step_of(21) == 10 && rho_shift(10) == 2);
    } else if t == 11 {
        assert(rho_offset(4, 4) == 14 && rho_step_of(24) == 11 && rho_shift(11) == 14);
    } else if t == 12 {
        assert(rho_offset(4, 0) == 27 && rho_step_of(4) == 12 && rho_shift(12) == 27);
    } else if t == 13 {
        assert(rho_offset(0, 3) == 41 && rho_step_of(15) == 13 && rho_shift(13) == 41);
    } else if t == 14 {
        assert(rho_offset(3, 4) == 56 && rho_step_of(23) == 14 && rho_shift(14) == 56);
    } else if t == 15 {
        assert(rho_offset(4, 3) == 8 && rho_step_of(19) == 15 && rho_shift(15) == 8);
    } else if t == 16 {
        assert(rho_offset(3, 2) == 25 && rho_step_of(13) == 16 && rho_shift(16) == 25);
    } else if t == 17 {
        assert(rho_offset(2, 2) == 43 && rho_step_of(12) == 17 && rho_shift(17) == 43);
    } else if t == 18 {
        assert(rho_offset(2, 0) == 62 && rho_step_of(2) == 18 && rho_shift(18) == 62);
    } else if t == 19 {
        assert(rho_offset(0, 4) == 18 && rho_step_of(20) == 19 && rho_shift(19) == 18);
    } else if t == 20 {
        assert(rho_offset(4, 2) == 39 && rho_step_of(14) == 20 && rho_shift(20) == 39);
    } else if t == 21 {
        assert(rho_offset(2, 4) == 61 && rho_step_of(22) == 21 && rho_shift(21) == 61);
    } else if t == 22 {
        assert(rho_offset(4, 1) == 20 && rho_step_of(9) == 22 && rho_shift(22) == 20);
    } else if t == 23 {
        assert(rho_offset(1, 1) == 44 && rho_step_of(6) == 23 && rho_shift(23) == 44);
    }
}

/// Every lane other than `(0, 0)` is visited by the walk of rho, at the
/// step that `rho_step_of` names.
pub proof fn lemma_rho_step(i: int)
    requires
        1 <= i < 25,
    ensures
        0 <= rho_step_of(i) < 24,
        ({
            let (x, y) = rho_walk(rho_step_of(i) as nat);
            cell(x, y) == i
        }),
{
    lemma_rho_walk_values();
}

/// Rho along its walk: the lane on which the walk stands at step `t` is
/// rotated by `(t + 1)(t + 2) / 2` bits, and lane `(0, 0)` stays as it is.
pub proof fn lemma_rho_on_walk(a: Seq<u64>, t: int)
    requires
        a.len() == 25,
        0 <= t < 24,
    ensures
        ({
            let (x, y) = rho_walk(t as nat);
            lane_at(spec_rho(a), x, y) == rotated(lane_at(a, x, y), rho_shift(t))
        }),
        lane_at(spec_rho(a), 0, 0) == lane_at(a, 0, 0),
{
    lemma_rho_walk(t);
    let (x, y) = rho_walk(t as nat);
    let i = cell(x, y);
    assert(cell(i % 5, i / 5) == i);
    assert(rho_offset(0, 0) == 0);
}

/// Rho bit by bit: `A'[x, y, z] = A[x, y, z - offset(x, y)]`.
pub proof fn lemma_rho_bits(a: Seq<u64>, x: int, y: int, z: int)
    requires
        a.len() == 25,
    ensures
        bit_at(spec_rho(a), x, y, z) == bit_at(a, x, y, z - rho_offset(x, y)),
{
    let i = cell(x, y);
    assert(cell(i % 5, i / 5) == i);
    lemma_bit_of_rotated(a[i], rho_offset(x, y), z);
}

/// Rho: every lane but `(0, 0)` is rotated, by an offset that grows along
/// a walk over the lanes.
pub fn rho(state: State) -> (r: State)
    ensures
        r@ == spec_rho(state@),
        forall|x: int, y: int, z: int| #[trigger]
            bit_at(r@, x, y, z) == bit_at(state@, x, y, z - rho_offset(x, y)),
        lane_at(r@, 0, 0) == lane_at(state@, 0, 0),
        forall|t: int|
            0 <= t < 24 ==> lane_at(r@, rho_walk(t as nat).0, rho_walk(t as nat).1) == rotated(
                lane_at(state@, rho_walk(t as nat).0, rho_walk(t as nat).1),
                #[trigger] rho_shift(t),
            ),
{
    let mut A = State::default();
    let ghost zero = A;
    *A.index_mut(0).index_mut(0) = state[0][0];
    proof {
        lemma_view_after_write(zero, A, 0, 0);
        assert(rotated(state@[0], 0) == state@[0]);
    }

    let mut x: i64 = 1;
    let mut y: i64 = 0;
    let mut t: i64 = 0;
    while t <= 23
        invariant
            0 <= t <= 24,
            0 <= x < 5,
            0 <= y < 5,
            (x as int, y as int) == rho_walk(t as nat),
            A@.len() == 25,
            forall|i: int|
                0 <= i < 25 ==> A@[i] == (if i == 0 || rho_step_of(i) < t {
                    spec_rho(state@)[i]
                } else {
                    0
                }),
        decreases 24 - t,
    {
        assert((t + 1) * (t + 2) <= 600) by (nonlinear_arith)
            requires
                0 <= t <= 23,
        ;
        let shift = (((t + 1) * (t + 2)) / 2).md(64);
        let ghost target = rotated(lane_at(state@, x as int, y as int), shift as int);
        let ghost start = A@;
        proof {
            lemma_rho_walk(t as int);
            lemma_leading_mask_ends(target);
            assert(cell(cell(x as int, y as int) % 5, cell(x as int, y as int) / 5) == cell(
                x as int,
                y as int,
            ));
        }
        let mut z: i64 = 0;
        while z < 64
            invariant
                0 <= x < 5,
                0 <= y < 5,
                0 <= z <= 64,
                0 <= shift < 64,
                start.len() == 25,
                target == rotated(lane_at(state@, x as int, y as int), shift as int),
                A@ == start.update(cell(x as int, y as int), target & leading_mask(z as int)),
            decreases 64 - z,
        {
            let modz: i64 = z - shift;
            let ghost before = A;
            A.index_mut(x).index_mut(y).set(z, state[x][y].get(modz));
            proof {
                lemma_bit_of_rotated(lane_at(state@, x as int, y as int), shift as int, z as int);
                lemma_view_after_write(before, A, x as int, y as int);
                lemma_write_next_bit(before@[cell(x as int, y as int)], target, z as int);
                assert(A@ =~= start.update(cell(x as int, y as int), target & leading_mask(z + 1)));
            }
            z = z + 1;
        }
        proof {
            lemma_leading_mask_ends(target);
            assert forall|i: int| 0 <= i < 25 implies A@[i] == (if i == 0 || rho_step_of(i) < t
                + 1 {
                spec_rho(state@)[i]
            } else {
                0
            }) by {
                if i != 0 {
                    lemma_rho_step(i);
                }
            }
        }
        let next = (y, (x * 2 + y * 3).md(5));
        x = next.0;
        y = next.1;
        t = t + 1;
    }
    proof {
        assert forall|i: int| 0 <= i < 25 implies A@[i] == spec_rho(state@)[i] by {
            if i != 0 {
                lemma_rho_step(i);
            }
        }
        assert(A@ =~= spec_rho(state@));
        assert forall|x: int, y: int, z: int| #[trigger]
            bit_at(A@, x, y, z) == bit_at(state@, x, y, z - rho_offset(x, y)) by {
            lemma_rho_bits(state@, x, y, z);
        }
        assert forall|t: int| 0 <= t < 24 implies lane_at(
            A@,
            rho_walk(t as nat).0,
            rho_walk(t as nat).1,
        ) == rotated(
            lane_at(state@, rho_walk(t as nat).0, rho_walk(t as nat).1),
            #[trigger] rho_shift(t),
        ) by {
            lemma_rho_on_walk(state@, t);
        }
        lemma_rho_on_walk(state@, 0);
    }
    A
}

/// Pi: the lanes change places, and no bit moves within its lane.
pub fn pi(state: State) -> (r: State)
    ensures
        r@ == spec_pi(state@),
        forall|x: int, y: int, z: int| #[trigger]
            bit_at(r@, x, y, z) == bit_at(state@, x + 3 * y, x, z),
{
    let mut A = State::default();
    let mut x: i64 = 0;
    while x < 5
        invariant
            0 <= x <= 5,
            A@.len() == 25,
            forall|i: int|
                0 <= i < 25 ==> A@[i] == (if filled_before(i, x as int, 0) {
                    spec_pi(state@)[i]
                } else {
                    0
                }),
        decreases 5 - x,
    {
        let mut y: i64 = 0;
        while y < 5
            invariant
                0 <= x < 5,
                0 <= y <= 5,
                A@.len() == 25,
                forall|i: int|
                    0 <= i < 25 ==> A@[i] == (if filled_before(i, x as int, y as int) {
                        spec_pi(state@)[i]
                    } else {
                        0
                    }),
            decreases 5 - y,
        {
            let ghost target = lane_at(state@, x + 3 * y, x as int);
            let ghost start = A@;
            let mut z: i64 = 0;
            proof {
                lemma_leading_mask_ends(target);
            }
            while z < 64
                invariant
                    0 <= x < 5,
                    0 <= y < 5,
                    0 <= z <= 64,
                    A@ == start.update(cell(x as int, y as int), target & leading_mask(z as int)),
                    start.len() == 25,
                    target == lane_at(state@, x + 3 * y, x as int),
                decreases 64 - z,
            {
                let ghost before = A;
                A.index_mut(x).index_mut(y).set(z, state[x + y * 3][x].get(z));
                proof {
                    lemma_view_after_write(before, A, x as int, y as int);
                    lemma_write_next_bit(before@[cell(x as int, y as int)], target, z as int);
                    assert(A@ =~= start.update(
                        cell(x as int, y as int),
                        target & leading_mask(z + 1),
                    ));
                }
                z = z + 1;
            }
            proof {
                lemma_leading_mask_ends(target);
                lemma_pi_source(x as int, y as int);
            }
            y = y + 1;
        }
        x = x + 1;
    }
    proof {
        assert(A@ =~= spec_pi(state@));
        assert forall|x: int, y: int, z: int| #[trigger]
            bit_at(A@, x, y, z) == bit_at(state@, x + 3 * y, x, z) by {
            lemma_pi_bits(state@, x, y, z);
        }
    }
    A
}

/// Chi: every bit takes in the two bits after it in its row, lane by lane.
pub fn chi(state: State) -> (r: State)
    ensures
        r@ == spec_chi(state@),
        forall|x: int, y: int, z: int| #[trigger]
            bit_at(r@, x, y, z) == bit_at(state@, x, y, z) ^ ((bit_at(state@, x + 1, y, z) ^ 1)
                & bit_at(state@, x + 2, y, z)),
{
    let mut A = State::default();
    let mut x: i64 = 0;
    while x < 5
        invariant
            0 <= x <= 5,
            A@.len() == 25,
            forall|i: int|
                0 <= i < 25 && filled_before(i, x as int, 0) ==> A@[i] == spec_chi(state@)[i],
        decreases 5 - x,
    {
        let mut y: i64 = 0;
        while y < 5
            invariant
                0 <= x < 5,
                0 <= y <= 5,
                A@.len() == 25,
                forall|i: int|
                    0 <= i < 25 && filled_before(i, x as int, y as int) ==> A@[i] == spec_chi(
                        state@,
                    )[i],
            decreases 5 - y,
        {
            let bit = (state[x + 1][y].0 ^ u64::MAX) & state[x + 2][y].0;
            let bit = state[x][y].0 ^ bit;
            let ghost before = A;
            A.index_mut(x).index_mut(y).0 = bit;
            proof {
                lemma_view_after_write(before, A, x as int, y as int);
                let i = cell(x as int, y as int);
                assert(cell(i % 5 + 1, i / 5) == cell(x + 1, y as int));
                assert(cell(i % 5 + 2, i / 5) == cell(x + 2, y as int));
                bv_complement(lane_at(state@, x + 1, y as int));
            }
            y = y + 1;
        }
        x = x + 1;
    }
    proof {
        assert(A@ =~= spec_chi(state@));
        assert forall|x: int, y: int, z: int| #[trigger]
            bit_at(A@, x, y, z) == bit_at(state@, x, y, z) ^ ((bit_at(state@, x + 1, y, z) ^ 1)
                & bit_at(state@, x + 2, y, z)) by {
            lemma_chi_bits(state@, x, y, z);
        }
    }
    A
}

proof fn bv_round_constant_bit(b0: u64, b1: u64, b2: u64, b3: u64, b4: u64, b5: u64, b6: u64, k: u64)
    by (bit_vector)
    requires
        k < 64,
        b0 <= 1,
        b1 <= 1,
        b2 <= 1,
        b3 <= 1,
        b4 <= 1,
        b5 <= 1,
        b6 <= 1,
    ensures
        ((((b0 << 63) ^ (b1 << 62) ^ (b2 << 60) ^ (b3 << 56) ^ (b4 << 48) ^ (b5 << 32) ^ b6) >> k)
            & 1) == (if k == 63 {
            b0
        } else if k == 62 {
            b1
        } else if k == 60 {
            b2
        } else if k == 56 {
            b3
        } else if k == 48 {
            b4
        } else if k == 32 {
            b5
        } else if k == 0 {
            b6
        } else {
            0
        }),
{
}

proof fn bv_low_bit_is_binary(r: u32)
    by (bit_vector)
    ensures
        r & 1 <= 1,
{
}

proof fn bv_xor_next_bit(a: u64, o: u64, c: u64, z: u64)
    by (bit_vector)
    requires
        z < 64,
        a == o ^ (c & (if z == 0 {
            0
        } else {
            !(u64::MAX >> z)
        })),
    ensures
        ((a >> (63 - z) as u64) & 1) == ((o >> (63 - z) as u64) & 1),
        (if (c >> (63 - z) as u64) & 1 == 1 {
            a ^ (1u64 << (63 - z) as u64)
        } else {
            a
        }) == o ^ (c & (if z == 63 {
            u64::MAX
        } else {
            !(u64::MAX >> (z + 1) as u64)
        })),
{
}

proof fn bv_xor_of_bits(p: u8, q: u8)
    by (bit_vector)
    requires
        p <= 1,
        q <= 1,
    ensures
        p ^ q == (if q == 1 {
            1 - p
        } else {
            p as int
        }),
{
}

/// Folding the bits of `c` into a word one by one, in rising order, has
/// folded in the first `z + 1` bits of `c` after bit `z`.
proof fn lemma_xor_next_bit(a: u64, o: u64, c: u64, z: int)
    requires
        0 <= z < 64,
        a == o ^ (c & leading_mask(z)),
    ensures
        word_with_bit(a, z, word_bit(a, z) ^ word_bit(c, z)) == o ^ (c & leading_mask(z + 1)),
{
    lemma_bit_is_binary(a, z);
    lemma_bit_is_binary(c, z);
    bv_xor_of_bits(word_bit(a, z), word_bit(c, z));
    bv_xor_next_bit(a, o, c, z as u64);
}

/// The bits of a round constant: `rc(j + 7i)` at bit index `2^j - 1`.
pub proof fn lemma_round_constant_bits(i: int, z: int)
    ensures
        word_bit(round_constant(i), z) == round_constant_bit(i, z),
{
    bv_low_bit_is_binary(lfsr(((7 * i) % 255) as nat));
    bv_low_bit_is_binary(lfsr(((1 + 7 * i) % 255) as nat));
    bv_low_bit_is_binary(lfsr(((2 + 7 * i) % 255) as nat));
    bv_low_bit_is_binary(lfsr(((3 + 7 * i) % 255) as nat));
    bv_low_bit_is_binary(lfsr(((4 + 7 * i) % 255) as nat));
    bv_low_bit_is_binary(lfsr(((5 + 7 * i) % 255) as nat));
    bv_low_bit_is_binary(lfsr(((6 + 7 * i) % 255) as nat));
    bv_round_constant_bit(
        spec_rc(7 * i) as u64,
        spec_rc(1 + 7 * i) as u64,
        spec_rc(2 + 7 * i) as u64,
        spec_rc(3 + 7 * i) as u64,
        spec_rc(4 + 7 * i) as u64,
        spec_rc(5 + 7 * i) as u64,
        spec_rc(6 + 7 * i) as u64,
        bit_shift(z),
    );
}

/// Iota bit by bit: only lane `(0, 0)` changes, by the round constant.
pub proof fn lemma_iota_bits(a: Seq<u64>, i: int, x: int, y: int, z: int)
    requires
        a.len() == 25,
    ensures
        bit_at(spec_iota(a, i), x, y, z) == (if x % 5 == 0 && y % 5 == 0 {
            bit_at(a, x, y, z) ^ round_constant_bit(i, z)
        } else {
            bit_at(a, x, y, z)
        }),
{
    if cell(x, y) == 0 {
        lemma_bit_of_xor(a[0], round_constant(i), z);
        lemma_round_constant_bits(i, z);
    }
}

/// The index of bit `rc(j + 7i)` in a round constant, for `j` from 0 to 6;
/// from 7 on, the end of the lane.
pub open spec fn rc_slot(j: int) -> int {
    if j == 0 {
        0
    } else if j == 1 {
        1
    } else if j == 2 {
        3
    } else if j == 3 {
        7
    } else if j == 4 {
        15
    } else if j == 5 {
        31
    } else if j == 6 {
        63
    } else {
        64
    }
}

/// Iota: the constant of round `round_index` goes into lane `(0, 0)`.
pub fn iota(state: State, round_index: i64) -> (r: State)
    requires
        i64::MIN <= 7 * round_index,
        7 * round_index + 6 <= i64::MAX,
    ensures
        r@ == spec_iota(state@, round_index as int),
        forall|x: int, y: int, z: int| #[trigger]
            bit_at(r@, x, y, z) == (if x % 5 == 0 && y % 5 == 0 {
                bit_at(state@, x, y, z) ^ round_constant_bit(round_index as int, z)
            } else {
                bit_at(state@, x, y, z)
            }),
{
    let mut A = state;
    let mut RC = [0u8; 64];

    let mut j: i64 = 0;
    while j <= 6
        invariant
            0 <= j <= 7,
            i64::MIN <= 7 * round_index,
            7 * round_index + 6 <= i64::MAX,
            forall|z: int|
                0 <= z < 64 ==> #[trigger] RC@[z] == (if z < rc_slot(j as int) {
                    round_constant_bit(round_index as int, z)
                } else {
                    0
                }),
        decreases 7 - j,
    {
        let width: u64 = j as u64;
        assert((1u64 << width) == (if width == 0 {
            1u64
        } else if width == 1 {
            2u64
        } else if width == 2 {
            4u64
        } else if width == 3 {
            8u64
        } else if width == 4 {
            16u64
        } else if width == 5 {
            32u64
        } else {
            64u64
        })) by (bit_vector)
            requires
                0 <= width <= 6,
        ;
        let slot: u64 = (1u64 << width) - 1;
        assert(slot == rc_slot(j as int));
        RC[slot as usize] = rc(j + 7 * round_index);
        j = j + 1;
    }

    let ghost constant = round_constant(round_index as int);
    proof {
        lemma_leading_mask_ends(constant);
        assert(A@[0] ^ 0 == A@[0]) by {
            let w = A@[0];
            assert(w ^ 0 == w) by (bit_vector);
        }
        assert(A@ =~= state@.update(0, state@[0] ^ (constant & leading_mask(0))));
    }
    let mut z: i64 = 0;
    while z < 64
        invariant
            0 <= z <= 64,
            constant == round_constant(round_index as int),
            forall|k: int| 0 <= k < 64 ==> #[trigger] RC@[k] == round_constant_bit(round_index as int, k),
            A@ == state@.update(0, state@[0] ^ (constant & leading_mask(z as int))),
        decreases 64 - z,
    {
        let (x, y): (i64, i64) = (0, 0);
        let res = A[x][y].get(z) ^ RC[z as usize];
        let ghost before = A;
        A.index_mut(x).index_mut(y).set(z, res);
        proof {
            lemma_view_after_write(before, A, 0, 0);
            lemma_round_constant_bits(round_index as int, z as int);
            lemma_xor_next_bit(before@[0], state@[0], constant, z as int);
            assert(A@ =~= state@.update(0, state@[0] ^ (constant & leading_mask(z + 1))));
        }
        z = z + 1;
    }
    proof {
        lemma_leading_mask_ends(constant);
        assert(A@ =~= spec_iota(state@, round_index as int));
        assert forall|x: int, y: int, z: int| #[trigger]
            bit_at(A@, x, y, z) == (if x % 5 == 0 && y % 5 == 0 {
                bit_at(state@, x, y, z) ^ round_constant_bit(round_index as int, z)
            } else {
                bit_at(state@, x, y, z)
            }) by {
            lemma_iota_bits(state@, round_index as int, x, y, z);
        }
    }
    A
}

/// One round: theta, rho, pi, chi, iota.
pub fn round(state: State, round_index: i64) -> (r: State)
    requires
        i64::MIN <= 7 * round_index,
        7 * round_index + 6 <= i64::MAX,
    ensures
        r@ == spec_round(state@, round_index as int),
{
    return iota(chi(pi(rho(theta(state)))), round_index);
}

/// The last `rounds` rounds of Keccak-f[1600] on a state of 25 words: the
/// rounds `24 - rounds .. 24`, so that a round keeps its constant whatever
/// the number of rounds.
pub fn keccak(str_state: [u64; 25], rounds: i64) -> (r: [u64; 25])
    requires
        0 <= rounds <= 24,
    ensures
        r@ == spec_keccak(str_state@, rounds as int),
{
    let mut state = to_state(&vstd::slice::slice_to_vec(str_state.as_slice()));
    let n: i64 = 24;
    let mut i: i64 = n - rounds;
    while i < n
        invariant
            n == 24,
            0 <= n - rounds <= i <= n,
            state@ == spec_rounds(str_state@, n - rounds, i as int),
        decreases n - i,
    {
        state = round(state, i);
        i = i + 1;
    }
    return from_state(&state);
}

/// Rounds keep the 25 words of a state.
pub proof fn lemma_rounds_len(a: Seq<u64>, from: int, to: int)
    requires
        a.len() == 25,
    ensures
        spec_rounds(a, from, to).len() == 25,
{
}

/// Rounds compose: the rounds `from..to` are the rounds `from..mid`
/// followed by the rounds `mid..to`.
pub proof fn lemma_rounds_compose(a: Seq<u64>, from: int, mid: int, to: int)
    requires
        from <= mid <= to,
    ensures
        spec_rounds(a, from, to) == spec_rounds(spec_rounds(a, from, mid), mid, to),
    decreases to - mid,
{
    if mid < to {
        lemma_rounds_compose(a, from, mid, to - 1);
    }
}

/// Twelve rounds applied twice are the full twenty-four rounds on every
/// state on which the first twelve rounds do what the last twelve do. The
/// twelve rounds that `keccak` applies are always the last twelve, so on
/// any other state the two sides differ in the constants of their first
/// twelve rounds.
pub proof fn lemma_twelve_rounds_twice(a: Seq<u64>)
    requires
        a.len() == 25,
        spec_rounds(a, 0, 12) == spec_keccak(a, 12),
    ensures
        spec_keccak(spec_keccak(a, 12), 12) == spec_keccak(a, 24),
{
    lemma_rounds_compose(a, 0, 12, 24);
}

/// The full permutation is its first `24 - rounds` rounds followed by
/// `keccak` with `rounds` rounds.
pub proof fn lemma_keccak_splits(a: Seq<u64>, rounds: int)
    requires
        0 <= rounds <= 24,
    ensures
        spec_keccak(a, 24) == spec_keccak(spec_rounds(a, 0, 24 - rounds), rounds),
{
    lemma_rounds_compose(a, 0, 24 - rounds, 24);
}

proof fn bv_parity_of_xor(a0: u64, a1: u64, a2: u64, a3: u64, a4: u64, b0: u64, b1: u64, b2: u64, b3: u64, b4: u64)
    by (bit_vector)
    ensures
        (a0 ^ b0) ^ (a1 ^ b1) ^ (a2 ^ b2) ^ (a3 ^ b3) ^ (a4 ^ b4) == (a0 ^ a1 ^ a2 ^ a3 ^ a4) ^ (b0
            ^ b1 ^ b2 ^ b3 ^ b4),
{
}

proof fn bv_theta_of_xor(a: u64, b: u64, pa: u64, pb: u64, na: u64, nb: u64)
    by (bit_vector)
    ensures
        (a ^ b) ^ ((pa ^ pb) ^ (((na ^ nb) >> 1) | ((na ^ nb) << 63))) == (a ^ (pa ^ ((na >> 1) | (na
            << 63)))) ^ (b ^ (pb ^ ((nb >> 1) | (nb << 63)))),
{
}

/// The parity of a column of `a ^ b` is the exclusive or of the parities.
pub proof fn lemma_parity_is_linear(a: Seq<u64>, b: Seq<u64>, x: int)
    requires
        a.len() == 25,
        b.len() == 25,
    ensures
        column_parity(xor_states(a, b), x) == column_parity(a, x) ^ column_parity(b, x),
{
    bv_parity_of_xor(
        lane_at(a, x, 0),
        lane_at(a, x, 1),
        lane_at(a, x, 2),
        lane_at(a, x, 3),
        lane_at(a, x, 4),
        lane_at(b, x, 0),
        lane_at(b, x, 1),
        lane_at(b, x, 2),
        lane_at(b, x, 3),
        lane_at(b, x, 4),
    );
}

/// Theta is linear: theta of the exclusive or of two states is the
/// exclusive or of their thetas.
pub proof fn lemma_theta_is_linear(a: Seq<u64>, b: Seq<u64>)
    requires
        a.len() == 25,
        b.len() == 25,
    ensures
        spec_theta(xor_states(a, b)) == xor_states(spec_theta(a), spec_theta(b)),
{
    let ab = xor_states(a, b);
    assert forall|i: int| 0 <= i < 25 implies spec_theta(ab)[i] == xor_states(
        spec_theta(a),
        spec_theta(b),
    )[i] by {
        let x = i % 5;
        lemma_parity_is_linear(a, b, x - 1);
        lemma_parity_is_linear(a, b, x + 1);
        assert(rotated(column_parity(ab, x + 1), 1) == (column_parity(ab, x + 1) >> 1) | (
        column_parity(ab, x + 1) << 63));
        bv_theta_of_xor(
            a[i],
            b[i],
            column_parity(a, x - 1),
            column_parity(b, x - 1),
            column_parity(a, x + 1),
            column_parity(b, x + 1),
        );
    }
    assert(spec_theta(ab) =~= xor_states(spec_theta(a), spec_theta(b)));
}

} // verus!
