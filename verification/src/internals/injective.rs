//! The permutation loses nothing: each of its steps, each round and any run
//! of rounds takes two different states to two different states.

use vstd::prelude::*;
use crate::internals::keccak::{
    column_parity, lemma_rounds_compose, lemma_rounds_len, lemma_theta_is_linear, rho_offset, round_constant,
    spec_chi, spec_iota, spec_keccak, spec_pi, spec_rho, spec_round, spec_rounds, spec_theta,
    theta_effect, xor_states,
};
use crate::internals::state::{cell, lane_at, rotated};

verus! {

proof fn bv_theta_kernel(c0: u64, c1: u64, c2: u64, c3: u64, c4: u64)
    by (bit_vector)
    requires
        c0 == c4 ^ ((c1 >> 1) | (c1 << 63)),
        c1 == c0 ^ ((c2 >> 1) | (c2 << 63)),
        c2 == c1 ^ ((c3 >> 1) | (c3 << 63)),
        c3 == c2 ^ ((c4 >> 1) | (c4 << 63)),
        c4 == c3 ^ ((c0 >> 1) | (c0 << 63)),
    ensures
        c0 == 0 && c1 == 0 && c2 == 0 && c3 == 0 && c4 == 0,
{
}

proof fn bv_chi_row(
    a0: u64,
    a1: u64,
    a2: u64,
    a3: u64,
    a4: u64,
    b0: u64,
    b1: u64,
    b2: u64,
    b3: u64,
    b4: u64,
)
    by (bit_vector)
    requires
        a0 ^ (!a1 & a2) == b0 ^ (!b1 & b2),
        a1 ^ (!a2 & a3) == b1 ^ (!b2 & b3),
        a2 ^ (!a3 & a4) == b2 ^ (!b3 & b4),
        a3 ^ (!a4 & a0) == b3 ^ (!b4 & b0),
        a4 ^ (!a0 & a1) == b4 ^ (!b0 & b1),
    ensures
        a0 == b0 && a1 == b1 && a2 == b2 && a3 == b3 && a4 == b4,
{
}

proof fn bv_xor_cancels(x: u64, y: u64, c: u64)
    by (bit_vector)
    ensures
        x ^ x == 0,
        x ^ y == 0 ==> x == y,
        x ^ c == y ^ c ==> x == y,
        x ^ x ^ x ^ x ^ x == x,
        x ^ 0 == x,
        (0u64 >> 1) | (0u64 << 63) == 0,
{
}

proof fn bv_rotation_keeps_apart(x: u64, y: u64, s: u64)
    by (bit_vector)
    requires
        0 < s < 64,
        (x >> s) | (x << (64 - s) as u64) == (y >> s) | (y << (64 - s) as u64),
    ensures
        x == y,
{
}

/// A state that theta takes to the zero state is the zero state.
proof fn lemma_theta_kernel(d: Seq<u64>)
    requires
        d.len() == 25,
        forall|i: int| 0 <= i < 25 ==> spec_theta(d)[i] == 0,
    ensures
        forall|i: int| 0 <= i < 25 ==> d[i] == 0,
{
    // every lane of a column equals the effect of theta on that column
    assert forall|x: int, y: int| 0 <= x < 5 && 0 <= y < 5 implies lane_at(d, x, y)
        == theta_effect(d, x) by {
        let i = cell(x, y);
        assert(spec_theta(d)[i] == d[i] ^ theta_effect(d, i % 5));
        bv_xor_cancels(d[i], theta_effect(d, x), 0);
    }
    // so the parity of a column is that effect too
    assert forall|x: int| 0 <= x < 5 implies column_parity(d, x) == theta_effect(d, x) by {
        bv_xor_cancels(theta_effect(d, x), 0, 0);
    }
    let c0 = column_parity(d, 0);
    let c1 = column_parity(d, 1);
    let c2 = column_parity(d, 2);
    let c3 = column_parity(d, 3);
    let c4 = column_parity(d, 4);
    assert(column_parity(d, -1) == c4);
    assert(column_parity(d, 5) == c0);
    assert(rotated(c0, 1) == (c0 >> 1) | (c0 << 63));
    assert(rotated(c1, 1) == (c1 >> 1) | (c1 << 63));
    assert(rotated(c2, 1) == (c2 >> 1) | (c2 << 63));
    assert(rotated(c3, 1) == (c3 >> 1) | (c3 << 63));
    assert(rotated(c4, 1) == (c4 >> 1) | (c4 << 63));
    bv_theta_kernel(c0, c1, c2, c3, c4);
    bv_xor_cancels(0, 0, 0);
    assert forall|i: int| 0 <= i < 25 implies d[i] == 0 by {
        assert(d[i] == lane_at(d, i % 5, i / 5));
        assert(theta_effect(d, i % 5) == 0);
    }
}

/// Theta takes different states to different states.
pub proof fn lemma_theta_injective(a: Seq<u64>, b: Seq<u64>)
    requires
        a.len() == 25,
        b.len() == 25,
        spec_theta(a) == spec_theta(b),
    ensures
        a == b,
{
    let d = xor_states(a, b);
    lemma_theta_is_linear(a, b);
    assert forall|i: int| 0 <= i < 25 implies spec_theta(d)[i] == 0 by {
        bv_xor_cancels(spec_theta(a)[i], 0, 0);
    }
    lemma_theta_kernel(d);
    assert forall|i: int| 0 <= i < 25 implies a[i] == b[i] by {
        assert(d[i] == a[i] ^ b[i]);
        bv_xor_cancels(a[i], b[i], 0);
    }
    assert(a =~= b);
}

/// Rho takes different states to different states.
pub proof fn lemma_rho_injective(a: Seq<u64>, b: Seq<u64>)
    requires
        a.len() == 25,
        b.len() == 25,
        spec_rho(a) == spec_rho(b),
    ensures
        a == b,
{
    assert forall|i: int| 0 <= i < 25 implies a[i] == b[i] by {
        let n = rho_offset(i % 5, i / 5);
        assert(spec_rho(a)[i] == rotated(a[i], n));
        assert(spec_rho(b)[i] == rotated(b[i], n));
        let s = (n % 64) as u64;
        if s != 0 {
            bv_rotation_keeps_apart(a[i], b[i], s);
        }
    }
    assert(a =~= b);
}

/// The lane that pi moves away from place `j` lands at `pi_target(j)`.
spec fn pi_target(j: int) -> int {
    cell(j / 5, 2 * (j % 5 - j / 5))
}

/// Pi takes different states to different states.
pub proof fn lemma_pi_injective(a: Seq<u64>, b: Seq<u64>)
    requires
        a.len() == 25,
        b.len() == 25,
        spec_pi(a) == spec_pi(b),
    ensures
        a == b,
{
    assert forall|j: int| 0 <= j < 25 implies a[j] == b[j] by {
        let i = pi_target(j);
        assert(0 <= i < 25);
        assert(cell(i % 5 + 3 * (i / 5), i % 5) == j) by {
            let x = j % 5;
            let y = j / 5;
            assert(i % 5 == y);
            assert(i / 5 == (2 * (x - y)) % 5);
            assert((y + 3 * ((2 * (x - y)) % 5)) % 5 == x) by {
                vstd::arithmetic::div_mod::lemma_fundamental_div_mod(2 * (x - y), 5);
                vstd::arithmetic::div_mod::lemma_mod_multiples_vanish(
                    x - y - 3 * ((2 * (x - y)) / 5),
                    x,
                    5,
                );
            }
        }
        assert(spec_pi(a)[i] == a[j]);
        assert(spec_pi(b)[i] == b[j]);
    }
    assert(a =~= b);
}

/// Whether two states hold the same five lanes in row `y`.
spec fn same_row(a: Seq<u64>, b: Seq<u64>, y: int) -> bool {
    &&& a[5 * y] == b[5 * y]
    &&& a[5 * y + 1] == b[5 * y + 1]
    &&& a[5 * y + 2] == b[5 * y + 2]
    &&& a[5 * y + 3] == b[5 * y + 3]
    &&& a[5 * y + 4] == b[5 * y + 4]
}

/// Chi takes different states to different states.
pub proof fn lemma_chi_injective(a: Seq<u64>, b: Seq<u64>)
    requires
        a.len() == 25,
        b.len() == 25,
        spec_chi(a) == spec_chi(b),
    ensures
        a == b,
{
    assert forall|y: int| 0 <= y < 5 implies #[trigger] same_row(a, b, y) by {
        let r = 5 * y;
        assert(spec_chi(a)[r] == a[r] ^ (!a[r + 1] & a[r + 2]));
        assert(spec_chi(a)[r + 1] == a[r + 1] ^ (!a[r + 2] & a[r + 3]));
        assert(spec_chi(a)[r + 2] == a[r + 2] ^ (!a[r + 3] & a[r + 4]));
        assert(spec_chi(a)[r + 3] == a[r + 3] ^ (!a[r + 4] & a[r]));
        assert(spec_chi(a)[r + 4] == a[r + 4] ^ (!a[r] & a[r + 1]));
        assert(spec_chi(b)[r] == b[r] ^ (!b[r + 1] & b[r + 2]));
        assert(spec_chi(b)[r + 1] == b[r + 1] ^ (!b[r + 2] & b[r + 3]));
        assert(spec_chi(b)[r + 2] == b[r + 2] ^ (!b[r + 3] & b[r + 4]));
        assert(spec_chi(b)[r + 3] == b[r + 3] ^ (!b[r + 4] & b[r]));
        assert(spec_chi(b)[r + 4] == b[r + 4] ^ (!b[r] & b[r + 1]));
        bv_chi_row(
            a[r],
            a[r + 1],
            a[r + 2],
            a[r + 3],
            a[r + 4],
            b[r],
            b[r + 1],
            b[r + 2],
            b[r + 3],
            b[r + 4],
        );
    }
    assert forall|i: int| 0 <= i < 25 implies a[i] == b[i] by {
        assert(same_row(a, b, i / 5));
    }
    assert(a =~= b);
}

/// Iota takes different states to different states.
pub proof fn lemma_iota_injective(a: Seq<u64>, b: Seq<u64>, i: int)
    requires
        a.len() == 25,
        b.len() == 25,
        spec_iota(a, i) == spec_iota(b, i),
    ensures
        a == b,
{
    assert forall|k: int| 0 <= k < 25 implies a[k] == b[k] by {
        if k == 0 {
            assert(spec_iota(a, i)[0] == a[0] ^ round_constant(i));
            assert(spec_iota(b, i)[0] == b[0] ^ round_constant(i));
            bv_xor_cancels(a[0], b[0], round_constant(i));
        } else {
            assert(spec_iota(a, i)[k] == a[k]);
            assert(spec_iota(b, i)[k] == b[k]);
        }
    }
    assert(a =~= b);
}

/// A round takes different states to different states.
pub proof fn lemma_round_injective(a: Seq<u64>, b: Seq<u64>, i: int)
    requires
        a.len() == 25,
        b.len() == 25,
        spec_round(a, i) == spec_round(b, i),
    ensures
        a == b,
{
    lemma_iota_injective(
        spec_chi(spec_pi(spec_rho(spec_theta(a)))),
        spec_chi(spec_pi(spec_rho(spec_theta(b)))),
        i,
    );
    lemma_chi_injective(spec_pi(spec_rho(spec_theta(a))), spec_pi(spec_rho(spec_theta(b))));
    lemma_pi_injective(spec_rho(spec_theta(a)), spec_rho(spec_theta(b)));
    lemma_rho_injective(spec_theta(a), spec_theta(b));
    lemma_theta_injective(a, b);
}

/// Any run of rounds takes different states to different states.
pub proof fn lemma_rounds_injective(a: Seq<u64>, b: Seq<u64>, from: int, to: int)
    requires
        a.len() == 25,
        b.len() == 25,
        spec_rounds(a, from, to) == spec_rounds(b, from, to),
    ensures
        a == b,
    decreases to - from,
{
    if from < to {
        lemma_rounds_len(a, from, to - 1);
        lemma_rounds_len(b, from, to - 1);
        lemma_round_injective(spec_rounds(a, from, to - 1), spec_rounds(b, from, to - 1), to - 1);
        lemma_rounds_injective(a, b, from, to - 1);
    }
}

/// The permutation takes different states to different states, whatever
/// the number of rounds.
pub proof fn lemma_keccak_injective(a: Seq<u64>, b: Seq<u64>, rounds: int)
    requires
        a.len() == 25,
        b.len() == 25,
        spec_keccak(a, rounds) == spec_keccak(b, rounds),
    ensures
        a == b,
{
    lemma_rounds_injective(a, b, 24 - rounds, 24);
}

/// Twelve rounds applied twice are the full twenty-four rounds on no
/// other state than those on which the first twelve rounds do what the
/// last twelve do.
pub proof fn lemma_twelve_rounds_twice_only_there(a: Seq<u64>)
    requires
        a.len() == 25,
        spec_keccak(spec_keccak(a, 12), 12) == spec_keccak(a, 24),
    ensures
        spec_rounds(a, 0, 12) == spec_keccak(a, 12),
{
    lemma_rounds_compose(a, 0, 12, 24);
    lemma_rounds_len(a, 0, 12);
    lemma_rounds_len(a, 12, 24);
    lemma_rounds_injective(spec_rounds(a, 0, 12), spec_keccak(a, 12), 12, 24);
}

} // verus!
