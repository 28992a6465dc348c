//! The 1600-bit Keccak state: 5 x 5 lanes of 64 bits.

use vstd::prelude::*;
use core::ops::IndexMut;

verus! {

/// Reduction of a coordinate into `0..m`.
pub trait Modulus: Sized {
    /// The residue that [`Modulus::md`] computes.
    spec fn md_spec(&self, m: usize) -> Self;

    /// Normalises `self` into `0..m`, also when `self` is negative.
    fn md(&self, m: usize) -> (r: Self)
        requires
            0 < m <= i64::MAX,
        ensures
            r == self.md_spec(m),
    ;
}

impl Modulus for i64 {
    open spec fn md_spec(&self, m: usize) -> i64 {
        (*self as int % m as int) as i64
    }

    fn md(&self, m: usize) -> (r: i64) {
        let step: i64 = m as i64;
        let mut x: i64 = *self;
        while x < 0
            invariant
                0 < step,
                x as int % step as int == *self as int % step as int,
            decreases (if x < 0 { -(x as int) } else { 0 }),
        {
            proof {
                vstd::arithmetic::div_mod::lemma_mod_add_multiples_vanish(x as int, step as int);
            }
            x = x + step;
        }
        while x >= step
            invariant
                0 < step,
                0 <= x,
                x as int % step as int == *self as int % step as int,
            decreases x,
        {
            proof {
                vstd::arithmetic::div_mod::lemma_mod_sub_multiples_vanish(x as int, step as int);
            }
            x = x - step;
        }
        proof {
            vstd::arithmetic::div_mod::lemma_small_mod(x as nat, step as nat);
        }
        x
    }
}

/// How far bit `z` of a lane lies above the least significant bit of its
/// word: bit 0 is the most significant one, and `z` wraps modulo 64.
pub open spec fn bit_shift(z: int) -> u64 {
    (63 - z % 64) as u64
}

/// Bit `z` of the word `w`, as 0 or 1.
pub open spec fn word_bit(w: u64, z: int) -> u8 {
    ((w >> bit_shift(z)) & 1) as u8
}

/// The word `w` after bit `z` was written with `v`: the bit is flipped where
/// it differs from `v`, and nothing happens where it already equals `v`.
pub open spec fn word_with_bit(w: u64, z: int, v: u8) -> u64 {
    if word_bit(w, z) != v {
        w ^ (1u64 << bit_shift(z))
    } else {
        w
    }
}

/// The word whose first `n` bits (bit indices `0..n`) are set.
pub open spec fn leading_mask(n: int) -> u64 {
    if n <= 0 {
        0
    } else if n >= 64 {
        u64::MAX
    } else {
        !(u64::MAX >> (n as u64))
    }
}

/// The word `w` with every bit moved `n` places up the bit index, cyclically:
/// bit `z` of the result is bit `z - n` of `w`.
pub open spec fn rotated(w: u64, n: int) -> u64 {
    let s = (n % 64) as u64;
    if s == 0 {
        w
    } else {
        (w >> s) | (w << ((64 - s) as u64))
    }
}

proof fn bv_bit_is_binary(w: u64, k: u64)
    by (bit_vector)
    requires
        k < 64,
    ensures
        (w >> k) & 1 <= 1,
        (w >> k) % 2 == (w >> k) & 1,
{
}

proof fn bv_bit_after_flip(w: u64, k: u64, j: u64)
    by (bit_vector)
    requires
        k < 64,
        j < 64,
    ensures
        ((w ^ (1u64 << k)) >> j) & 1 == (if j == k {
            if (w >> j) & 1 == 1 {
                0u64
            } else {
                1u64
            }
        } else {
            (w >> j) & 1
        }),
{
}

proof fn bv_write_next_bit(a: u64, t: u64, z: u64)
    by (bit_vector)
    requires
        z < 64,
        a == t & (if z == 0 {
            0
        } else {
            !(u64::MAX >> z)
        }),
    ensures
        (a >> (63 - z) as u64) & 1 == 0,
        (if (t >> (63 - z) as u64) & 1 == 1 {
            a ^ (1u64 << (63 - z) as u64)
        } else {
            a
        }) == t & (if z == 63 {
            u64::MAX
        } else {
            !(u64::MAX >> (z + 1) as u64)
        }),
{
}

proof fn bv_bit_of_xor(a: u64, b: u64, k: u64)
    by (bit_vector)
    requires
        k < 64,
    ensures
        (((a ^ b) >> k) & 1) as u8 == (((a >> k) & 1) as u8) ^ (((b >> k) & 1) as u8),
{
}

proof fn bv_bit_of_rotated(w: u64, s: u64, k: u64)
    by (bit_vector)
    requires
        0 < s < 64,
        k < 64,
    ensures
        (((w >> s) | (w << (64 - s) as u64)) >> k) & 1 == (w >> ((k + s) % 64) as u64) & 1,
{
}

/// Every bit is 0 or 1.
pub proof fn lemma_bit_is_binary(w: u64, z: int)
    ensures
        word_bit(w, z) <= 1,
        word_bit(w, z) == (w >> bit_shift(z)) & 1,
{
    bv_bit_is_binary(w, bit_shift(z));
}

/// After a write of 0 or 1 the written bit holds that value, and every
/// other bit is as before.
pub proof fn lemma_bit_after_write(w: u64, z: int, v: u8, j: int)
    requires
        v <= 1,
    ensures
        word_bit(word_with_bit(w, z, v), j) == (if j % 64 == z % 64 {
            v
        } else {
            word_bit(w, j)
        }),
{
    bv_bit_is_binary(w, bit_shift(z));
    bv_bit_is_binary(w, bit_shift(j));
    bv_bit_after_flip(w, bit_shift(z), bit_shift(j));
}

/// Writing the bits of `t` into a zero word one by one, in rising order,
/// has produced the first `z + 1` bits of `t` after bit `z` was written.
pub proof fn lemma_write_next_bit(a: u64, t: u64, z: int)
    requires
        0 <= z < 64,
        a == t & leading_mask(z),
    ensures
        word_with_bit(a, z, word_bit(t, z)) == t & leading_mask(z + 1),
{
    bv_write_next_bit(a, t, z as u64);
    bv_bit_is_binary(t, bit_shift(z));
}

/// The first 64 bits of a word are all of it, and the first none are zero.
pub proof fn lemma_leading_mask_ends(t: u64)
    ensures
        t & leading_mask(0) == 0,
        t & leading_mask(64) == t,
{
    assert(t & 0 == 0) by (bit_vector);
    assert(t & u64::MAX == t) by (bit_vector);
}

/// A bit of an exclusive or is the exclusive or of the bits.
pub proof fn lemma_bit_of_xor(a: u64, b: u64, z: int)
    ensures
        word_bit(a ^ b, z) == word_bit(a, z) ^ word_bit(b, z),
{
    bv_bit_of_xor(a, b, bit_shift(z));
}

/// Bit `z` of a word rotated by `n` is bit `z - n` of the word.
pub proof fn lemma_bit_of_rotated(w: u64, n: int, z: int)
    ensures
        word_bit(rotated(w, n), z) == word_bit(w, z - n),
{
    let s = (n % 64) as u64;
    let k = bit_shift(z);
    if s != 0 {
        bv_bit_of_rotated(w, s, k);
        assert(bit_shift(z - n) == ((k + s) % 64) as u64) by {
            let q = (z - n) % 64;
            assert(q == (z % 64 - n % 64) % 64) by {
                vstd::arithmetic::div_mod::lemma_sub_mod_noop(z, n, 64);
            }
        }
    } else {
        assert((z - n) % 64 == z % 64) by {
            vstd::arithmetic::div_mod::lemma_sub_mod_noop(z, n, 64);
        }
    }
}

/// One 64-bit lane. Bit index 0 is the most significant bit of the word.
#[derive(Debug, Clone, Copy)]
pub struct Lane(pub u64);

/// Five lanes along one axis of the state.
#[derive(Debug, Clone, Copy)]
pub struct Sheet(pub [Lane; 5]);

/// The 5 x 5 lanes of the state; `self.0[x].0[y]` is lane `(x, y)`.
#[derive(Debug, Clone, Copy)]
pub struct State(pub [Sheet; 5]);

impl Lane {
    /// Bit `z` of the lane.
    pub open spec fn bit(self, z: int) -> u8 {
        word_bit(self.0, z)
    }

    /// The lane after `set(z, v)`.
    pub open spec fn with_bit(self, z: int, v: u8) -> Lane {
        Lane(word_with_bit(self.0, z, v))
    }

    /// Reads bit `index`, which wraps modulo 64.
    pub fn get(&self, index: i64) -> (r: u8)
        ensures
            r == self.bit(index as int),
            r <= 1,
    {
        let num = self.0;
        let shift = (63 - index.md(64)) as u64;
        assert(shift == bit_shift(index as int));
        let res = (num >> shift) % 2;
        assert((num >> shift) % 2 == (num >> shift) & 1 && (num >> shift) & 1 <= 1) by (bit_vector);
        res as u8
    }

    /// Writes bit `index`, which wraps modulo 64. The lane changes only
    /// where the bit differs from `value`.
    pub fn set(&mut self, index: i64, value: u8)
        ensures
            *final(self) == old(self).with_bit(index as int, value),
    {
        if self.get(index) != value {
            let shift = (63 - index.md(64)) as u64;
            self.0 = self.0 ^ (1u64 << shift);
        }
    }
}

impl core::ops::Index<i64> for Sheet {
    type Output = Lane;

    fn index(&self, index: i64) -> (r: &Lane)
        ensures
            *r == self.0[index as int % 5],
    {
        &self.0[index.md(5) as usize]
    }
}

impl core::ops::IndexMut<i64> for Sheet {
    fn index_mut(&mut self, index: i64) -> (r: &mut Lane)
        ensures
            *r == old(self).0[index as int % 5],
            final(self).0@ == old(self).0@.update(index as int % 5, *final(r)),
    {
        &mut self.0[index.md(5) as usize]
    }
}

impl core::ops::Index<i64> for State {
    type Output = Sheet;

    fn index(&self, index: i64) -> (r: &Sheet)
        ensures
            *r == self.0[index as int % 5],
    {
        &self.0[index.md(5) as usize]
    }
}

impl core::ops::IndexMut<i64> for State {
    fn index_mut(&mut self, index: i64) -> (r: &mut Sheet)
        ensures
            *r == old(self).0[index as int % 5],
            final(self).0@ == old(self).0@.update(index as int % 5, *final(r)),
    {
        &mut self.0[index.md(5) as usize]
    }
}

impl vstd::std_specs::core::IndexSpecImpl<i64> for Sheet {
    open spec fn index_req(&self, index: &i64) -> bool {
        true
    }
}

impl vstd::std_specs::core::IndexSpecImpl<i64> for State {
    open spec fn index_req(&self, index: &i64) -> bool {
        true
    }
}

/// The place of lane `(x, y)` in the canonical word order; both coordinates
/// wrap modulo 5.
pub open spec fn cell(x: int, y: int) -> int {
    x % 5 + 5 * (y % 5)
}

/// Lane `(x, y)` of a state given as its 25 words.
pub open spec fn lane_at(words: Seq<u64>, x: int, y: int) -> u64 {
    words[cell(x, y)]
}

/// Bit `(x, y, z)` of a state given as its 25 words.
pub open spec fn bit_at(words: Seq<u64>, x: int, y: int, z: int) -> u8 {
    word_bit(lane_at(words, x, y), z)
}

/// The first 25 places of `words`, with zero where `words` has ended.
pub open spec fn zero_extended(words: Seq<u64>) -> Seq<u64> {
    Seq::new(25, |i: int| if i < words.len() { words[i] } else { 0u64 })
}

impl View for State {
    type V = Seq<u64>;

    /// The 25 lanes in canonical word order: word `i` is lane
    /// `(i mod 5, i div 5)`.
    open spec fn view(&self) -> Seq<u64> {
        Seq::new(25, |i: int| self.0[i % 5].0[i / 5].0)
    }
}

impl Default for Lane {
    fn default() -> (r: Lane)
        ensures
            r.0 == 0,
    {
        Lane(0)
    }
}

impl Default for Sheet {
    fn default() -> (r: Sheet)
        ensures
            forall|y: int| 0 <= y < 5 ==> (#[trigger] r.0[y]).0 == 0,
    {
        Sheet([Lane(0); 5])
    }
}

impl Default for State {
    fn default() -> (r: State)
        ensures
            r@ == Seq::new(25, |i: int| 0u64),
    {
        let r = State([Sheet([Lane(0); 5]); 5]);
        assert(r@ =~= Seq::new(25, |i: int| 0u64));
        r
    }
}

/// Writing lane `(x, y)` changes word `cell(x, y)` of the view and no other.
pub proof fn lemma_view_after_write(before: State, after: State, x: int, y: int)
    requires
        after.0@ == before.0@.update(x % 5, after.0[x % 5]),
        after.0[x % 5].0@ == before.0[x % 5].0@.update(y % 5, after.0[x % 5].0[y % 5]),
    ensures
        after@ == before@.update(cell(x, y), after.0[x % 5].0[y % 5].0),
{
    assert forall|i: int| 0 <= i < 25 implies after@[i] == before@.update(
        cell(x, y),
        after.0[x % 5].0[y % 5].0,
    )[i] by {
        if i % 5 == x % 5 {
            assert(after.0[i % 5].0@[i / 5] == before.0[i % 5].0@.update(
                y % 5,
                after.0[x % 5].0[y % 5],
            )[i / 5]);
        } else {
            assert(after.0@[i % 5] == before.0@[i % 5]);
        }
    }
    assert(after@ =~= before@.update(cell(x, y), after.0[x % 5].0[y % 5].0));
}

/// Writing a bit with the value it already holds changes nothing.
pub proof fn lemma_set_same_bit_is_noop(lane: Lane, z: int)
    ensures
        lane.with_bit(z, lane.bit(z)) == lane,
{
}

/// Writing the same bit twice with the same value is the same as writing
/// it once.
pub proof fn lemma_set_is_idempotent(lane: Lane, z: int, v: u8)
    requires
        v <= 1,
    ensures
        lane.with_bit(z, v).with_bit(z, v) == lane.with_bit(z, v),
        lane.with_bit(z, v).bit(z) == v,
{
    lemma_bit_after_write(lane.0, z, v, z);
}

/// Twenty-five words marshalled into a state and back are the same words.
pub proof fn lemma_state_round_trip(words: Seq<u64>)
    requires
        words.len() == 25,
    ensures
        zero_extended(words) == words,
{
    assert(zero_extended(words) =~= words);
}

/// Turns up to 25 words into a state: word `i` becomes lane
/// `(i mod 5, i div 5)`, and the lanes that `v` does not reach are zero.
pub fn to_state(v: &Vec<u64>) -> (r: State)
    requires
        v.len() <= 25,
    ensures
        r@ == zero_extended(v@),
        v.len() == 25 ==> r@ == v@,
{
    let mut res = State::default();
    let mut x: i64 = 0;
    let mut y: i64 = 0;
    let mut k: usize = 0;
    while k < v.len()
        invariant
            k <= v.len() <= 25,
            0 <= x < 5,
            0 <= y <= 5,
            k == x + 5 * y,
            res@ == zero_extended(v@.take(k as int)),
        decreases v.len() - k,
    {
        let word = v[k];
        let ghost before = res;
        *res.index_mut(x).index_mut(y) = Lane(word);
        proof {
            lemma_view_after_write(before, res, x as int, y as int);
            assert(res@ =~= zero_extended(v@.take(k + 1)));
        }
        x = x + 1;
        if x >= 5 {
            y = y + 1;
            x = 0;
        }
        k = k + 1;
    }
    assert(v@.take(k as int) =~= v@);
    proof {
        if v.len() == 25 {
            lemma_state_round_trip(v@);
        }
    }
    res
}

/// The 25 lanes of a state as words in canonical order.
pub fn from_state(state: &State) -> (r: [u64; 25])
    ensures
        r@ == state@,
{
    let mut res = [0u64; 25];
    let mut x: i64 = 0;
    while x < 5
        invariant
            0 <= x <= 5,
            forall|i: int| 0 <= i < 25 && i % 5 < x ==> res@[i] == state@[i],
        decreases 5 - x,
    {
        let mut y: i64 = 0;
        while y < 5
            invariant
                0 <= x < 5,
                0 <= y <= 5,
                forall|i: int| 0 <= i < 25 && i % 5 < x ==> res@[i] == state@[i],
                forall|i: int| 0 <= i < 25 && i % 5 == x && i / 5 < y ==> res@[i] == state@[i],
            decreases 5 - y,
        {
            let i = (x + y * 5) as usize;
            res[i] = state[x][y].0;
            y = y + 1;
        }
        x = x + 1;
    }
    assert(res@ =~= state@);
    res
}

} // verus!
