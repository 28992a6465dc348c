//! Message encoding and padding.

use vstd::prelude::*;
use vstd::arithmetic::power2::{lemma2_to64, lemma2_to64_rest, pow2};
use vstd::string::{StrSliceExecFns, StringSliceAdditionalSpecFns};
use crate::internals::state::{lemma_bit_is_binary, word_bit};

verus! {

/// The byte `b` with its eight bits in reverse order.
pub open spec fn reversed_bits(b: u8) -> u8 {
    ((b & 0x01) << 7) | ((b & 0x02) << 5) | ((b & 0x04) << 3) | ((b & 0x08) << 1) | ((b & 0x10)
        >> 1) | ((b & 0x20) >> 3) | ((b & 0x40) >> 5) | ((b & 0x80) >> 7)
}

/// `u8::reverse_bits` of the standard library: the least significant bit
/// becomes the most significant one, the second least significant bit the
/// second most significant one, and so on. Taken on trust.
pub assume_specification[ u8::reverse_bits ](x: u8) -> (r: u8)
    ensures
        r == reversed_bits(x),
;

/// Turning a byte round twice gives the byte again.
pub proof fn lemma_reversed_twice(b: u8)
    ensures
        reversed_bits(reversed_bits(b)) == b,
{
    assert(reversed_bits(reversed_bits(b)) == b) by (bit_vector);
}

/// Turns each byte round, bit for bit: from the bit order of the published
/// digests to the bit order of the lanes, or back.
pub fn flip_ordering(v: &Vec<u8>) -> (r: Vec<u8>)
    ensures
        r@ == v@.map_values(|b: u8| reversed_bits(b)),
{
    let mut res: Vec<u8> = Vec::new();
    let mut k: usize = 0;
    while k < v.len()
        invariant
            k <= v.len(),
            res@ == v@.take(k as int).map_values(|b: u8| reversed_bits(b)),
        decreases v.len() - k,
    {
        res.push(v[k].reverse_bits());
        k = k + 1;
        assert(res@ =~= v@.take(k as int).map_values(|b: u8| reversed_bits(b)));
    }
    assert(v@.take(k as int) =~= v@);
    res
}

/// The UTF-8 bytes of `s`, each turned round for the lanes.
pub fn le_encoding(s: &str) -> (r: Vec<u8>)
    ensures
        r@ == s.spec_bytes().map_values(|b: u8| reversed_bits(b)),
{
    let bytes = be_encoding(s);
    flip_ordering(&bytes)
}

/// The UTF-8 bytes of `s` as they are.
pub fn be_encoding(s: &str) -> (r: Vec<u8>)
    ensures
        r@ == s.spec_bytes(),
{
    s.as_bytes_vec()
}

/// Byte `k` of the word `w`, byte 0 being the most significant one.
pub open spec fn be_byte(w: u64, k: int) -> u8 {
    ((w >> ((8 * (7 - k)) as u64)) & 0xff) as u8
}

/// The bytes of the words, each word most significant byte first.
pub open spec fn spec_split_bytes(words: Seq<u64>) -> Seq<u8> {
    Seq::new(8 * words.len(), |i: int| be_byte(words[i / 8], i % 8))
}

proof fn bv_next_byte(w: u64, s: u64)
    by (bit_vector)
    requires
        s <= 56,
        s % 8 == 0,
    ensures
        (w >> s) & 0xff <= 0xff,
        (w >> s) >> 8 == w >> ((s + 8) as u64),
        w >> 0 == w,
{
}

/// Splits words into bytes, most significant byte first.
pub fn split_bytes(v: &Vec<u64>) -> (r: Vec<u8>)
    ensures
        r@ == spec_split_bytes(v@),
{
    let mut res: Vec<u8> = Vec::new();
    let mut k: usize = 0;
    while k < v.len()
        invariant
            k <= v.len(),
            res@ == spec_split_bytes(v@.take(k as int)),
        decreases v.len() - k,
    {
        let mut word = v[k];
        let ghost whole = word;
        let mut byte_list = [0u8;8];
        let mut i: usize = 0;
        proof {
            bv_next_byte(whole, 0);
        }
        while i < 8
            invariant
                0 <= i <= 8,
                word == whole >> ((8 * i) as u64),
                forall|j: int| 8 - i <= j < 8 ==> byte_list@[j] == be_byte(whole, j),
            decreases 8 - i,
        {
            proof {
                bv_next_byte(whole, (8 * i) as u64);
                assert((word & 0xff) <= 0xff) by (bit_vector);
            }
            byte_list[7 - i] = (word & 0xff) as u8;
            word >>= 8;
            i = i + 1;
        }
        let mut i: usize = 0;
        let ghost before = res@;
        while i < 8
            invariant
                0 <= i <= 8,
                forall|j: int| 0 <= j < 8 ==> byte_list@[j] == be_byte(whole, j),
                res@ == before + Seq::new(i as nat, |j: int| be_byte(whole, j)),
            decreases 8 - i,
        {
            res.push(byte_list[i]);
            i = i + 1;
            assert(res@ =~= before + Seq::new(i as nat, |j: int| be_byte(whole, j)));
        }
        k = k + 1;
        assert(res@ =~= spec_split_bytes(v@.take(k as int)));
    }
    assert(v@.take(k as int) =~= v@);
    res
}

/// The number that `bits` spell, the first bit being the most significant.
pub open spec fn bits_value(bits: Seq<bool>) -> nat
    decreases bits.len(),
{
    if bits.len() == 0 {
        0
    } else {
        2 * bits_value(bits.drop_last()) + (if bits.last() {
            1nat
        } else {
            0nat
        })
    }
}

/// The byte that closes a message: from the most significant bit down, the
/// bits of the domain suffix, a single 1 bit, and zeros. With at most six
/// suffix bits the least significant bit stays 0.
pub open spec fn suffix_byte(suffix: Seq<bool>) -> u8 {
    ((2 * bits_value(suffix) + 1) * pow2((7 - suffix.len()) as nat)) as u8
}

/// The number that `bytes` spell, the first byte being the most significant.
pub open spec fn be_value(bytes: Seq<u8>) -> nat
    decreases bytes.len(),
{
    if bytes.len() == 0 {
        0
    } else {
        256 * be_value(bytes.drop_last()) + bytes.last() as nat
    }
}

/// Word `k` of a byte string: the eight bytes from `8k` on, big-endian.
pub open spec fn be_word(bytes: Seq<u8>, k: int) -> u64 {
    be_value(bytes.subrange(8 * k, 8 * k + 8)) as u64
}

/// The message, the closing byte, and zero bytes up to the next multiple
/// of eight bytes.
pub open spec fn closed_message(message: Seq<u8>, suffix: Seq<bool>) -> Seq<u8> {
    Seq::new(
        (8 * (message.len() / 8 + 1)) as nat,
        |i: int|
            if i < message.len() {
                message[i]
            } else if i == message.len() {
                suffix_byte(suffix)
            } else {
                0u8
            },
    )
}

/// The words of the closed message.
pub open spec fn spec_merge_bytes(message: Seq<u8>, suffix: Seq<bool>) -> Seq<u64> {
    Seq::new(message.len() / 8 + 1, |k: int| be_word(closed_message(message, suffix), k))
}

/// `n` bits spell a number below `2^n`.
pub proof fn lemma_bits_value_bound(bits: Seq<bool>)
    ensures
        bits_value(bits) < pow2(bits.len()),
    decreases bits.len(),
{
    if bits.len() == 0 {
        lemma2_to64();
    } else {
        lemma_bits_value_bound(bits.drop_last());
        vstd::arithmetic::power2::lemma_pow2_unfold(bits.len());
    }
}

/// The closing byte fits a byte and is even.
pub proof fn lemma_suffix_byte(suffix: Seq<bool>)
    requires
        suffix.len() <= 6,
    ensures
        suffix_byte(suffix) == (2 * bits_value(suffix) + 1) * pow2((7 - suffix.len()) as nat),
        suffix_byte(suffix) % 2 == 0,
        0 < suffix_byte(suffix) <= 254,
{
    let k = suffix.len();
    let v = 2 * bits_value(suffix) + 1;
    let rest = pow2((6 - k) as nat);
    lemma_bits_value_bound(suffix);
    lemma2_to64();
    vstd::arithmetic::power2::lemma_pow2_unfold((7 - k) as nat);
    vstd::arithmetic::power2::lemma_pow2_adds(k + 1, (6 - k) as nat);
    vstd::arithmetic::power2::lemma_pow2_unfold(k + 1);
    vstd::arithmetic::power2::lemma_pow2_pos((6 - k) as nat);
    assert(pow2((7 - k) as nat) == 2 * rest);
    assert(v * (2 * rest) == 2 * (v * rest)) by (nonlinear_arith);
    assert(v <= pow2(k + 1) - 1);
    assert(pow2(k + 1) * rest == 128);
    assert(v * rest <= (pow2(k + 1) - 1) * rest) by (nonlinear_arith)
        requires
            v <= pow2(k + 1) - 1,
            rest > 0,
    ;
    assert((pow2(k + 1) - 1) * rest == pow2(k + 1) * rest - rest) by (nonlinear_arith);
    assert(v * rest >= 1) by (nonlinear_arith)
        requires
            v >= 1,
            rest >= 1,
    ;
}

proof fn bv_double(x: u8)
    by (bit_vector)
    requires
        x < 128,
    ensures
        x << 1 == 2 * x,
{
}

/// The closing byte for a domain suffix of at most six bits.
pub fn suffix_to_u8(suffix: &Vec<bool>) -> (r: u8)
    requires
        suffix.len() <= 6,
    ensures
        r == suffix_byte(suffix@),
{
    let mut res: u8 = 0;
    let mut count: usize = 6;
    let mut k: usize = 0;
    proof {
        lemma2_to64();
    }
    while k < suffix.len()
        invariant
            k <= suffix.len() <= 6,
            count == 6 - k,
            res == bits_value(suffix@.take(k as int)),
            res < pow2(k as nat) <= 64,
        decreases suffix.len() - k,
    {
        let b = suffix[k];
        proof {
            bv_double(res);
            assert(suffix@.take(k + 1).drop_last() =~= suffix@.take(k as int));
            vstd::arithmetic::power2::lemma_pow2_unfold((k + 1) as nat);
            lemma2_to64();
        }
        res = (res << 1) + (if b {
            1
        } else {
            0
        });
        count -= 1;
        k = k + 1;
    }
    assert(suffix@.take(k as int) =~= suffix@);
    proof {
        bv_double(res);
    }
    res = (res << 1) + 1;

    let ghost head = res;
    let mut j: usize = 0;
    while j < count
        invariant
            j <= count == 6 - suffix.len(),
            head == 2 * bits_value(suffix@) + 1,
            head < 2 * pow2(suffix@.len()),
            res == head * pow2(j as nat),
            res < 2 * pow2(suffix@.len()) * pow2(j as nat),
        decreases count - j,
    {
        proof {
            lemma2_to64();
            vstd::arithmetic::power2::lemma_pow2_adds(suffix@.len(), j as nat);
            vstd::arithmetic::power2::lemma_pow2_adds(suffix@.len(), (j + 1) as nat);
            vstd::arithmetic::power2::lemma_pow2_unfold((j + 1) as nat);
            assert(2 * pow2(suffix@.len()) * pow2(j as nat) == 2 * (pow2(suffix@.len()) * pow2(
                j as nat,
            ))) by (nonlinear_arith);
            assert(2 * pow2(suffix@.len()) * pow2((j + 1) as nat) == 2 * (pow2(suffix@.len())
                * pow2((j + 1) as nat))) by (nonlinear_arith);
            assert(pow2(suffix@.len() + j as nat) <= 64) by {
                lemma2_to64();
            }
            bv_double(res);
            assert(head * (2 * pow2(j as nat)) == 2 * (head * pow2(j as nat))) by (nonlinear_arith);
        }
        res = res << 1;
        j = j + 1;
    }
    proof {
        lemma2_to64();
        lemma_suffix_byte(suffix@);
        vstd::arithmetic::power2::lemma_pow2_adds(suffix@.len(), j as nat);
        vstd::arithmetic::power2::lemma_pow2_unfold((7 - suffix@.len()) as nat);
        assert(2 * pow2(suffix@.len()) * pow2(j as nat) == 2 * (pow2(suffix@.len()) * pow2(
            j as nat,
        ))) by (nonlinear_arith);
        assert(pow2(suffix@.len() + j as nat) == 64);
        bv_double(res);
        assert(head * (2 * pow2(j as nat)) == 2 * (head * pow2(j as nat))) by (nonlinear_arith);
    }
    return res << 1;
}

/// One more byte at the end: the number moves up by a byte and takes it in.
pub proof fn lemma_be_value_push(bytes: Seq<u8>, b: u8)
    ensures
        be_value(bytes.push(b)) == 256 * be_value(bytes) + b,
{
    assert(bytes.push(b).drop_last() =~= bytes);
}

/// Eight bytes spell the sum of their place values.
pub proof fn lemma_be_value_eight(bytes: Seq<u8>)
    requires
        bytes.len() == 8,
    ensures
        be_value(bytes) == bytes[0] * 0x0100_0000_0000_0000 + bytes[1] * 0x0001_0000_0000_0000
            + bytes[2] * 0x0000_0100_0000_0000 + bytes[3] * 0x0000_0001_0000_0000 + bytes[4]
            * 0x0000_0000_0100_0000 + bytes[5] * 0x0000_0000_0001_0000 + bytes[6]
            * 0x0000_0000_0000_0100 + bytes[7],
{
    let b7 = bytes.take(7);
    let b6 = bytes.take(6);
    let b5 = bytes.take(5);
    let b4 = bytes.take(4);
    let b3 = bytes.take(3);
    let b2 = bytes.take(2);
    let b1 = bytes.take(1);
    let b0 = bytes.take(0);
    assert(be_value(b0) == 0);
    assert(b1 =~= b0.push(bytes[0]));
    lemma_be_value_push(b0, bytes[0]);
    assert(b2 =~= b1.push(bytes[1]));
    lemma_be_value_push(b1, bytes[1]);
    assert(b3 =~= b2.push(bytes[2]));
    lemma_be_value_push(b2, bytes[2]);
    assert(b4 =~= b3.push(bytes[3]));
    lemma_be_value_push(b3, bytes[3]);
    assert(b5 =~= b4.push(bytes[4]));
    lemma_be_value_push(b4, bytes[4]);
    assert(b6 =~= b5.push(bytes[5]));
    lemma_be_value_push(b5, bytes[5]);
    assert(b7 =~= b6.push(bytes[6]));
    lemma_be_value_push(b6, bytes[6]);
    assert(bytes =~= b7.push(bytes[7]));
    lemma_be_value_push(b7, bytes[7]);
}

proof fn bv_word_of_bytes(w: u64)
    by (bit_vector)
    ensures
        w == ((w >> 56) & 0xff) * 0x0100_0000_0000_0000 + ((w >> 48) & 0xff)
            * 0x0001_0000_0000_0000 + ((w >> 40) & 0xff) * 0x0000_0100_0000_0000 + ((w >> 32)
            & 0xff) * 0x0000_0001_0000_0000 + ((w >> 24) & 0xff) * 0x0000_0000_0100_0000 + ((w
            >> 16) & 0xff) * 0x0000_0000_0001_0000 + ((w >> 8) & 0xff) * 0x0000_0000_0000_0100 + ((w
            >> 0) & 0xff),
        (w >> 56) & 0xff <= 0xff,
        (w >> 48) & 0xff <= 0xff,
        (w >> 40) & 0xff <= 0xff,
        (w >> 32) & 0xff <= 0xff,
        (w >> 24) & 0xff <= 0xff,
        (w >> 16) & 0xff <= 0xff,
        (w >> 8) & 0xff <= 0xff,
        (w >> 0) & 0xff <= 0xff,
{
}

proof fn bv_bit_of_byte(w: u64, z: u64)
    by (bit_vector)
    requires
        z < 64,
    ensures
        (w >> ((63 - z) as u64)) & 1 == ((((w >> ((8 * (7 - z / 8)) as u64)) & 0xff) as u8) >> ((7
            - z % 8) as u8)) & 1,
{
}

/// Words split into bytes and packed again are the same words.
pub proof fn lemma_split_then_merge(words: Seq<u64>, k: int)
    requires
        0 <= k < words.len(),
    ensures
        be_word(spec_split_bytes(words), k) == words[k],
{
    let bytes = spec_split_bytes(words).subrange(8 * k, 8 * k + 8);
    assert forall|i: int| 0 <= i < 8 implies bytes[i] == be_byte(words[k], i) by {
        assert((8 * k + i) / 8 == k && (8 * k + i) % 8 == i);
    }
    lemma_be_value_eight(bytes);
    bv_word_of_bytes(words[k]);
}

/// The bytes of a lane hold its bits in the order of the bit index: bit `z`
/// of the lane is bit `z mod 8` of its byte `z div 8`, counted from the
/// most significant bit of the byte.
pub proof fn lemma_bits_follow_bytes(w: u64, z: int)
    requires
        0 <= z < 64,
    ensures
        word_bit(w, z) == (be_byte(w, z / 8) >> ((7 - z % 8) as u8)) & 1,
{
    bv_bit_of_byte(w, z as u64);
    lemma_bit_is_binary(w, z);
}

/// `n` bytes spell a number below `2^(8n)`.
pub proof fn lemma_be_value_bound(bytes: Seq<u8>)
    ensures
        be_value(bytes) < pow2(8 * bytes.len()),
    decreases bytes.len(),
{
    lemma2_to64();
    if bytes.len() > 0 {
        lemma_be_value_bound(bytes.drop_last());
        vstd::arithmetic::power2::lemma_pow2_adds(8, (8 * (bytes.len() - 1)) as nat);
    }
}

proof fn bv_shift_in_byte(w: u64)
    by (bit_vector)
    requires
        w < 0x0100_0000_0000_0000,
    ensures
        w << 8 == 256 * w,
{
}

/// The message with its closing byte, packed into big-endian words: the
/// last word is filled up with zero bytes.
pub fn merge_bytes(bytes: &Vec<u8>, suffix: &Vec<bool>) -> (r: Vec<u64>)
    requires
        suffix.len() <= 6,
    ensures
        r@ == spec_merge_bytes(bytes@, suffix@),
{
    let mut res: Vec<u64> = Vec::new();

    let mut word: u64 = 0u64;
    let mut word_pos: usize = 0;
    let ghost closed = closed_message(bytes@, suffix@);

    let mut k: usize = 0;
    while k < bytes.len()
        invariant
            k <= bytes.len(),
            word_pos == k % 8,
            res.len() == k / 8,
            word == be_value(bytes@.subrange(k - word_pos, k as int)),
            forall|j: int| 0 <= j < res.len() ==> res@[j] == be_word(bytes@, j),
        decreases bytes.len() - k,
    {
        let byte = bytes[k];
        proof {
            let part = bytes@.subrange(k - word_pos, k as int);
            lemma_be_value_bound(part);
            lemma2_to64();
            vstd::arithmetic::power2::lemma_pow2_strictly_increases(8 * part.len(), 64);
            if word_pos < 7 {
                vstd::arithmetic::power2::lemma_pow2_strictly_increases(8 * part.len(), 56);
            }
            lemma2_to64_rest();
            assert(part.len() == word_pos);
            assert(word < pow2(56));
            bv_shift_in_byte(word);
            lemma_be_value_push(part, byte);
            assert(part.push(byte) =~= bytes@.subrange(k - word_pos, k + 1));
            lemma_be_value_bound(part.push(byte));
            vstd::arithmetic::power2::lemma_pow2_adds(8, (8 * part.len()) as nat);
        }
        word = (word << 8) + byte as u64;
        word_pos += 1;

        if word_pos >= 8 {
            res.push(word);
            proof {
                assert(bytes@.subrange(k + 1 - 8, k + 1) =~= bytes@.subrange(
                    8 * (k / 8),
                    8 * (k / 8) + 8,
                ));
                assert(bytes@.subrange(k + 1, k + 1) =~= Seq::<u8>::empty());
            }
            word = 0;
            word_pos = 0;
        }
        k = k + 1;
    }

    // the unfinished word, closed and filled up
    let ghost last = (bytes.len() / 8) as int;
    let closing = suffix_to_u8(suffix);
    proof {
        let part = bytes@.subrange(k - word_pos, k as int);
        assert(part =~= closed.subrange(8 * last, 8 * last + word_pos));
        lemma_be_value_bound(part);
        lemma2_to64();
        vstd::arithmetic::power2::lemma_pow2_strictly_increases(8 * part.len(), 64);
        if word_pos < 7 {
            vstd::arithmetic::power2::lemma_pow2_strictly_increases(8 * part.len(), 56);
        }
        lemma2_to64_rest();
        assert(part.len() == word_pos);
        assert(word < pow2(56));
        bv_shift_in_byte(word);
        lemma_be_value_push(part, closing);
        assert(part.push(closing) =~= closed.subrange(8 * last, 8 * last + word_pos + 1));
        lemma_be_value_bound(part.push(closing));
        vstd::arithmetic::power2::lemma_pow2_adds(8, (8 * part.len()) as nat);
    }
    word = (word << 8) + closing as u64;
    word_pos += 1;

    while word_pos < 8
        invariant
            1 <= word_pos <= 8,
            last == bytes.len() / 8,
            bytes.len() % 8 < word_pos,
            closed == closed_message(bytes@, suffix@),
            word == be_value(closed.subrange(8 * last, 8 * last + word_pos)),
        decreases 8 - word_pos,
    {
        proof {
            let part = closed.subrange(8 * last, 8 * last + word_pos);
            lemma_be_value_bound(part);
            lemma2_to64();
            vstd::arithmetic::power2::lemma_pow2_strictly_increases(8 * part.len(), 64);
            if word_pos < 7 {
                vstd::arithmetic::power2::lemma_pow2_strictly_increases(8 * part.len(), 56);
            }
            lemma2_to64_rest();
            assert(part.len() == word_pos);
            assert(word < pow2(56));
            bv_shift_in_byte(word);
            lemma_be_value_push(part, 0);
            assert(part.push(0) =~= closed.subrange(8 * last, 8 * last + word_pos + 1));
        }
        word = word << 8;
        word_pos += 1;
    }

    res.push(word);
    proof {
        lemma_be_value_bound(closed.subrange(8 * last, 8 * last + 8));
        lemma2_to64();
        assert forall|j: int| 0 <= j < res.len() implies res@[j] == be_word(closed, j) by {
            if j < last {
                assert(bytes@.subrange(8 * j, 8 * j + 8) =~= closed.subrange(8 * j, 8 * j + 8));
            }
        }
        assert(res@ =~= spec_merge_bytes(bytes@, suffix@));
    }
    return res;
}

/// How many blocks of `block` words it takes to hold `words` words, and
/// one at the least.
pub open spec fn block_count(words: nat, block: nat) -> nat {
    if words == 0 {
        1
    } else {
        ((words - 1) / block as int + 1) as nat
    }
}

/// Word `at` of `words` laid out over `total` places: zero where `words`
/// has ended, and one more in the last place.
pub open spec fn closed_word(words: Seq<u64>, total: int, at: int) -> u64 {
    let word = if at < words.len() {
        words[at]
    } else {
        0u64
    };
    if at == total - 1 {
        (word + 1) as u64
    } else {
        word
    }
}

/// Groups words into blocks of `BLOCK` words, fills the last block up with
/// zero words, and adds one to the last word of the last block.
pub fn merge_words<const BLOCK: usize>(words: &Vec<u64>) -> (r: Vec<[u64; BLOCK]>)
    requires
        BLOCK >= 1,
        words.len() > 0 && words.len() % BLOCK == 0 ==> words@.last() < u64::MAX,
    ensures
        r.len() == block_count(words@.len(), BLOCK as nat),
        forall|j: int, i: int|
            0 <= j < r.len() && 0 <= i < BLOCK ==> #[trigger] r@[j]@[i] == closed_word(
                words@,
                r.len() * BLOCK,
                j * BLOCK + i,
            ),
{
    let mut res: Vec<[u64; BLOCK]> = Vec::new();

    let mut block = [0u64;BLOCK];
    let mut block_pos: usize = 0;
    let ghost width = BLOCK as int;

    let mut k: usize = 0;
    assert(0 * width == 0);
    while k < words.len()
        invariant
            BLOCK >= 1,
            width == BLOCK,
            k <= words.len(),
            block_pos <= BLOCK,
            k > 0 ==> block_pos > 0,
            res.len() * width + block_pos == k,
            forall|j: int, i: int|
                0 <= j < res.len() && 0 <= i < BLOCK ==> #[trigger] res@[j]@[i] == words@[j * width
                    + i],
            forall|i: int|
                0 <= i < block_pos ==> #[trigger] block@[i] == words@[res.len() * width + i],
            forall|i: int| block_pos <= i < BLOCK ==> #[trigger] block@[i] == 0,
        decreases words.len() - k,
    {
        if block_pos >= BLOCK {
            proof {
                assert((res.len() + 1) * width == res.len() * width + width) by (nonlinear_arith);
            }
            res.push(block);
            block = [0u64;BLOCK];
            block_pos = 0;
        }
        block[block_pos] = words[k];
        block_pos += 1;
        k = k + 1;
    }

    proof {
        assert((res.len() + 1) * width == res.len() * width + width) by (nonlinear_arith);
        if k == 0 {
            assert(res.len() == 0) by (nonlinear_arith)
                requires
                    res.len() * width + block_pos == 0,
                    width >= 1,
            ;
        } else {
            vstd::arithmetic::div_mod::lemma_fundamental_div_mod_converse(
                k - 1,
                width,
                res.len() as int,
                block_pos - 1,
            );
            if block_pos == BLOCK {
                vstd::arithmetic::div_mod::lemma_fundamental_div_mod_converse(
                    k as int,
                    width,
                    res.len() + 1,
                    0,
                );
            }
        }
    }
    // The last word of the last block is free, or ends in a zero bit.
    block[BLOCK - 1] = block[BLOCK - 1] + 1;
    res.push(block);
    proof {
        let total = res.len() * width;
        assert forall|j: int, i: int| 0 <= j < res.len() && 0 <= i < BLOCK implies #[trigger] res@[j]@[i]
            == closed_word(words@, total, j * width + i) by {
            assert(j * width + width == (j + 1) * width) by (nonlinear_arith);
            if j < res.len() - 1 {
                assert((j + 1) * width <= (res.len() - 1) * width) by (nonlinear_arith)
                    requires
                        j + 1 <= res.len() - 1,
                        width >= 1,
                ;
            }
        }
    }
    return res;
}

/// How many blocks of `block` words the padded form of a message of `len`
/// bytes has: a message that ends with a block gets a whole block of
/// padding.
pub open spec fn padded_blocks(len: int, block: int) -> int {
    len / (8 * block) + 1
}

/// The message padded for blocks of `block` words: the message, the closing
/// byte, zero bytes up to the end of the block, and the closing 1 in the
/// least significant bit of the last byte.
pub open spec fn padded_message(message: Seq<u8>, suffix: Seq<bool>, block: int) -> Seq<u8> {
    let total = 8 * block * padded_blocks(message.len() as int, block);
    Seq::new(
        total as nat,
        |i: int|
            {
                let byte = if i < message.len() {
                    message[i]
                } else if i == message.len() {
                    suffix_byte(suffix)
                } else {
                    0u8
                };
                if i == total - 1 {
                    (byte + 1) as u8
                } else {
                    byte
                }
            },
    )
}

/// Zero bytes spell zero.
pub proof fn lemma_be_value_zero(bytes: Seq<u8>)
    requires
        forall|i: int| 0 <= i < bytes.len() ==> bytes[i] == 0,
    ensures
        be_value(bytes) == 0,
    decreases bytes.len(),
{
    if bytes.len() > 0 {
        lemma_be_value_zero(bytes.drop_last());
    }
}

/// How the words of a message of `len` bytes lie in its padded blocks.
pub proof fn lemma_padded_layout(len: int, block: int)
    requires
        0 <= len,
        1 <= block,
    ensures
        1 <= padded_blocks(len, block),
        (len / 8) / block == padded_blocks(len, block) - 1,
        len / 8 + 1 <= padded_blocks(len, block) * block,
        (padded_blocks(len, block) - 1) * block <= len / 8,
        (len / 8 + 1) % block == 0 ==> len / 8 + 1 == padded_blocks(len, block) * block,
        8 * block * padded_blocks(len, block) == 8 * (padded_blocks(len, block) * block),
{
    let blocks = padded_blocks(len, block);
    let q = (len / 8) / block;
    let r = (len / 8) % block;
    vstd::arithmetic::div_mod::lemma_div_denominator(len, 8, block);
    vstd::arithmetic::div_mod::lemma_fundamental_div_mod(len / 8, block);
    vstd::arithmetic::div_mod::lemma_div_pos_is_pos(len / 8, block);
    assert(blocks == q + 1);
    assert(blocks * block == block * q + block) by (nonlinear_arith)
        requires
            blocks == q + 1,
    ;
    assert((blocks - 1) * block == block * q) by (nonlinear_arith)
        requires
            blocks == q + 1,
    ;
    assert(8 * block * blocks == 8 * (blocks * block)) by (nonlinear_arith);
    if (len / 8 + 1) % block == 0 {
        vstd::arithmetic::div_mod::lemma_mod_multiples_vanish(q, r + 1, block);
        if r + 1 < block {
            vstd::arithmetic::div_mod::lemma_small_mod((r + 1) as nat, block as nat);
        }
    }
}

/// The closing byte never reaches the least significant bit of the last
/// word of the closed message: that bit is free for the closing 1 of the
/// padding, which `merge_words` sets by adding one.
pub proof fn lemma_closing_bit_is_free(message: Seq<u8>, suffix: Seq<bool>)
    requires
        suffix.len() <= 6,
    ensures
        spec_merge_bytes(message, suffix).last() % 2 == 0,
        spec_merge_bytes(message, suffix).last() < u64::MAX,
{
    let last = message.len() as int / 8;
    let bytes = closed_message(message, suffix).subrange(8 * last, 8 * last + 8);
    lemma_suffix_byte(suffix);
    lemma_be_value_eight(bytes);
}

/// At a block boundary: a message that fills `k` blocks to the last byte
/// is padded with one more block, and a message one byte short of that
/// fits the `k` blocks with its padding.
pub proof fn lemma_padding_at_block_boundary(block: int, k: int)
    requires
        1 <= block,
        1 <= k,
    ensures
        padded_blocks(k * (8 * block), block) == k + 1,
        padded_blocks(k * (8 * block) - 1, block) == k,
{
    let bytes = 8 * block;
    assert(k * bytes - 1 == (k - 1) * bytes + (bytes - 1)) by (nonlinear_arith);
    assert(0 <= (k - 1) * bytes) by (nonlinear_arith)
        requires
            k >= 1,
            bytes >= 8,
    ;
    vstd::arithmetic::div_mod::lemma_fundamental_div_mod_converse(k * bytes, bytes, k, 0);
    vstd::arithmetic::div_mod::lemma_fundamental_div_mod_converse(
        k * bytes - 1,
        bytes,
        k - 1,
        bytes - 1,
    );
}

/// The words of the padded message are the words of the closed message,
/// zero words after them, and one more in the last word.
pub proof fn lemma_padded_word(message: Seq<u8>, suffix: Seq<bool>, block: int, at: int)
    requires
        suffix.len() <= 6,
        block >= 1,
        0 <= at < padded_blocks(message.len() as int, block) * block,
    ensures
        closed_word(
            spec_merge_bytes(message, suffix),
            padded_blocks(message.len() as int, block) * block,
            at,
        ) == be_word(padded_message(message, suffix, block), at),
        closed_word(
            spec_merge_bytes(message, suffix),
            padded_blocks(message.len() as int, block) * block,
            at,
        ) == (if at < message.len() / 8 + 1 {
            spec_merge_bytes(message, suffix)[at]
        } else {
            0u64
        }) + (if at == padded_blocks(message.len() as int, block) * block - 1 {
            1int
        } else {
            0int
        }),
{
    let n = message.len() as int;
    let blocks = padded_blocks(n, block);
    let words = n / 8 + 1;
    let total = 8 * block * blocks;
    let closed = closed_message(message, suffix);
    let padded = padded_message(message, suffix, block);
    let c = closed.subrange(8 * at, 8 * at + 8);
    let p = padded.subrange(8 * at, 8 * at + 8);

    lemma_padded_layout(n, block);
    lemma_suffix_byte(suffix);
    lemma2_to64();
    lemma2_to64_rest();

    if at < words {
        lemma_be_value_bound(c.drop_last());
        if at == blocks * block - 1 {
            assert(p =~= c.drop_last().push((c.last() + 1) as u8));
            lemma_be_value_push(c.drop_last(), (c.last() + 1) as u8);
        } else {
            assert(p =~= c);
        }
    } else {
        if at == blocks * block - 1 {
            assert(p.last() == 1);
        }
        lemma_be_value_zero(p.drop_last());
        if at != blocks * block - 1 {
            lemma_be_value_zero(p);
        }
    }
}

/// Pads a message and splits it into blocks of `BLOCK` words. The suffix
/// distinguishes the fixed-length digests from the extendable ones.
pub fn padding<const BLOCK: usize>(bytes: &Vec<u8>, suffix: &Vec<bool>) -> (r: Vec<[u64; BLOCK]>)
    requires
        BLOCK >= 1,
        suffix.len() <= 6,
    ensures
        r.len() == padded_blocks(bytes.len() as int, BLOCK as int),
        forall|j: int, i: int|
            0 <= j < r.len() && 0 <= i < BLOCK ==> #[trigger] r@[j]@[i] == be_word(
                padded_message(bytes@, suffix@, BLOCK as int),
                j * BLOCK + i,
            ),
{
    let words = merge_bytes(bytes, suffix);
    let ghost width = BLOCK as int;
    proof {
        lemma_padded_layout(bytes.len() as int, width);
        if words.len() as int % width == 0 {
            lemma_padded_word(bytes@, suffix@, width, words.len() - 1);
        }
    }
    let blocks = merge_words::<BLOCK>(&words);
    proof {
        assert forall|j: int, i: int| 0 <= j < blocks.len() && 0 <= i < BLOCK implies #[trigger] blocks@[j]@[i]
            == be_word(padded_message(bytes@, suffix@, width), j * width + i) by {
            assert(0 <= j * width + i < blocks.len() * width) by (nonlinear_arith)
                requires
                    0 <= j < blocks.len(),
                    0 <= i < width,
            ;
            lemma_padded_word(bytes@, suffix@, width, j * width + i);
        }
    }
    blocks
}

} // verus!
