//! The sponge construction with freely adjustable parameters: it absorbs
//! the padded message block by block and squeezes the digest out.

use vstd::prelude::*;
use crate::internals::keccak::{keccak, lemma_rounds_len, spec_keccak};
use crate::preprocessing::{
    be_word, padded_blocks, padded_message, padding, spec_split_bytes, split_bytes,
};

verus! {

/// Block `j` of a padded message, as `rate` big-endian words.
pub open spec fn block_words(padded: Seq<u8>, rate: int, j: int) -> Seq<u64> {
    Seq::new(rate as nat, |i: int| be_word(padded, j * rate + i))
}

/// The state with a block folded into its first words.
pub open spec fn xor_block(state: Seq<u64>, block: Seq<u64>) -> Seq<u64> {
    Seq::new(
        25,
        |i: int|
            if i < block.len() {
                state[i] ^ block[i]
            } else {
                state[i]
            },
    )
}

/// The state after the first `blocks` blocks of a padded message were
/// absorbed into the zero state: each block is folded in and the state
/// permuted with all 24 rounds.
pub open spec fn absorbed(padded: Seq<u8>, rate: int, blocks: nat) -> Seq<u64>
    decreases blocks,
{
    if blocks == 0 {
        Seq::new(25, |i: int| 0u64)
    } else {
        spec_keccak(
            xor_block(
                absorbed(padded, rate, (blocks - 1) as nat),
                block_words(padded, rate, blocks - 1),
            ),
            24,
        )
    }
}

/// The first `count` bytes that the sponge gives out from `state`: the
/// first `rate` words of the state as bytes, then the same from the
/// permuted state, and so on.
pub open spec fn squeezed(state: Seq<u64>, rate: int, count: nat) -> Seq<u8>
    decreases count,
{
    if count == 0 || rate <= 0 {
        Seq::empty()
    } else if count <= 8 * rate {
        spec_split_bytes(state.take(rate)).take(count as int)
    } else {
        spec_split_bytes(state.take(rate)) + squeezed(
            spec_keccak(state, 24),
            rate,
            (count - 8 * rate) as nat,
        )
    }
}

/// The bytes it takes to hold `bits` bits: a length that is no multiple of
/// eight is rounded up to the next whole byte.
pub open spec fn output_bytes(bits: int) -> int {
    (bits + 7) / 8
}

/// The digest of `message`: the padded message absorbed, and as many bytes
/// squeezed out as hold `output` bits.
pub open spec fn spec_keccak_c(rate: int, message: Seq<u8>, suffix: Seq<bool>, output: int) -> Seq<
    u8,
> {
    squeezed(
        absorbed(
            padded_message(message, suffix, rate),
            rate,
            padded_blocks(message.len() as int, rate) as nat,
        ),
        rate,
        output_bytes(output) as nat,
    )
}

/// The sponge gives out as many bytes as are asked for.
pub proof fn lemma_squeezed_len(state: Seq<u64>, rate: int, count: nat)
    requires
        1 <= rate <= 25,
        state.len() == 25,
    ensures
        squeezed(state, rate, count).len() == count,
    decreases count,
{
    if count > 8 * rate {
        lemma_rounds_len(state, 0, 24);
        lemma_squeezed_len(spec_keccak(state, 24), rate, (count - 8 * rate) as nat);
    }
}

/// A shorter output is the start of a longer one.
pub proof fn lemma_squeezed_prefix(state: Seq<u64>, rate: int, short: nat, long: nat)
    requires
        1 <= rate <= 25,
        state.len() == 25,
        short <= long,
    ensures
        squeezed(state, rate, long).take(short as int) == squeezed(state, rate, short),
    decreases long,
{
    let block = spec_split_bytes(state.take(rate));
    let next = spec_keccak(state, 24);
    lemma_squeezed_len(state, rate, long);
    lemma_squeezed_len(state, rate, short);
    lemma_rounds_len(state, 0, 24);
    if long <= 8 * rate {
        assert(block.take(long as int).take(short as int) =~= block.take(short as int));
    } else if short <= 8 * rate {
        let rest = squeezed(next, rate, (long - 8 * rate) as nat);
        assert((block + rest).take(short as int) =~= block.take(short as int));
    } else {
        let rest = squeezed(next, rate, (long - 8 * rate) as nat);
        lemma_squeezed_prefix(next, rate, (short - 8 * rate) as nat, (long - 8 * rate) as nat);
        lemma_squeezed_len(next, rate, (long - 8 * rate) as nat);
        assert((block + rest).take(short as int) =~= block + rest.take(short - 8 * rate));
    }
}

/// The length of an output is the least number of whole bytes that hold
/// the bits asked for.
pub proof fn lemma_output_bytes_rounds_up(bits: int)
    requires
        0 <= bits,
    ensures
        8 * (output_bytes(bits) - 1) < bits <= 8 * output_bytes(bits),
        bits % 8 == 0 ==> 8 * output_bytes(bits) == bits,
{
}

/// Performs the keccak[c] algorithm with a rate of `RATE` words and gives
/// out `output` bits, rounded up to whole bytes.
pub fn keccak_c<const RATE: usize>(m: &Vec<u8>, suffix: &Vec<bool>, output: usize) -> (r: Vec<u8>)
    requires
        1 <= RATE <= 25,
        suffix.len() <= 6,
    ensures
        r@ == spec_keccak_c(RATE as int, m@, suffix@, output as int),
        r.len() == output_bytes(output as int),
{
    let blocks = padding::<RATE>(m, suffix);
    let rounds: i64 = 24;  //rounds per block
    let ghost padded = padded_message(m@, suffix@, RATE as int);

    //absorb blocks
    let mut state = [0u64;25];
    assert(state@ =~= absorbed(padded, RATE as int, 0));

    let mut j: usize = 0;
    while j < blocks.len()
        invariant
            1 <= RATE <= 25,
            rounds == 24,
            j <= blocks.len(),
            state@ == absorbed(padded, RATE as int, j as nat),
            forall|k: int, i: int|
                0 <= k < blocks.len() && 0 <= i < RATE ==> #[trigger] blocks@[k]@[i] == be_word(
                    padded,
                    k * RATE + i,
                ),
        decreases blocks.len() - j,
    {
        let block = blocks[j];
        let ghost before = state@;
        //absorption
        let mut i: usize = 0;
        while i < RATE
            invariant
                1 <= RATE <= 25,
                i <= RATE,
                before.len() == 25,
                state@ == xor_block(before, block@.take(i as int)),
            decreases RATE - i,
        {
            state[i] = state[i] ^ block[i];
            i = i + 1;
            assert(state@ =~= xor_block(before, block@.take(i as int)));
        }
        proof {
            assert(block@.take(RATE as int) =~= block_words(padded, RATE as int, j as int));
        }
        state = keccak(state, rounds);
        j = j + 1;
    }

    //squeeze blocks
    let needed: usize = output / 8 + (if output % 8 != 0 {
        1
    } else {
        0
    });
    let ghost full = state@;
    let ghost digest = squeezed(full, RATE as int, needed as nat);
    let mut result: Vec<u8> = Vec::new();
    proof {
        assert(result@ + digest =~= digest);
        lemma_squeezed_len(full, RATE as int, needed as nat);
    }
    while result.len() < needed
        invariant
            1 <= RATE <= 25,
            rounds == 24,
            result.len() <= needed,
            result@ + squeezed(state@, RATE as int, (needed - result.len()) as nat) == digest,
        decreases needed - result.len(),
    {
        // Extract truncated state
        let mut block: Vec<u64> = Vec::new();
        let mut i: usize = 0;
        while i < RATE
            invariant
                1 <= RATE <= 25,
                i <= RATE,
                block@ == state@.take(i as int),
            decreases RATE - i,
        {
            block.push(state[i]);
            i = i + 1;
            assert(block@ =~= state@.take(i as int));
        }
        let block = split_bytes(&block);
        let ghost before = result@;
        let ghost left = (needed - result.len()) as nat;

        let mut i: usize = 0;
        while i < block.len()
            invariant_except_break
                result.len() < needed,
            invariant
                i <= block.len() == 8 * RATE,
                before.len() + left == needed,
                result@ == before + block@.take(i as int),
            ensures
                result@ == before + block@.take(i as int),
                i <= block.len(),
                result.len() <= needed,
                i < block.len() ==> result.len() == needed,
            decreases block.len() - i,
        {
            let word = block[i];
            result.push(word);
            i = i + 1;
            assert(result@ =~= before + block@.take(i as int));
            if result.len() >= needed {
                break ;
            }
        }

        proof {
            if left <= 8 * RATE {
                assert(result@ + squeezed(state@, RATE as int, 0) =~= result@);
            } else {
                assert(block@.take(i as int) =~= block@);
                assert(before + (block@ + squeezed(
                    spec_keccak(state@, 24),
                    RATE as int,
                    (left - 8 * RATE) as nat,
                )) =~= (before + block@) + squeezed(
                    spec_keccak(state@, 24),
                    RATE as int,
                    (left - 8 * RATE) as nat,
                ));
            }
        }
        if result.len() < needed {
            state = keccak(state, rounds);
        }
    }
    proof {
        assert(result@ + squeezed(state@, RATE as int, 0) =~= result@);
    }

    return result;
}

/// Why a set of sponge parameters was turned down.
#[derive(Debug, Clone, Copy, PartialEq, Eq, Structural)]
pub enum ParameterError {
    /// The domain suffix has more than six bits.
    SuffixTooLong,
    /// The rate is zero, or more than the 25 words of the state.
    RateOutOfRange,
}

/// The sponge construction with its parameters checked: a rate of `rate`
/// words, a domain suffix of at most six bits, and `output` bits of
/// digest, rounded up to whole bytes. The suffix is checked first.
pub fn sponge(rate: usize, suffix: &Vec<bool>, m: &Vec<u8>, output: usize) -> (r: Result<
    Vec<u8>,
    ParameterError,
>)
    ensures
        match r {
            Ok(digest) => {
                &&& suffix.len() <= 6
                &&& 1 <= rate <= 25
                &&& digest@ == spec_keccak_c(rate as int, m@, suffix@, output as int)
                &&& digest.len() == output_bytes(output as int)
            },
            Err(ParameterError::SuffixTooLong) => suffix.len() > 6,
            Err(ParameterError::RateOutOfRange) => suffix.len() <= 6 && !(1 <= rate <= 25),
        },
{
    if suffix.len() > 6 {
        return Err(ParameterError::SuffixTooLong);
    }
    if rate == 0 || rate > 25 {
        return Err(ParameterError::RateOutOfRange);
    }
    let digest = match rate {
        1 => keccak_c::<1>(m, suffix, output),
        2 => keccak_c::<2>(m, suffix, output),
        3 => keccak_c::<3>(m, suffix, output),
        4 => keccak_c::<4>(m, suffix, output),
        5 => keccak_c::<5>(m, suffix, output),
        6 => keccak_c::<6>(m, suffix, output),
        7 => keccak_c::<7>(m, suffix, output),
        8 => keccak_c::<8>(m, suffix, output),
        9 => keccak_c::<9>(m, suffix, output),
        10 => keccak_c::<10>(m, suffix, output),
        11 => keccak_c::<11>(m, suffix, output),
        12 => keccak_c::<12>(m, suffix, output),
        13 => keccak_c::<13>(m, suffix, output),
        14 => keccak_c::<14>(m, suffix, output),
        15 => keccak_c::<15>(m, suffix, output),
        16 => keccak_c::<16>(m, suffix, output),
        17 => keccak_c::<17>(m, suffix, output),
        18 => keccak_c::<18>(m, suffix, output),
        19 => keccak_c::<19>(m, suffix, output),
        20 => keccak_c::<20>(m, suffix, output),
        21 => keccak_c::<21>(m, suffix, output),
        22 => keccak_c::<22>(m, suffix, output),
        23 => keccak_c::<23>(m, suffix, output),
        24 => keccak_c::<24>(m, suffix, output),
        _ => keccak_c::<25>(m, suffix, output),
    };
    Ok(digest)
}

} // verus!
