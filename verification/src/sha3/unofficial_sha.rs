//! An extension that no standard defines.

use vstd::prelude::*;
use crate::internals::sponge::{keccak_c, output_bytes, spec_keccak_c};
use crate::sha3::xof_suffix;

verus! {

/// SHAKE512: the step after SHAKE128 and SHAKE256, with a rate of 9 words
/// and a hidden state of 1024 bits. This is no official hash function: its
/// security has not been shown and nothing else computes it.
pub fn shake512(m: &Vec<u8>, output_length: usize) -> (r: Vec<u8>)
    ensures
        r@ == spec_keccak_c(9, m@, xof_suffix(), output_length as int),
        r.len() == output_bytes(output_length as int),
{
    let suffix = vec![true, true, true, true];
    assert(suffix@ =~= xof_suffix());
    keccak_c::<9>(m, &suffix, output_length)
}

} // verus!
