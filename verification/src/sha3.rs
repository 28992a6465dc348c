//! The SHA-3 digests and the SHAKE extendable-output functions. Each one
//! is the sponge construction with fixed parameters, message padding
//! included.

use vstd::prelude::*;
use crate::internals::sponge::{keccak_c, output_bytes, spec_keccak_c};

pub mod unofficial_sha;

verus! {

/// The domain suffix of the fixed-length digests: the bits 0, 1.
pub open spec fn hash_suffix() -> Seq<bool> {
    seq![false, true]
}

/// The domain suffix of the extendable-output functions: the bits 1, 1, 1, 1.
pub open spec fn xof_suffix() -> Seq<bool> {
    seq![true, true, true, true]
}

/// SHA3-224: a rate of 18 words and 28 bytes of digest.
pub fn sha3_224(m: &Vec<u8>) -> (r: Vec<u8>)
    ensures
        r@ == spec_keccak_c(18, m@, hash_suffix(), 224),
        r.len() == 28,
{
    let suffix = vec![false, true];
    assert(suffix@ =~= hash_suffix());
    keccak_c::<18>(m, &suffix, 224)
}

/// SHA3-256: a rate of 17 words and 32 bytes of digest.
pub fn sha3_256(m: &Vec<u8>) -> (r: Vec<u8>)
    ensures
        r@ == spec_keccak_c(17, m@, hash_suffix(), 256),
        r.len() == 32,
{
    let suffix = vec![false, true];
    assert(suffix@ =~= hash_suffix());
    keccak_c::<17>(m, &suffix, 256)
}

/// SHA3-384: a rate of 13 words and 48 bytes of digest.
pub fn sha3_384(m: &Vec<u8>) -> (r: Vec<u8>)
    ensures
        r@ == spec_keccak_c(13, m@, hash_suffix(), 384),
        r.len() == 48,
{
    let suffix = vec![false, true];
    assert(suffix@ =~= hash_suffix());
    keccak_c::<13>(m, &suffix, 384)
}

/// SHA3-512: a rate of 9 words and 64 bytes of digest.
pub fn sha3_512(m: &Vec<u8>) -> (r: Vec<u8>)
    ensures
        r@ == spec_keccak_c(9, m@, hash_suffix(), 512),
        r.len() == 64,
{
    let suffix = vec![false, true];
    assert(suffix@ =~= hash_suffix());
    keccak_c::<9>(m, &suffix, 512)
}

/// SHAKE128: a rate of 21 words and `output_length` bits of output,
/// rounded up to whole bytes.
pub fn shake128(m: &Vec<u8>, output_length: usize) -> (r: Vec<u8>)
    ensures
        r@ == spec_keccak_c(21, m@, xof_suffix(), output_length as int),
        r.len() == output_bytes(output_length as int),
{
    let suffix = vec![true, true, true, true];
    assert(suffix@ =~= xof_suffix());
    keccak_c::<21>(m, &suffix, output_length)
}

/// SHAKE256: a rate of 17 words and `output_length` bits of output,
/// rounded up to whole bytes.
pub fn shake256(m: &Vec<u8>, output_length: usize) -> (r: Vec<u8>)
    ensures
        r@ == spec_keccak_c(17, m@, xof_suffix(), output_length as int),
        r.len() == output_bytes(output_length as int),
{
    let suffix = vec![true, true, true, true];
    assert(suffix@ =~= xof_suffix());
    keccak_c::<17>(m, &suffix, output_length)
}

} // verus!
