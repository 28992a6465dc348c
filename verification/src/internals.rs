//! The inner workings of the digests: the state, the permutation and the
//! sponge construction with freely adjustable parameters.

pub mod state;
pub mod keccak;
pub mod sponge;
pub mod injective;
