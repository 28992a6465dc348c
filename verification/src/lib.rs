//! SHA-3 and SHAKE digests over a bit-addressed Keccak state.
//!
//! The functions in [`sha3`] take a message as bytes and give the digest as
//! bytes. Lanes are read most-significant bit first and messages are packed
//! into lanes big-endian, so a byte handed to this crate carries its bits in
//! the reverse of the order used by the published test vectors. The helpers
//! in [`preprocessing`] and [`printer`] convert between the two conventions:
//! `le_encoding` turns text into bytes for the lanes, and `print_bytes_le`
//! prints a digest as it is published.
//!
//! [`internals`] holds the state, the permutation and the sponge
//! construction; [`state`] offers coordinates that carry their modulus in
//! their type. Nothing here is hardened against side channels.

pub mod internals;
pub mod preprocessing;
pub mod printer;
pub mod sha3;
pub mod state;
