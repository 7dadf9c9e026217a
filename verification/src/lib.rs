//! A symmetric block cipher built from secret bit permutations, with an
//! all-or-nothing transform in front of it and a proxy re-encryption step
//! that turns ciphertext of one key into ciphertext of another.
//!
//! A key holds three numbers and a block. Each number stands for a
//! permutation in the factorial number system ([`lehmer`]): one permutes the
//! bits of a block, one permutes the bits of a chaining value, one reorders
//! the blocks of a package ([`permutations`]). A message is first wrapped
//! into a package ([`aont`]), then encrypted block by block ([`encryption`]).
//! A re-encryption key ([`keygen`]) holds the conversions between the
//! permutations of two keys, not the permutations themselves.
//!
//! Every function is verified against a contract over byte strings, bit
//! strings and natural numbers. What is proved of them together stands in
//! [`permutation_laws`], [`round_trip`] and [`tampering`]. Three things are
//! trusted and not proved: the arithmetic of big numbers ([`bignum`]), the
//! hash function ([`hash`]) and the source of randomness ([`random`]).

pub mod aont;
pub mod bignum;
pub mod bits;
pub mod encryption;
pub mod hash;
pub mod keygen;
pub mod lehmer;
pub mod permutation_laws;
pub mod permutations;
pub mod random;
pub mod round_trip;
pub mod tampering;
pub mod utils;

pub use encryption::{decrypt, encrypt, encrypt_package, re_encrypt};
pub use keygen::{Key, ReEncryptionKey};

use vstd::prelude::*;

verus! {

/// Number of bits in one block.
pub const BLOCK_SIZE_BITS: usize = 32;

/// Number of bytes in one block.
pub const BLOCK_SIZE_BYTE: usize = 4;

/// Number of blocks in a plaintext message.
pub const MESSAGE_BLOCKS_COUNT: usize = 8;

/// Number of blocks in a package or a ciphertext: the blocks of the message
/// and one trailer.
pub const PACKAGE_BLOCKS_COUNT: usize = 9;

/// Number of bytes in a plaintext message.
pub const PLAINTEXT_SIZE: usize = 32;

/// Number of bytes in a package or a ciphertext.
pub const ENCRYPTED_SIZE: usize = 36;

/// The sizes fit together: a block has eight bits for each byte, a package
/// has one block more than a message, and messages and packages are made of
/// whole blocks.
pub proof fn lemma_sizes_fit()
    ensures
        BLOCK_SIZE_BITS == 8 * BLOCK_SIZE_BYTE,
        PACKAGE_BLOCKS_COUNT == MESSAGE_BLOCKS_COUNT + 1,
        PLAINTEXT_SIZE == MESSAGE_BLOCKS_COUNT * BLOCK_SIZE_BYTE,
        ENCRYPTED_SIZE == PACKAGE_BLOCKS_COUNT * BLOCK_SIZE_BYTE,
{
}

/// A ciphertext.
pub type Encrypted = [u8; ENCRYPTED_SIZE];

/// A plaintext message.
pub type Plaintext = [u8; PLAINTEXT_SIZE];

} // verus!
