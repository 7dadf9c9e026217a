//! What the cipher promises: decryption undoes encryption, and a
//! re-encrypted ciphertext is the ciphertext that the new key would have
//! made of the same package.

use vstd::prelude::*;
use crate::aont::{lemma_unwrapped_wrapped, wrapped};
use crate::encryption::{
    chaining_value,
    decrypted,
    decrypted_package,
    depermuted_blocks,
    encrypted,
    encrypted_package,
    linked,
    permuted_blocks,
    re_encrypted,
    unlinked,
};
use crate::keygen::{reencryption_key, KeyView};
use crate::lehmer::{lemma_permutation_of_is_permutation, lemma_permutation_round_trip};
use crate::permutation_laws::{
    lemma_conversion,
    lemma_depermute_permute,
    lemma_gather_converted,
    lemma_permute_converted,
    lemma_permuted_block_bits,
    lemma_scatter_gather,
};
use crate::permutations::{gather, is_permutation, permutation_conversion, permuted_block};
use crate::utils::{
    all_block_sized,
    blocks_of,
    lemma_blocks_of_concat,
    lemma_concat_blocks_of,
    lemma_xor_bytes_twice,
};
use crate::{BLOCK_SIZE_BITS, BLOCK_SIZE_BYTE, ENCRYPTED_SIZE, PACKAGE_BLOCKS_COUNT, PLAINTEXT_SIZE};

verus! {

/// Taking a chain apart gives the blocks that it was made of.
pub proof fn lemma_unlinked_linked(x: Seq<Seq<u8>>, start: Seq<u8>, p2: Seq<usize>)
    ensures
        unlinked(linked(x, start, p2), start, p2) == x,
        linked(x, start, p2).len() == x.len(),
{
    let chain = linked(x, start, p2);
    assert forall|i: int| 0 <= i < x.len() implies unlinked(chain, start, p2)[i] == x[i] by {
        let mask = permuted_block(chaining_value(chain, start, i), p2);
        assert(chain[i] == crate::utils::xor_bytes(x[i], mask));
        lemma_xor_bytes_twice(x[i], mask);
    }
    assert(unlinked(chain, start, p2) =~= x);
}

/// A chain of blocks of the block size is made of blocks of the block size.
pub proof fn lemma_linked_sizes(x: Seq<Seq<u8>>, start: Seq<u8>, p2: Seq<usize>)
    requires
        all_block_sized(x),
    ensures
        all_block_sized(linked(x, start, p2)),
{
    let chain = linked(x, start, p2);
    assert forall|i: int| 0 <= i < chain.len() implies (#[trigger] chain[i]).len() == BLOCK_SIZE_BYTE by {
        assert(x[i].len() == BLOCK_SIZE_BYTE);
    }
}

/// Permuting the bits of blocks of the block size keeps their size, and
/// putting the bits back undoes it.
pub proof fn lemma_depermuted_permuted_blocks(blocks: Seq<Seq<u8>>, p1: Seq<usize>)
    requires
        all_block_sized(blocks),
        is_permutation(p1),
        p1.len() == BLOCK_SIZE_BITS,
    ensures
        all_block_sized(permuted_blocks(blocks, p1)),
        depermuted_blocks(permuted_blocks(blocks, p1), p1) == blocks,
{
    let permuted = permuted_blocks(blocks, p1);
    assert forall|i: int| 0 <= i < blocks.len() implies (#[trigger] permuted[i]).len() == BLOCK_SIZE_BYTE
        && depermuted_blocks(permuted, p1)[i] == blocks[i] by {
        assert(blocks[i].len() == BLOCK_SIZE_BYTE);
        lemma_permuted_block_bits(blocks[i], p1);
        lemma_depermute_permute(blocks[i], p1);
    }
    assert(depermuted_blocks(permuted, p1) =~= blocks);
}

/// The permutations of a key are permutations of the sizes that the cipher
/// works with.
pub proof fn lemma_key_permutations(key: KeyView)
    ensures
        is_permutation(key.p1()),
        key.p1().len() == BLOCK_SIZE_BITS,
        is_permutation(key.p2()),
        key.p2().len() == BLOCK_SIZE_BITS,
        is_permutation(key.p3()),
        key.p3().len() == PACKAGE_BLOCKS_COUNT,
{
    lemma_permutation_of_is_permutation(key.k1, BLOCK_SIZE_BITS as nat);
    lemma_permutation_of_is_permutation(key.k2, BLOCK_SIZE_BITS as nat);
    lemma_permutation_of_is_permutation(key.k3, PACKAGE_BLOCKS_COUNT as nat);
}

/// Reordered blocks of a package are blocks of the block size.
proof fn lemma_gathered_block_sizes(package: Seq<u8>, p3: Seq<usize>)
    requires
        package.len() == ENCRYPTED_SIZE,
        is_permutation(p3),
        p3.len() == PACKAGE_BLOCKS_COUNT,
    ensures
        all_block_sized(gather(blocks_of(package), p3)),
        gather(blocks_of(package), p3).len() == PACKAGE_BLOCKS_COUNT,
        blocks_of(package).len() == PACKAGE_BLOCKS_COUNT,
{
    lemma_concat_blocks_of(package);
    let ordered = gather(blocks_of(package), p3);
    assert forall|i: int| 0 <= i < ordered.len() implies (#[trigger] ordered[i]).len() == BLOCK_SIZE_BYTE by {
        assert(ordered[i] == blocks_of(package)[p3[i] as int]);
    }
}

/// Decrypting the ciphertext of a package under the key that made it gives
/// the package back.
pub proof fn lemma_decrypted_encrypted_package(package: Seq<u8>, key: KeyView)
    requires
        package.len() == ENCRYPTED_SIZE,
    ensures
        decrypted_package(encrypted_package(package, key), key) == package,
        encrypted_package(package, key).len() == ENCRYPTED_SIZE,
{
    lemma_key_permutations(key);
    let blocks = blocks_of(package);
    let ordered = gather(blocks, key.p3());
    let x = permuted_blocks(ordered, key.p1());
    let chain = linked(x, key.kx, key.p2());
    lemma_gathered_block_sizes(package, key.p3());
    lemma_depermuted_permuted_blocks(ordered, key.p1());
    lemma_linked_sizes(x, key.kx, key.p2());
    lemma_blocks_of_concat(chain);
    lemma_unlinked_linked(x, key.kx, key.p2());
    lemma_scatter_gather(blocks, key.p3());
    lemma_concat_blocks_of(package);
}

/// Decryption undoes encryption: for every message, every key, and every
/// key block that the all-or-nothing transform may draw, the ciphertext
/// decrypts to the message under the key that made it.
pub proof fn lemma_decrypted_encrypted(message: Seq<u8>, key: KeyView, aont_key: Seq<u8>)
    requires
        message.len() == PLAINTEXT_SIZE,
        aont_key.len() == BLOCK_SIZE_BYTE,
    ensures
        decrypted(encrypted(message, key, aont_key), key) == message,
{
    lemma_unwrapped_wrapped(message, aont_key);
    lemma_decrypted_encrypted_package(wrapped(message, aont_key), key);
}

/// A re-encrypted ciphertext of a package is the ciphertext of that package
/// under the new key.
pub proof fn lemma_re_encrypted_package(package: Seq<u8>, old_key: KeyView, new_key: KeyView)
    requires
        package.len() == ENCRYPTED_SIZE,
    ensures
        re_encrypted(encrypted_package(package, old_key), reencryption_key(old_key, new_key))
            == encrypted_package(package, new_key),
{
    lemma_key_permutations(old_key);
    lemma_key_permutations(new_key);
    let key = reencryption_key(old_key, new_key);
    let c1 = permutation_conversion(old_key.p1(), new_key.p1());
    let c3 = permutation_conversion(old_key.p3(), new_key.p3());
    lemma_conversion(old_key.p1(), new_key.p1());
    lemma_conversion(old_key.p3(), new_key.p3());
    lemma_permutation_round_trip(c1);
    lemma_permutation_round_trip(c3);
    assert(key.cp1() == c1);
    assert(key.cp3() == c3);

    let blocks = blocks_of(package);
    let ordered = gather(blocks, old_key.p3());
    let x = permuted_blocks(ordered, old_key.p1());
    let chain = linked(x, old_key.kx, old_key.p2());
    lemma_gathered_block_sizes(package, old_key.p3());
    lemma_depermuted_permuted_blocks(ordered, old_key.p1());
    lemma_linked_sizes(x, old_key.kx, old_key.p2());
    lemma_blocks_of_concat(chain);
    lemma_unlinked_linked(x, old_key.kx, old_key.p2());
    assert(unlinked(blocks_of(encrypted_package(package, old_key)), key.old_kx, key.old_p2()) == x);

    let repermuted = permuted_blocks(x, c1);
    assert forall|i: int| 0 <= i < ordered.len() implies repermuted[i] == permuted_block(
        ordered[i],
        new_key.p1(),
    ) by {
        assert(ordered[i].len() == BLOCK_SIZE_BYTE);
        lemma_permute_converted(ordered[i], old_key.p1(), new_key.p1());
    }
    assert(repermuted =~= permuted_blocks(ordered, new_key.p1()));
    lemma_gather_converted(blocks, old_key.p3(), new_key.p3());
    assert(gather(repermuted, c3) =~= permuted_blocks(gather(blocks, new_key.p3()), new_key.p1())) by {
        assert forall|j: int| 0 <= j < c3.len() implies gather(repermuted, c3)[j] == permuted_blocks(
            gather(blocks, new_key.p3()),
            new_key.p1(),
        )[j] by {
            assert(gather(ordered, c3)[j] == gather(blocks, new_key.p3())[j]);
        }
    }
}

/// Re-encryption is correct: for every message and every two keys, the
/// ciphertext under the first key, re-encrypted with the re-encryption key
/// from the first to the second, decrypts to the message under the second.
pub proof fn lemma_decrypted_re_encrypted(
    message: Seq<u8>,
    old_key: KeyView,
    new_key: KeyView,
    aont_key: Seq<u8>,
)
    requires
        message.len() == PLAINTEXT_SIZE,
        aont_key.len() == BLOCK_SIZE_BYTE,
    ensures
        re_encrypted(encrypted(message, old_key, aont_key), reencryption_key(old_key, new_key))
            == encrypted(message, new_key, aont_key),
        decrypted(
            re_encrypted(encrypted(message, old_key, aont_key), reencryption_key(old_key, new_key)),
            new_key,
        ) == message,
{
    lemma_unwrapped_wrapped(message, aont_key);
    lemma_re_encrypted_package(wrapped(message, aont_key), old_key, new_key);
    lemma_decrypted_encrypted(message, new_key, aont_key);
}

} // verus!
