//! The cipher. A message is wrapped by the all-or-nothing transform, the
//! blocks of the package are reordered, the bits of each block are permuted,
//! and each block is chained to the ciphertext block before it. Decryption
//! undoes this step by step; re-encryption turns ciphertext of one key into
//! ciphertext of another without undoing the bit permutation.

use vstd::prelude::*;
use crate::aont::{unwrapped, wrapped, AONT};
use crate::keygen::{Key, KeyView, ReEncryptionKey, ReEncryptionKeyView};
use crate::permutation_laws::lemma_last_position;
use crate::round_trip::lemma_decrypted_encrypted;
use crate::permutations::{
    depermute_block,
    depermute_block_set,
    depermuted_block,
    gather,
    is_permutation,
    permute_block,
    permute_block_set,
    permuted_block,
    scatter,
};
use crate::utils::{block_at, blocks_of, concat_blocks, read_block, write_block, xor_array, xor_bytes};
use crate::{
    Encrypted,
    Plaintext,
    BLOCK_SIZE_BITS,
    BLOCK_SIZE_BYTE,
    ENCRYPTED_SIZE,
    MESSAGE_BLOCKS_COUNT,
    PACKAGE_BLOCKS_COUNT,
};

verus! {

/// The value that block `i` is chained to: the start value for the first
/// block, the block before it for every other.
pub open spec fn chaining_value(blocks: Seq<Seq<u8>>, start: Seq<u8>, i: int) -> Seq<u8> {
    if i <= 0 {
        start
    } else {
        blocks[i - 1]
    }
}

/// Block `i` of a chain: block `i` of `x`, combined by exclusive or with the
/// permuted block before it in the chain, or with the permuted start value.
pub open spec fn linked_block(x: Seq<Seq<u8>>, start: Seq<u8>, p2: Seq<usize>, i: int) -> Seq<u8>
    decreases i,
{
    if i <= 0 {
        xor_bytes(x[0], permuted_block(start, p2))
    } else {
        xor_bytes(x[i], permuted_block(linked_block(x, start, p2, i - 1), p2))
    }
}

/// The chain made of the blocks of `x`.
pub open spec fn linked(x: Seq<Seq<u8>>, start: Seq<u8>, p2: Seq<usize>) -> Seq<Seq<u8>> {
    Seq::new(x.len(), |i: int| linked_block(x, start, p2, i))
}

/// The blocks that a chain was made of.
pub open spec fn unlinked(chain: Seq<Seq<u8>>, start: Seq<u8>, p2: Seq<usize>) -> Seq<Seq<u8>> {
    Seq::new(
        chain.len(),
        |i: int| xor_bytes(chain[i], permuted_block(chaining_value(chain, start, i), p2)),
    )
}

/// Every block with its bits permuted.
pub open spec fn permuted_blocks(blocks: Seq<Seq<u8>>, p1: Seq<usize>) -> Seq<Seq<u8>> {
    Seq::new(blocks.len(), |i: int| permuted_block(blocks[i], p1))
}

/// Every block with its bits put back.
pub open spec fn depermuted_blocks(blocks: Seq<Seq<u8>>, p1: Seq<usize>) -> Seq<Seq<u8>> {
    Seq::new(blocks.len(), |i: int| depermuted_block(blocks[i], p1))
}

/// The ciphertext of a package under a key.
pub open spec fn encrypted_package(package: Seq<u8>, key: KeyView) -> Seq<u8> {
    concat_blocks(
        linked(permuted_blocks(gather(blocks_of(package), key.p3()), key.p1()), key.kx, key.p2()),
    )
}

/// The ciphertext of a message under a key, where the all-or-nothing
/// transform drew the key block `aont_key`.
pub open spec fn encrypted(message: Seq<u8>, key: KeyView, aont_key: Seq<u8>) -> Seq<u8> {
    encrypted_package(wrapped(message, aont_key), key)
}

/// The package in a ciphertext under a key.
pub open spec fn decrypted_package(ciphertext: Seq<u8>, key: KeyView) -> Seq<u8> {
    concat_blocks(
        scatter(
            depermuted_blocks(unlinked(blocks_of(ciphertext), key.kx, key.p2()), key.p1()),
            key.p3(),
        ),
    )
}

/// The message in a ciphertext under a key.
pub open spec fn decrypted(ciphertext: Seq<u8>, key: KeyView) -> Seq<u8> {
    unwrapped(decrypted_package(ciphertext, key))
}

/// The ciphertext that a re-encryption key makes of a ciphertext.
pub open spec fn re_encrypted(ciphertext: Seq<u8>, key: ReEncryptionKeyView) -> Seq<u8> {
    concat_blocks(
        linked(
            gather(
                permuted_blocks(unlinked(blocks_of(ciphertext), key.old_kx, key.old_p2()), key.cp1()),
                key.cp3(),
            ),
            key.new_kx,
            key.new_p2(),
        ),
    )
}

/// The views of the blocks in a list of blocks.
pub open spec fn block_views(blocks: Seq<&[u8; BLOCK_SIZE_BYTE]>) -> Seq<Seq<u8>> {
    Seq::new(blocks.len(), |i: int| blocks[i]@)
}

/// Cuts a byte array into its blocks.
fn split_blocks(bytes: &[u8; ENCRYPTED_SIZE]) -> (blocks: [[u8; BLOCK_SIZE_BYTE]; PACKAGE_BLOCKS_COUNT])
    ensures
        forall|i: int| 0 <= i < PACKAGE_BLOCKS_COUNT ==> (#[trigger] blocks@[i])@ == block_at(bytes@, i),
{
    let mut blocks = [[0u8; BLOCK_SIZE_BYTE]; PACKAGE_BLOCKS_COUNT];
    let mut i: usize = 0;
    while i < PACKAGE_BLOCKS_COUNT
        invariant
            i <= PACKAGE_BLOCKS_COUNT,
            forall|k: int| 0 <= k < i ==> (#[trigger] blocks@[k])@ == block_at(bytes@, k),
        decreases PACKAGE_BLOCKS_COUNT - i,
    {
        blocks[i] = read_block(bytes, i);
        i += 1;
    }
    blocks
}

/// References to the blocks of a list, in order.
fn block_references<'a>(blocks: &'a [[u8; BLOCK_SIZE_BYTE]; PACKAGE_BLOCKS_COUNT]) -> (references: [
    &'a [u8; BLOCK_SIZE_BYTE];
    PACKAGE_BLOCKS_COUNT
])
    ensures
        forall|i: int| 0 <= i < PACKAGE_BLOCKS_COUNT ==> *(#[trigger] references@[i]) == blocks@[i],
{
    [
        &blocks[0],
        &blocks[1],
        &blocks[2],
        &blocks[3],
        &blocks[4],
        &blocks[5],
        &blocks[6],
        &blocks[7],
        &blocks[8],
    ]
}

/// Puts blocks one after the other into a byte array.
fn join_blocks(blocks: &[&[u8; BLOCK_SIZE_BYTE]; PACKAGE_BLOCKS_COUNT]) -> (bytes: [u8; ENCRYPTED_SIZE])
    ensures
        bytes@ == concat_blocks(block_views(blocks@)),
{
    let mut bytes = [0u8; ENCRYPTED_SIZE];
    let mut i: usize = 0;
    while i < PACKAGE_BLOCKS_COUNT
        invariant
            i <= PACKAGE_BLOCKS_COUNT,
            forall|k: int|
                0 <= k < BLOCK_SIZE_BYTE * i ==> bytes@[k] == (blocks@[k / BLOCK_SIZE_BYTE as int])@[k
                    % BLOCK_SIZE_BYTE as int],
        decreases PACKAGE_BLOCKS_COUNT - i,
    {
        let ghost before = bytes@;
        write_block(&mut bytes, i, blocks[i]);
        assert forall|k: int| 0 <= k < BLOCK_SIZE_BYTE * (i + 1) implies bytes@[k] == (blocks@[k
            / BLOCK_SIZE_BYTE as int])@[k % BLOCK_SIZE_BYTE as int] by {
            if k >= BLOCK_SIZE_BYTE * i {
                assert(bytes@[k] == block_at(bytes@, i as int)[k - BLOCK_SIZE_BYTE * i]);
            } else {
                assert(bytes@[k] == before[k]);
            }
        }
        i += 1;
    }
    assert(bytes@ =~= concat_blocks(block_views(blocks@)));
    bytes
}

/// A byte array whose blocks are the given ones is made of them.
proof fn lemma_blocks_give_bytes(bytes: Seq<u8>, blocks: Seq<Seq<u8>>)
    requires
        bytes.len() == BLOCK_SIZE_BYTE * blocks.len(),
        forall|i: int| 0 <= i < blocks.len() ==> block_at(bytes, i) == #[trigger] blocks[i],
    ensures
        bytes == concat_blocks(blocks),
{
    assert forall|k: int| 0 <= k < bytes.len() implies bytes[k] == concat_blocks(blocks)[k] by {
        let i = k / BLOCK_SIZE_BYTE as int;
        assert(block_at(bytes, i) == blocks[i]);
        assert(block_at(bytes, i)[k % BLOCK_SIZE_BYTE as int] == bytes[k]);
    }
    assert(bytes =~= concat_blocks(blocks));
}

/// Writing one block of a byte array leaves its other blocks as they were.
proof fn lemma_other_blocks_stay(before: Seq<u8>, after: Seq<u8>, i: int)
    requires
        before.len() == after.len(),
        0 <= i,
        forall|k: int|
            0 <= k < before.len() && !(BLOCK_SIZE_BYTE * i <= k < BLOCK_SIZE_BYTE * i + BLOCK_SIZE_BYTE)
                ==> after[k] == before[k],
    ensures
        forall|j: int|
            0 <= j && j != i && BLOCK_SIZE_BYTE * j + BLOCK_SIZE_BYTE <= before.len() ==> #[trigger] block_at(
                after,
                j,
            ) == block_at(before, j),
{
    assert forall|j: int|
        0 <= j && j != i && BLOCK_SIZE_BYTE * j + BLOCK_SIZE_BYTE <= before.len() implies #[trigger] block_at(
        after,
        j,
    ) == block_at(before, j) by {
        assert(block_at(after, j) =~= block_at(before, j));
    }
}

/// Encrypts a package of the all-or-nothing transform under a key.
pub fn encrypt_package(aont: &AONT, key: &Key) -> (output: Encrypted)
    ensures
        output@ == encrypted_package(aont.encrypted@, key@),
{
    let p1 = key.p1();
    let p2 = key.p2();
    let p3 = key.p3();
    let blocks = split_blocks(&aont.encrypted);
    let aont_blocks = block_references(&blocks);
    let aont_permuted_blocks = permute_block_set(&aont_blocks, &p3);
    let ghost ordered = gather(blocks_of(aont.encrypted@), p3@);
    let ghost x = permuted_blocks(ordered, p1@);
    let ghost chain = linked(x, key@.kx, p2@);
    assert forall|k: int| 0 <= k < PACKAGE_BLOCKS_COUNT implies (#[trigger] aont_permuted_blocks@[k])@
        == ordered[k] by {
        assert(aont_permuted_blocks@[k] == aont_blocks@[p3@[k] as int]);
        assert(*aont_blocks@[p3@[k] as int] == blocks@[p3@[k] as int]);
    }
    let mut output = [0u8; ENCRYPTED_SIZE];
    let c0: [u8; BLOCK_SIZE_BYTE] = xor_array::<BLOCK_SIZE_BYTE>(
        &permute_block::<BLOCK_SIZE_BYTE, BLOCK_SIZE_BITS>(aont_permuted_blocks[0], &p1),
        &permute_block::<BLOCK_SIZE_BYTE, BLOCK_SIZE_BITS>(&key.kx(), &p2),
    );
    write_block(&mut output, 0, &c0);
    assert(block_at(output@, 0) == chain[0]);
    let mut i: usize = 1;
    while i <= MESSAGE_BLOCKS_COUNT
        invariant
            1 <= i <= MESSAGE_BLOCKS_COUNT + 1,
            p1@.len() == BLOCK_SIZE_BITS,
            p2@.len() == BLOCK_SIZE_BITS,
            is_permutation(p1@),
            is_permutation(p2@),
            x == permuted_blocks(ordered, p1@),
            chain == linked(x, key@.kx, p2@),
            ordered.len() == PACKAGE_BLOCKS_COUNT,
            forall|k: int|
                0 <= k < PACKAGE_BLOCKS_COUNT ==> (#[trigger] aont_permuted_blocks@[k])@ == ordered[k],
            forall|k: int| 0 <= k < i ==> #[trigger] block_at(output@, k) == chain[k],
        decreases MESSAGE_BLOCKS_COUNT + 1 - i,
    {
        let previous_encrypted_block = read_block(&output, i - 1);
        let ci: [u8; BLOCK_SIZE_BYTE] = xor_array::<BLOCK_SIZE_BYTE>(
            &permute_block::<BLOCK_SIZE_BYTE, BLOCK_SIZE_BITS>(aont_permuted_blocks[i], &p1),
            &permute_block::<BLOCK_SIZE_BYTE, BLOCK_SIZE_BITS>(&previous_encrypted_block, &p2),
        );
        let ghost before = output@;
        write_block(&mut output, i, &ci);
        proof {
            lemma_other_blocks_stay(before, output@, i as int);
            assert(previous_encrypted_block@ == chain[i - 1]);
            assert(ci@ == chain[i as int]);
            assert forall|k: int| 0 <= k < i + 1 implies #[trigger] block_at(output@, k) == chain[k] by {
                if k < i {
                    assert(block_at(output@, k) == block_at(before, k));
                }
            }
        }
        i += 1;
    }
    proof {
        lemma_blocks_give_bytes(output@, chain);
    }
    output
}

/// Encrypts a message under a key. The all-or-nothing transform draws a
/// fresh random key block each time, so two ciphertexts of one message differ.
pub fn encrypt(input: &Plaintext, key: &Key) -> (output: Encrypted)
    ensures
        exists|aont_key: Seq<u8>|
            aont_key.len() == BLOCK_SIZE_BYTE && output@ == #[trigger] encrypted(input@, key@, aont_key),
        decrypted(output@, key@) == input@,
{
    let aont = AONT::from_message(input);
    let output = encrypt_package(&aont, key);
    proof {
        let aont_key = choose|aont_key: Seq<u8>|
            aont_key.len() == BLOCK_SIZE_BYTE && aont.encrypted@ == #[trigger] wrapped(input@, aont_key);
        assert(output@ == encrypted(input@, key@, aont_key));
        lemma_decrypted_encrypted(input@, key@, aont_key);
    }
    output
}

/// Decrypts a ciphertext under a key. Nothing tells a forged ciphertext from
/// a true one: it decrypts to some other message.
pub fn decrypt(encrypted: &Encrypted, key: &Key) -> (message: Plaintext)
    ensures
        message@ == decrypted(encrypted@, key@),
{
    let p1 = key.p1();
    let p2 = key.p2();
    let p3 = key.p3();
    let ghost chain = blocks_of(encrypted@);
    let ghost ordered = depermuted_blocks(unlinked(chain, key@.kx, p2@), p1@);
    let mut permuted_aont = [0u8; ENCRYPTED_SIZE];
    let mp0: [u8; BLOCK_SIZE_BYTE] = depermute_block::<BLOCK_SIZE_BYTE, BLOCK_SIZE_BITS>(
        &xor_array::<BLOCK_SIZE_BYTE>(
            &read_block(encrypted, 0),
            &permute_block::<BLOCK_SIZE_BYTE, BLOCK_SIZE_BITS>(&key.kx(), &p2),
        ),
        &p1,
    );
    write_block(&mut permuted_aont, 0, &mp0);
    assert(block_at(permuted_aont@, 0) == ordered[0]);
    let mut i: usize = 1;
    while i <= MESSAGE_BLOCKS_COUNT
        invariant
            1 <= i <= MESSAGE_BLOCKS_COUNT + 1,
            is_permutation(p1@),
            is_permutation(p2@),
            p1@.len() == BLOCK_SIZE_BITS,
            p2@.len() == BLOCK_SIZE_BITS,
            chain == blocks_of(encrypted@),
            ordered == depermuted_blocks(unlinked(chain, key@.kx, p2@), p1@),
            forall|k: int| 0 <= k < i ==> #[trigger] block_at(permuted_aont@, k) == ordered[k],
        decreases MESSAGE_BLOCKS_COUNT + 1 - i,
    {
        let previous_encrypted_block = read_block(encrypted, i - 1);
        let ci = read_block(encrypted, i);
        let mpi: [u8; BLOCK_SIZE_BYTE] = depermute_block::<BLOCK_SIZE_BYTE, BLOCK_SIZE_BITS>(
            &xor_array::<BLOCK_SIZE_BYTE>(
                &ci,
                &permute_block::<BLOCK_SIZE_BYTE, BLOCK_SIZE_BITS>(&previous_encrypted_block, &p2),
            ),
            &p1,
        );
        let ghost before = permuted_aont@;
        write_block(&mut permuted_aont, i, &mpi);
        proof {
            lemma_other_blocks_stay(before, permuted_aont@, i as int);
            assert(mpi@ == ordered[i as int]);
            assert forall|k: int| 0 <= k < i + 1 implies #[trigger] block_at(permuted_aont@, k)
                == ordered[k] by {
                if k < i {
                    assert(block_at(permuted_aont@, k) == block_at(before, k));
                }
            }
        }
        i += 1;
    }
    let blocks = split_blocks(&permuted_aont);
    let permuted_aont = block_references(&blocks);
    let aont_bytes = join_blocks(&depermute_block_set(&permuted_aont, &p3));
    proof {
        assert(block_views(permuted_aont@) =~= ordered);
        assert forall|q: int| 0 <= q < PACKAGE_BLOCKS_COUNT implies block_views(
            scatter(permuted_aont@, p3@),
        )[q] == scatter(ordered, p3@)[q] by {
            lemma_last_position(p3@, q, p3@.len() as int);
        }
        assert(block_views(scatter(permuted_aont@, p3@)) =~= scatter(ordered, p3@));
    }
    let aont = AONT::new(&aont_bytes);
    aont.retrieve_message()
}

/// Turns a ciphertext of one key into a ciphertext of another, with the
/// re-encryption key made from the two.
pub fn re_encrypt(encrypted: &Encrypted, reencryption_key: &ReEncryptionKey) -> (output: Encrypted)
    ensures
        output@ == re_encrypted(encrypted@, reencryption_key@),
{
    let old_p2 = reencryption_key.old_p2();
    let new_p2 = reencryption_key.new_p2();
    let cp1 = reencryption_key.cp1();
    let cp3 = reencryption_key.cp3();
    let ghost chain = blocks_of(encrypted@);
    let ghost repermuted = permuted_blocks(unlinked(chain, reencryption_key@.old_kx, old_p2@), cp1@);
    let mut reperm_encrypted_blocks = [0u8; ENCRYPTED_SIZE];
    let c0 = read_block(encrypted, 0);
    let c0_prime: [u8; BLOCK_SIZE_BYTE] = permute_block(
        &xor_array(&c0, &permute_block(&reencryption_key.old_kx(), &old_p2)),
        &cp1,
    );
    write_block(&mut reperm_encrypted_blocks, 0, &c0_prime);
    assert(block_at(reperm_encrypted_blocks@, 0) == repermuted[0]);
    let mut i: usize = 1;
    while i <= MESSAGE_BLOCKS_COUNT
        invariant
            1 <= i <= MESSAGE_BLOCKS_COUNT + 1,
            is_permutation(old_p2@),
            is_permutation(cp1@),
            old_p2@.len() == BLOCK_SIZE_BITS,
            cp1@.len() == BLOCK_SIZE_BITS,
            chain == blocks_of(encrypted@),
            repermuted == permuted_blocks(unlinked(chain, reencryption_key@.old_kx, old_p2@), cp1@),
            forall|k: int| 0 <= k < i ==> #[trigger] block_at(reperm_encrypted_blocks@, k) == repermuted[k],
        decreases MESSAGE_BLOCKS_COUNT + 1 - i,
    {
        let previous_ci = read_block(encrypted, i - 1);
        let ci = read_block(encrypted, i);
        let ci_prime: [u8; BLOCK_SIZE_BYTE] = permute_block(
            &xor_array(&ci, &permute_block(&previous_ci, &old_p2)),
            &cp1,
        );
        let ghost before = reperm_encrypted_blocks@;
        write_block(&mut reperm_encrypted_blocks, i, &ci_prime);
        proof {
            lemma_other_blocks_stay(before, reperm_encrypted_blocks@, i as int);
            assert(ci_prime@ == repermuted[i as int]);
            assert forall|k: int| 0 <= k < i + 1 implies #[trigger] block_at(reperm_encrypted_blocks@, k)
                == repermuted[k] by {
                if k < i {
                    assert(block_at(reperm_encrypted_blocks@, k) == block_at(before, k));
                }
            }
        }
        i += 1;
    }

    let blocks = split_blocks(&reperm_encrypted_blocks);
    let splitted_reperm_encrypted_blocks = block_references(&blocks);
    let correct_permuted_blocks = permute_block_set(&splitted_reperm_encrypted_blocks, &cp3);
    let ghost x = gather(repermuted, cp3@);
    let ghost relinked = linked(x, reencryption_key@.new_kx, new_p2@);
    proof {
        assert(block_views(splitted_reperm_encrypted_blocks@) =~= repermuted);
        assert(block_views(correct_permuted_blocks@) =~= x);
    }

    let mut output = [0u8; ENCRYPTED_SIZE];
    let c0 = correct_permuted_blocks[0];
    let new_c0: [u8; BLOCK_SIZE_BYTE] = xor_array(c0, &permute_block(&reencryption_key.new_kx(), &new_p2));
    write_block(&mut output, 0, &new_c0);
    assert(block_at(output@, 0) == relinked[0]);
    let mut i: usize = 1;
    while i <= MESSAGE_BLOCKS_COUNT
        invariant
            1 <= i <= MESSAGE_BLOCKS_COUNT + 1,
            is_permutation(new_p2@),
            new_p2@.len() == BLOCK_SIZE_BITS,
            x.len() == PACKAGE_BLOCKS_COUNT,
            block_views(correct_permuted_blocks@) == x,
            relinked == linked(x, reencryption_key@.new_kx, new_p2@),
            forall|k: int| 0 <= k < i ==> #[trigger] block_at(output@, k) == relinked[k],
        decreases MESSAGE_BLOCKS_COUNT + 1 - i,
    {
        let previous_ci = read_block(&output, i - 1);
        let ci = correct_permuted_blocks[i];
        let new_ci: [u8; BLOCK_SIZE_BYTE] = xor_array(ci, &permute_block(&previous_ci, &new_p2));
        let ghost before = output@;
        write_block(&mut output, i, &new_ci);
        proof {
            lemma_other_blocks_stay(before, output@, i as int);
            assert(ci@ == block_views(correct_permuted_blocks@)[i as int]);
            assert(previous_ci@ == relinked[i - 1]);
            assert(new_ci@ == relinked[i as int]);
            assert forall|k: int| 0 <= k < i + 1 implies #[trigger] block_at(output@, k) == relinked[k] by {
                if k < i {
                    assert(block_at(output@, k) == block_at(before, k));
                }
            }
        }
        i += 1;
    }
    proof {
        lemma_blocks_give_bytes(output@, relinked);
    }
    output
}

} // verus!
