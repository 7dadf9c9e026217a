//! What a change of a ciphertext does. The cipher has no integrity tag, so a
//! changed ciphertext decrypts without complaint; but a ciphertext changed
//! in one block never decrypts to the message of the unchanged one.

use vstd::prelude::*;
use crate::aont::lemma_unwrapped_differs;
use crate::encryption::{chaining_value, decrypted, decrypted_package, depermuted_blocks, unlinked};
use crate::keygen::KeyView;
use crate::permutation_laws::{
    lemma_depermuted_block_bits,
    lemma_permutation_onto,
    lemma_permuted_blocks_differ,
    lemma_scatter_gather,
};
use crate::permutations::{gather, permuted_block, scatter};
use crate::round_trip::lemma_key_permutations;
use crate::utils::{
    all_block_sized,
    block_at,
    blocks_of,
    lemma_blocks_of_concat,
    lemma_concat_blocks_of,
    lemma_xor_bytes_keeps_difference,
};
use crate::{BLOCK_SIZE_BYTE, ENCRYPTED_SIZE, PACKAGE_BLOCKS_COUNT};

verus! {

/// Whether two byte strings of one length differ in block `i` and in no other.
pub open spec fn differ_in_block_only(first: Seq<u8>, second: Seq<u8>, i: int) -> bool {
    &&& first.len() == second.len()
    &&& block_at(first, i) != block_at(second, i)
    &&& forall|j: int|
        0 <= j && j != i && BLOCK_SIZE_BYTE * j + BLOCK_SIZE_BYTE <= first.len() ==> block_at(first, j)
            == block_at(second, j)
}

/// The blocks that the chains of two ciphertexts were made of, with their
/// bits put back, differ where the ciphertexts differ and in the block
/// after it, and nowhere else.
proof fn lemma_ordered_blocks_differ(first: Seq<u8>, second: Seq<u8>, key: KeyView, i: int)
    requires
        first.len() == ENCRYPTED_SIZE,
        0 <= i < PACKAGE_BLOCKS_COUNT,
        differ_in_block_only(first, second, i),
    ensures
        ({
            let one = depermuted_blocks(unlinked(blocks_of(first), key.kx, key.p2()), key.p1());
            let other = depermuted_blocks(unlinked(blocks_of(second), key.kx, key.p2()), key.p1());
            &&& one.len() == PACKAGE_BLOCKS_COUNT
            &&& other.len() == PACKAGE_BLOCKS_COUNT
            &&& all_block_sized(one)
            &&& all_block_sized(other)
            &&& one[i] != other[i]
            &&& forall|j: int| 0 <= j < PACKAGE_BLOCKS_COUNT && j != i && j != i + 1 ==> one[j] == other[j]
        }),
{
    lemma_key_permutations(key);
    let p1 = key.p1();
    let p2 = key.p2();
    let chain1 = blocks_of(first);
    let chain2 = blocks_of(second);
    lemma_concat_blocks_of(first);
    lemma_concat_blocks_of(second);
    let plain1 = unlinked(chain1, key.kx, p2);
    let plain2 = unlinked(chain2, key.kx, p2);
    let one = depermuted_blocks(plain1, p1);
    let other = depermuted_blocks(plain2, p1);
    assert forall|j: int| 0 <= j < PACKAGE_BLOCKS_COUNT implies (#[trigger] one[j]).len()
        == BLOCK_SIZE_BYTE by {
        assert(chain1[j].len() == BLOCK_SIZE_BYTE);
        lemma_depermuted_block_bits(plain1[j], p1);
    }
    assert forall|j: int| 0 <= j < PACKAGE_BLOCKS_COUNT implies (#[trigger] other[j]).len()
        == BLOCK_SIZE_BYTE by {
        assert(chain2[j].len() == BLOCK_SIZE_BYTE);
        lemma_depermuted_block_bits(plain2[j], p1);
    }
    assert forall|j: int| 0 <= j < PACKAGE_BLOCKS_COUNT && j != i && j != i + 1 implies one[j]
        == other[j] by {
        assert(chain1[j] == chain2[j]);
        if j > 0 {
            assert(chain1[j - 1] == chain2[j - 1]);
        }
    }
    assert(one[i] != other[i]) by {
        assert(chain1[i] != chain2[i]);
        assert(chain1[i].len() == BLOCK_SIZE_BYTE);
        assert(chain2[i].len() == BLOCK_SIZE_BYTE);
        if i > 0 {
            assert(chain1[i - 1] == chain2[i - 1]);
        }
        let mask = permuted_block(chaining_value(chain1, key.kx, i), p2);
        assert(mask == permuted_block(chaining_value(chain2, key.kx, i), p2));
        lemma_xor_bytes_keeps_difference(chain1[i], chain2[i], mask);
        lemma_permuted_blocks_differ(plain1[i], plain2[i], p1);
    }
}

/// A ciphertext changed in one block never decrypts to the message of the
/// unchanged ciphertext, whatever the key and whatever the change.
pub proof fn lemma_tampered_decrypts_differently(
    ciphertext: Seq<u8>,
    tampered: Seq<u8>,
    key: KeyView,
    i: int,
)
    requires
        ciphertext.len() == ENCRYPTED_SIZE,
        0 <= i < PACKAGE_BLOCKS_COUNT,
        differ_in_block_only(ciphertext, tampered, i),
    ensures
        decrypted(tampered, key) != decrypted(ciphertext, key),
{
    lemma_key_permutations(key);
    let p3 = key.p3();
    let one = depermuted_blocks(unlinked(blocks_of(ciphertext), key.kx, key.p2()), key.p1());
    let other = depermuted_blocks(unlinked(blocks_of(tampered), key.kx, key.p2()), key.p1());
    lemma_ordered_blocks_differ(ciphertext, tampered, key, i);
    let blocks1 = scatter(one, p3);
    let blocks2 = scatter(other, p3);
    lemma_scatter_gather(one, p3);
    lemma_scatter_gather(other, p3);
    lemma_permutation_onto(p3);
    // Block `p3[j]` of a package is block `j` of what was put back in order.
    assert forall|j: int| 0 <= j < PACKAGE_BLOCKS_COUNT implies blocks1[p3[j] as int] == one[j]
        && blocks2[p3[j] as int] == other[j] by {
        assert(gather(blocks1, p3)[j] == one[j]);
        assert(gather(blocks2, p3)[j] == other[j]);
    }
    assert forall|q: int| 0 <= q < PACKAGE_BLOCKS_COUNT implies (#[trigger] blocks1[q]).len()
        == BLOCK_SIZE_BYTE by {
        assert(p3.contains(q as usize));
        let j = choose|j: int| 0 <= j < p3.len() && p3[j] == q as usize;
        assert(blocks1[p3[j] as int] == one[j]);
    }
    assert forall|q: int| 0 <= q < PACKAGE_BLOCKS_COUNT implies (#[trigger] blocks2[q]).len()
        == BLOCK_SIZE_BYTE by {
        assert(p3.contains(q as usize));
        let j = choose|j: int| 0 <= j < p3.len() && p3[j] == q as usize;
        assert(blocks2[p3[j] as int] == other[j]);
    }
    let package1 = decrypted_package(ciphertext, key);
    let package2 = decrypted_package(tampered, key);
    lemma_blocks_of_concat(blocks1);
    lemma_blocks_of_concat(blocks2);
    assert(package1 != package2) by {
        assert(blocks_of(package1)[p3[i] as int] != blocks_of(package2)[p3[i] as int]);
    }
    // Of the blocks of the masked message at most two have changed, so one
    // of the first three has not.
    let changed1 = p3[i] as int;
    let changed2 = if i + 1 < PACKAGE_BLOCKS_COUNT {
        p3[i + 1] as int
    } else {
        changed1
    };
    let same: int = if changed1 != 0 && changed2 != 0 {
        0
    } else if changed1 != 1 && changed2 != 1 {
        1
    } else {
        2
    };
    assert(blocks1[same] == blocks2[same]) by {
        assert(p3.contains(same as usize));
        let j = choose|j: int| 0 <= j < p3.len() && p3[j] == same as usize;
        assert(j != i);
        assert(j != i + 1);
        assert(blocks1[p3[j] as int] == one[j]);
        assert(blocks2[p3[j] as int] == other[j]);
    }
    assert(block_at(package1, same) == block_at(package2, same)) by {
        assert(blocks_of(package1)[same] == blocks1[same]);
        assert(blocks_of(package2)[same] == blocks2[same]);
    }
    lemma_unwrapped_differs(package1, package2, same);
}

} // verus!
