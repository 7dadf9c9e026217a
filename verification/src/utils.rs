//! Exclusive or of byte strings, and blocks inside byte strings.

use vstd::prelude::*;
use crate::BLOCK_SIZE_BYTE;

verus! {

/// Bytewise exclusive or of two byte strings; the result is as long as `a`.
pub open spec fn xor_bytes(a: Seq<u8>, b: Seq<u8>) -> Seq<u8> {
    Seq::new(a.len(), |i: int| a[i] ^ b[i])
}

/// Block `i` of a byte string.
pub open spec fn block_at(bytes: Seq<u8>, i: int) -> Seq<u8> {
    bytes.subrange(BLOCK_SIZE_BYTE * i, BLOCK_SIZE_BYTE * i + BLOCK_SIZE_BYTE)
}

/// The blocks of a byte string; bytes beyond the last full block are dropped.
pub open spec fn blocks_of(bytes: Seq<u8>) -> Seq<Seq<u8>> {
    Seq::new((bytes.len() / BLOCK_SIZE_BYTE as nat) as nat, |i: int| block_at(bytes, i))
}

/// The byte string made of the given blocks, one after the other.
pub open spec fn concat_blocks(blocks: Seq<Seq<u8>>) -> Seq<u8> {
    Seq::new(
        (BLOCK_SIZE_BYTE * blocks.len()) as nat,
        |k: int| blocks[k / BLOCK_SIZE_BYTE as int][k % BLOCK_SIZE_BYTE as int],
    )
}

/// Whether every one of the blocks has the size of a block.
pub open spec fn all_block_sized(blocks: Seq<Seq<u8>>) -> bool {
    forall|i: int| 0 <= i < blocks.len() ==> (#[trigger] blocks[i]).len() == BLOCK_SIZE_BYTE
}

/// Exclusive or with the same byte twice gives back the first byte, and
/// the exclusive or of a byte with what it was combined with gives back the
/// other byte.
pub proof fn lemma_xor_twice(x: u8, y: u8)
    by (bit_vector)
    ensures
        (x ^ y) ^ y == x,
        x ^ (x ^ y) == y,
{
}

/// Exclusive or with a byte keeps two different bytes different, on either side.
pub proof fn lemma_xor_differs(x: u8, y: u8, z: u8)
    by (bit_vector)
    requires
        y != z,
    ensures
        x ^ y != x ^ z,
        y ^ x != z ^ x,
{
}

/// Exclusive or with the same byte string twice gives back the first one.
pub proof fn lemma_xor_bytes_twice(a: Seq<u8>, b: Seq<u8>)
    ensures
        xor_bytes(xor_bytes(a, b), b) == a,
{
    assert forall|i: int| 0 <= i < a.len() implies (a[i] ^ b[i]) ^ b[i] == a[i] by {
        lemma_xor_twice(a[i], b[i]);
    }
    assert(xor_bytes(xor_bytes(a, b), b) =~= a);
}

/// The exclusive or of a byte string with what it was once combined with
/// gives back the other part.
pub proof fn lemma_xor_bytes_cancel(a: Seq<u8>, b: Seq<u8>)
    requires
        a.len() == b.len(),
    ensures
        xor_bytes(a, xor_bytes(a, b)) == b,
{
    assert forall|i: int| 0 <= i < a.len() implies a[i] ^ (a[i] ^ b[i]) == b[i] by {
        lemma_xor_twice(a[i], b[i]);
    }
    assert(xor_bytes(a, xor_bytes(a, b)) =~= b);
}

/// Exclusive or with two different byte strings gives two different results.
pub proof fn lemma_xor_bytes_differs(a: Seq<u8>, b: Seq<u8>, c: Seq<u8>)
    requires
        a.len() == b.len(),
        a.len() == c.len(),
        b != c,
    ensures
        xor_bytes(a, b) != xor_bytes(a, c),
{
    if forall|i: int| 0 <= i < a.len() ==> b[i] == c[i] {
        assert(b =~= c);
    }
    let i = choose|i: int| 0 <= i < a.len() && b[i] != c[i];
    lemma_xor_differs(a[i], b[i], c[i]);
    assert(xor_bytes(a, b)[i] != xor_bytes(a, c)[i]);
}

/// Exclusive or of two different byte strings of one length with a third
/// gives two different results.
pub proof fn lemma_xor_bytes_keeps_difference(a: Seq<u8>, b: Seq<u8>, c: Seq<u8>)
    requires
        a.len() == b.len(),
        a != b,
    ensures
        xor_bytes(a, c) != xor_bytes(b, c),
{
    lemma_xor_bytes_twice(a, c);
    lemma_xor_bytes_twice(b, c);
}

/// A byte string of whole blocks is made of its blocks.
pub proof fn lemma_concat_blocks_of(bytes: Seq<u8>)
    requires
        bytes.len() % BLOCK_SIZE_BYTE as nat == 0,
    ensures
        concat_blocks(blocks_of(bytes)) == bytes,
        all_block_sized(blocks_of(bytes)),
        blocks_of(bytes).len() * BLOCK_SIZE_BYTE == bytes.len(),
{
    assert(concat_blocks(blocks_of(bytes)) =~= bytes);
}

/// The blocks of a byte string made of blocks are those blocks.
pub proof fn lemma_blocks_of_concat(blocks: Seq<Seq<u8>>)
    requires
        all_block_sized(blocks),
    ensures
        blocks_of(concat_blocks(blocks)) == blocks,
{
    let bytes = concat_blocks(blocks);
    assert(blocks_of(bytes).len() == blocks.len());
    assert forall|i: int| 0 <= i < blocks.len() implies blocks_of(bytes)[i] == blocks[i] by {
        assert(blocks[i].len() == BLOCK_SIZE_BYTE);
        assert(block_at(bytes, i) =~= blocks[i]);
    }
    assert(blocks_of(bytes) =~= blocks);
}

/// Bytewise exclusive or of two arrays of the same length.
pub fn xor_array<const ARRAY_SIZE: usize>(a: &[u8; ARRAY_SIZE], b: &[u8; ARRAY_SIZE]) -> (c: [
    u8;
    ARRAY_SIZE
])
    ensures
        c@ == xor_bytes(a@, b@),
{
    let mut c = [0u8; ARRAY_SIZE];
    let mut i: usize = 0;
    while i < ARRAY_SIZE
        invariant
            i <= ARRAY_SIZE,
            forall|k: int| 0 <= k < i ==> c@[k] == a@[k] ^ b@[k],
        decreases ARRAY_SIZE - i,
    {
        c[i] = a[i] ^ b[i];
        i += 1;
    }
    assert(c@ =~= xor_bytes(a@, b@));
    c
}

/// Copies `LENGTH` bytes out of a byte array, from position `start` on.
pub fn copy_range<const SIZE: usize, const LENGTH: usize>(bytes: &[u8; SIZE], start: usize) -> (part: [
    u8;
    LENGTH
])
    requires
        start + LENGTH <= SIZE,
    ensures
        part@ == bytes@.subrange(start as int, start + LENGTH),
{
    let mut part = [0u8; LENGTH];
    let mut k: usize = 0;
    while k < LENGTH
        invariant
            k <= LENGTH,
            start + LENGTH <= SIZE,
            forall|j: int| 0 <= j < k ==> part@[j] == bytes@[start + j],
        decreases LENGTH - k,
    {
        part[k] = bytes[start + k];
        k += 1;
    }
    assert(part@ =~= bytes@.subrange(start as int, start + LENGTH));
    part
}

/// Copies block `i` out of a byte array.
pub fn read_block<const SIZE: usize>(bytes: &[u8; SIZE], i: usize) -> (block: [u8; BLOCK_SIZE_BYTE])
    requires
        BLOCK_SIZE_BYTE * i + BLOCK_SIZE_BYTE <= SIZE,
    ensures
        block@ == block_at(bytes@, i as int),
{
    copy_range(bytes, BLOCK_SIZE_BYTE * i)
}

/// Copies a block into a byte array as its block `i`; the other bytes stay.
pub fn write_block<const SIZE: usize>(bytes: &mut [u8; SIZE], i: usize, block: &[u8; BLOCK_SIZE_BYTE])
    requires
        BLOCK_SIZE_BYTE * i + BLOCK_SIZE_BYTE <= SIZE,
    ensures
        block_at(final(bytes)@, i as int) == block@,
        forall|k: int|
            0 <= k < SIZE && !(BLOCK_SIZE_BYTE * i <= k < BLOCK_SIZE_BYTE * i + BLOCK_SIZE_BYTE)
                ==> final(bytes)@[k] == old(bytes)@[k],
{
    let mut k: usize = 0;
    while k < BLOCK_SIZE_BYTE
        invariant
            k <= BLOCK_SIZE_BYTE,
            BLOCK_SIZE_BYTE * i + BLOCK_SIZE_BYTE <= SIZE,
            forall|j: int| 0 <= j < k ==> bytes@[BLOCK_SIZE_BYTE * i + j] == block@[j],
            forall|j: int|
                0 <= j < SIZE && !(BLOCK_SIZE_BYTE * i <= j < BLOCK_SIZE_BYTE * i + k) ==> bytes@[j] == old(
                    bytes,
                )@[j],
        decreases BLOCK_SIZE_BYTE - k,
    {
        bytes[BLOCK_SIZE_BYTE * i + k] = block[k];
        k += 1;
    }
    assert(block_at(bytes@, i as int) =~= block@);
}

} // verus!
