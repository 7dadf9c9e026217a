//! The all-or-nothing transform. A message is masked block by block with a
//! random key block, and the key block, masked with a hash of the masked
//! message, follows as a trailer. Whoever holds the whole package finds the
//! key block again; whoever misses one block of it finds no block of the
//! message.

use vstd::prelude::*;
use crate::hash::{sha3_256, sha3_256_digest, DIGEST_SIZE};
use crate::random::{random_block, thread_rng};
use crate::utils::{
    block_at,
    copy_range,
    lemma_xor_bytes_cancel,
    lemma_xor_bytes_differs,
    lemma_xor_differs,
    lemma_xor_twice,
    read_block,
    write_block,
    xor_array,
    xor_bytes,
};
use crate::{BLOCK_SIZE_BYTE, ENCRYPTED_SIZE, MESSAGE_BLOCKS_COUNT, PLAINTEXT_SIZE};

verus! {

/// The first bytes of a digest, as many as a block has.
pub open spec fn truncated(digest: Seq<u8>) -> Seq<u8> {
    Seq::new(BLOCK_SIZE_BYTE as nat, |i: int| digest[i])
}

/// Every block of `data` combined with the key block by exclusive or.
pub open spec fn masked(data: Seq<u8>, key: Seq<u8>) -> Seq<u8> {
    Seq::new(data.len(), |i: int| data[i] ^ key[i % BLOCK_SIZE_BYTE as int])
}

/// The package made of a masked message, its digest and the key block: the
/// masked message, then the key block masked with the digest.
pub open spec fn sealed(body: Seq<u8>, digest: Seq<u8>, key: Seq<u8>) -> Seq<u8> {
    body + xor_bytes(truncated(digest), key)
}

/// The package of a message under a key block.
pub open spec fn wrapped(message: Seq<u8>, key: Seq<u8>) -> Seq<u8> {
    sealed(masked(message, key), sha3_256(masked(message, key)), key)
}

/// The masked message in a package: all of it but the trailer.
pub open spec fn body_of(package: Seq<u8>) -> Seq<u8> {
    package.take(package.len() - BLOCK_SIZE_BYTE)
}

/// The trailer of a package: its last block.
pub open spec fn trailer_of(package: Seq<u8>) -> Seq<u8> {
    package.skip(package.len() - BLOCK_SIZE_BYTE)
}

/// The message in a package, given the digest of its masked message.
pub open spec fn opened(package: Seq<u8>, digest: Seq<u8>) -> Seq<u8> {
    masked(body_of(package), xor_bytes(truncated(digest), trailer_of(package)))
}

/// The message in a package.
pub open spec fn unwrapped(package: Seq<u8>) -> Seq<u8> {
    opened(package, sha3_256(body_of(package)))
}

/// Opening a sealed package with the digest it was sealed with gives the
/// message back, whatever the digest is.
pub proof fn lemma_opened_sealed(message: Seq<u8>, digest: Seq<u8>, key: Seq<u8>)
    requires
        key.len() == BLOCK_SIZE_BYTE,
    ensures
        opened(sealed(masked(message, key), digest, key), digest) == message,
{
    let body = masked(message, key);
    let package = sealed(body, digest, key);
    assert(body_of(package) =~= body);
    assert(trailer_of(package) =~= xor_bytes(truncated(digest), key));
    lemma_xor_bytes_cancel(truncated(digest), key);
    assert forall|i: int| 0 <= i < message.len() implies (message[i] ^ key[i % BLOCK_SIZE_BYTE as int])
        ^ key[i % BLOCK_SIZE_BYTE as int] == message[i] by {
        lemma_xor_twice(message[i], key[i % BLOCK_SIZE_BYTE as int]);
    }
    assert(masked(body, key) =~= message);
}

/// Unwrapping a wrapped message gives the message back, under every key block.
pub proof fn lemma_unwrapped_wrapped(message: Seq<u8>, key: Seq<u8>)
    requires
        key.len() == BLOCK_SIZE_BYTE,
    ensures
        unwrapped(wrapped(message, key)) == message,
        wrapped(message, key).len() == message.len() + BLOCK_SIZE_BYTE,
{
    let body = masked(message, key);
    let package = wrapped(message, key);
    assert(body_of(package) =~= body);
    lemma_opened_sealed(message, sha3_256(body), key);
}

/// Two different key blocks give two different packages of one message that
/// has at least one block.
pub proof fn lemma_wrapped_differs(message: Seq<u8>, key1: Seq<u8>, key2: Seq<u8>)
    requires
        key1.len() == BLOCK_SIZE_BYTE,
        key2.len() == BLOCK_SIZE_BYTE,
        message.len() >= BLOCK_SIZE_BYTE,
        key1 != key2,
    ensures
        wrapped(message, key1) != wrapped(message, key2),
{
    let first = message.take(BLOCK_SIZE_BYTE as int);
    lemma_xor_bytes_differs(first, key1, key2);
    assert(wrapped(message, key1).take(BLOCK_SIZE_BYTE as int) =~= xor_bytes(first, key1));
    assert(wrapped(message, key2).take(BLOCK_SIZE_BYTE as int) =~= xor_bytes(first, key2));
}

/// All or nothing: two different packages that agree in one block of the
/// masked message never hold the same message.
pub proof fn lemma_unwrapped_differs(first: Seq<u8>, second: Seq<u8>, same: int)
    requires
        first.len() == second.len(),
        first.len() >= BLOCK_SIZE_BYTE,
        first != second,
        0 <= same,
        BLOCK_SIZE_BYTE * same + BLOCK_SIZE_BYTE <= first.len() - BLOCK_SIZE_BYTE,
        block_at(first, same) == block_at(second, same),
    ensures
        unwrapped(first) != unwrapped(second),
{
    let size = BLOCK_SIZE_BYTE as int;
    let key1 = xor_bytes(truncated(sha3_256(body_of(first))), trailer_of(first));
    let key2 = xor_bytes(truncated(sha3_256(body_of(second))), trailer_of(second));
    let message1 = unwrapped(first);
    let message2 = unwrapped(second);
    if key1 == key2 {
        if body_of(first) == body_of(second) {
            if trailer_of(first) == trailer_of(second) {
                assert(first =~= body_of(first) + trailer_of(first));
                assert(second =~= body_of(second) + trailer_of(second));
            }
            lemma_xor_bytes_differs(truncated(sha3_256(body_of(first))), trailer_of(first), trailer_of(second));
        } else {
            if forall|k: int| 0 <= k < body_of(first).len() ==> body_of(first)[k] == body_of(second)[k] {
                assert(body_of(first) =~= body_of(second));
            }
            let k = choose|k: int| 0 <= k < body_of(first).len() && body_of(first)[k] != body_of(second)[k];
            lemma_xor_differs(key1[k % size], body_of(first)[k], body_of(second)[k]);
            assert(message1[k] != message2[k]);
        }
    } else {
        if forall|j: int| 0 <= j < size ==> key1[j] == key2[j] {
            assert(key1 =~= key2);
        }
        let j = choose|j: int| 0 <= j < size && key1[j] != key2[j];
        let k = size * same + j;
        assert(block_at(first, same)[j] == first[k]);
        assert(block_at(second, same)[j] == second[k]);
        assert(k % size == j);
        lemma_xor_differs(first[k], key1[j], key2[j]);
        assert(message1[k] != message2[k]);
    }
}

/// A package of the all-or-nothing transform.
#[derive(Debug, Clone)]
pub struct AONT {
    pub encrypted: [u8; ENCRYPTED_SIZE],
}

impl AONT {
    /// The package with the given bytes.
    pub fn new(aont_encrypted_bytes: &[u8; ENCRYPTED_SIZE]) -> (aont: Self)
        ensures
            aont.encrypted == *aont_encrypted_bytes,
    {
        Self { encrypted: *aont_encrypted_bytes }
    }

    /// Masks every block of a message with the key block.
    pub fn mask_message(input: &[u8; PLAINTEXT_SIZE], random_key_xor: &[u8; BLOCK_SIZE_BYTE]) -> (xored:
        [u8; PLAINTEXT_SIZE])
        ensures
            xored@ == masked(input@, random_key_xor@),
    {
        let mut xored = [0u8; PLAINTEXT_SIZE];
        let mut i: usize = 0;
        while i < MESSAGE_BLOCKS_COUNT
            invariant
                i <= MESSAGE_BLOCKS_COUNT,
                forall|k: int|
                    0 <= k < BLOCK_SIZE_BYTE * i ==> xored@[k] == input@[k] ^ random_key_xor@[k
                        % BLOCK_SIZE_BYTE as int],
            decreases MESSAGE_BLOCKS_COUNT - i,
        {
            let chunk = read_block(input, i);
            let block = xor_array(&chunk, random_key_xor);
            let ghost before = xored@;
            write_block(&mut xored, i, &block);
            assert forall|k: int| 0 <= k < BLOCK_SIZE_BYTE * (i + 1) implies xored@[k] == input@[k]
                ^ random_key_xor@[k % BLOCK_SIZE_BYTE as int] by {
                if k >= BLOCK_SIZE_BYTE * i {
                    let j = k - BLOCK_SIZE_BYTE * i;
                    assert(xored@[k] == block_at(xored@, i as int)[j]);
                    assert(chunk@[j] == input@[k]);
                } else {
                    assert(xored@[k] == before[k]);
                }
            }
            i += 1;
        }
        assert(xored@ =~= masked(input@, random_key_xor@));
        xored
    }

    /// Puts a package together from a masked message, its digest and the key block.
    pub fn seal(
        xored: &[u8; PLAINTEXT_SIZE],
        digest: &[u8; DIGEST_SIZE],
        random_key_xor: &[u8; BLOCK_SIZE_BYTE],
    ) -> (aont: Self)
        ensures
            aont.encrypted@ == sealed(xored@, digest@, random_key_xor@),
    {
        let hash = read_block(digest, 0);
        let hash_xor_key = xor_array(&hash, random_key_xor);
        let mut encrypted = [0u8; ENCRYPTED_SIZE];
        let mut i: usize = 0;
        while i < PLAINTEXT_SIZE
            invariant
                i <= PLAINTEXT_SIZE,
                forall|k: int| 0 <= k < i ==> encrypted@[k] == xored@[k],
            decreases PLAINTEXT_SIZE - i,
        {
            encrypted[i] = xored[i];
            i += 1;
        }
        let ghost before = encrypted@;
        write_block(&mut encrypted, MESSAGE_BLOCKS_COUNT, &hash_xor_key);
        proof {
            assert(hash@ =~= truncated(digest@));
            let expected = sealed(xored@, digest@, random_key_xor@);
            assert forall|k: int| 0 <= k < ENCRYPTED_SIZE implies encrypted@[k] == expected[k] by {
                if k >= PLAINTEXT_SIZE {
                    assert(encrypted@[k] == block_at(encrypted@, MESSAGE_BLOCKS_COUNT as int)[k
                        - PLAINTEXT_SIZE]);
                } else {
                    assert(encrypted@[k] == before[k]);
                }
            }
            assert(encrypted@ =~= expected);
        }
        Self { encrypted }
    }

    /// Wraps a message under the given key block.
    pub fn from_message_with_key(
        input: &[u8; PLAINTEXT_SIZE],
        random_key_xor: &[u8; BLOCK_SIZE_BYTE],
    ) -> (aont: Self)
        ensures
            aont.encrypted@ == wrapped(input@, random_key_xor@),
    {
        let xored = Self::mask_message(input, random_key_xor);
        let digest = sha3_256_digest(&xored);
        Self::seal(&xored, &digest, random_key_xor)
    }

    /// Wraps a message under a fresh random key block.
    pub fn from_message(input: &[u8; PLAINTEXT_SIZE]) -> (aont: Self)
        ensures
            exists|key: Seq<u8>|
                key.len() == BLOCK_SIZE_BYTE && aont.encrypted@ == #[trigger] wrapped(input@, key),
            unwrapped(aont.encrypted@) == input@,
    {
        let mut rng = thread_rng();
        let random_key_xor = random_block(&mut rng);
        let aont = Self::from_message_with_key(input, &random_key_xor);
        proof {
            lemma_unwrapped_wrapped(input@, random_key_xor@);
        }
        aont
    }

    /// The message in the package, given the digest of its masked message.
    pub fn open_with_digest(&self, digest: &[u8; DIGEST_SIZE]) -> (message: [u8; PLAINTEXT_SIZE])
        ensures
            message@ == opened(self.encrypted@, digest@),
    {
        let xored: [u8; PLAINTEXT_SIZE] = copy_range(&self.encrypted, 0);
        let hash_xor_key = read_block(&self.encrypted, MESSAGE_BLOCKS_COUNT);
        let hash = read_block(digest, 0);
        let random_key_xor = xor_array(&hash, &hash_xor_key);
        proof {
            assert(hash@ =~= truncated(digest@));
            assert(xored@ =~= body_of(self.encrypted@));
            assert(hash_xor_key@ =~= trailer_of(self.encrypted@));
        }
        Self::mask_message(&xored, &random_key_xor)
    }

    /// The message in the package.
    pub fn retrieve_message(&self) -> (message: [u8; PLAINTEXT_SIZE])
        ensures
            message@ == unwrapped(self.encrypted@),
    {
        let xored: [u8; PLAINTEXT_SIZE] = copy_range(&self.encrypted, 0);
        let digest = sha3_256_digest(&xored);
        proof {
            assert(xored@ =~= body_of(self.encrypted@));
        }
        self.open_with_digest(&digest)
    }
}

} // verus!
