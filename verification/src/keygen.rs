//! Keys. A key holds three numbers, each of which stands for a permutation
//! in the factorial number system, and one block. A re-encryption key is
//! made from two keys and turns ciphertext of the first into ciphertext of
//! the second.

use vstd::prelude::*;
use num_bigint::BigUint;
use crate::bignum::{big_factorial, big_from_usize, big_lt, big_value, big_zero, factorial};
use crate::lehmer::{number_of, permutation_of};
use crate::permutations::{
    find_permute_conversion,
    generate_permutation,
    get_permutation_number,
    is_permutation,
    permutation_conversion,
};
use crate::random::{gen_biguint_range, random_block, thread_rng};
use crate::{BLOCK_SIZE_BITS, BLOCK_SIZE_BYTE, PACKAGE_BLOCKS_COUNT};

verus! {

/// What a key holds, as numbers and bytes.
pub struct KeyView {
    pub k1: nat,
    pub k2: nat,
    pub k3: nat,
    pub kx: Seq<u8>,
}

impl KeyView {
    /// The permutation of the bits of a block.
    pub open spec fn p1(self) -> Seq<usize> {
        permutation_of(self.k1, BLOCK_SIZE_BITS as nat)
    }

    /// The permutation of the bits of a chaining value.
    pub open spec fn p2(self) -> Seq<usize> {
        permutation_of(self.k2, BLOCK_SIZE_BITS as nat)
    }

    /// The permutation of the blocks of a package.
    pub open spec fn p3(self) -> Seq<usize> {
        permutation_of(self.k3, PACKAGE_BLOCKS_COUNT as nat)
    }

    /// Whether each number lies in the range of the permutations that it
    /// selects among, and the block has the size of a block.
    pub open spec fn wf(self) -> bool {
        &&& self.k1 < factorial(BLOCK_SIZE_BITS as nat)
        &&& self.k2 < factorial(BLOCK_SIZE_BITS as nat)
        &&& self.k3 < factorial(PACKAGE_BLOCKS_COUNT as nat)
        &&& self.kx.len() == BLOCK_SIZE_BYTE
    }
}

/// A secret key.
#[derive(Debug)]
pub struct Key {
    k1: BigUint,
    k2: BigUint,
    k3: BigUint,
    kx: [u8; BLOCK_SIZE_BYTE],
}

impl View for Key {
    type V = KeyView;

    closed spec fn view(&self) -> KeyView {
        KeyView { k1: big_value(self.k1), k2: big_value(self.k2), k3: big_value(self.k3), kx: self.kx@ }
    }
}

impl Clone for Key {
    /// A key with the same secrets.
    fn clone(&self) -> (key: Self)
        ensures
            key@ == self@,
    {
        proof {
            use_type_invariant(self);
        }
        Self { k1: self.k1.clone(), k2: self.k2.clone(), k3: self.k3.clone(), kx: self.kx }
    }
}

impl Key {
    /// Every key is well formed.
    #[verifier::type_invariant]
    spec fn well_formed(self) -> bool {
        self@.wf()
    }

    /// A fresh random key.
    pub fn generate() -> (key: Self)
        ensures
            key@.wf(),
    {
        let mut rng = thread_rng();
        let max_value_block_perm = big_factorial(&big_from_usize(BLOCK_SIZE_BITS));
        let max_value_block_count = big_factorial(&big_from_usize(PACKAGE_BLOCKS_COUNT));
        proof {
            crate::lehmer::lemma_factorial_positive(BLOCK_SIZE_BITS as nat);
            crate::lehmer::lemma_factorial_positive(PACKAGE_BLOCKS_COUNT as nat);
        }
        let zero = big_zero();
        let k1 = gen_biguint_range(&mut rng, &zero, &max_value_block_perm);
        let k2 = gen_biguint_range(&mut rng, &zero, &max_value_block_perm);
        let k3 = gen_biguint_range(&mut rng, &zero, &max_value_block_count);
        let kx = random_block(&mut rng);
        Self { k1, k2, k3, kx }
    }

    /// The key with the given secrets, where each number lies in its range:
    /// the first two below the factorial of the number of bits in a block,
    /// the third below the factorial of the number of blocks in a package.
    pub fn from_secrets(k1: BigUint, k2: BigUint, k3: BigUint, kx: [u8; BLOCK_SIZE_BYTE]) -> (key:
        Option<Self>)
        ensures
            key is Some <==> (KeyView {
                k1: big_value(k1),
                k2: big_value(k2),
                k3: big_value(k3),
                kx: kx@,
            }).wf(),
            key matches Some(key) ==> key@ == (KeyView {
                k1: big_value(k1),
                k2: big_value(k2),
                k3: big_value(k3),
                kx: kx@,
            }),
    {
        let max_value_block_perm = big_factorial(&big_from_usize(BLOCK_SIZE_BITS));
        let max_value_block_count = big_factorial(&big_from_usize(PACKAGE_BLOCKS_COUNT));
        if big_lt(&k1, &max_value_block_perm) && big_lt(&k2, &max_value_block_perm) && big_lt(
            &k3,
            &max_value_block_count,
        ) {
            Some(Self { k1, k2, k3, kx })
        } else {
            None
        }
    }

    /// The permutation of the bits of a block.
    pub(crate) fn p1(&self) -> (p: [usize; BLOCK_SIZE_BITS])
        ensures
            p@ == self@.p1(),
            is_permutation(p@),
    {
        generate_permutation::<BLOCK_SIZE_BITS>(self.k1.clone())
    }

    /// The permutation of the bits of a chaining value.
    pub(crate) fn p2(&self) -> (p: [usize; BLOCK_SIZE_BITS])
        ensures
            p@ == self@.p2(),
            is_permutation(p@),
    {
        generate_permutation::<BLOCK_SIZE_BITS>(self.k2.clone())
    }

    /// The permutation of the blocks of a package.
    pub(crate) fn p3(&self) -> (p: [usize; PACKAGE_BLOCKS_COUNT])
        ensures
            p@ == self@.p3(),
            is_permutation(p@),
    {
        generate_permutation::<PACKAGE_BLOCKS_COUNT>(self.k3.clone())
    }

    /// The block that the first block of a ciphertext is chained to.
    pub(crate) fn kx(&self) -> (kx: [u8; BLOCK_SIZE_BYTE])
        ensures
            kx@ == self@.kx,
    {
        self.kx
    }
}

/// What a re-encryption key holds, as numbers and bytes.
pub struct ReEncryptionKeyView {
    pub ck1: nat,
    pub ck3: nat,
    pub old_kx: Seq<u8>,
    pub new_kx: Seq<u8>,
    pub old_k2: nat,
    pub new_k2: nat,
}

impl ReEncryptionKeyView {
    /// The permutation of chaining values under the old key.
    pub open spec fn old_p2(self) -> Seq<usize> {
        permutation_of(self.old_k2, BLOCK_SIZE_BITS as nat)
    }

    /// The permutation of chaining values under the new key.
    pub open spec fn new_p2(self) -> Seq<usize> {
        permutation_of(self.new_k2, BLOCK_SIZE_BITS as nat)
    }

    /// The conversion between the bit permutations of the two keys.
    pub open spec fn cp1(self) -> Seq<usize> {
        permutation_of(self.ck1, BLOCK_SIZE_BITS as nat)
    }

    /// The conversion between the block permutations of the two keys.
    pub open spec fn cp3(self) -> Seq<usize> {
        permutation_of(self.ck3, PACKAGE_BLOCKS_COUNT as nat)
    }

    /// Whether each number lies in the range of the permutations that it
    /// selects among, and the blocks have the size of a block.
    pub open spec fn wf(self) -> bool {
        &&& self.ck1 < factorial(BLOCK_SIZE_BITS as nat)
        &&& self.ck3 < factorial(PACKAGE_BLOCKS_COUNT as nat)
        &&& self.old_k2 < factorial(BLOCK_SIZE_BITS as nat)
        &&& self.new_k2 < factorial(BLOCK_SIZE_BITS as nat)
        &&& self.old_kx.len() == BLOCK_SIZE_BYTE
        &&& self.new_kx.len() == BLOCK_SIZE_BYTE
    }
}

/// The re-encryption key from `old_key` to `new_key`: the numbers of the
/// two conversions, and of both keys the chaining number and the block.
pub open spec fn reencryption_key(old_key: KeyView, new_key: KeyView) -> ReEncryptionKeyView {
    ReEncryptionKeyView {
        ck1: number_of(permutation_conversion(old_key.p1(), new_key.p1())),
        ck3: number_of(permutation_conversion(old_key.p3(), new_key.p3())),
        old_kx: old_key.kx,
        new_kx: new_key.kx,
        old_k2: old_key.k2,
        new_k2: new_key.k2,
    }
}

/// A key that turns ciphertext of one key into ciphertext of another.
pub struct ReEncryptionKey {
    ck1: BigUint,
    ck3: BigUint,
    old_kx: [u8; BLOCK_SIZE_BYTE],
    new_kx: [u8; BLOCK_SIZE_BYTE],
    old_k2: BigUint,
    new_k2: BigUint,
}

impl View for ReEncryptionKey {
    type V = ReEncryptionKeyView;

    closed spec fn view(&self) -> ReEncryptionKeyView {
        ReEncryptionKeyView {
            ck1: big_value(self.ck1),
            ck3: big_value(self.ck3),
            old_kx: self.old_kx@,
            new_kx: self.new_kx@,
            old_k2: big_value(self.old_k2),
            new_k2: big_value(self.new_k2),
        }
    }
}

impl ReEncryptionKey {
    /// Every re-encryption key is well formed.
    #[verifier::type_invariant]
    spec fn well_formed(self) -> bool {
        self@.wf()
    }

    /// The re-encryption key from `old_key` to `new_key`.
    pub fn generate(old_key: &Key, new_key: &Key) -> (reencryption_key: Self)
        ensures
            reencryption_key@ == self::reencryption_key(old_key@, new_key@),
            reencryption_key@.wf(),
    {
        proof {
            use_type_invariant(old_key);
            use_type_invariant(new_key);
        }
        let p1_old = old_key.p1();
        let p3_old = old_key.p3();
        let p1_new = new_key.p1();
        let p3_new = new_key.p3();
        let ck1 = get_permutation_number(find_permute_conversion(&p1_old, &p1_new));
        let ck3 = get_permutation_number(find_permute_conversion(&p3_old, &p3_new));

        Self {
            ck1,
            ck3,
            old_kx: old_key.kx(),
            new_kx: new_key.kx(),
            old_k2: old_key.k2.clone(),
            new_k2: new_key.k2.clone(),
        }
    }

    /// The permutation of chaining values under the old key.
    pub(crate) fn old_p2(&self) -> (p: [usize; BLOCK_SIZE_BITS])
        ensures
            p@ == self@.old_p2(),
            is_permutation(p@),
    {
        generate_permutation::<BLOCK_SIZE_BITS>(self.old_k2.clone())
    }

    /// The permutation of chaining values under the new key.
    pub(crate) fn new_p2(&self) -> (p: [usize; BLOCK_SIZE_BITS])
        ensures
            p@ == self@.new_p2(),
            is_permutation(p@),
    {
        generate_permutation::<BLOCK_SIZE_BITS>(self.new_k2.clone())
    }

    /// The conversion between the bit permutations of the two keys.
    pub(crate) fn cp1(&self) -> (p: [usize; BLOCK_SIZE_BITS])
        ensures
            p@ == self@.cp1(),
            is_permutation(p@),
    {
        generate_permutation(self.ck1.clone())
    }

    /// The conversion between the block permutations of the two keys.
    pub(crate) fn cp3(&self) -> (p: [usize; PACKAGE_BLOCKS_COUNT])
        ensures
            p@ == self@.cp3(),
            is_permutation(p@),
    {
        generate_permutation(self.ck3.clone())
    }

    /// The block that the old key chains the first block to.
    pub(crate) fn old_kx(&self) -> (kx: [u8; BLOCK_SIZE_BYTE])
        ensures
            kx@ == self@.old_kx,
    {
        self.old_kx
    }

    /// The block that the new key chains the first block to.
    pub(crate) fn new_kx(&self) -> (kx: [u8; BLOCK_SIZE_BYTE])
        ensures
            kx@ == self@.new_kx,
    {
        self.new_kx
    }
}

} // verus!
