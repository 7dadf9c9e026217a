//! The source of randomness: the thread-local generator of the `rand` crate,
//! which the operating system seeds. Nothing is known of what it hands out
//! but the range asked for. Where the system cannot seed it, the outside code
//! panics: randomness that is not there is fatal, and no weaker source takes
//! its place.

use vstd::prelude::*;
use num_bigint::{BigUint, RandBigInt};
use rand::rngs::ThreadRng;
use rand::Rng;
use crate::bignum::big_value;
use crate::BLOCK_SIZE_BYTE;

verus! {

/// `rand::rngs::ThreadRng`, taken as it is: the verifier knows nothing of
/// the generator.
#[verifier::external_type_specification]
#[verifier::external_body]
pub struct ExThreadRng(ThreadRng);

/// `rand::thread_rng`: a handle to the generator of this thread.
#[verifier::external_body]
pub(crate) fn thread_rng() -> ThreadRng {
    rand::thread_rng()
}

/// `rand::Rng::fill` on a fresh block: a block of random bytes.
#[verifier::external_body]
pub(crate) fn random_block(rng: &mut ThreadRng) -> [u8; BLOCK_SIZE_BYTE] {
    let mut block = [0u8; BLOCK_SIZE_BYTE];
    rng.fill(&mut block);
    block
}

/// `num_bigint::RandBigInt::gen_biguint_range`: a random number that is at
/// least `lbound` and less than `ubound`. The outside code panics where the
/// range is empty.
#[verifier::external_body]
pub(crate) fn gen_biguint_range(rng: &mut ThreadRng, lbound: &BigUint, ubound: &BigUint) -> (r:
    BigUint)
    requires
        big_value(*lbound) < big_value(*ubound),
    ensures
        big_value(*lbound) <= big_value(r) < big_value(*ubound),
{
    rng.gen_biguint_range(lbound, ubound)
}

} // verus!
