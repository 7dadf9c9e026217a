//! Permutations and what they do to bits and to blocks.
//!
//! A permutation of size `n` is a sequence of `n` indices below `n`, no two
//! of them equal. Applied as a *gather*, entry `i` says where item `i` of the
//! result comes from; applied as a *scatter*, it says where item `i` of the
//! input goes.

use vstd::prelude::*;
use vstd::arithmetic::div_mod::lemma_div_denominator;
use vstd::arithmetic::mul::{
    lemma_mul_is_associative,
    lemma_mul_is_commutative,
    lemma_mul_is_distributive_add_other_way,
};
use vstd::pervasive::unreached;
use num_bigint::BigUint;
use crate::bignum::{
    big_add,
    big_div,
    big_from_usize,
    big_mul,
    big_rem,
    big_to_usize,
    big_value,
    big_zero,
    factorial,
};
use crate::bits::{bit_at, bits_of, bytes_of, lemma_bytes_of_bits_of, lemma_or_bit};
use crate::permutation_laws::{lemma_conversion, lemma_position_of};
use crate::lehmer::{
    arrange,
    digit,
    identity,
    lemma_digit_bound,
    lemma_factorial_positive,
    lemma_identity_distinct,
    lemma_permutation_of_is_permutation,
    lemma_permutation_round_trip,
    number_of,
    permutation_of,
    rank_sum,
};

verus! {

/// Whether `p` is a permutation of the indices below `p.len()`, a size that
/// fits in a `usize`.
pub open spec fn is_permutation(p: Seq<usize>) -> bool {
    &&& p.len() <= usize::MAX
    &&& forall|i: int| 0 <= i < p.len() ==> p[i] < p.len()
    &&& forall|i: int, j: int| 0 <= i < j < p.len() ==> p[i] != p[j]
}

/// Whether every entry of `p` is an index below `n`.
pub open spec fn entries_below(p: Seq<usize>, n: int) -> bool {
    forall|i: int| 0 <= i < p.len() ==> p[i] < n
}

/// Item `i` of the result is item `p[i]` of `x`.
pub open spec fn gather<T>(x: Seq<T>, p: Seq<usize>) -> Seq<T> {
    Seq::new(p.len(), |i: int| x[p[i] as int])
}

/// The last position below `n` at which `p` holds `q`, or -1 if there is none.
pub open spec fn last_position(p: Seq<usize>, q: int, n: int) -> int
    decreases n,
{
    if n <= 0 {
        -1
    } else if p[n - 1] == q {
        n - 1
    } else {
        last_position(p, q, n - 1)
    }
}

/// Item `i` of `x` goes to position `p[i]` of the result, for `i` from 0 to
/// `n - 1` in turn; a position that nothing goes to keeps the item of `x`.
pub open spec fn scatter_first<T>(x: Seq<T>, p: Seq<usize>, n: int) -> Seq<T> {
    Seq::new(
        x.len(),
        |q: int|
            {
                let i = last_position(p, q, n);
                if i >= 0 {
                    x[i]
                } else {
                    x[q]
                }
            },
    )
}

/// Item `i` of `x` goes to position `p[i]` of the result, for each `i` in
/// turn; a position that nothing goes to keeps the item of `x`.
pub open spec fn scatter<T>(x: Seq<T>, p: Seq<usize>) -> Seq<T> {
    scatter_first(x, p, p.len() as int)
}

/// Whether one of the first `n` bits of `x` is set and goes to position `q`.
pub open spec fn receives_set_bit(x: Seq<bool>, p: Seq<usize>, q: int, n: int) -> bool {
    exists|i: int| 0 <= i < n && p[i] == q && #[trigger] x[i]
}

/// Bit `q` of the result is set where a set bit `i` of `x` has `p[i] == q`.
pub open spec fn scatter_bits(x: Seq<bool>, p: Seq<usize>) -> Seq<bool> {
    Seq::new(x.len(), |q: int| receives_set_bit(x, p, q, p.len() as int))
}

/// The block whose bit `i` is bit `key[i]` of `block`.
#[verifier::opaque]
pub open spec fn permuted_block(block: Seq<u8>, key: Seq<usize>) -> Seq<u8> {
    bytes_of(gather(bits_of(block), key))
}

/// The block whose bit `key[i]` is bit `i` of `block`. Where the key sends
/// several bits to one position, that bit is set if one of them is.
#[verifier::opaque]
pub open spec fn depermuted_block(block: Seq<u8>, key: Seq<usize>) -> Seq<u8> {
    bytes_of(scatter_bits(bits_of(block), key))
}

/// Reorders the bits of a block: bit `i` of the result is bit
/// `permutation_key[i]` of the input.
pub fn permute_block<const BYTES: usize, const BIT_COUNT: usize>(
    input: &[u8; BYTES],
    permutation_key: &[usize; BIT_COUNT],
) -> (output: [u8; BYTES])
    requires
        BIT_COUNT == 8 * BYTES,
        entries_below(permutation_key@, BIT_COUNT as int),
    ensures
        output@ == permuted_block(input@, permutation_key@),
{
    let mut output = [0u8; BYTES];
    assert forall|k: int| 0 <= k < BIT_COUNT implies !#[trigger] bit_at(output@, k) by {
        let r = (7 - k % 8) as u8;
        assert((0u8 >> r) & 1 == 0) by (bit_vector);
    }
    let mut i: usize = 0;
    while i < BIT_COUNT
        invariant
            i <= BIT_COUNT,
            BIT_COUNT == 8 * BYTES,
            entries_below(permutation_key@, BIT_COUNT as int),
            forall|k: int| 0 <= k < i ==> #[trigger] bit_at(output@, k) == bit_at(input@, permutation_key@[k] as int),
            forall|k: int| i <= k < BIT_COUNT ==> !#[trigger] bit_at(output@, k),
        decreases BIT_COUNT - i,
    {
        let next_pos = permutation_key[i];
        let input_bit_pos = (7 - next_pos % 8) as u8;
        let input_bit = (input[next_pos / 8] >> input_bit_pos) & 1;
        let output_bit_pos = (7 - i % 8) as u8;
        proof {
            let x = input[next_pos as int / 8];
            assert((x >> input_bit_pos) & 1 <= 1) by (bit_vector);
            lemma_or_bit(output@, i as int, input_bit);
        }
        output[i / 8] = output[i / 8] | (input_bit << output_bit_pos);
        i += 1;
    }
    proof {
        reveal(permuted_block);
        assert(bits_of(output@) =~= gather(bits_of(input@), permutation_key@));
        lemma_bytes_of_bits_of(output@);
    }
    output
}

/// Puts the bits of a block back: bit `i` of the input goes to bit
/// `permutation_key[i]` of the result. Where the key sends several bits to
/// one position, that bit is set if one of them is.
pub fn depermute_block<const BYTES: usize, const BIT_COUNT: usize>(
    input: &[u8; BYTES],
    permutation_key: &[usize; BIT_COUNT],
) -> (output: [u8; BYTES])
    requires
        BIT_COUNT == 8 * BYTES,
        entries_below(permutation_key@, BIT_COUNT as int),
    ensures
        output@ == depermuted_block(input@, permutation_key@),
{
    let mut output = [0u8; BYTES];
    assert forall|k: int| 0 <= k < BIT_COUNT implies !#[trigger] bit_at(output@, k) by {
        let r = (7 - k % 8) as u8;
        assert((0u8 >> r) & 1 == 0) by (bit_vector);
    }
    let mut i: usize = 0;
    while i < BIT_COUNT
        invariant
            i <= BIT_COUNT,
            BIT_COUNT == 8 * BYTES,
            entries_below(permutation_key@, BIT_COUNT as int),
            forall|q: int|
                0 <= q < BIT_COUNT ==> #[trigger] bit_at(output@, q) == receives_set_bit(
                    bits_of(input@),
                    permutation_key@,
                    q,
                    i as int,
                ),
        decreases BIT_COUNT - i,
    {
        let next_pos = permutation_key[i];
        let input_bit_pos = (7 - i % 8) as u8;
        let input_bit = (input[i / 8] >> input_bit_pos) & 1;
        let output_bit_pos = (7 - next_pos % 8) as u8;
        proof {
            let x = input[i as int / 8];
            assert((x >> input_bit_pos) & 1 <= 1) by (bit_vector);
            lemma_or_bit(output@, next_pos as int, input_bit);
            let bits = bits_of(input@);
            let after = output@.update(
                next_pos as int / 8,
                output@[next_pos as int / 8] | (input_bit << output_bit_pos),
            );
            assert(bits[i as int] == (input_bit == 1));
            assert forall|q: int| 0 <= q < BIT_COUNT implies #[trigger] bit_at(after, q)
                == receives_set_bit(bits, permutation_key@, q, i + 1) by {
                if receives_set_bit(bits, permutation_key@, q, i as int) {
                    let w = choose|w: int| 0 <= w < i && permutation_key@[w] == q && #[trigger] bits[w];
                    assert(0 <= w < i + 1 && permutation_key@[w] == q && bits[w]);
                }
                if q == next_pos && input_bit == 1 {
                    assert(0 <= i < i + 1 && permutation_key@[i as int] == q && bits[i as int]);
                }
            }
        }
        output[next_pos / 8] = output[next_pos / 8] | (input_bit << output_bit_pos);
        i += 1;
    }
    proof {
        reveal(depermuted_block);
        assert(bits_of(output@) =~= scatter_bits(bits_of(input@), permutation_key@));
        lemma_bytes_of_bits_of(output@);
    }
    output
}

/// Reorders a list of blocks: block `i` of the result is block
/// `permutation_key[i]` of the input.
pub fn permute_block_set<'a, const BLOCKS_COUNT: usize, const BYTES_PER_BLOCK: usize>(
    input_blocks: &[&'a [u8; BYTES_PER_BLOCK]; BLOCKS_COUNT],
    permutation_key: &[usize; BLOCKS_COUNT],
) -> (output: [&'a [u8; BYTES_PER_BLOCK]; BLOCKS_COUNT])
    requires
        entries_below(permutation_key@, BLOCKS_COUNT as int),
    ensures
        output@ == gather(input_blocks@, permutation_key@),
{
    let mut output = *input_blocks;
    let mut i: usize = 0;
    while i < BLOCKS_COUNT
        invariant
            i <= BLOCKS_COUNT,
            entries_below(permutation_key@, BLOCKS_COUNT as int),
            forall|k: int| 0 <= k < i ==> output@[k] == input_blocks@[permutation_key@[k] as int],
        decreases BLOCKS_COUNT - i,
    {
        let next_pos = permutation_key[i];
        output[i] = input_blocks[next_pos];
        i += 1;
    }
    assert(output@ =~= gather(input_blocks@, permutation_key@));
    output
}

/// Puts a list of blocks back in order: block `i` of the input goes to
/// position `permutation_key[i]` of the result. Where the key sends several
/// blocks to one position, the last of them stays; a position that no block
/// goes to keeps the block of the input.
pub fn depermute_block_set<'a, const BLOCKS_COUNT: usize, const BYTES_PER_BLOCK: usize>(
    input_blocks: &[&'a [u8; BYTES_PER_BLOCK]; BLOCKS_COUNT],
    permutation_key: &[usize; BLOCKS_COUNT],
) -> (output: [&'a [u8; BYTES_PER_BLOCK]; BLOCKS_COUNT])
    requires
        entries_below(permutation_key@, BLOCKS_COUNT as int),
    ensures
        output@ == scatter(input_blocks@, permutation_key@),
{
    let mut output = *input_blocks;
    assert(output@ =~= scatter_first(input_blocks@, permutation_key@, 0));
    let mut i: usize = 0;
    while i < BLOCKS_COUNT
        invariant
            i <= BLOCKS_COUNT,
            entries_below(permutation_key@, BLOCKS_COUNT as int),
            output@ == scatter_first(input_blocks@, permutation_key@, i as int),
        decreases BLOCKS_COUNT - i,
    {
        let next_pos = permutation_key[i];
        output[next_pos] = input_blocks[i];
        assert(output@ =~= scatter_first(input_blocks@, permutation_key@, i + 1));
        i += 1;
    }
    output
}

/// The position at which `p` holds `v`.
pub open spec fn position_of(p: Seq<usize>, v: usize) -> nat {
    choose|i: nat| i < p.len() && p[i as int] == v
}

/// The permutation that turns what `old_permutation` gathered into what
/// `new_permutation` gathers: entry `j` is the position at which
/// `old_permutation` holds `new_permutation[j]`.
pub open spec fn permutation_conversion(
    old_permutation: Seq<usize>,
    new_permutation: Seq<usize>,
) -> Seq<usize> {
    Seq::new(new_permutation.len(), |j: int| position_of(old_permutation, new_permutation[j]) as usize)
}

/// Finds the conversion between two permutations of one size: the
/// permutation `c` for which gathering by `old_permutation` and then by `c`
/// is gathering by `new_permutation`.
pub fn find_permute_conversion<const BIT_COUNT: usize>(
    old_permutation: &[usize; BIT_COUNT],
    new_permutation: &[usize; BIT_COUNT],
) -> (conversion: [usize; BIT_COUNT])
    requires
        is_permutation(old_permutation@),
        is_permutation(new_permutation@),
    ensures
        conversion@ == permutation_conversion(old_permutation@, new_permutation@),
        is_permutation(conversion@),
        gather(old_permutation@, conversion@) == new_permutation@,
{
    let mut conversion = [0usize; BIT_COUNT];
    let ghost expected = permutation_conversion(old_permutation@, new_permutation@);
    proof {
        lemma_position_of(old_permutation@);
        lemma_position_of(new_permutation@);
        lemma_conversion(old_permutation@, new_permutation@);
    }
    let mut i: usize = 0;
    while i < BIT_COUNT
        invariant
            i <= BIT_COUNT,
            is_permutation(old_permutation@),
            is_permutation(new_permutation@),
            expected == permutation_conversion(old_permutation@, new_permutation@),
            forall|j: int| 0 <= j < BIT_COUNT && expected[j] < i ==> conversion@[j] == expected[j],
        decreases BIT_COUNT - i,
    {
        let mut j: usize = 0;
        while j < BIT_COUNT && old_permutation[i] != new_permutation[j]
            invariant
                j <= BIT_COUNT,
                i < BIT_COUNT,
                forall|k: int| 0 <= k < j ==> old_permutation@[i as int] != new_permutation@[k],
            decreases BIT_COUNT - j,
        {
            j += 1;
        }
        proof {
            lemma_position_of(old_permutation@);
            lemma_position_of(new_permutation@);
            let at = position_of(new_permutation@, old_permutation@[i as int]);
            assert(new_permutation@[at as int] == old_permutation@[i as int]);
            assert(j == at);
            assert(expected[j as int] == i);
            assert forall|k: int| 0 <= k < BIT_COUNT && k != j implies expected[k] != i by {
                assert(old_permutation@[expected[k] as int] == new_permutation@[k]) by {
                    lemma_conversion(old_permutation@, new_permutation@);
                    assert(gather(old_permutation@, expected)[k] == new_permutation@[k]);
                }
            }
        }
        conversion[j] = i;
        i += 1;
    }
    proof {
        lemma_conversion(old_permutation@, new_permutation@);
        assert(conversion@ =~= expected);
    }
    conversion
}

/// The permutation of `ELEMENTS_COUNT` indices that the number `n` stands
/// for in the factorial number system. A number of `ELEMENTS_COUNT!` or more
/// gives the permutation of its remainder by `ELEMENTS_COUNT!`.
pub fn generate_permutation<const ELEMENTS_COUNT: usize>(n: BigUint) -> (result: [
    usize;
    ELEMENTS_COUNT
])
    ensures
        result@ == permutation_of(big_value(n), ELEMENTS_COUNT as nat),
        is_permutation(result@),
{
    let ghost number = big_value(n);
    let mut n = n;
    let mut stack: Vec<usize> = Vec::new();
    let mut result = [0usize; ELEMENTS_COUNT];
    let mut input_elements = [0usize; ELEMENTS_COUNT];
    let mut i: usize = 0;
    while i < ELEMENTS_COUNT
        invariant
            i <= ELEMENTS_COUNT,
            forall|k: int| 0 <= k < i ==> input_elements@[k] == k,
        decreases ELEMENTS_COUNT - i,
    {
        input_elements[i] = i;
        i += 1;
    }
    assert(input_elements@ =~= identity(ELEMENTS_COUNT as nat));

    let mut i: usize = 0;
    while i < ELEMENTS_COUNT
        invariant
            i <= ELEMENTS_COUNT,
            stack@.len() == i,
            forall|k: int| 0 <= k < i ==> stack@[k] == digit(number, (k + 1) as nat),
            big_value(n) == number / factorial(i as nat),
            input_elements@ == identity(ELEMENTS_COUNT as nat),
        decreases ELEMENTS_COUNT - i,
    {
        let radix = i + 1;
        let remainder = big_rem(&n, radix);
        proof {
            lemma_digit_bound(number, radix as nat);
        }
        let next_digit = match big_to_usize(&remainder) {
            Some(d) => d,
            None => unreached(),
        };
        stack.push(next_digit);
        proof {
            lemma_factorial_positive(i as nat);
            lemma_div_denominator(number as int, factorial(i as nat) as int, radix as int);
            lemma_mul_is_commutative(factorial(i as nat) as int, radix as int);
        }
        n = big_div(n, radix);
        i += 1;
    }

    proof {
        lemma_identity_distinct(ELEMENTS_COUNT as nat);
        assert(input_elements@.take(ELEMENTS_COUNT as int) =~= input_elements@);
        assert(result@.take(0) + arrange(number, input_elements@) =~= arrange(number, input_elements@));
    }
    let mut i: usize = 0;
    while i < ELEMENTS_COUNT
        invariant
            i <= ELEMENTS_COUNT,
            stack@.len() == ELEMENTS_COUNT - i,
            forall|k: int| 0 <= k < ELEMENTS_COUNT - i ==> stack@[k] == digit(number, (k + 1) as nat),
            input_elements@.take(ELEMENTS_COUNT - i).no_duplicates(),
            permutation_of(number, ELEMENTS_COUNT as nat) == result@.take(i as int) + arrange(
                number,
                input_elements@.take(ELEMENTS_COUNT - i),
            ),
        decreases ELEMENTS_COUNT - i,
    {
        let ghost candidates = input_elements@.take(ELEMENTS_COUNT - i);
        let ghost chosen = result@.take(i as int);
        let a = match stack.pop() {
            Some(a) => a,
            None => unreached(),
        };
        proof {
            lemma_digit_bound(number, candidates.len());
            candidates.remove_ensures(a as int);
        }
        result[i] = input_elements[a];
        let mut j: usize = a;
        while j < ELEMENTS_COUNT - 1
            invariant
                a <= j,
                a < ELEMENTS_COUNT - i,
                i < ELEMENTS_COUNT,
                candidates.len() == ELEMENTS_COUNT - i,
                forall|k: int| 0 <= k < a ==> input_elements@[k] == candidates[k],
                forall|k: int| a <= k < j && k < ELEMENTS_COUNT - i - 1 ==> input_elements@[k] == candidates[k + 1],
                forall|k: int| j <= k < ELEMENTS_COUNT - i ==> input_elements@[k] == candidates[k],
            decreases ELEMENTS_COUNT - j,
        {
            input_elements[j] = input_elements[j + 1];
            j += 1;
        }
        proof {
            let rest = candidates.remove(a as int);
            assert(input_elements@.take(ELEMENTS_COUNT - i - 1) =~= rest);
            assert(rest.no_duplicates()) by {
                candidates.remove_ensures(a as int);
            }
            assert(result@.take(i + 1) =~= chosen + seq![candidates[a as int]]);
            assert(arrange(number, candidates) == seq![candidates[a as int]] + arrange(number, rest));
            assert(result@.take(i + 1) + arrange(number, rest) =~= chosen + arrange(number, candidates));
        }
        i += 1;
    }
    proof {
        assert(result@.take(ELEMENTS_COUNT as int) =~= result@);
        assert(result@ =~= permutation_of(number, ELEMENTS_COUNT as nat));
        lemma_permutation_of_is_permutation(number, ELEMENTS_COUNT as nat);
    }
    result
}

/// The number that stands for `permutation` in the factorial number system.
pub fn get_permutation_number<const ELEMENTS_COUNT: usize>(permutation: [usize; ELEMENTS_COUNT]) -> (n:
    BigUint)
    requires
        is_permutation(permutation@),
    ensures
        big_value(n) == number_of(permutation@),
        big_value(n) < factorial(ELEMENTS_COUNT as nat),
{
    let mut input_elements: Vec<usize> = Vec::new();
    let mut i: usize = 0;
    while i < ELEMENTS_COUNT
        invariant
            i <= ELEMENTS_COUNT,
            input_elements@.len() == i,
            forall|k: int| 0 <= k < i ==> input_elements@[k] == k,
        decreases ELEMENTS_COUNT - i,
    {
        input_elements.push(i);
        i += 1;
    }
    assert(input_elements@ =~= identity(ELEMENTS_COUNT as nat));
    let mut n = big_zero();
    assert(big_value(n) == 0);
    assert(permutation@.skip(0) =~= permutation@);
    assert forall|k: int| 0 <= k < ELEMENTS_COUNT implies input_elements@.contains(
        #[trigger] permutation@[k],
    ) by {
        assert(input_elements@[permutation@[k] as int] == permutation@[k]);
    }

    let mut i: usize = 0;
    while i < ELEMENTS_COUNT
        invariant
            i <= ELEMENTS_COUNT,
            is_permutation(permutation@),
            input_elements@.len() == ELEMENTS_COUNT - i,
            input_elements@.no_duplicates(),
            forall|k: int| i <= k < ELEMENTS_COUNT ==> input_elements@.contains(#[trigger] permutation@[k]),
            number_of(permutation@) == big_value(n) * factorial((ELEMENTS_COUNT - i) as nat) + rank_sum(
                permutation@.skip(i as int),
                input_elements@,
            ),
        decreases ELEMENTS_COUNT - i,
    {
        let ghost candidates = input_elements@;
        let ghost before = big_value(n);
        let wanted = permutation[i];
        let mut a: usize = 0;
        while a < input_elements.len() && input_elements[a] != wanted
            invariant
                a <= input_elements@.len(),
                forall|k: int| 0 <= k < a ==> input_elements@[k] != wanted,
            decreases input_elements@.len() - a,
        {
            a += 1;
        }
        proof {
            assert(candidates.contains(permutation@[i as int]));
            let at = position_of(candidates, wanted);
            let found = choose|k: int| 0 <= k < candidates.len() && candidates[k] == wanted;
            assert((found as nat) < candidates.len() && candidates[(found as nat) as int] == wanted);
            assert(at < candidates.len() && candidates[at as int] == wanted);
            assert(a == at);
        }
        n = big_add(big_mul(n, ELEMENTS_COUNT - i), big_from_usize(a));
        input_elements.remove(a);
        proof {
            let rest = candidates.remove(a as int);
            candidates.remove_ensures(a as int);
            assert(input_elements@ == rest);
            let left = (ELEMENTS_COUNT - i) as nat;
            let w = factorial((left - 1) as nat);
            let tail = permutation@.skip(i as int);
            assert(tail.drop_first() =~= permutation@.skip(i + 1));
            assert(tail[0] == wanted);
            assert(rank_sum(tail, candidates) == a * w + rank_sum(permutation@.skip(i + 1), rest));
            assert(big_value(n) * w == before * factorial(left) + a * w) by {
                assert(big_value(n) == before * left + a);
                lemma_mul_is_distributive_add_other_way(w as int, (before * left) as int, a as int);
                lemma_mul_is_associative(before as int, left as int, w as int);
            }
            assert forall|k: int| i + 1 <= k < ELEMENTS_COUNT implies rest.contains(
                #[trigger] permutation@[k],
            ) by {
                let v = permutation@[k];
                assert(candidates.contains(v));
                let at = choose|at: int| 0 <= at < candidates.len() && candidates[at] == v;
                assert(v != wanted);
                if at < a {
                    assert(rest[at] == v);
                } else {
                    assert(rest[at - 1] == v);
                }
            }
        }
        i += 1;
    }
    proof {
        assert(factorial(0) == 1);
        assert(permutation@.skip(ELEMENTS_COUNT as int).len() == 0);
        assert(big_value(n) * 1 == big_value(n));
        lemma_permutation_round_trip(permutation@);
    }
    n
}

} // verus!
