use num_bigint::BigUint;
use num_traits::Zero;
use symmetric_pre::permutations::{
    depermute_block, depermute_block_set, find_permute_conversion, generate_permutation,
    get_permutation_number, permute_block, permute_block_set,
};

fn big(digits: &str) -> BigUint {
    digits.parse().unwrap()
}

#[test]
fn test_permute_block() {
    let input = [0b0000_0001, 0b0000_0010];
    let permutation_key = [0, 1, 2, 3, 4, 5, 7, 6, 8, 9, 10, 11, 12, 13, 15, 14];
    let output = permute_block(&input, &permutation_key);
    assert_eq!(output, [0b0000_0010, 0b0000_0001]);
}

#[test]
fn test_depermute_block() {
    let input = [0b0000_0010, 0b0000_0001];
    let permutation_key = [0, 1, 2, 3, 4, 5, 7, 6, 8, 9, 10, 11, 12, 13, 15, 14];
    let output = depermute_block(&input, &permutation_key);
    assert_eq!(output, [0b0000_0001, 0b0000_0010]);
}

#[test]
fn test_find_permute_conversion() {
    let old_permutation = [0, 1, 2, 3, 4, 5, 7, 6, 8, 9, 10, 11, 12, 13, 15, 14];
    let new_permutation = [1, 0, 2, 3, 4, 5, 6, 7, 8, 9, 10, 11, 12, 13, 14, 15];
    let conversion = find_permute_conversion(&old_permutation, &new_permutation);
    assert_eq!(conversion, [1, 0, 2, 3, 4, 5, 7, 6, 8, 9, 10, 11, 12, 13, 15, 14]);
}

#[test]
fn test_generate_permutation() {
    let no_perm = generate_permutation::<16>(0usize.into());
    assert_eq!(no_perm, [0, 1, 2, 3, 4, 5, 6, 7, 8, 9, 10, 11, 12, 13, 14, 15]);
    let perm = generate_permutation::<16>(1usize.into());
    assert_eq!(perm, [0, 1, 2, 3, 4, 5, 6, 7, 8, 9, 10, 11, 12, 13, 15, 14]);
    let perm = generate_permutation::<16>(2usize.into());
    assert_eq!(perm, [0, 1, 2, 3, 4, 5, 6, 7, 8, 9, 10, 11, 12, 14, 13, 15]);
}

#[test]
fn test_get_permutation_number() {
    let perm = [0, 1, 2, 3, 4, 5, 6, 7, 8, 9, 10, 11, 12, 13, 14, 15];
    let n = get_permutation_number(perm);
    assert_eq!(n, BigUint::zero());
    let perm = [0, 1, 2, 3, 4, 5, 6, 7, 8, 9, 10, 11, 12, 13, 15, 14];
    let n = get_permutation_number(perm);
    assert_eq!(n, 1usize.into());
    let perm = [0, 1, 2, 3, 4, 5, 6, 7, 8, 9, 10, 11, 12, 14, 13, 15];
    let n = get_permutation_number(perm);
    assert_eq!(n, 2usize.into());
}

#[test]
fn test_permute_block_set() {
    let blocks = [
        &[0b0000_0001, 0b0000_0010],
        &[0b0000_0011, 0b0000_0100],
        &[0b0000_0101, 0b0000_0110],
    ];
    let permutation_key = [1, 2, 0];
    let output = permute_block_set(&blocks, &permutation_key);
    assert_eq!(output, [
        &[0b0000_0011, 0b0000_0100],
        &[0b0000_0101, 0b0000_0110],
        &[0b0000_0001, 0b0000_0010],
    ]);
}

#[test]
fn test_depermute_block_set() {
    let blocks = [
        &[0b0000_0011, 0b0000_0100],
        &[0b0000_0101, 0b0000_0110],
        &[0b0000_0001, 0b0000_0010],
    ];
    let permutation_key = [1, 2, 0];
    let output = depermute_block_set(&blocks, &permutation_key);
    assert_eq!(output, [
        &[0b0000_0001, 0b0000_0010],
        &[0b0000_0011, 0b0000_0100],
        &[0b0000_0101, 0b0000_0110],
    ]);
}

#[test]
fn permute_block_gathers_bits_most_significant_first() {
    // Bit 0 of the result is bit 15 of the input, the least significant bit
    // of the second byte; every other bit comes from bit 0, which is clear.
    let input = [0b0000_0000u8, 0b0000_0001];
    let key = [15, 0, 0, 0, 0, 0, 0, 0, 0, 0, 0, 0, 0, 0, 0, 0];
    assert_eq!(permute_block(&input, &key), [0b1000_0000, 0b0000_0000]);
    // All bits come from bit 15, which is set.
    let key = [15usize; 16];
    assert_eq!(permute_block(&input, &key), [0xff, 0xff]);
}

#[test]
fn depermute_block_sets_a_bit_that_any_source_sets() {
    // Bits 0 and 1 both go to position 7; bit 1 is set, bit 0 is not.
    let input = [0b0100_0000u8];
    let key = [7, 7, 0, 1, 2, 3, 4, 5];
    assert_eq!(depermute_block(&input, &key), [0b0000_0001]);
}

#[test]
fn depermute_block_set_keeps_the_last_block_sent_to_a_position() {
    let blocks = [&[1u8, 1], &[2, 2], &[3, 3]];
    // Blocks 0 and 1 both go to position 2, block 2 goes to position 0, and
    // nothing goes to position 1, which keeps the block of the input.
    let key = [2, 2, 0];
    assert_eq!(depermute_block_set(&blocks, &key), [&[3u8, 3], &[2, 2], &[2, 2]]);
}

#[test]
fn bit_permuter_is_undone_by_its_inverse() {
    let key = generate_permutation::<32>(big("12345678901234567890123456789012345"));
    let blocks: [[u8; 4]; 4] = [[0, 0, 0, 0], [0xff, 0xff, 0xff, 0xff], [0x12, 0x34, 0x56, 0x78], [0x80, 0, 0, 1]];
    for block in blocks.iter() {
        assert_eq!(&depermute_block(&permute_block(block, &key), &key), block);
        assert_eq!(&permute_block(&depermute_block(block, &key), &key), block);
    }
    assert_ne!(permute_block(&blocks[2], &key), blocks[2]);
}

#[test]
fn block_set_permuter_is_undone_by_its_inverse() {
    let key = generate_permutation::<9>(100000usize.into());
    assert_eq!(key, [2, 4, 7, 8, 1, 5, 6, 0, 3]);
    let owned: [[u8; 4]; 9] = [
        [0, 0, 0, 0],
        [1, 1, 1, 1],
        [2, 2, 2, 2],
        [3, 3, 3, 3],
        [4, 4, 4, 4],
        [5, 5, 5, 5],
        [6, 6, 6, 6],
        [7, 7, 7, 7],
        [8, 8, 8, 8],
    ];
    let blocks = [
        &owned[0], &owned[1], &owned[2], &owned[3], &owned[4], &owned[5], &owned[6], &owned[7],
        &owned[8],
    ];
    let permuted = permute_block_set(&blocks, &key);
    assert_eq!(permuted[0], &[2, 2, 2, 2]);
    assert_eq!(permuted[8], &[3, 3, 3, 3]);
    assert_eq!(depermute_block_set(&permuted, &key), blocks);
    assert_eq!(permute_block_set(&depermute_block_set(&blocks, &key), &key), blocks);
}

#[test]
fn permutation_numbers_of_three_elements() {
    let expected: [[usize; 3]; 6] = [[0, 1, 2], [0, 2, 1], [1, 0, 2], [1, 2, 0], [2, 0, 1], [2, 1, 0]];
    for (n, p) in expected.iter().enumerate() {
        assert_eq!(&generate_permutation::<3>(n.into()), p);
        assert_eq!(get_permutation_number(*p), BigUint::from(n));
    }
}

#[test]
fn every_number_below_five_factorial_comes_back() {
    let mut seen: Vec<[usize; 5]> = Vec::new();
    for n in 0usize..120 {
        let p = generate_permutation::<5>(n.into());
        let mut sorted = p;
        sorted.sort();
        assert_eq!(sorted, [0, 1, 2, 3, 4]);
        assert!(!seen.contains(&p));
        seen.push(p);
        assert_eq!(get_permutation_number(p), BigUint::from(n));
    }
    assert_eq!(generate_permutation::<5>(119usize.into()), [4, 3, 2, 1, 0]);
}

#[test]
fn a_number_beyond_the_factorial_stands_for_its_remainder() {
    assert_eq!(generate_permutation::<5>(120usize.into()), [0, 1, 2, 3, 4]);
    assert_eq!(generate_permutation::<5>(125usize.into()), generate_permutation::<5>(5usize.into()));
    let thirty_two_factorial = big("263130836933693530167218012160000000");
    assert_eq!(
        generate_permutation::<32>(thirty_two_factorial + 1usize),
        generate_permutation::<32>(1usize.into())
    );
}

#[test]
fn permutation_of_no_elements() {
    let empty: [usize; 0] = generate_permutation::<0>(7usize.into());
    assert_eq!(empty, []);
    assert_eq!(get_permutation_number(empty), BigUint::zero());
}

#[test]
fn large_permutation_number_comes_back() {
    let n = big("12345678901234567890123456789012345");
    let p = generate_permutation::<32>(n.clone());
    assert_eq!(p, [
        1, 16, 18, 9, 14, 28, 8, 0, 26, 13, 7, 5, 25, 30, 20, 12, 29, 21, 17, 27, 6, 4, 15, 3,
        24, 19, 2, 31, 11, 22, 23, 10,
    ]);
    assert_eq!(get_permutation_number(p), n);
    let last = big("263130836933693530167218012159999999");
    let reversed = generate_permutation::<32>(last.clone());
    for (i, entry) in reversed.iter().enumerate() {
        assert_eq!(*entry, 31 - i);
    }
    assert_eq!(get_permutation_number(reversed), last);
}

#[test]
fn conversion_turns_the_old_permutation_into_the_new() {
    let old = generate_permutation::<32>(big("12345678901234567890123456789012345"));
    let new = generate_permutation::<32>(big("263130836933693530167218012159999999"));
    let conversion = find_permute_conversion(&old, &new);
    for j in 0..32 {
        assert_eq!(old[conversion[j]], new[j]);
    }
    assert_eq!(get_permutation_number(conversion), big("225599258923816147950448740427730944"));
    let block = [0x12u8, 0x34, 0x56, 0x78];
    assert_eq!(
        permute_block(&permute_block(&block, &old), &conversion),
        permute_block(&block, &new)
    );
}
