use num_bigint::BigUint;
use symmetric_pre::aont::AONT;
use symmetric_pre::{decrypt, encrypt, encrypt_package, re_encrypt, Key, ReEncryptionKey};

fn big(digits: &str) -> BigUint {
    digits.parse().unwrap()
}

fn first_key() -> Key {
    Key::from_secrets(
        big("12345678901234567890123456789012345"),
        big("98765432109876543210987654321"),
        big("100000"),
        [1, 2, 3, 4],
    )
    .unwrap()
}

fn second_key() -> Key {
    Key::from_secrets(
        big("263130836933693530167218012159999999"),
        big("7"),
        big("362879"),
        [0xff, 0, 0x80, 0x7f],
    )
    .unwrap()
}

const FIRST_CIPHERTEXT: [u8; 36] = [
    92, 0, 249, 180, 9, 91, 195, 206, 92, 212, 33, 81, 26, 139, 189, 79, 68, 148, 151, 20, 17, 99,
    158, 166, 72, 131, 231, 165, 20, 82, 44, 194, 198, 164, 47, 59,
];

const SECOND_CIPHERTEXT: [u8; 36] = [
    0, 91, 177, 43, 115, 34, 202, 42, 114, 105, 137, 200, 235, 16, 242, 25, 58, 105, 137, 139, 187,
    226, 10, 248, 130, 177, 73, 185, 147, 186, 122, 3, 96, 9, 105, 78,
];

#[test]
fn test_encryption_reencryption() {
    let message = b"les sanglots longs des violons !";
    let key1 = Key::generate();
    let encrypted = encrypt(message, &key1);
    let decrypted = decrypt(&encrypted, &key1);
    assert_eq!(message, &decrypted);

    let key2 = Key::generate();
    let re_encryption_key = ReEncryptionKey::generate(&key1, &key2);
    let re_encrypted = re_encrypt(&encrypted, &re_encryption_key);
    let re_decrypted = decrypt(&re_encrypted, &key2);
    assert_eq!(message, &re_decrypted);
}

#[test]
fn ciphertext_of_a_package_under_a_given_key() {
    let message = b"les sanglots longs des violons !";
    let aont = AONT::from_message_with_key(message, &[0xde, 0xad, 0xbe, 0xef]);
    let ciphertext = encrypt_package(&aont, &first_key());
    assert_eq!(ciphertext, FIRST_CIPHERTEXT);
    assert_eq!(&decrypt(&ciphertext, &first_key()), message);
}

#[test]
fn re_encryption_gives_the_ciphertext_of_the_new_key() {
    let message = b"les sanglots longs des violons !";
    let aont = AONT::from_message_with_key(message, &[0xde, 0xad, 0xbe, 0xef]);
    let re_encryption_key = ReEncryptionKey::generate(&first_key(), &second_key());
    let re_encrypted = re_encrypt(&FIRST_CIPHERTEXT, &re_encryption_key);
    assert_eq!(re_encrypted, SECOND_CIPHERTEXT);
    assert_eq!(re_encrypted, encrypt_package(&aont, &second_key()));
    assert_eq!(&decrypt(&re_encrypted, &second_key()), message);
    let back = ReEncryptionKey::generate(&second_key(), &first_key());
    assert_eq!(re_encrypt(&re_encrypted, &back), FIRST_CIPHERTEXT);
}

#[test]
fn the_wrong_key_does_not_decrypt() {
    let message = b"les sanglots longs des violons !";
    assert_ne!(&decrypt(&FIRST_CIPHERTEXT, &second_key()), message);
}

#[test]
fn decryption_undoes_encryption_of_many_messages() {
    let keys = [first_key(), second_key(), Key::generate()];
    for key in keys.iter() {
        for seed in 0u8..8 {
            let mut message = [0u8; 32];
            for (i, byte) in message.iter_mut().enumerate() {
                *byte = seed.wrapping_mul(37).wrapping_add((i as u8).wrapping_mul(11));
            }
            let ciphertext = encrypt(&message, key);
            assert_eq!(decrypt(&ciphertext, key), message);
        }
    }
}

#[test]
fn two_ciphertexts_of_one_message_differ_and_decrypt_alike() {
    let key = first_key();
    let message = [0u8; 32];
    let first = encrypt(&message, &key);
    let mut distinct = false;
    for _ in 0..8 {
        let next = encrypt(&message, &key);
        assert_eq!(decrypt(&next, &key), message);
        distinct = distinct || next != first;
    }
    assert!(distinct);
}

#[test]
fn re_encryption_between_generated_keys() {
    for _ in 0..4 {
        let old = Key::generate();
        let new = Key::generate();
        let message = [0xa5u8; 32];
        let ciphertext = encrypt(&message, &old);
        let converted = re_encrypt(&ciphertext, &ReEncryptionKey::generate(&old, &new));
        assert_eq!(decrypt(&converted, &new), message);
    }
}

#[test]
fn one_flipped_bit_never_decrypts_to_the_message() {
    let message = b"les sanglots longs des violons !";
    for key in [first_key(), Key::generate()].iter() {
        let ciphertext = encrypt(message, key);
        for bit in 0..8 * 36 {
            let mut tampered = ciphertext;
            tampered[bit / 8] ^= 0x80 >> (bit % 8);
            assert_ne!(&decrypt(&tampered, key), message);
        }
    }
}

#[test]
fn one_changed_block_never_decrypts_to_the_message() {
    let message = [0x5au8; 32];
    let key = second_key();
    let ciphertext = encrypt(&message, &key);
    for block in 0..9 {
        for change in [[1u8, 0, 0, 0], [0xff, 0xff, 0xff, 0xff], [0, 0x10, 0, 0x01]].iter() {
            let mut tampered = ciphertext;
            for k in 0..4 {
                tampered[4 * block + k] ^= change[k];
            }
            assert_ne!(decrypt(&tampered, &key), message);
        }
    }
}

#[test]
fn any_bytes_decrypt_to_some_message() {
    let key = first_key();
    let zeros = decrypt(&[0u8; 36], &key);
    let ones = decrypt(&[0xffu8; 36], &key);
    assert_eq!(zeros.len(), 32);
    assert_ne!(zeros, ones);
}

#[test]
fn tampering_with_a_block_leaves_earlier_chained_blocks_alone() {
    // The block order of this key is the identity, so block `i` of the
    // package is block `i` of the chain.
    let key = Key::from_secrets(big("12345"), big("67890"), 0usize.into(), [9, 8, 7, 6]).unwrap();
    let aont = AONT::from_message_with_key(&[0x33u8; 32], &[1, 1, 1, 1]);
    let ciphertext = encrypt_package(&aont, &key);
    let mut tampered = ciphertext;
    tampered[4 * 5] ^= 0x01;
    let swapped = ReEncryptionKey::generate(&key, &key);
    let before = re_encrypt(&ciphertext, &swapped);
    let after = re_encrypt(&tampered, &swapped);
    assert_eq!(before, ciphertext);
    assert_eq!(after[..4 * 5], before[..4 * 5]);
    assert_ne!(after[4 * 5..4 * 6], before[4 * 5..4 * 6]);
}
