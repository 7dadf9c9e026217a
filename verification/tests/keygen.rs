use num_bigint::BigUint;
use symmetric_pre::{decrypt, encrypt, Key, ReEncryptionKey};

fn big(digits: &str) -> BigUint {
    digits.parse().unwrap()
}

fn number_after(text: &str, label: &str) -> BigUint {
    let start = text.find(label).unwrap() + label.len();
    let rest = &text[start..];
    let end = rest.find(|c: char| !c.is_ascii_digit()).unwrap();
    rest[..end].parse().unwrap()
}

#[test]
fn key_numbers_must_lie_below_the_factorials() {
    let below_32 = big("263130836933693530167218012159999999");
    let at_32 = big("263130836933693530167218012160000000");
    let below_9 = BigUint::from(362879usize);
    let at_9 = BigUint::from(362880usize);
    let kx = [1, 2, 3, 4];
    assert!(Key::from_secrets(below_32.clone(), below_32.clone(), below_9.clone(), kx).is_some());
    assert!(Key::from_secrets(0usize.into(), 0usize.into(), 0usize.into(), kx).is_some());
    assert!(Key::from_secrets(at_32.clone(), below_32.clone(), below_9.clone(), kx).is_none());
    assert!(Key::from_secrets(below_32.clone(), at_32.clone(), below_9.clone(), kx).is_none());
    assert!(Key::from_secrets(below_32.clone(), below_32.clone(), at_9.clone(), kx).is_none());
    assert!(Key::from_secrets(below_32.clone(), below_32, big("99999999999999999999"), kx).is_none());
}

#[test]
fn generated_key_numbers_lie_below_the_factorials() {
    let at_32 = big("263130836933693530167218012160000000");
    let at_9 = BigUint::from(362880usize);
    for _ in 0..16 {
        let text = format!("{:?}", Key::generate());
        assert!(number_after(&text, "k1: ") < at_32);
        assert!(number_after(&text, "k2: ") < at_32);
        assert!(number_after(&text, "k3: ") < at_9);
    }
}

#[test]
fn generated_keys_differ() {
    let first = format!("{:?}", Key::generate());
    let second = format!("{:?}", Key::generate());
    assert_ne!(first, second);
}

#[test]
fn a_cloned_key_decrypts_what_the_key_encrypted() {
    let key = Key::generate();
    let copy = key.clone();
    let message = [3u8; 32];
    assert_eq!(decrypt(&encrypt(&message, &key), &copy), message);
}

#[test]
fn a_key_re_encrypts_to_itself() {
    let key = Key::from_secrets(big("555"), big("777"), big("999"), [4, 3, 2, 1]).unwrap();
    let same = ReEncryptionKey::generate(&key, &key);
    let message = [5u8; 32];
    let ciphertext = encrypt(&message, &key);
    assert_eq!(symmetric_pre::re_encrypt(&ciphertext, &same), ciphertext);
}
