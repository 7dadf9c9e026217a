use symmetric_pre::aont::AONT;

#[test]
fn test_aont() {
    let message = [0u8; 32];
    let aont = AONT::from_message(&message);
    let retrieved_message = aont.retrieve_message();
    assert_eq!(message, retrieved_message);
}

#[test]
fn package_of_the_zero_message_under_the_zero_key_block() {
    // The masked message is the message; the trailer is the start of its digest.
    let aont = AONT::from_message_with_key(&[0u8; 32], &[0u8; 4]);
    let mut expected = [0u8; 36];
    expected[32..].copy_from_slice(&[158, 98, 145, 151]);
    assert_eq!(aont.encrypted, expected);
    assert_eq!(aont.retrieve_message(), [0u8; 32]);
}

#[test]
fn package_of_a_message_under_a_key_block() {
    let message = b"les sanglots longs des violons !";
    let aont = AONT::from_message_with_key(message, &[0xde, 0xad, 0xbe, 0xef]);
    assert_eq!(aont.encrypted, [
        178, 200, 205, 207, 173, 204, 208, 136, 178, 194, 202, 156, 254, 193, 209, 129, 185, 222,
        158, 139, 187, 222, 158, 153, 183, 194, 210, 128, 176, 222, 158, 206, 42, 140, 218, 255,
    ]);
    assert_eq!(&aont.retrieve_message(), message);
    assert_eq!(&AONT::new(&aont.encrypted).retrieve_message(), message);
}

#[test]
fn masking_combines_every_block_with_the_key_block() {
    let mut message = [0u8; 32];
    for (i, byte) in message.iter_mut().enumerate() {
        *byte = i as u8;
    }
    let key = [0x0f, 0xf0, 0xff, 0x00];
    let masked = AONT::mask_message(&message, &key);
    for i in 0..32 {
        assert_eq!(masked[i], message[i] ^ key[i % 4]);
    }
    assert_eq!(AONT::mask_message(&masked, &key), message);
}

#[test]
fn sealing_and_opening_with_a_given_digest() {
    let message = [7u8; 32];
    let key = [1, 2, 3, 4];
    let mut digest = [0u8; 32];
    digest[..4].copy_from_slice(&[0x10, 0x20, 0x30, 0x40]);
    digest[4] = 0xff;
    let masked = AONT::mask_message(&message, &key);
    let aont = AONT::seal(&masked, &digest, &key);
    assert_eq!(aont.encrypted[..32], masked);
    assert_eq!(aont.encrypted[32..], [0x11, 0x22, 0x33, 0x44]);
    assert_eq!(aont.open_with_digest(&digest), message);
}

#[test]
fn two_key_blocks_give_two_packages_of_one_message() {
    let message = [42u8; 32];
    let first = AONT::from_message_with_key(&message, &[0, 0, 0, 1]);
    let second = AONT::from_message_with_key(&message, &[0, 0, 0, 2]);
    assert_ne!(first.encrypted, second.encrypted);
    assert_eq!(first.retrieve_message(), message);
    assert_eq!(second.retrieve_message(), message);
}

#[test]
fn fresh_packages_of_one_message_unwrap_to_it() {
    let message = [42u8; 32];
    let mut distinct = false;
    let first = AONT::from_message(&message);
    for _ in 0..8 {
        let next = AONT::from_message(&message);
        assert_eq!(next.retrieve_message(), message);
        distinct = distinct || next.encrypted != first.encrypted;
    }
    assert!(distinct);
}

#[test]
fn a_changed_trailer_changes_every_block_of_the_message() {
    let message = [42u8; 32];
    let mut aont = AONT::from_message_with_key(&message, &[9, 9, 9, 9]);
    aont.encrypted[35] ^= 1;
    let retrieved = aont.retrieve_message();
    for block in 0..8 {
        assert_ne!(retrieved[4 * block..4 * block + 4], message[4 * block..4 * block + 4]);
    }
}
