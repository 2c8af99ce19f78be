use secure_link::crypt::{
    aes_decrypt, aes_decrypt_block, aes_encrypt, aes_encrypt_block, bytes_to_u64, decrypt,
    encrypt, fnv1a_hash, generate_aes_key, mod_exp, u64_to_bytes, RSAPrivateKey, RSAPublicKey,
};

#[test]
fn mod_exp_small_values() {
    assert_eq!(mod_exp(4, 13, 497), 445);
    assert_eq!(mod_exp(65, 17, 3233), 2790);
    assert_eq!(mod_exp(2790, 2753, 3233), 65);
}

#[test]
fn mod_exp_edge_cases() {
    assert_eq!(mod_exp(12345, 678, 1), 0);
    assert_eq!(mod_exp(7, 0, 13), 1);
    assert_eq!(mod_exp(0, 0, 13), 1);
    assert_eq!(mod_exp(0, 5, 13), 0);
    assert_eq!(mod_exp(13, 1, 13), 0);
}

#[test]
fn mod_exp_with_a_modulus_of_a_full_word() {
    assert_eq!(mod_exp(2, 64, 0xFFFF_FFFF_FFFF_FFFF), 1);
    assert_eq!(
        mod_exp(
            0xFFFF_FFFF_FFFF_FFFE,
            0xFFFF_FFFF_FFFF_FFFF,
            0xFFFF_FFFF_FFFF_FFC5
        ),
        2012073826774673798
    );
}

#[test]
fn public_key_bytes_are_little_endian() {
    let key = RSAPublicKey::new(0x10001, 0x0102030405060708);
    assert_eq!(
        key.to_bytes(),
        [1, 0, 1, 0, 0, 0, 0, 0, 8, 7, 6, 5, 4, 3, 2, 1]
    );
}

#[test]
fn private_key_bytes_are_little_endian() {
    let key = RSAPrivateKey::new(0x10001, 0x12345);
    assert_eq!(
        key.to_bytes(),
        [1, 0, 1, 0, 0, 0, 0, 0, 0x45, 0x23, 0x01, 0, 0, 0, 0, 0]
    );
}

#[test]
fn keys_survive_their_slot() {
    let public = RSAPublicKey::new(0xFFFF_FFEA_0000_0055, 0x10001);
    assert_eq!(RSAPublicKey::from_bytes(&public.to_bytes()), public);
    let private = RSAPrivateKey::new(u64::MAX, 0);
    assert_eq!(RSAPrivateKey::from_bytes(&private.to_bytes()), private);
    let slot = [
        0xDE, 0xAD, 0xBE, 0xEF, 0x00, 0x11, 0x22, 0x33, 0x44, 0x55, 0x66, 0x77, 0x88, 0x99, 0xAA,
        0xBB,
    ];
    assert_eq!(RSAPublicKey::from_bytes(&slot).to_bytes(), slot);
    assert_eq!(RSAPublicKey::from_bytes(&slot).n, 0x3322_1100_EFBE_ADDE);
    assert_eq!(RSAPrivateKey::from_bytes(&slot).d, 0xBBAA_9988_7766_5544);
}

#[test]
fn bytes_are_read_most_significant_first() {
    assert_eq!(bytes_to_u64(&[]), 0);
    assert_eq!(bytes_to_u64(&[0x01, 0x02]), 0x0102);
    assert_eq!(
        bytes_to_u64(&[0x01, 0x02, 0x03, 0x04, 0x05, 0x06, 0x07, 0x08]),
        0x0102_0304_0506_0708
    );
    assert_eq!(bytes_to_u64(&[0xFF; 8]), u64::MAX);
}

#[test]
fn words_are_written_most_significant_first() {
    assert_eq!(u64_to_bytes(0), [0; 8]);
    assert_eq!(u64_to_bytes(0x0102), [0, 0, 0, 0, 0, 0, 1, 2]);
    assert_eq!(
        u64_to_bytes(0x0102_0304_0506_0708),
        [1, 2, 3, 4, 5, 6, 7, 8]
    );
    assert_eq!(bytes_to_u64(&u64_to_bytes(0xDEAD_BEEF_0BAD_F00D)), 0xDEAD_BEEF_0BAD_F00D);
}

#[test]
fn rsa_with_a_textbook_key_pair() {
    let public = RSAPublicKey::new(3233, 17);
    let private = RSAPrivateKey::new(3233, 2753);
    let cipher = encrypt(&public, &[0x41]);
    assert_eq!(cipher, [0, 0, 0, 0, 0, 0, 0x0A, 0xE6]);
    assert_eq!(decrypt(&private, &cipher), [0, 0, 0, 0, 0, 0, 0, 0x41]);
}

#[test]
fn rsa_with_a_key_pair_of_a_full_word() {
    let public = RSAPublicKey::new(0xFFFF_FFEA_0000_0055, 0x10001);
    let private = RSAPrivateKey::new(0xFFFF_FFEA_0000_0055, 0x0181_7E7E_5D5D_A2A3);
    let key = [0x2C, 0xB6, 0x01, 0x86, 0x4C, 0xBC, 0x63, 0xAF];
    let cipher = encrypt(&public, &key);
    assert_eq!(cipher, [0x3C, 0x62, 0xB4, 0x01, 0xBA, 0x64, 0x2D, 0x75]);
    assert_eq!(decrypt(&private, &cipher), key);
}

#[test]
fn rsa_with_the_key_pair_of_the_firmware() {
    let public = RSAPublicKey::new(0x10001, 0x10001);
    let private = RSAPrivateKey::new(0x10001, 0x12345);
    let key = [0xED, 0x78, 0x8A, 0x36, 0x8B, 0x10, 0xB5, 0x7E];
    assert_eq!(encrypt(&public, &key), [0, 0, 0, 0, 0, 0, 0xC7, 0x2D]);
    assert_eq!(
        decrypt(&private, &[0, 0, 0, 0, 0, 0, 0x12, 0x34]),
        [0, 0, 0, 0, 0, 0, 0x70, 0xC8]
    );
}

#[test]
fn a_block_is_combined_with_the_key() {
    let key = [1, 2, 3, 4, 5, 6, 7, 8];
    let mut block = [0x10, 0x20, 0x30, 0, 0, 0, 0, 0];
    aes_encrypt_block(&key, &mut block);
    assert_eq!(block, [0x11, 0x22, 0x33, 4, 5, 6, 7, 8]);
    aes_decrypt_block(&key, &mut block);
    assert_eq!(block, [0x10, 0x20, 0x30, 0, 0, 0, 0, 0]);
}

#[test]
fn a_short_text_is_filled_up_with_zeros() {
    let key = [1, 2, 3, 4, 5, 6, 7, 8];
    let cipher = aes_encrypt(&key, &[0x10, 0x20, 0x30]);
    assert_eq!(
        cipher.as_slice(),
        &[0x11, 0x22, 0x33, 0x04, 0x05, 0x06, 0x07, 0x08][..]
    );
}

#[test]
fn blocks_are_chained() {
    let key = [1, 2, 3, 4, 5, 6, 7, 8];
    let plain = [
        0x41, 0x42, 0x43, 0x44, 0x45, 0x46, 0x47, 0x48, 0x49, 0x4A, 0x4B, 0x4C,
    ];
    let cipher = aes_encrypt(&key, &plain);
    assert_eq!(
        cipher.as_slice(),
        &[
            0x40, 0x40, 0x40, 0x40, 0x40, 0x40, 0x40, 0x40, 0x08, 0x08, 0x08, 0x08, 0x45, 0x46,
            0x47, 0x48
        ][..]
    );
    let back = aes_decrypt(&key, cipher.as_slice());
    assert_eq!(
        back.as_slice(),
        &[
            0x41, 0x42, 0x43, 0x44, 0x45, 0x46, 0x47, 0x48, 0x49, 0x4A, 0x4B, 0x4C, 0, 0, 0, 0
        ][..]
    );
}

#[test]
fn the_empty_text_has_the_empty_cipher_text() {
    let key = [9; 8];
    assert!(aes_encrypt(&key, &[]).is_empty());
    assert!(aes_decrypt(&key, &[]).is_empty());
}

#[test]
fn a_buffer_full_of_text_is_enciphered_and_deciphered() {
    let key = [0xA5, 0x5A, 0x01, 0x02, 0x03, 0x04, 0x05, 0x06];
    let mut plain = [0u8; 256];
    for (i, byte) in plain.iter_mut().enumerate() {
        *byte = (i * 7 + 3) as u8;
    }
    let cipher = aes_encrypt(&key, &plain);
    assert_eq!(cipher.len(), 256);
    assert_ne!(cipher.as_slice(), &plain[..]);
    let back = aes_decrypt(&key, cipher.as_slice());
    assert_eq!(back.as_slice(), &plain[..]);
}

#[test]
fn another_key_does_not_give_the_text_back() {
    let key = [1, 2, 3, 4, 5, 6, 7, 8];
    let other = [1, 2, 3, 4, 5, 6, 7, 9];
    let plain = [0x10, 0x20, 0x30, 0x40, 0x50, 0x60, 0x70, 0x80];
    let cipher = aes_encrypt(&key, &plain);
    let back = aes_decrypt(&other, cipher.as_slice());
    assert_ne!(back.as_slice(), &plain[..]);
    assert_eq!(
        back.as_slice(),
        &[0x10, 0x20, 0x30, 0x40, 0x50, 0x60, 0x70, 0x81][..]
    );
}

#[test]
fn the_hash_of_known_texts() {
    assert_eq!(
        fnv1a_hash(b""),
        [0x25, 0x23, 0x22, 0x84, 0xE4, 0x9C, 0xF2, 0xCB]
    );
    assert_eq!(
        fnv1a_hash(b"a"),
        [0x8C, 0xEC, 0x01, 0x86, 0x4C, 0xDC, 0x63, 0xAF]
    );
    assert_eq!(
        fnv1a_hash(b"foobar"),
        [0xE8, 0x67, 0x39, 0xF7, 0x71, 0x41, 0x94, 0x85]
    );
}

#[test]
fn the_key_of_the_seed_of_the_firmware() {
    let seed = [0x1, 0x2, 0x3, 0x4, 0x5, 0x6, 0x7, 0x8];
    assert_eq!(
        generate_aes_key(&seed),
        [0xED, 0x78, 0x8A, 0x36, 0x8B, 0x10, 0xB5, 0x7E]
    );
    assert_eq!(generate_aes_key(&seed), fnv1a_hash(&seed));
}
