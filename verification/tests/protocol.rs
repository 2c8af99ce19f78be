use secure_link::crypt::{aes_encrypt, generate_aes_key, RSAPrivateKey, RSAPublicKey};
use secure_link::messages::{Command, Data, Message, Status, Temperature};
use secure_link::protocol::{
    dispatch, open_temperature, provision, seal_temperature, sync_request, tick, KeyMaterial,
    KeyState, Level,
};

const KEY_A: [u8; 8] = [0x11; 8];
const KEY_B: [u8; 8] = [0xEF, 0x22, 0x33, 0x44, 0x55, 0x66, 0x77, 0x88];

fn firmware_keys() -> KeyMaterial {
    let public = RSAPublicKey::new(0x10001, 0x10001);
    let private = RSAPrivateKey::new(0x10001, 0x12345);
    provision(&public, &private, &[0x1, 0x2, 0x3, 0x4, 0x5, 0x6, 0x7, 0x8])
}

fn keys_with(aes: [u8; 8], peer_aes: [u8; 8]) -> KeyMaterial {
    KeyMaterial {
        aes,
        peer_aes,
        ..firmware_keys()
    }
}

fn message(data: Data) -> Message {
    Message { id: 42, data }
}

/// A reading as it is serialised for the wire.
fn serialized(degrees: f32) -> Vec<u8> {
    let mut buffer = [0u8; 8];
    postcard::to_slice_cobs(&degrees, &mut buffer)
        .unwrap()
        .to_vec()
}

/// What deserialising the plain bytes of a reading gives.
fn deserialized(plain: &[u8]) -> Option<Temperature> {
    let mut copy = plain.to_vec();
    let degrees: f32 = postcard::from_bytes_cobs(&mut copy).ok()?;
    Some(Temperature {
        temp_bits: degrees.to_bits(),
    })
}

fn reading(degrees: f32) -> Option<Temperature> {
    Some(Temperature {
        temp_bits: degrees.to_bits(),
    })
}

#[test]
fn the_slots_of_a_new_device() {
    let keys = firmware_keys();
    assert_eq!(
        keys.rsa_private,
        [1, 0, 1, 0, 0, 0, 0, 0, 0x45, 0x23, 0x01, 0, 0, 0, 0, 0]
    );
    assert_eq!(
        keys.rsa_public,
        [1, 0, 1, 0, 0, 0, 0, 0, 1, 0, 1, 0, 0, 0, 0, 0]
    );
    assert_eq!(keys.aes, [0xED, 0x78, 0x8A, 0x36, 0x8B, 0x10, 0xB5, 0x7E]);
    assert_eq!(keys.peer_aes, [0; 8]);
    assert_eq!(keys.peer_rsa_public, [0; 16]);
    assert_eq!(keys.public_key(), RSAPublicKey::new(0x10001, 0x10001));
    assert_eq!(keys.private_key(), RSAPrivateKey::new(0x10001, 0x12345));
    assert_eq!(keys.peer_public_key(), RSAPublicKey::new(0, 0));
    assert!(keys.can_decrypt());
    assert_eq!(keys.state(), KeyState::LocalKeyReady);
}

#[test]
fn the_states_of_the_keys() {
    assert_eq!(keys_with([0; 8], [0; 8]).state(), KeyState::Uninitialized);
    assert_eq!(keys_with([0; 8], KEY_B).state(), KeyState::Uninitialized);
    assert_eq!(keys_with(KEY_A, [0; 8]).state(), KeyState::LocalKeyReady);
    assert_eq!(keys_with(KEY_A, KEY_A).state(), KeyState::Synchronized);
    assert_eq!(keys_with(KEY_A, KEY_B).state(), KeyState::Desynchronized);
}

#[test]
fn the_key_of_the_peer_is_asked_for_where_the_keys_differ() {
    let ask = Some(Data::Status(Status::UnkownAESKey));
    assert_eq!(sync_request(&keys_with(KEY_A, KEY_A)), None);
    assert_eq!(sync_request(&keys_with([0; 8], [0; 8])), None);
    assert_eq!(sync_request(&keys_with(KEY_A, KEY_B)), ask);
    assert_eq!(sync_request(&keys_with(KEY_A, [0; 8])), ask);
    assert_eq!(sync_request(&keys_with([0; 8], KEY_B)), ask);
}

#[test]
fn the_command_erases_the_key() {
    let keys = keys_with(KEY_A, KEY_B);
    let reaction = dispatch(&keys, &message(Data::Command(Command::DeleteAESKey)), None);
    assert_eq!(reaction.keys, keys_with([0; 8], KEY_B));
    assert_eq!(reaction.reply, None);
    assert_eq!(reaction.signal, None);
    assert_eq!(reaction.keys.state(), KeyState::Uninitialized);

    let turn = tick(&keys, Some(message(Data::Command(Command::DeleteAESKey))), None);
    assert_eq!(turn.keys, keys_with([0; 8], KEY_B));
    assert_eq!(turn.reply, None);
    assert_eq!(turn.request, Some(Data::Status(Status::UnkownAESKey)));
}

#[test]
fn a_public_key_is_stored() {
    let keys = firmware_keys();
    let peer = RSAPublicKey::new(0xFFFF_FFEA_0000_0055, 0x10001);
    let reaction = dispatch(&keys, &message(Data::RSAPublicKey(peer)), None);
    assert_eq!(reaction.reply, None);
    assert_eq!(reaction.signal, None);
    assert_eq!(
        reaction.keys,
        KeyMaterial {
            peer_rsa_public: peer.to_bytes(),
            ..keys
        }
    );
    assert_eq!(reaction.keys.peer_public_key(), peer);
}

#[test]
fn the_public_key_is_sent_to_a_peer_that_lacks_it() {
    let keys = firmware_keys();
    let reaction = dispatch(&keys, &message(Data::Status(Status::UnkownPublicKey)), None);
    assert_eq!(reaction.keys, keys);
    assert_eq!(
        reaction.reply,
        Some(Data::RSAPublicKey(RSAPublicKey::new(0x10001, 0x10001)))
    );
    assert_eq!(reaction.signal, None);
}

#[test]
fn the_key_is_sent_encrypted_to_a_peer_that_lacks_it() {
    let peer = RSAPublicKey::new(0xFFFF_FFEA_0000_0055, 0x10001);
    let keys = KeyMaterial {
        aes: [0x2C, 0xB6, 0x01, 0x86, 0x4C, 0xBC, 0x63, 0xAF],
        peer_rsa_public: peer.to_bytes(),
        ..firmware_keys()
    };
    let reaction = dispatch(&keys, &message(Data::Status(Status::UnkownAESKey)), None);
    assert_eq!(reaction.keys, keys);
    assert_eq!(
        reaction.reply,
        Some(Data::AESKey([0x3C, 0x62, 0xB4, 0x01, 0xBA, 0x64, 0x2D, 0x75]))
    );
    assert_ne!(reaction.reply, Some(Data::AESKey(keys.aes)));
    assert_eq!(reaction.signal, None);
}

#[test]
fn the_public_key_is_asked_for_where_it_is_not_held() {
    let keys = firmware_keys();
    let reaction = dispatch(&keys, &message(Data::Status(Status::UnkownAESKey)), None);
    assert_eq!(reaction.keys, keys);
    assert_eq!(reaction.reply, Some(Data::Status(Status::UnkownPublicKey)));
    assert_eq!(reaction.signal, None);
}

#[test]
fn a_key_is_decrypted_and_stored() {
    let keys = KeyMaterial {
        rsa_private: RSAPrivateKey::new(0xFFFF_FFEA_0000_0055, 0x0181_7E7E_5D5D_A2A3).to_bytes(),
        rsa_public: RSAPublicKey::new(0xFFFF_FFEA_0000_0055, 0x10001).to_bytes(),
        ..firmware_keys()
    };
    let received = Data::AESKey([0x3C, 0x62, 0xB4, 0x01, 0xBA, 0x64, 0x2D, 0x75]);
    let reaction = dispatch(&keys, &message(received), None);
    assert_eq!(
        reaction.keys,
        KeyMaterial {
            peer_aes: [0x2C, 0xB6, 0x01, 0x86, 0x4C, 0xBC, 0x63, 0xAF],
            ..keys
        }
    );
    assert_eq!(reaction.reply, None);
    assert_eq!(reaction.signal, None);
}

#[test]
fn a_key_is_decrypted_with_the_key_pair_of_the_firmware() {
    let keys = firmware_keys();
    let received = Data::AESKey([0, 0, 0, 0, 0, 0, 0x12, 0x34]);
    let reaction = dispatch(&keys, &message(received), None);
    assert_eq!(reaction.keys.peer_aes, [0, 0, 0, 0, 0, 0, 0x70, 0xC8]);
}

#[test]
fn a_device_without_a_private_key_cannot_decrypt() {
    let keys = KeyMaterial {
        rsa_private: [0; 16],
        ..firmware_keys()
    };
    assert!(!keys.can_decrypt());
    assert!(firmware_keys().can_decrypt());
}

#[test]
fn a_reading_above_the_limit_raises_the_alert() {
    let keys = keys_with(KEY_A, KEY_A);
    let received = message(Data::Temperature([0; 32]));
    let reaction = dispatch(&keys, &received, reading(100.1));
    assert_eq!(reaction.signal, Some(Level::Alert));
    assert_eq!(reaction.reply, None);
    assert_eq!(reaction.keys, keys);
}

#[test]
fn a_reading_under_the_limit_is_normal() {
    let keys = keys_with(KEY_A, KEY_A);
    let received = message(Data::Temperature([0; 32]));
    let reaction = dispatch(&keys, &received, reading(99.9));
    assert_eq!(reaction.signal, Some(Level::Normal));
    assert_eq!(reaction.reply, None);
    assert_eq!(reaction.keys, keys);
}

#[test]
fn a_reading_at_the_limit_is_normal() {
    let keys = keys_with(KEY_A, KEY_A);
    let received = message(Data::Temperature([0; 32]));
    let reaction = dispatch(&keys, &received, reading(100.0));
    assert_eq!(reaction.signal, Some(Level::Normal));
}

#[test]
fn the_limit_on_the_bits_is_the_limit_on_the_number() {
    let samples = [
        0.0f32,
        -0.0,
        1.0,
        -1.0,
        21.5,
        99.999_99,
        100.0,
        100.000_01,
        100.1,
        -100.1,
        -200.0,
        1.0e30,
        -1.0e30,
        f32::MAX,
        f32::MIN,
        f32::MIN_POSITIVE,
        f32::INFINITY,
        f32::NEG_INFINITY,
        f32::NAN,
        -f32::NAN,
        f32::from_bits(0x42C8_0001),
        f32::from_bits(0x42C7_FFFF),
        f32::from_bits(0x7F80_0001),
        f32::from_bits(0x7FFF_FFFF),
        f32::from_bits(0xFFFF_FFFF),
        f32::from_bits(0x0000_0001),
    ];
    for degrees in samples {
        let held = Temperature {
            temp_bits: degrees.to_bits(),
        };
        assert_eq!(held.is_above_limit(), degrees > 100.0, "{}", degrees);
    }
}

#[test]
fn a_reading_is_sealed_under_a_key() {
    let sealed = seal_temperature(&KEY_B, &serialized(100.5)).unwrap();
    assert_eq!(
        sealed,
        Data::Temperature([
            0xEE, 0x23, 0x30, 0x8D, 0x17, 0x66, 0x77, 0x88, 0x01, 0x01, 0x03, 0xC9, 0x42, 0x00,
            0x00, 0x00, 0xEE, 0x23, 0x30, 0x8D, 0x17, 0x66, 0x77, 0x88, 0x01, 0x01, 0x03, 0xC9,
            0x42, 0x00, 0x00, 0x00
        ])
    );
    let mut padded = serialized(100.5);
    padded.resize(32, 0);
    match sealed {
        Data::Temperature(bytes) => {
            assert_eq!(&bytes[..], aes_encrypt(&KEY_B, &padded).as_slice())
        }
        other => panic!("sealed as {:?}", other),
    }
}

#[test]
fn a_reading_that_is_too_long_is_not_sealed() {
    assert!(seal_temperature(&KEY_B, &[1; 32]).is_some());
    assert_eq!(seal_temperature(&KEY_B, &[1; 33]), None);
    assert!(seal_temperature(&KEY_B, &[]).is_some());
}

#[test]
fn a_sealed_reading_opens_under_its_key() {
    let keys = keys_with(KEY_B, KEY_A);
    let sealed = match seal_temperature(&KEY_B, &serialized(100.5)).unwrap() {
        Data::Temperature(bytes) => bytes,
        other => panic!("sealed as {:?}", other),
    };
    let plain = open_temperature(&keys, &sealed);
    let mut padded = serialized(100.5);
    padded.resize(32, 0);
    assert_eq!(plain.as_slice(), &padded[..]);
    assert_eq!(deserialized(plain.as_slice()), reading(100.5));

    let reaction = dispatch(
        &keys,
        &message(Data::Temperature(sealed)),
        deserialized(plain.as_slice()),
    );
    assert_eq!(reaction.signal, Some(Level::Alert));
    assert_eq!(reaction.keys, keys);
    assert_eq!(reaction.reply, None);
}

#[test]
fn a_key_mismatch_erases_the_key_and_tells_the_peer() {
    let keys = keys_with(KEY_A, KEY_B);
    let sealed = match seal_temperature(&KEY_B, &serialized(100.5)).unwrap() {
        Data::Temperature(bytes) => bytes,
        other => panic!("sealed as {:?}", other),
    };
    let plain = open_temperature(&keys, &sealed);
    assert_eq!(
        &plain[..8],
        &[0xFF, 0x32, 0x21, 0x9C, 0x06, 0x77, 0x66, 0x99][..]
    );
    let read = deserialized(plain.as_slice());
    assert_eq!(read, None);

    let turn = tick(&keys, Some(message(Data::Temperature(sealed))), read);
    assert_eq!(turn.keys.aes, [0; 8]);
    assert_eq!(turn.keys, keys_with([0; 8], KEY_B));
    assert_eq!(turn.reply, Some(Data::Command(Command::DeleteAESKey)));
    assert_eq!(turn.request, Some(Data::Status(Status::UnkownAESKey)));
    assert_eq!(turn.signal, None);

    let next = tick(&turn.keys, None, None);
    assert_eq!(next.reply, None);
    assert_eq!(next.keys, turn.keys);
}

#[test]
fn a_key_that_differs_past_the_reading_goes_unnoticed() {
    let mut close = KEY_B;
    close[7] ^= 0x01;
    let keys = keys_with(close, KEY_B);
    let sealed = match seal_temperature(&KEY_B, &serialized(100.5)).unwrap() {
        Data::Temperature(bytes) => bytes,
        other => panic!("sealed as {:?}", other),
    };
    let plain = open_temperature(&keys, &sealed);
    assert_eq!(
        &plain[..8],
        &[0x01, 0x01, 0x03, 0xC9, 0x42, 0x00, 0x00, 0x01][..]
    );
    let read = deserialized(plain.as_slice());
    assert_eq!(read, reading(100.5));
    let reaction = dispatch(&keys, &message(Data::Temperature(sealed)), read);
    assert_eq!(reaction.signal, Some(Level::Alert));
    assert_eq!(reaction.keys, keys);
}

#[test]
fn a_turn_without_a_message_only_checks_the_keys() {
    let keys = keys_with(KEY_A, KEY_A);
    let turn = tick(&keys, None, None);
    assert_eq!(turn.keys, keys);
    assert_eq!(turn.reply, None);
    assert_eq!(turn.request, None);
    assert_eq!(turn.signal, None);

    let keys = keys_with(KEY_A, KEY_B);
    let turn = tick(&keys, None, reading(500.0));
    assert_eq!(turn.keys, keys);
    assert_eq!(turn.reply, None);
    assert_eq!(turn.request, Some(Data::Status(Status::UnkownAESKey)));
    assert_eq!(turn.signal, None);
}

#[test]
fn the_keys_are_checked_after_the_message() {
    let keys = KeyMaterial {
        rsa_private: RSAPrivateKey::new(0xFFFF_FFEA_0000_0055, 0x0181_7E7E_5D5D_A2A3).to_bytes(),
        aes: [0x2C, 0xB6, 0x01, 0x86, 0x4C, 0xBC, 0x63, 0xAF],
        ..firmware_keys()
    };
    assert_eq!(keys.state(), KeyState::LocalKeyReady);
    let received = message(Data::AESKey([0x3C, 0x62, 0xB4, 0x01, 0xBA, 0x64, 0x2D, 0x75]));
    let turn = tick(&keys, Some(received), None);
    assert_eq!(turn.keys.peer_aes, keys.aes);
    assert_eq!(turn.keys.state(), KeyState::Synchronized);
    assert_eq!(turn.request, None);
    assert_eq!(turn.reply, None);
}

#[test]
fn the_seed_gives_the_key() {
    let keys = firmware_keys();
    assert_eq!(keys.aes, generate_aes_key(&[1, 2, 3, 4, 5, 6, 7, 8]));
}
