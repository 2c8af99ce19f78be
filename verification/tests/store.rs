use secure_link::eeprom::{
    KeySlot, StatusRegister, AES_KEY_ADDRESS, EEPROM_SIZE, FORIEGN_AES_KEY_ADDRESS,
    FORIEGN_RSA_PUB_KEY_ADDRESS, RSA_PRIV_KEY_ADDRESS, RSA_PUB_KEY_ADDRESS,
};
use secure_link::mux::{Channel, SelectLines};
use secure_link::protocol::Level;

const SLOTS: [KeySlot; 5] = [
    KeySlot::RsaPrivate,
    KeySlot::RsaPublic,
    KeySlot::Aes,
    KeySlot::ForeignAes,
    KeySlot::ForeignRsaPublic,
];

#[test]
fn the_addresses_of_the_slots() {
    assert_eq!(KeySlot::RsaPrivate.address(), RSA_PRIV_KEY_ADDRESS);
    assert_eq!(KeySlot::RsaPublic.address(), RSA_PUB_KEY_ADDRESS);
    assert_eq!(KeySlot::Aes.address(), AES_KEY_ADDRESS);
    assert_eq!(KeySlot::ForeignAes.address(), FORIEGN_AES_KEY_ADDRESS);
    assert_eq!(
        KeySlot::ForeignRsaPublic.address(),
        FORIEGN_RSA_PUB_KEY_ADDRESS
    );
    assert_eq!(RSA_PUB_KEY_ADDRESS, 16);
    assert_eq!(AES_KEY_ADDRESS, 32);
    assert_eq!(FORIEGN_RSA_PUB_KEY_ADDRESS, 48);
}

#[test]
fn the_widths_of_the_slots() {
    assert_eq!(KeySlot::RsaPrivate.len(), 16);
    assert_eq!(KeySlot::RsaPublic.len(), 16);
    assert_eq!(KeySlot::Aes.len(), 8);
    assert_eq!(KeySlot::ForeignAes.len(), 8);
    assert_eq!(KeySlot::ForeignRsaPublic.len(), 16);
}

#[test]
fn the_slots_lie_apart_inside_the_store() {
    let mut owner = [None; 128];
    for slot in SLOTS {
        let start = slot.address() as usize;
        let end = start + slot.len() as usize;
        assert!(end <= EEPROM_SIZE as usize);
        for cell in &mut owner[start..end] {
            assert_eq!(*cell, None);
            *cell = Some(slot);
        }
    }
}

#[test]
fn a_status_byte_is_read_bit_by_bit() {
    let status = StatusRegister::from_byte(0b0000_0101);
    assert!(status.bp1);
    assert!(!status.bp0);
    assert!(status.wel);
    assert!(status.rdy_bsy);
    let status = StatusRegister::from_byte(0b1111_1010);
    assert!(!status.bp1);
    assert!(status.bp0);
    assert!(!status.wel);
    assert!(!status.rdy_bsy);
}

#[test]
fn a_status_is_written_as_a_byte() {
    let mut status = StatusRegister {
        bp1: false,
        bp0: false,
        wel: false,
        rdy_bsy: false,
    };
    assert_eq!(status.to_byte(), 0);
    status.bp1 = true;
    assert_eq!(status.to_byte(), 4);
    status.bp0 = true;
    assert_eq!(status.to_byte(), 6);
    status.wel = true;
    assert_eq!(status.to_byte(), 7);
    status.rdy_bsy = true;
    assert_eq!(status.to_byte(), 7);
    status.wel = false;
    assert_eq!(status.to_byte(), 7);
}

#[test]
fn a_status_byte_keeps_its_low_bits() {
    for byte in 0..=255u8 {
        assert_eq!(StatusRegister::from_byte(byte).to_byte(), byte % 8);
    }
}

#[test]
fn the_select_lines_of_the_channels() {
    assert_eq!(
        Channel::RedLED.select(),
        SelectLines {
            s0: false,
            s1: false
        }
    );
    assert_eq!(
        Channel::GreenLED.select(),
        SelectLines {
            s0: true,
            s1: false
        }
    );
    assert_eq!(
        Channel::TempSensor.select(),
        SelectLines {
            s0: false,
            s1: true
        }
    );
}

#[test]
fn only_the_sensor_is_sampled() {
    assert!(Channel::TempSensor.is_input());
    assert!(!Channel::RedLED.is_input());
    assert!(!Channel::GreenLED.is_input());
}

#[test]
fn the_light_of_a_level() {
    assert_eq!(Channel::indicator(Level::Normal), Channel::GreenLED);
    assert_eq!(Channel::indicator(Level::Alert), Channel::RedLED);
}
