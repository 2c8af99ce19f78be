//! What the key store holds where, and the status byte of the memory chip.
//!
//! The store is a serial memory of 128 bytes that is read and written one byte at a
//! time. Talking to the chip is left to the caller; this module fixes the layout of
//! the key slots and the meaning of the status byte.

use vstd::prelude::*;

verus! {

/// The number of bytes in the store.
pub const EEPROM_SIZE: u8 = 128;

/// Where the private key of the device starts.
pub const RSA_PRIV_KEY_ADDRESS: u8 = 0;

/// Where the public key of the device starts.
pub const RSA_PUB_KEY_ADDRESS: u8 = 16;

/// Where the symmetric key of the device starts.
pub const AES_KEY_ADDRESS: u8 = 32;

/// Where the symmetric key received from the peer starts.
pub const FORIEGN_AES_KEY_ADDRESS: u8 = 40;

/// Where the public key received from the peer starts.
pub const FORIEGN_RSA_PUB_KEY_ADDRESS: u8 = 48;

/// A key slot of the store.
#[derive(Clone, Copy, Debug, PartialEq, Eq, Structural)]
pub enum KeySlot {
    RsaPrivate,
    RsaPublic,
    Aes,
    ForeignAes,
    ForeignRsaPublic,
}

impl KeySlot {
    /// The address of the first byte of the slot.
    pub open spec fn start(self) -> int {
        match self {
            KeySlot::RsaPrivate => 0,
            KeySlot::RsaPublic => 16,
            KeySlot::Aes => 32,
            KeySlot::ForeignAes => 40,
            KeySlot::ForeignRsaPublic => 48,
        }
    }

    /// The number of bytes in the slot: sixteen for a key of the key pair, eight for
    /// a symmetric key.
    pub open spec fn width(self) -> int {
        match self {
            KeySlot::Aes | KeySlot::ForeignAes => 8,
            _ => 16,
        }
    }

    /// The address of the first byte of the slot.
    pub fn address(self) -> (address: u8)
        ensures
            address == self.start(),
    {
        match self {
            KeySlot::RsaPrivate => RSA_PRIV_KEY_ADDRESS,
            KeySlot::RsaPublic => RSA_PUB_KEY_ADDRESS,
            KeySlot::Aes => AES_KEY_ADDRESS,
            KeySlot::ForeignAes => FORIEGN_AES_KEY_ADDRESS,
            KeySlot::ForeignRsaPublic => FORIEGN_RSA_PUB_KEY_ADDRESS,
        }
    }

    /// The number of bytes in the slot.
    pub fn len(self) -> (len: u8)
        ensures
            len == self.width(),
    {
        match self {
            KeySlot::Aes | KeySlot::ForeignAes => 8,
            _ => 16,
        }
    }
}

/// Every slot lies inside the store, and no byte belongs to two slots.
pub proof fn lemma_slots_apart(a: KeySlot, b: KeySlot)
    ensures
        0 <= a.start(),
        a.start() + a.width() <= EEPROM_SIZE,
        a != b ==> a.start() + a.width() <= b.start() || b.start() + b.width() <= a.start(),
{
}

/// The status byte of the memory chip, bit by bit.
#[derive(Debug, Clone, Copy, PartialEq, Eq, Structural)]
pub struct StatusRegister {
    pub bp1: bool,
    pub bp0: bool,
    pub wel: bool,
    pub rdy_bsy: bool,
}

/// Whether the bit of the weight `weight`, a power of two, is set in `byte`.
pub open spec fn has_bit(byte: u8, weight: nat) -> bool {
    (byte as nat / weight) % 2 == 1
}

impl StatusRegister {
    /// Reads a status byte: `bp1` is the bit of weight 4, `bp0` the bit of weight 2,
    /// and both `wel` and `rdy_bsy` are the bit of weight 1.
    pub fn from_byte(byte: u8) -> (status: Self)
        ensures
            status.bp1 == has_bit(byte, 4),
            status.bp0 == has_bit(byte, 2),
            status.wel == has_bit(byte, 1),
            status.rdy_bsy == has_bit(byte, 1),
    {
        proof {
            assert((byte & 0b0000_0100 != 0) == ((byte / 4) % 2 == 1)) by (bit_vector);
            assert((byte & 0b0000_0010 != 0) == ((byte / 2) % 2 == 1)) by (bit_vector);
            assert((byte & 0b0000_0001 != 0) == (byte % 2 == 1)) by (bit_vector);
        }
        StatusRegister {
            bp1: (byte & 0b0000_0100) != 0,
            bp0: (byte & 0b0000_0010) != 0,
            wel: (byte & 0b0000_0001) != 0,
            rdy_bsy: (byte & 0b0000_0001) != 0,
        }
    }

    /// The value of the status byte: 4 for `bp1`, 2 for `bp0`, and 1 where `wel` or
    /// `rdy_bsy` is set.
    pub open spec fn value(self) -> int {
        (if self.bp1 {
            4int
        } else {
            0
        }) + (if self.bp0 {
            2int
        } else {
            0
        }) + (if self.wel || self.rdy_bsy {
            1int
        } else {
            0
        })
    }

    /// Writes a status byte.
    pub fn to_byte(&self) -> (byte: u8)
        ensures
            byte == self.value(),
    {
        let b2: u8 = if self.bp1 {
            0b0000_0100
        } else {
            0
        };
        let b1: u8 = if self.bp0 {
            0b0000_0010
        } else {
            0
        };
        let w: u8 = if self.wel {
            0b0000_0001
        } else {
            0
        };
        let r: u8 = if self.rdy_bsy {
            0b0000_0001
        } else {
            0
        };
        proof {
            assert(b2 <= 4 && b1 <= 2 && w <= 1 && r <= 1 && (b2 == 0 || b2 == 4) && (b1 == 0 || b1
                == 2) ==> (b2 | b1 | w | r) == b2 + b1 + (if w == 1 || r == 1 {
                1u8
            } else {
                0u8
            })) by (bit_vector);
        }
        b2 | b1 | w | r
    }
}

/// Reading a status byte and writing it again keeps its three low bits. Writing a
/// status and reading it again gives the status back with `wel` and `rdy_bsy` both
/// set where either was, so exactly where the two agreed it gives the status itself.
pub proof fn lemma_status_round_trip(byte: u8, status: StatusRegister)
    ensures
        (StatusRegister {
            bp1: has_bit(byte, 4),
            bp0: has_bit(byte, 2),
            wel: has_bit(byte, 1),
            rdy_bsy: has_bit(byte, 1),
        }).value() == byte % 8,
        0 <= status.value() < 8,
        has_bit(status.value() as u8, 4) == status.bp1,
        has_bit(status.value() as u8, 2) == status.bp0,
        has_bit(status.value() as u8, 1) == (status.wel || status.rdy_bsy),
{
}

} // verus!
