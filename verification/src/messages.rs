//! The messages of the link.

use crate::crypt::RSAPublicKey;
use vstd::prelude::*;

verus! {

/// One unit of the link protocol: a body under the sequence id of its sender.
#[derive(Clone, Copy, Debug, PartialEq, Eq)]
pub struct Message {
    pub id: u8,
    pub data: Data,
}

/// The body of a message.
#[derive(Clone, Copy, Debug, PartialEq, Eq)]
pub enum Data {
    /// The public key of the sender.
    RSAPublicKey(RSAPublicKey),
    /// Something that the sender lacks.
    Status(Status),
    /// Something that the receiver is to do.
    Command(Command),
    /// The symmetric key of the sender, encrypted under the public key of the receiver.
    AESKey([u8; 8]),
    /// A serialised temperature reading, encrypted under the symmetric key.
    Temperature([u8; 32]),
}

/// What a device tells its peer that it lacks.
#[derive(Clone, Copy, Debug, PartialEq, Eq, Structural)]
pub enum Status {
    /// The sender does not know the public key of the receiver.
    UnkownPublicKey,
    /// The sender does not hold the symmetric key of the receiver.
    UnkownAESKey,
}

/// What a device tells its peer to do.
#[derive(Clone, Copy, Debug, PartialEq, Eq, Structural)]
pub enum Command {
    /// Erase the symmetric key.
    DeleteAESKey,
}

/// A temperature reading in degrees, held as the bit pattern of a single precision
/// number of IEEE 754: one sign bit, eight bits of exponent, twenty-three of fraction.
#[derive(Clone, Copy, Debug, PartialEq, Eq, Structural)]
pub struct Temperature {
    pub temp_bits: u32,
}

/// The bit pattern of one hundred degrees, above which a reading raises the alert.
pub const ALERT_LIMIT_BITS: u32 = 0x42C8_0000;

/// The bit pattern of positive infinity, the largest that stands for a number.
pub const INFINITY_BITS: u32 = 0x7F80_0000;

impl Temperature {
    /// Whether the reading is above one hundred degrees. Among the patterns with a
    /// clear sign bit that stand for a number, a larger pattern is a larger number;
    /// a pattern with the sign bit set is no positive number, and a pattern above that
    /// of infinity is no number, and neither is above any limit.
    pub open spec fn above_limit(self) -> bool {
        ALERT_LIMIT_BITS < self.temp_bits <= INFINITY_BITS
    }

    /// Whether the reading is above one hundred degrees.
    pub fn is_above_limit(&self) -> (above: bool)
        ensures
            above == self.above_limit(),
    {
        ALERT_LIMIT_BITS < self.temp_bits && self.temp_bits <= INFINITY_BITS
    }
}

/// The body of a message, with its byte fields as sequences.
pub enum DataView {
    RSAPublicKey(RSAPublicKey),
    Status(Status),
    Command(Command),
    AESKey(Seq<u8>),
    Temperature(Seq<u8>),
}

impl View for Data {
    type V = DataView;

    open spec fn view(&self) -> DataView {
        match *self {
            Data::RSAPublicKey(key) => DataView::RSAPublicKey(key),
            Data::Status(status) => DataView::Status(status),
            Data::Command(command) => DataView::Command(command),
            Data::AESKey(key) => DataView::AESKey(key@),
            Data::Temperature(reading) => DataView::Temperature(reading@),
        }
    }
}

} // verus!
