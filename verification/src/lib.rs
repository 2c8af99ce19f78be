//! The secure link between two devices that exchange encrypted temperature readings
//! over a serial line.
//!
//! The library holds the parts of a device that decide and compute, each with a
//! contract that the verifier has checked against its code:
//!
//! - [`codec`]: stuffing a payload into a self-delimiting frame and finding the
//!   first complete frame in a window of bytes;
//! - [`coms_manager`]: the receive buffer that is fed byte by byte and drained one
//!   frame at a time, and the sequence ids of the messages sent;
//! - [`protocol`]: what a device does on each message and at the end of each turn
//!   of its loop, down to the key slots, the reply and the signal;
//! - [`crypt`]: the toy primitives under the protocol;
//! - [`messages`]: the messages themselves;
//! - [`eeprom`] and [`mux`]: the layout of the key store and the addressing of the
//!   indicator, as far as they are rules and not wiring;
//! - [`buffer`] and [`bytes`]: the byte buffer and the byte orders that the rest
//!   works with.
//!
//! The library touches no hardware and knows no wire format. Its caller moves the
//! bytes, serialises the messages, and keeps the key slots.

pub mod buffer;
pub mod bytes;
pub mod codec;
pub mod coms_manager;
pub mod crypt;
pub mod eeprom;
pub mod messages;
pub mod mux;
pub mod protocol;
