//! The transport layer of UAVCAN/CAN: the slicer cuts a transfer's payload into CAN frames
//! with a CRC and tail bytes, and the assembler puts received frames back together, one
//! session per transfer kind and source node, in a fixed pool of pieces.

use vstd::prelude::*;

pub mod types;
pub mod tailbyte;
pub mod crc;
pub mod slicer;
pub mod storage;
pub mod transfer;
pub mod table;
pub mod assembler;
pub mod round_trip;

verus! {

/// Errors of decoding a raw CAN identifier.
#[derive(Copy, Clone, PartialEq, Eq, Debug, Structural)]
pub enum Error {
    /// Bit 23, or bit 7 of a message identifier, is set.
    WrongReservedBit,
    /// One of the bits 29..=31 is set.
    NoneZeroHighBits,
    /// A standard (11-bit) frame identifier was given.
    StandardIdNotSupported,
}

} // verus!
