//! The error type shared by every operation of the library.

use vstd::prelude::*;

verus! {

/// What can go wrong while validating, reading or editing a DNS message.
///
/// The variants that carry a `&'static str` hold a short human-readable detail.
#[derive(Debug, Clone, PartialEq, Eq)]
pub enum DSError {
    /// Fewer bytes than the structure being read needs.
    PacketTooSmall,
    /// An edit would grow the message past the largest size that is supported.
    PacketTooLarge,
    /// A question whose class is not `IN`; the class found is attached.
    UnsupportedClass(u16),
    /// An offset was moved to a place where nothing can be read.
    InternalError(&'static str),
    /// A domain name is malformed.
    InvalidName(&'static str),
    /// The message structure is malformed.
    InvalidPacket(&'static str),
    /// A record type mnemonic that is not known.
    UnsupportedRRType(String),
    /// A class mnemonic that is not known.
    UnsupportedRRClass(String),
    /// An operation on a record that has been deleted.
    VoidRecord,
    /// A typed accessor was used on a record that has no such property.
    PropertyNotFound,
    /// An address of the wrong family for the record.
    WrongAddressFamily,
    /// A line of text that is not a resource record.
    ParseError,
}

} // verus!
