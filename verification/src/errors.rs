use vstd::prelude::*;

verus! {

/// Errors produced by the DNS wire codec and the connection engine.
#[derive(Clone, Copy, Debug, PartialEq, Eq, Structural)]
pub enum Error {
    /// A domain name, or one of its labels, exceeds the wire-format limits.
    NameTooLong,
    /// A name is empty, lacks its trailing root dot, or contains an empty label.
    NameNotCanonical,
    /// A compression pointer does not point strictly backwards.
    InvalidPointer,
    /// A read would run past the end of the message buffer.
    BufferTooSmall,
    /// A resource record's declared RDLENGTH runs past the message buffer.
    ResourceLen,
    /// A resource record names a type this codec does not implement.
    NilResourceBody,
    /// A length-prefixed string (a TXT character-string, or an EDNS
    /// option's data) is too long for its length field.
    StringTooLong,
    /// A section holds more than 65535 records and cannot be counted in the header.
    SectionTooLong,
    /// The operation was attempted on, or interrupted by, a closed connection.
    ConnectionClosed,
}

} // verus!
