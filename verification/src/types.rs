use vstd::prelude::*;
use crate::errors::Error;
use crate::packer::{pack_uint16, unpack_uint16, u16_bytes, u16_of, lemma_u16_roundtrip};

verus! {

/// The type of a DNS resource record. Wire codes the codec does not
/// implement decode to `Unsupported`, which carries the raw code.
#[derive(Clone, Copy, Debug, PartialEq, Eq, Structural)]
pub enum DNSType {
    A,
    NS,
    CNAME,
    SOA,
    PTR,
    MX,
    TXT,
    AAAA,
    SRV,
    OPT,
    Unsupported(u16),
}

impl DNSType {
    /// The 16-bit wire code of this record type (RFC 1035 and successors).
    pub open spec fn spec_code(self) -> u16 {
        match self {
            DNSType::A => 1,
            DNSType::NS => 2,
            DNSType::CNAME => 5,
            DNSType::SOA => 6,
            DNSType::PTR => 12,
            DNSType::MX => 15,
            DNSType::TXT => 16,
            DNSType::AAAA => 28,
            DNSType::SRV => 33,
            DNSType::OPT => 41,
            DNSType::Unsupported(c) => c,
        }
    }

    /// The record type a 16-bit wire code decodes to.
    pub open spec fn spec_from_code(c: u16) -> DNSType {
        if c == 1 {
            DNSType::A
        } else if c == 2 {
            DNSType::NS
        } else if c == 5 {
            DNSType::CNAME
        } else if c == 6 {
            DNSType::SOA
        } else if c == 12 {
            DNSType::PTR
        } else if c == 15 {
            DNSType::MX
        } else if c == 16 {
            DNSType::TXT
        } else if c == 28 {
            DNSType::AAAA
        } else if c == 33 {
            DNSType::SRV
        } else if c == 41 {
            DNSType::OPT
        } else {
            DNSType::Unsupported(c)
        }
    }

    /// A type decoded from the wire never collapses distinct codes.
    pub proof fn lemma_code_roundtrip(c: u16)
        ensures
            DNSType::spec_from_code(c).spec_code() == c,
    {
    }

    pub fn code(&self) -> (r: u16)
        ensures
            r == self.spec_code(),
    {
        match self {
            DNSType::A => 1,
            DNSType::NS => 2,
            DNSType::CNAME => 5,
            DNSType::SOA => 6,
            DNSType::PTR => 12,
            DNSType::MX => 15,
            DNSType::TXT => 16,
            DNSType::AAAA => 28,
            DNSType::SRV => 33,
            DNSType::OPT => 41,
            DNSType::Unsupported(c) => *c,
        }
    }

    pub fn from_code(c: u16) -> (r: DNSType)
        ensures
            r == DNSType::spec_from_code(c),
    {
        if c == 1 {
            DNSType::A
        } else if c == 2 {
            DNSType::NS
        } else if c == 5 {
            DNSType::CNAME
        } else if c == 6 {
            DNSType::SOA
        } else if c == 12 {
            DNSType::PTR
        } else if c == 15 {
            DNSType::MX
        } else if c == 16 {
            DNSType::TXT
        } else if c == 28 {
            DNSType::AAAA
        } else if c == 33 {
            DNSType::SRV
        } else if c == 41 {
            DNSType::OPT
        } else {
            DNSType::Unsupported(c)
        }
    }

    /// Appends the 2-byte wire form of this type.
    pub fn pack(&self, msg: Vec<u8>) -> (r: Vec<u8>)
        ensures
            r@ == msg@ + u16_bytes(self.spec_code()),
    {
        pack_uint16(msg, self.code())
    }

    /// Reads a 2-byte type code, returning the type and the offset past it.
    pub fn unpack(msg: &[u8], off: usize) -> (r: Result<(DNSType, usize), Error>)
        ensures
            off + 2 <= msg@.len() ==> (r matches Ok(q) && q.0 == DNSType::spec_from_code(
                u16_of(msg@[off as int], msg@[off + 1]),
            ) && q.1 == off + 2),
            off + 2 > msg@.len() ==> r == Err::<(DNSType, usize), Error>(Error::BufferTooSmall),
    {
        let (c, new_off) = unpack_uint16(msg, off)?;
        Ok((DNSType::from_code(c), new_off))
    }

    /// Advances past a 2-byte type code.
    pub fn skip(msg: &[u8], off: usize) -> (r: Result<usize, Error>)
        ensures
            off + 2 <= msg@.len() ==> (r matches Ok(e) && e == off + 2),
            off + 2 > msg@.len() ==> r == Err::<usize, Error>(Error::BufferTooSmall),
    {
        let (_, new_off) = unpack_uint16(msg, off)?;
        Ok(new_off)
    }
}

/// The class of a DNS resource record. The class field doubles as the
/// requestor's UDP payload size inside an EDNS(0) OPT pseudo-record, so it
/// carries an arbitrary 16-bit value; Internet class is `DNSClass(1)`.
#[derive(Clone, Copy, Debug, PartialEq, Eq, Structural)]
pub struct DNSClass(pub u16);

/// The Internet class code.
pub const CLASS_INET: u16 = 1;

impl DNSClass {
    /// Appends the 2-byte wire form of this class.
    pub fn pack(&self, msg: Vec<u8>) -> (r: Vec<u8>)
        ensures
            r@ == msg@ + u16_bytes(self.0),
    {
        pack_uint16(msg, self.0)
    }

    /// Reads a 2-byte class code, returning the class and the offset past it.
    pub fn unpack(msg: &[u8], off: usize) -> (r: Result<(DNSClass, usize), Error>)
        ensures
            off + 2 <= msg@.len() ==> (r matches Ok(q) && q.0 == DNSClass(
                u16_of(msg@[off as int], msg@[off + 1]),
            ) && q.1 == off + 2),
            off + 2 > msg@.len() ==> r == Err::<(DNSClass, usize), Error>(Error::BufferTooSmall),
    {
        let (c, new_off) = unpack_uint16(msg, off)?;
        Ok((DNSClass(c), new_off))
    }

    /// Advances past a 2-byte class code.
    pub fn skip(msg: &[u8], off: usize) -> (r: Result<usize, Error>)
        ensures
            off + 2 <= msg@.len() ==> (r matches Ok(e) && e == off + 2),
            off + 2 > msg@.len() ==> r == Err::<usize, Error>(Error::BufferTooSmall),
    {
        let (_, new_off) = unpack_uint16(msg, off)?;
        Ok(new_off)
    }
}

/// A DNS response code. The low 4 bits travel in the message header; an
/// EDNS(0) OPT record can extend it with 8 more high bits (see
/// `ResourceHeader::extended_rcode`), so a full octet is carried.
#[derive(Clone, Copy, Debug, PartialEq, Eq, Structural)]
pub struct RCode(pub u8);

/// No error condition.
pub const RCODE_SUCCESS: u8 = 0;

/// Packing round-trip for record types: decoding the two bytes that
/// `DNSType::pack` emits restores the type, for every type the codec
/// implements.
pub proof fn lemma_type_wire_roundtrip(t: DNSType)
    requires
        !(t is Unsupported),
    ensures
        DNSType::spec_from_code(
            u16_of(u16_bytes(t.spec_code())[0], u16_bytes(t.spec_code())[1]),
        ) == t,
{
    lemma_u16_roundtrip(t.spec_code());
}

} // verus!
