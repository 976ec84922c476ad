use vstd::prelude::*;
use crate::errors::Error;
use crate::name::{
    CompressionMap, Name, canonical_labels, keys_longer_than, labels_le_63, name_wire,
    parse_plain, ptr_target, skip_name, table_extended_with_suffixes, valid_name_text,
};
use crate::packer::{
    pack_uint16, pack_uint32, skip_uint32, u16_bytes, u16_of, u32_bytes, u32_of, unpack_uint16,
    unpack_uint32,
};
use crate::rdata::{
    BodyModel, ResourceBody, body_model, body_valid, body_wire, lemma_body_roundtrip,
    lemma_embedded_name, model_type, name_wire_len, parse_body,
};
use crate::name::lemma_name_wire_len;
use crate::packer::{lemma_u16_roundtrip, lemma_u32_roundtrip};
use crate::types::{DNSClass, DNSType};
use crate::types::RCode;

verus! {

// EDNS(0) repurposes the TTL field of the OPT pseudo-record: the top byte
// carries the high bits of the extended RCode, the next byte the EDNS
// version, and bit 15 the DNSSEC-OK flag.

/// TTL bit set iff DNSSEC is allowed.
pub const EDNS0_DNSSEC_OK: u32 = 0x00008000;

/// TTL bits holding the EDNS version.
pub const EDNS_VERSION_MASK: u32 = 0x00ff0000;

/// TTL bits covering version byte and DNSSEC-OK flag together.
pub const EDNS0_DNSSEC_OK_MASK: u32 = 0x00ff8000;

/// The fixed header preceding every resource record body: name, type,
/// class, TTL and the body's byte length.
#[derive(Debug)]
pub struct ResourceHeader {
    /// The domain name this record pertains to.
    pub name: Name,
    /// The record type; authoritative only after packing, when it is
    /// stamped from the body.
    pub typ: DNSType,
    /// The network class, or the UDP payload size in an OPT pseudo-record.
    pub class: DNSClass,
    /// Time to live in seconds, or the EDNS(0) bit fields in an OPT record.
    pub ttl: u32,
    /// Byte length of the body; filled in during packing, read during
    /// unpacking.
    pub length: u16,
}

/// The wire form of a header whose name text is `nm`: name, type code,
/// class code, TTL, body length, in that order.
pub open spec fn header_wire(nm: Seq<u8>, typ: u16, class: u16, ttl: u32, length: u16) -> Seq<u8> {
    name_wire(nm) + u16_bytes(typ) + u16_bytes(class) + u32_bytes(ttl) + u16_bytes(length)
}

/// Reads a header at `off` of a pointerless message region: the five
/// fields and the offset past them.
pub open spec fn parse_header(msg: Seq<u8>, off: int) -> Option<
    ((Seq<u8>, u16, u16, u32, u16), int),
> {
    match parse_plain(msg, off) {
        Some(p) => {
            let e = p.1;
            if e + 10 <= msg.len() {
                Some(
                    (
                        (
                            p.0,
                            u16_of(msg[e], msg[e + 1]),
                            u16_of(msg[e + 2], msg[e + 3]),
                            u32_of(msg[e + 4], msg[e + 5], msg[e + 6], msg[e + 7]),
                            u16_of(msg[e + 8], msg[e + 9]),
                        ),
                        e + 10,
                    ),
                )
            } else {
                None
            }
        },
        None => None,
    }
}

impl ResourceHeader {
    /// A copy holding the same fields.
    pub fn duplicate(&self) -> (r: ResourceHeader)
        ensures
            r.name@ == self.name@,
            r.typ == self.typ,
            r.class == self.class,
            r.ttl == self.ttl,
            r.length == self.length,
    {
        ResourceHeader {
            name: self.name.duplicate(),
            typ: self.typ,
            class: self.class,
            ttl: self.ttl,
            length: self.length,
        }
    }

    /// Appends the wire form of the header. With `compression` `None` the
    /// output is exactly `header_wire` of the fields.
    pub fn pack(
        &self,
        msg: Vec<u8>,
        compression: &mut Option<CompressionMap>,
        compression_off: usize,
    ) -> (r: Result<Vec<u8>, Error>)
        ensures
            (r matches Ok(out) ==> valid_name_text(self.name@) && out@.subrange(
                0,
                msg@.len() as int,
            ) == msg@ && msg@.len() < out@.len() <= msg@.len() + self.name@.len() + 11 && (*old(
                compression,
            ) is None ==> *final(compression) is None && out@ == msg@ + header_wire(
                self.name@,
                self.typ.spec_code(),
                self.class.0,
                self.ttl,
                self.length,
            ))),
            (r matches Ok(out) ==> (*old(compression) matches Some(t0)
                ==> (*final(compression) matches Some(t1) && table_extended_with_suffixes(
                t0@,
                t1@,
                self.name@,
            ) && (keys_longer_than(t0@, self.name@.len() as int) ==> out@ == msg@ + header_wire(
                self.name@,
                self.typ.spec_code(),
                self.class.0,
                self.ttl,
                self.length,
            ))))),
            r is Err ==> *final(compression) == *old(compression),
            valid_name_text(self.name@) ==> r is Ok,
            (r matches Err(e) ==> !valid_name_text(self.name@) && (e == Error::NameTooLong || e
                == Error::NameNotCanonical) && (e == Error::NameTooLong <==> self.name@.len() >= 2
                && canonical_labels(self.name@) && !(self.name@.len() <= 254 && labels_le_63(
                self.name@,
            )))),
    {
        let ghost m0 = msg@;
        let msg = self.name.pack(msg, compression, compression_off)?;
        let ghost m1 = msg@;
        let msg = self.typ.pack(msg);
        let msg = self.class.pack(msg);
        let msg = pack_uint32(msg, self.ttl);
        let msg = pack_uint16(msg, self.length);
        proof {
            assert(msg@.subrange(0, m0.len() as int) =~= m0) by {
                assert(forall|k: int|
                    0 <= k < m0.len() ==> msg@[k] == m1.subrange(0, m0.len() as int)[k]);
            }
            let ghost exact0 = match *old(compression) {
                None => true,
                Some(t0) => keys_longer_than(t0@, self.name@.len() as int),
            };
            if exact0 {
                assert(msg@ =~= m0 + header_wire(
                    self.name@,
                    self.typ.spec_code(),
                    self.class.0,
                    self.ttl,
                    self.length,
                ));
            }
        }
        Ok(msg)
    }

    /// Reads a header at `off`, following name compression pointers. On a
    /// pointerless region the result agrees exactly with `parse_header`.
    pub fn unpack(msg: &[u8], off: usize) -> (r: Result<(ResourceHeader, usize), Error>)
        ensures
            (parse_header(msg@, off as int) matches Some(p) ==> (p.0.0.len() <= 254 ==> (
            r matches Ok(q) && q.0.name@ == p.0.0 && q.0.typ == DNSType::spec_from_code(p.0.1)
                && q.0.class == DNSClass(p.0.2) && q.0.ttl == p.0.3 && q.0.length == p.0.4 && q.1
                == p.1))),
            (r matches Ok(q) ==> off < q.1 <= msg@.len()),
            off < msg@.len() && msg@[off as int] & 0xC0 == 0xC0 && off + 1 >= msg@.len() ==> r
                == Err::<(ResourceHeader, usize), Error>(Error::InvalidPointer),
            off + 1 < msg@.len() && msg@[off as int] & 0xC0 == 0xC0 && ptr_target(
                msg@[off as int],
                msg@[off + 1],
            ) >= off ==> r == Err::<(ResourceHeader, usize), Error>(Error::InvalidPointer),
    {
        let (name, o1) = Name::unpack(msg, off)?;
        let (typ, o2) = DNSType::unpack(msg, o1)?;
        let (class, o3) = DNSClass::unpack(msg, o2)?;
        let (ttl, o4) = unpack_uint32(msg, o3)?;
        let (length, o5) = unpack_uint16(msg, o4)?;
        Ok((ResourceHeader { name, typ, class, ttl, length }, o5))
    }

    /// Whether the header, read as an EDNS(0) OPT pseudo-record, has the
    /// DNSSEC-OK bit set and the version byte clear.
    pub open spec fn spec_dnssec_allowed(self) -> bool {
        self.ttl & EDNS0_DNSSEC_OK_MASK == EDNS0_DNSSEC_OK
    }

    /// The extended RCode formed from the TTL's top byte and the low
    /// nibble of the header RCode, when the EDNS version is 0; the header
    /// RCode unchanged otherwise.
    pub open spec fn spec_extended_rcode(self, rcode: RCode) -> RCode {
        if self.ttl & EDNS_VERSION_MASK == 0 {
            RCode((((self.ttl >> 24) as u8) << 4) | rcode.0)
        } else {
            rcode
        }
    }

    /// Rewrites the header in place to the canonical EDNS(0) pseudo-record
    /// form: root name, OPT type, the payload size in the class field, and
    /// the extended RCode's high bits (with the DNSSEC-OK flag) in the TTL.
    pub fn set_edns0(&mut self, udp_payload_len: u16, ext_rcode: RCode, dnssec_ok: bool) -> (r:
        Result<(), Error>)
        ensures
            r is Ok,
            final(self).name@ == seq![46u8],
            final(self).typ == DNSType::OPT,
            final(self).class == DNSClass(udp_payload_len),
            final(self).ttl == (if dnssec_ok {
                (((ext_rcode.0 as u32) >> 4) << 24) | EDNS0_DNSSEC_OK
            } else {
                (((ext_rcode.0 as u32) >> 4) << 24)
            }),
            final(self).length == old(self).length,
    {
        self.name = Name::root();
        self.typ = DNSType::OPT;
        self.class = DNSClass(udp_payload_len);
        self.ttl = ((ext_rcode.0 as u32) >> 4) << 24;
        if dnssec_ok {
            self.ttl = self.ttl | EDNS0_DNSSEC_OK;
        }
        Ok(())
    }

    /// Reports whether the DNSSEC OK bit is set.
    pub fn dnssec_allowed(&self) -> (r: bool)
        ensures
            r == self.spec_dnssec_allowed(),
    {
        self.ttl & EDNS0_DNSSEC_OK_MASK == EDNS0_DNSSEC_OK
    }

    /// Returns the extended RCode, combining the TTL's top byte with the
    /// RCode from the message header.
    pub fn extended_rcode(&self, rcode: RCode) -> (r: RCode)
        ensures
            r == self.spec_extended_rcode(rcode),
    {
        let t = self.ttl;
        if t & EDNS_VERSION_MASK == 0 {
            proof {
                assert(t >> 24 <= 0xff) by (bit_vector);
            }
            let hi = (t >> 24) as u8;
            return RCode((hi << 4) | rcode.0);
        }
        rcode
    }
}

/// EDNS(0) round-trip: a header configured by `set_edns0` with the
/// DNSSEC-OK flag reports `dnssec_allowed`, and `extended_rcode` on the
/// base RCode's low nibble restores the full extended RCode.
pub proof fn lemma_edns0_roundtrip(h: ResourceHeader, ext_rcode: RCode, base: RCode, dnssec_ok: bool)
    requires
        h.ttl == (if dnssec_ok {
            (((ext_rcode.0 as u32) >> 4) << 24) | EDNS0_DNSSEC_OK
        } else {
            (((ext_rcode.0 as u32) >> 4) << 24)
        }),
        base.0 == ext_rcode.0 & 0x0f,
    ensures
        h.spec_dnssec_allowed() == dnssec_ok,
        h.spec_extended_rcode(base) == ext_rcode,
{
    let e = ext_rcode.0;
    let b = base.0;
    assert((((((e as u32) >> 4) << 24) | 0x00008000u32) & 0x00ff8000u32) == 0x00008000u32)
        by (bit_vector);
    assert((((((e as u32) >> 4) << 24) | 0x00008000u32) & 0x00ff0000u32) == 0u32) by (bit_vector);
    assert(((((e as u32) >> 4) << 24) & 0x00ff8000u32) != 0x00008000u32) by (bit_vector);
    assert(((((e as u32) >> 4) << 24) & 0x00ff0000u32) == 0u32) by (bit_vector);
    assert(b == e & 0x0f ==> ((((((((e as u32) >> 4) << 24) | 0x00008000u32) >> 24) as u8) << 4)
        | b) == e) by (bit_vector);
    assert(b == e & 0x0f ==> (((((((e as u32) >> 4) << 24) >> 24) as u8) << 4) | b) == e)
        by (bit_vector);
}

/// Reads one whole resource record at `off` of a pointerless region: the
/// header fields, the body value, and the offset just past the
/// header-declared RDLENGTH. The header is authoritative for where the
/// record ends; a record whose RDLENGTH runs past the buffer is refused.
pub open spec fn parse_resource(msg: Seq<u8>, off: int) -> Option<
    ((Seq<u8>, u16, u16, u32, u16), BodyModel, int),
> {
    match parse_header(msg, off) {
        Some(p) => {
            let h = p.0;
            let e = p.1;
            if h.0.len() <= 254 && e + h.4 <= msg.len() {
                match parse_body(DNSType::spec_from_code(h.1), msg, e, h.4 as int) {
                    Some(b) => Some((h, b.0, e + h.4)),
                    None => None,
                }
            } else {
                None
            }
        },
        None => None,
    }
}

/// A DNS resource record: a shared header and one of the ten body kinds.
#[derive(Debug)]
pub struct Resource {
    pub header: ResourceHeader,
    pub body: ResourceBody,
}

impl Resource {
    /// Appends the record's wire format: the body is packed first (into a
    /// scratch buffer) to learn its length, the header is stamped with the
    /// body's real type and that length, then header and body bytes are
    /// emitted. Record data itself is never compressed.
    pub fn pack(
        &self,
        msg: Vec<u8>,
        compression: &mut Option<CompressionMap>,
        compression_off: usize,
    ) -> (r: Result<Vec<u8>, Error>)
        ensures
            (r matches Ok(out) ==> valid_name_text(self.header.name@) && body_valid(
                body_model(self.body),
            ) && body_wire(body_model(self.body)).len() <= 65535 && msg@.len() < out@.len()
                && out@.subrange(0, msg@.len() as int) == msg@ && (*old(compression) is None
                ==> *final(compression) is None && out@ == msg@
                + header_wire(
                self.header.name@,
                model_type(body_model(self.body)).spec_code(),
                self.header.class.0,
                self.header.ttl,
                body_wire(body_model(self.body)).len() as u16,
            ) + body_wire(body_model(self.body)))),
            (r matches Ok(out) ==> (*old(compression) matches Some(t0)
                ==> (*final(compression) matches Some(t1) && table_extended_with_suffixes(
                t0@,
                t1@,
                self.header.name@,
            ) && (keys_longer_than(t0@, self.header.name@.len() as int) ==> out@ == msg@
                + header_wire(
                self.header.name@,
                model_type(body_model(self.body)).spec_code(),
                self.header.class.0,
                self.header.ttl,
                body_wire(body_model(self.body)).len() as u16,
            ) + body_wire(body_model(self.body)))))),
            r is Err ==> *final(compression) == *old(compression),
            (valid_name_text(self.header.name@) && body_valid(body_model(self.body)) && body_wire(
                body_model(self.body),
            ).len() <= 65535) ==> r is Ok,
            r is Err ==> !(valid_name_text(self.header.name@) && body_valid(body_model(self.body))
                && body_wire(body_model(self.body)).len() <= 65535),
    {
        let body_msg = self.body.pack(Vec::new())?;
        if body_msg.len() > 65535 {
            return Err(Error::ResourceLen);
        }
        let mut header = self.header.duplicate();
        header.typ = self.body.real_type();
        header.length = body_msg.len() as u16;
        let ghost m0 = msg@;
        let out = header.pack(msg, compression, compression_off)?;
        let ghost m1 = out@;
        let out = crate::packer::append_bytes(out, body_msg.as_slice());
        proof {
            assert(out@.subrange(0, m0.len() as int) =~= m0) by {
                assert(forall|k: int|
                    0 <= k < m0.len() ==> out@[k] == m1.subrange(0, m0.len() as int)[k]);
            }
            let ghost exact0 = match *old(compression) {
                None => true,
                Some(t0) => keys_longer_than(t0@, self.header.name@.len() as int),
            };
            if exact0 {
                assert(out@ =~= m0 + header_wire(
                    self.header.name@,
                    model_type(body_model(self.body)).spec_code(),
                    self.header.class.0,
                    self.header.ttl,
                    body_wire(body_model(self.body)).len() as u16,
                ) + body_wire(body_model(self.body)));
            }
        }
        Ok(out)
    }

    /// Reads one record at `off`, following name compression pointers. The
    /// returned offset is the body's start plus the header-declared
    /// RDLENGTH: the header is authoritative over how much the body
    /// consumed. An RDLENGTH running past the buffer fails with
    /// `ResourceLen`; on a pointerless region the result agrees exactly
    /// with `parse_resource`.
    pub fn unpack(msg: &[u8], off: usize) -> (r: Result<(Resource, usize), Error>)
        ensures
            (parse_resource(msg@, off as int) matches Some(p) ==> (r matches Ok(q)
                && q.0.header.name@ == p.0.0 && q.0.header.typ == DNSType::spec_from_code(p.0.1)
                && q.0.header.class == DNSClass(p.0.2) && q.0.header.ttl == p.0.3
                && q.0.header.length == p.0.4 && body_model(q.0.body) == p.1 && q.1 == p.2)),
            (r matches Ok(q) ==> off < q.1 <= msg@.len()),
            (parse_header(msg@, off as int) matches Some(p) ==> (p.0.0.len() <= 254 && p.1 + p.0.4
                > msg@.len() ==> r == Err::<(Resource, usize), Error>(Error::ResourceLen))),
            (parse_header(msg@, off as int) matches Some(p) ==> (p.0.0.len() <= 254 && p.1 + p.0.4
                <= msg@.len() && DNSType::spec_from_code(p.0.1) is Unsupported ==> r == Err::<
                (Resource, usize),
                Error,
            >(Error::NilResourceBody))),
            off < msg@.len() && msg@[off as int] & 0xC0 == 0xC0 && off + 1 >= msg@.len() ==> r
                == Err::<(Resource, usize), Error>(Error::InvalidPointer),
            off + 1 < msg@.len() && msg@[off as int] & 0xC0 == 0xC0 && ptr_target(
                msg@[off as int],
                msg@[off + 1],
            ) >= off ==> r == Err::<(Resource, usize), Error>(Error::InvalidPointer),
    {
        let (header, body_off) = ResourceHeader::unpack(msg, off)?;
        if header.length as usize > msg.len() - body_off {
            return Err(Error::ResourceLen);
        }
        let (body, _) = ResourceBody::unpack(header.typ, msg, body_off, header.length)?;
        let end = body_off + header.length as usize;
        Ok((Resource { header, body }, end))
    }

    /// Advances past one record without materialising it: name, type,
    /// class, TTL, then the length field, then that many body bytes. An
    /// RDLENGTH running past the buffer fails with `ResourceLen`.
    pub fn skip(msg: &[u8], off: usize) -> (r: Result<usize, Error>)
        ensures
            (parse_header(msg@, off as int) matches Some(p) ==> (p.1 + p.0.4 <= msg@.len() ==> (
            r matches Ok(e) && e == p.1 + p.0.4))),
            (parse_header(msg@, off as int) matches Some(p) ==> (p.1 + p.0.4 > msg@.len() ==> r
                == Err::<usize, Error>(Error::ResourceLen))),
            (skip_name(msg@, off as int) matches Some(e1) ==> (e1 + 10 <= msg@.len() ==> ((e1 + 10
                + u16_of(msg@[e1 + 8], msg@[e1 + 9]) <= msg@.len() ==> (r matches Ok(e) && e == e1
                + 10 + u16_of(msg@[e1 + 8], msg@[e1 + 9]))) && (e1 + 10 + u16_of(
                msg@[e1 + 8],
                msg@[e1 + 9],
            ) > msg@.len() ==> r == Err::<usize, Error>(Error::ResourceLen))))),
            (r matches Ok(e) ==> off < e <= msg@.len()),
    {
        let o1 = Name::skip(msg, off)?;
        let o2 = DNSType::skip(msg, o1)?;
        let o3 = DNSClass::skip(msg, o2)?;
        let o4 = skip_uint32(msg, o3)?;
        let (length, o5) = unpack_uint16(msg, o4)?;
        if length as usize > msg.len() - o5 {
            return Err(Error::ResourceLen);
        }
        Ok(o5 + length as usize)
    }
}

/// Reading back an embedded header: the wire form that
/// `ResourceHeader::pack` emits parses, through `parse_header`, to the
/// same five fields.
#[verifier::rlimit(100)]
pub proof fn lemma_header_parse(
    msg: Seq<u8>,
    off: int,
    nm: Seq<u8>,
    tc: u16,
    class: u16,
    ttl: u32,
    blen: u16,
)
    requires
        valid_name_text(nm),
        0 <= off,
        off + name_wire_len(nm) + 10 <= msg.len(),
        msg.subrange(off, off + name_wire_len(nm) + 10) == header_wire(nm, tc, class, ttl, blen),
    ensures
        parse_header(msg, off) == Some(((nm, tc, class, ttl, blen), off + name_wire_len(nm) + 10)),
{
    let nw = name_wire(nm);
    let nwl = name_wire_len(nm);
    if nm.len() != 1 {
        lemma_name_wire_len(nm);
    }
    assert(nw.len() == nwl);
    let fields = u16_bytes(tc) + u16_bytes(class) + u32_bytes(ttl) + u16_bytes(blen);
    let hw = header_wire(nm, tc, class, ttl, blen);
    assert(hw =~= nw + fields);
    assert(msg.subrange(off, off + nwl) =~= nw) by {
        assert forall|k: int| 0 <= k < nwl implies msg[off + k] == nw[k] by {
            assert(msg[off + k] == msg.subrange(off, off + nwl + 10)[k]);
            assert(hw[k] == (nw + fields)[k]);
        }
    }
    lemma_embedded_name(msg, off, nm);
    let e0 = off + nwl;
    assert forall|k: int| 0 <= k < 10 implies msg[e0 + k] == fields[k] by {
        assert(msg[e0 + k] == msg.subrange(off, off + nwl + 10)[nwl + k]);
        assert(hw[nwl + k] == (nw + fields)[nwl + k]);
        assert((nw + fields)[nwl + k] == fields[k]);
    }
    let f1 = u16_bytes(tc);
    let f2 = u16_bytes(class);
    let f3 = u32_bytes(ttl);
    let f4 = u16_bytes(blen);
    assert forall|k: int| 0 <= k < 2 implies fields[k] == f1[k] && fields[2 + k] == f2[k]
        && fields[8 + k] == f4[k] by {
        assert(fields[k] == (((f1 + f2) + f3) + f4)[k]);
        assert((((f1 + f2) + f3) + f4)[k] == ((f1 + f2) + f3)[k]);
        assert(((f1 + f2) + f3)[k] == (f1 + f2)[k]);
        assert((f1 + f2)[k] == f1[k]);
        assert(fields[2 + k] == (((f1 + f2) + f3) + f4)[2 + k]);
        assert((((f1 + f2) + f3) + f4)[2 + k] == ((f1 + f2) + f3)[2 + k]);
        assert(((f1 + f2) + f3)[2 + k] == (f1 + f2)[2 + k]);
        assert((f1 + f2)[2 + k] == f2[k]);
        assert(fields[8 + k] == (((f1 + f2) + f3) + f4)[8 + k]);
        assert((((f1 + f2) + f3) + f4)[8 + k] == f4[k]);
    }
    assert forall|k: int| 0 <= k < 4 implies fields[4 + k] == f3[k] by {
        assert(fields[4 + k] == (((f1 + f2) + f3) + f4)[4 + k]);
        assert((((f1 + f2) + f3) + f4)[4 + k] == ((f1 + f2) + f3)[4 + k]);
        assert(((f1 + f2) + f3)[4 + k] == f3[k]);
    }
    lemma_u16_roundtrip(tc);
    lemma_u16_roundtrip(class);
    lemma_u32_roundtrip(ttl);
    lemma_u16_roundtrip(blen);
    assert(u16_of(msg[e0], msg[e0 + 1]) == tc);
    assert(u16_of(msg[e0 + 2], msg[e0 + 3]) == class);
    assert(u32_of(msg[e0 + 4], msg[e0 + 5], msg[e0 + 6], msg[e0 + 7]) == ttl);
    assert(u16_of(msg[e0 + 8], msg[e0 + 9]) == blen);
}

/// A prefix segment of an embedded pair of segments.
proof fn lemma_embed_prefix(pre: Seq<u8>, a: Seq<u8>, b: Seq<u8>, post: Seq<u8>)
    ensures
        (pre + (a + b) + post).subrange(pre.len() as int, pre.len() + a.len() as int) == a,
{
    assert((pre + (a + b) + post).subrange(pre.len() as int, pre.len() + a.len() as int) =~= a) by {
        assert forall|k: int| 0 <= k < a.len() implies (pre + (a + b) + post)[pre.len() + k]
            == #[trigger] a[k] by {
            assert((pre + (a + b) + post)[pre.len() + k] == (pre + (a + b))[pre.len() + k]);
            assert((pre + (a + b))[pre.len() + k] == (a + b)[k]);
        }
    }
}

/// Composing a parsed header with a parsed body yields the parsed record.
proof fn lemma_parse_resource_compose(
    msg: Seq<u8>,
    off: int,
    nm: Seq<u8>,
    tc: u16,
    class: u16,
    ttl: u32,
    blen: u16,
    m: BodyModel,
    e: int,
)
    requires
        parse_header(msg, off) == Some(((nm, tc, class, ttl, blen), e)),
        nm.len() <= 254,
        e + blen <= msg.len(),
        DNSType::spec_from_code(tc) == model_type(m),
        parse_body(model_type(m), msg, e, blen as int) == Some((m, e + blen as int)),
    ensures
        parse_resource(msg, off) == Some(((nm, tc, class, ttl, blen), m, e + blen as int)),
{
}

/// Round-trip for a whole record: the wire form that `Resource::pack`
/// emits (header stamped with the body's type and length, then the body's
/// bytes) reads back, through `parse_resource`, to exactly the same
/// header fields and body value, wherever it sits inside a larger
/// message.
/// The header half of a packed record parses at its place.
#[verifier::rlimit(100)]
proof fn lemma_record_wire_header(
    nm: Seq<u8>,
    tc: u16,
    class: u16,
    ttl: u32,
    blen: u16,
    pre: Seq<u8>,
    bw: Seq<u8>,
    post: Seq<u8>,
)
    requires
        valid_name_text(nm),
    ensures
        parse_header(
            pre + (header_wire(nm, tc, class, ttl, blen) + bw) + post,
            pre.len() as int,
        ) == Some(((nm, tc, class, ttl, blen), pre.len() + name_wire_len(nm) + 10)),
{
    let hw = header_wire(nm, tc, class, ttl, blen);
    if nm.len() != 1 {
        lemma_name_wire_len(nm);
    }
    assert(hw.len() == name_wire_len(nm) + 10);
    let msg = pre + (hw + bw) + post;
    lemma_embed_prefix(pre, hw, bw, post);
    lemma_header_parse(msg, pre.len() as int, nm, tc, class, ttl, blen);
}

/// The body half of a packed record parses right after its header.
#[verifier::rlimit(100)]
proof fn lemma_record_wire_body(m: BodyModel, pre: Seq<u8>, hw: Seq<u8>, post: Seq<u8>)
    requires
        body_valid(m),
    ensures
        parse_body(
            model_type(m),
            pre + (hw + body_wire(m)) + post,
            pre.len() + hw.len() as int,
            body_wire(m).len() as int,
        ) == Some((m, pre.len() + hw.len() + body_wire(m).len() as int)),
{
    lemma_body_roundtrip(m, pre + hw, post);
    assert((pre + hw) + body_wire(m) + post =~= pre + (hw + body_wire(m)) + post);
}

/// Round-trip for a whole record: the wire form that `Resource::pack`
/// emits (header stamped with the body's type and length, then the body's
/// bytes) reads back, through `parse_resource`, to exactly the same
/// header fields and body value, wherever it sits inside a larger
/// message.
#[verifier::rlimit(100)]
pub proof fn lemma_resource_roundtrip(
    nm: Seq<u8>,
    class: u16,
    ttl: u32,
    m: BodyModel,
    pre: Seq<u8>,
    post: Seq<u8>,
)
    requires
        valid_name_text(nm),
        body_valid(m),
        body_wire(m).len() <= 65535,
    ensures
        ({
            let tc = model_type(m).spec_code();
            let blen = body_wire(m).len() as u16;
            let w = header_wire(nm, tc, class, ttl, blen) + body_wire(m);
            parse_resource(pre + w + post, pre.len() as int) == Some(
                ((nm, tc, class, ttl, blen), m, pre.len() + w.len() as int),
            )
        }),
{
    let tc = model_type(m).spec_code();
    let bw = body_wire(m);
    let blen = bw.len() as u16;
    let nwl = name_wire_len(nm);
    if nm.len() != 1 {
        lemma_name_wire_len(nm);
    }
    let hw = header_wire(nm, tc, class, ttl, blen);
    assert(hw.len() == nwl + 10);
    let w = hw + bw;
    let msg = pre + w + post;
    let off = pre.len() as int;
    lemma_record_wire_header(nm, tc, class, ttl, blen, pre, bw, post);
    // the packed type code reads back to the body's own kind
    assert(DNSType::spec_from_code(tc) == model_type(m)) by {
        match m {
            BodyModel::A(_) => {},
            BodyModel::AAAA(_) => {},
            BodyModel::CNAME(_) => {},
            BodyModel::NS(_) => {},
            BodyModel::PTR(_) => {},
            BodyModel::MX(_, _) => {},
            BodyModel::SOA(_, _, _, _, _, _, _) => {},
            BodyModel::SRV(_, _, _, _) => {},
            BodyModel::TXT(_) => {},
            BodyModel::OPT(_) => {},
        }
    }
    lemma_record_wire_body(m, pre, hw, post);
    assert(nm.len() <= 254);
    lemma_parse_resource_compose(msg, off, nm, tc, class, ttl, blen, m, off + nwl + 10);
    assert(off + nwl + 10 + blen as int == off + w.len() as int);
}

} // verus!
