use vstd::prelude::*;
use crate::errors::Error;
use crate::name::{CompressionMap, Name};
use crate::packer::{lemma_prefix12, pack_uint16, u16_bytes, u16_of, unpack_uint16};
use crate::rdata::{body_model, body_valid, body_wire, parse_name_capped, BodyModel};
use crate::name::{keys_longer_than, name_wire, valid_name_text};
use crate::resource::{parse_resource, Resource};
use crate::types::{DNSClass, DNSType, RCode};

verus! {

// A full DNS message: 12-byte header, question section, then answer,
// authority and additional resource sections.

/// The fixed message header, with the flag word split into its fields.
#[derive(Debug)]
pub struct MessageHeader {
    pub id: u16,
    /// QR: set on responses, clear on queries.
    pub response: bool,
    /// The 4-bit operation code.
    pub op_code: u16,
    pub authoritative: bool,
    pub truncated: bool,
    pub recursion_desired: bool,
    pub recursion_available: bool,
    pub rcode: RCode,
}

/// The wire flag word assembled from the header's fields.
pub open spec fn flags_word(h: MessageHeader) -> u16 {
    (((if h.response {
        0x8000u16
    } else {
        0u16
    }) | ((h.op_code & 0xf) << 11) | (if h.authoritative {
        0x0400u16
    } else {
        0u16
    }) | (if h.truncated {
        0x0200u16
    } else {
        0u16
    }) | (if h.recursion_desired {
        0x0100u16
    } else {
        0u16
    }) | (if h.recursion_available {
        0x0080u16
    } else {
        0u16
    }) | ((h.rcode.0 & 0xf) as u16)) as u16)
}

/// The twelve header bytes: id, flags, then the four section counts.
pub open spec fn header_bytes(h: MessageHeader, qd: u16, an: u16, ns: u16, ar: u16) -> Seq<u8> {
    u16_bytes(h.id) + u16_bytes(flags_word(h)) + u16_bytes(qd) + u16_bytes(an) + u16_bytes(ns)
        + u16_bytes(ar)
}

/// The header decoded from an id and a flag word.
pub open spec fn spec_decode_header(id: u16, flags: u16) -> MessageHeader {
    MessageHeader {
        id,
        response: flags & 0x8000 != 0,
        op_code: (flags >> 11) & 0xf,
        authoritative: flags & 0x0400 != 0,
        truncated: flags & 0x0200 != 0,
        recursion_desired: flags & 0x0100 != 0,
        recursion_available: flags & 0x0080 != 0,
        rcode: RCode((flags & 0xf) as u8),
    }
}

/// Whether a record has everything packing needs: a valid owner name, a
/// packable body, and a body wire form that fits the 16-bit length field.
pub open spec fn resource_packable(r: Resource) -> bool {
    valid_name_text(r.header.name@) && body_valid(body_model(r.body)) && body_wire(
        body_model(r.body),
    ).len() <= 65535
}

/// Whether every record of a section is packable.
pub open spec fn resources_packable(rs: Seq<Resource>) -> bool {
    forall|i: int| 0 <= i < rs.len() ==> resource_packable(#[trigger] rs[i])
}

/// A message that is one question and nothing else, with a packable name:
/// the shape of a freshly built query.
pub open spec fn single_question(m: Message) -> bool {
    m.questions@.len() == 1 && m.answers@.len() == 0 && m.authorities@.len() == 0
        && m.additionals@.len() == 0 && valid_name_text(m.questions@[0].name@)
}

/// The exact datagram a single-question message packs to: header, the
/// question's name uncompressed (nothing earlier can be pointed at), its
/// type and its class.
pub open spec fn single_question_bytes(m: Message) -> Seq<u8> {
    header_bytes(m.header, 1, 0, 0, 0) + name_wire(m.questions@[0].name@) + u16_bytes(
        m.questions@[0].typ.spec_code(),
    ) + u16_bytes(m.questions@[0].class.0)
}


/// The value of one question: name text, type code, class code.
pub open spec fn question_model(q: Question) -> (Seq<u8>, u16, u16) {
    (q.name@, q.typ.spec_code(), q.class.0)
}

/// The values of a question section.
pub open spec fn questions_model(qs: Seq<Question>) -> Seq<(Seq<u8>, u16, u16)> {
    qs.map_values(|q: Question| question_model(q))
}

/// The value of one record: its header fields and its body.
pub open spec fn record_model(r: Resource) -> ((Seq<u8>, u16, u16, u32, u16), BodyModel) {
    (
        (
            r.header.name@,
            r.header.typ.spec_code(),
            r.header.class.0,
            r.header.ttl,
            r.header.length,
        ),
        body_model(r.body),
    )
}

/// The values of a resource section.
pub open spec fn records_model(rs: Seq<Resource>) -> Seq<
    ((Seq<u8>, u16, u16, u32, u16), BodyModel),
> {
    rs.map_values(|x: Resource| record_model(x))
}

/// Reads `n` questions of a pointerless region starting at `off`.
pub open spec fn parse_questions(msg: Seq<u8>, off: int, n: int) -> Option<
    (Seq<(Seq<u8>, u16, u16)>, int),
>
    decreases n,
{
    if n <= 0 {
        Some((Seq::empty(), off))
    } else {
        match parse_name_capped(msg, off) {
            Some(p) => if p.1 + 4 <= msg.len() {
                match parse_questions(msg, p.1 + 4, n - 1) {
                    Some(rest) => Some(
                        (
                            seq![
                                (
                                    p.0,
                                    u16_of(msg[p.1], msg[p.1 + 1]),
                                    u16_of(msg[p.1 + 2], msg[p.1 + 3]),
                                ),
                            ] + rest.0,
                            rest.1,
                        ),
                    ),
                    None => None,
                }
            } else {
                None
            },
            None => None,
        }
    }
}

/// Reads `n` records of a pointerless region starting at `off`.
pub open spec fn parse_records(msg: Seq<u8>, off: int, n: int) -> Option<
    (Seq<((Seq<u8>, u16, u16, u32, u16), BodyModel)>, int),
>
    decreases n,
{
    if n <= 0 {
        Some((Seq::empty(), off))
    } else {
        match parse_resource(msg, off) {
            Some(p) => match parse_records(msg, p.2, n - 1) {
                Some(rest) => Some((seq![(p.0, p.1)] + rest.0, rest.1)),
                None => None,
            },
            None => None,
        }
    }
}

/// Reads a whole message of a pointerless region: the decoded header and
/// the four sections, each with as many entries as its count field says.
pub open spec fn parse_message(msg: Seq<u8>) -> Option<
    (
        MessageHeader,
        Seq<(Seq<u8>, u16, u16)>,
        Seq<((Seq<u8>, u16, u16, u32, u16), BodyModel)>,
        Seq<((Seq<u8>, u16, u16, u32, u16), BodyModel)>,
        Seq<((Seq<u8>, u16, u16, u32, u16), BodyModel)>,
    ),
> {
    if msg.len() < 12 {
        None
    } else {
        match parse_questions(msg, 12, u16_of(msg[4], msg[5]) as int) {
            Some(qs) => match parse_records(msg, qs.1, u16_of(msg[6], msg[7]) as int) {
                Some(ans) => match parse_records(msg, ans.1, u16_of(msg[8], msg[9]) as int) {
                    Some(auth) => match parse_records(
                        msg,
                        auth.1,
                        u16_of(msg[10], msg[11]) as int,
                    ) {
                        Some(add) => Some(
                            (
                                spec_decode_header(
                                    u16_of(msg[0], msg[1]),
                                    u16_of(msg[2], msg[3]),
                                ),
                                qs.0,
                                ans.0,
                                auth.0,
                                add.0,
                            ),
                        ),
                        None => None,
                    },
                    None => None,
                },
                None => None,
            },
            None => None,
        }
    }
}

/// One entry of the question section.
#[derive(Debug)]
pub struct Question {
    pub name: Name,
    pub typ: DNSType,
    pub class: DNSClass,
}

/// A whole DNS message.
#[derive(Debug)]
pub struct Message {
    pub header: MessageHeader,
    pub questions: Vec<Question>,
    pub answers: Vec<Resource>,
    pub authorities: Vec<Resource>,
    pub additionals: Vec<Resource>,
}

impl Message {
    /// Packs the message into a fresh datagram, compressing names across
    /// the whole message. The twelve header bytes are exactly
    /// `header_bytes` with the four counts equal to the section lengths;
    /// a section that cannot be counted in 16 bits is refused.
    pub fn pack(&self) -> (r: Result<Vec<u8>, Error>)
        ensures
            (r matches Ok(out) ==> self.questions@.len() <= 65535 && self.answers@.len() <= 65535
                && self.authorities@.len() <= 65535 && self.additionals@.len() <= 65535
                && out@.len() >= 12 && out@.subrange(0, 12) == header_bytes(
                self.header,
                self.questions@.len() as u16,
                self.answers@.len() as u16,
                self.authorities@.len() as u16,
                self.additionals@.len() as u16,
            )),
            !(self.questions@.len() <= 65535 && self.answers@.len() <= 65535
                && self.authorities@.len() <= 65535 && self.additionals@.len() <= 65535) ==> r
                == Err::<Vec<u8>, Error>(Error::SectionTooLong),
            (self.questions@.len() <= 65535 && self.answers@.len() <= 65535
                && self.authorities@.len() <= 65535 && self.additionals@.len() <= 65535 && (
            forall|i: int|
                0 <= i < self.questions@.len() ==> valid_name_text(
                    (#[trigger] self.questions@[i]).name@,
                )) && resources_packable(self.answers@) && resources_packable(self.authorities@)
                && resources_packable(self.additionals@)) ==> r is Ok,
            single_question(*self) ==> (r matches Ok(out) && out@ == single_question_bytes(
                *self,
            )),
    {
        if self.questions.len() > 65535 || self.answers.len() > 65535 || self.authorities.len()
            > 65535 || self.additionals.len() > 65535 {
            return Err(Error::SectionTooLong);
        }
        let mut out: Vec<u8> = Vec::new();
        out = pack_uint16(out, self.header.id);
        out = pack_uint16(out, self.flags_value());
        out = pack_uint16(out, self.questions.len() as u16);
        out = pack_uint16(out, self.answers.len() as u16);
        out = pack_uint16(out, self.authorities.len() as u16);
        out = pack_uint16(out, self.additionals.len() as u16);
        let ghost hdr = out@;
        proof {
            assert(hdr =~= header_bytes(
                self.header,
                self.questions@.len() as u16,
                self.answers@.len() as u16,
                self.authorities@.len() as u16,
                self.additionals@.len() as u16,
            ));
            assert(hdr.subrange(0, 12) =~= hdr);
        }
        let mut compression: Option<CompressionMap> = Some(CompressionMap::new());
        let mut i: usize = 0;
        while i < self.questions.len()
            invariant
                out@.len() >= 12,
                out@.subrange(0, 12) == hdr,
                self.questions@.len() <= 65535,
                self.answers@.len() <= 65535,
                self.authorities@.len() <= 65535,
                self.additionals@.len() <= 65535,
                i <= self.questions@.len(),
                single_question(*self) ==> hdr == header_bytes(self.header, 1, 0, 0, 0),
                single_question(*self) && i == 0 ==> out@ == hdr && (compression matches Some(t)
                    && t@.len() == 0),
                single_question(*self) && i == 1 ==> out@ == single_question_bytes(*self),
            decreases self.questions@.len() - i,
        {
            let ghost before = out@;
            let q = &self.questions[i];
            out = q.name.pack(out, &mut compression, 0)?;
            let ghost g1 = out@;
            out = q.typ.pack(out);
            out = q.class.pack(out);
            proof {
                assert(out@.subrange(0, g1.len() as int) =~= g1);
                lemma_prefix12(before, g1);
                lemma_prefix12(g1, out@);
                assert(before.subrange(0, 12) == hdr);
                assert(out@.subrange(0, 12) == hdr);
            }
            i += 1;
        }
        let mut i: usize = 0;
        while i < self.answers.len()
            invariant
                out@.len() >= 12,
                out@.subrange(0, 12) == hdr,
                self.questions@.len() <= 65535,
                self.answers@.len() <= 65535,
                self.authorities@.len() <= 65535,
                self.additionals@.len() <= 65535,
                single_question(*self) ==> out@ == single_question_bytes(*self),
            decreases self.answers@.len() - i,
        {
            let ghost before = out@;
            out = self.answers[i].pack(out, &mut compression, 0)?;
            proof {
                lemma_prefix12(before, out@);
                assert(out@.subrange(0, 12) == hdr);
            }
            i += 1;
        }
        let mut i: usize = 0;
        while i < self.authorities.len()
            invariant
                out@.len() >= 12,
                out@.subrange(0, 12) == hdr,
                self.questions@.len() <= 65535,
                self.answers@.len() <= 65535,
                self.authorities@.len() <= 65535,
                self.additionals@.len() <= 65535,
                single_question(*self) ==> out@ == single_question_bytes(*self),
            decreases self.authorities@.len() - i,
        {
            let ghost before = out@;
            out = self.authorities[i].pack(out, &mut compression, 0)?;
            proof {
                lemma_prefix12(before, out@);
                assert(out@.subrange(0, 12) == hdr);
            }
            i += 1;
        }
        let mut i: usize = 0;
        while i < self.additionals.len()
            invariant
                out@.len() >= 12,
                out@.subrange(0, 12) == hdr,
                self.questions@.len() <= 65535,
                self.answers@.len() <= 65535,
                self.authorities@.len() <= 65535,
                self.additionals@.len() <= 65535,
                single_question(*self) ==> out@ == single_question_bytes(*self),
            decreases self.additionals@.len() - i,
        {
            let ghost before = out@;
            out = self.additionals[i].pack(out, &mut compression, 0)?;
            proof {
                lemma_prefix12(before, out@);
                assert(out@.subrange(0, 12) == hdr);
            }
            i += 1;
        }
        Ok(out)
    }

    /// The wire flag word for this message's header.
    pub fn flags_value(&self) -> (r: u16)
        ensures
            r == flags_word(self.header),
    {
        let fr: u16 = if self.header.response {
            0x8000
        } else {
            0
        };
        let fa: u16 = if self.header.authoritative {
            0x0400
        } else {
            0
        };
        let ft: u16 = if self.header.truncated {
            0x0200
        } else {
            0
        };
        let fd: u16 = if self.header.recursion_desired {
            0x0100
        } else {
            0
        };
        let fv: u16 = if self.header.recursion_available {
            0x0080
        } else {
            0
        };
        fr | ((self.header.op_code & 0xf) << 11) | fa | ft | fd | fv | ((self.header.rcode.0
            & 0xf) as u16)
    }

    /// Reads `n` records in a row; on a pointerless region the result
    /// agrees exactly with `parse_records`.
    #[verifier::rlimit(100)]
    fn unpack_section(msg: &[u8], off: usize, n: u16) -> (r: Result<(Vec<Resource>, usize), Error>)
        ensures
            (parse_records(msg@, off as int, n as int) matches Some(pr) ==> (r matches Ok(q)
                && records_model(q.0@) == pr.0 && q.1 == pr.1)),
            (r matches Ok(q) ==> q.0@.len() == n),
    {
        let mut out: Vec<Resource> = Vec::new();
        let mut cur = off;
        proof {
            match parse_records(msg@, off as int, n as int) {
                Some(pr) => {
                    assert(records_model(out@) + pr.0 =~= pr.0);
                },
                None => {},
            }
        }
        let mut i: usize = 0;
        while i < n as usize
            invariant
                out@.len() == i,
                i <= n as usize,
                (parse_records(msg@, off as int, n as int) matches Some(pr) ==> (parse_records(
                    msg@,
                    cur as int,
                    n - i,
                ) matches Some(rest) && pr.0 == records_model(out@) + rest.0 && pr.1 == rest.1)),
            decreases n as usize - i,
        {
            let ghost rs_before = out@;
            let (res, p) = Resource::unpack(msg, cur)?;
            proof {
                match parse_records(msg@, off as int, n as int) {
                    Some(pr) => {
                        match parse_records(msg@, cur as int, n - i) {
                            Some(rest) => {
                                match parse_resource(msg@, cur as int) {
                                    Some(pres) => {
                                        DNSType::lemma_code_roundtrip(pres.0.1);
                                        assert(record_model(res) == (pres.0, pres.1));
                                        assert(records_model(rs_before.push(res))
                                            =~= records_model(rs_before).push(record_model(res)));
                                        assert(records_model(rs_before) + rest.0 =~= records_model(
                                            rs_before,
                                        ).push(record_model(res)) + rest.0.drop_first());
                                    },
                                    None => {},
                                }
                            },
                            None => {},
                        }
                    },
                    None => {},
                }
            }
            out.push(res);
            cur = p;
            i += 1;
        }
        proof {
            match parse_records(msg@, off as int, n as int) {
                Some(pr) => {
                    assert(records_model(out@) + Seq::<
                        ((Seq<u8>, u16, u16, u32, u16), BodyModel),
                    >::empty() =~= records_model(out@));
                },
                None => {},
            }
        }
        Ok((out, cur))
    }

    /// Reads a whole message: the 12-byte header, then each section, with
    /// the count fields driving how many entries are read. On a
    /// pointerless region the result agrees exactly with `parse_message`:
    /// the parse succeeding forces success here, with the same header and
    /// the same section contents.
    #[verifier::rlimit(100)]
    pub fn unpack(msg: &[u8]) -> (r: Result<Message, Error>)
        ensures
            (r matches Ok(m) ==> msg@.len() >= 12 && m.header == spec_decode_header(
                u16_of(msg@[0], msg@[1]),
                u16_of(msg@[2], msg@[3]),
            ) && m.questions@.len() == u16_of(msg@[4], msg@[5]) && m.answers@.len() == u16_of(
                msg@[6],
                msg@[7],
            ) && m.authorities@.len() == u16_of(msg@[8], msg@[9]) && m.additionals@.len()
                == u16_of(msg@[10], msg@[11])),
            msg@.len() < 12 ==> r == Err::<Message, Error>(Error::BufferTooSmall),
            (parse_message(msg@) matches Some(pm) ==> (r matches Ok(m) && m.header == pm.0
                && questions_model(m.questions@) == pm.1 && records_model(m.answers@) == pm.2
                && records_model(m.authorities@) == pm.3 && records_model(m.additionals@)
                == pm.4)),
    {
        let (id, o1) = unpack_uint16(msg, 0)?;
        let (flags, o2) = unpack_uint16(msg, o1)?;
        let (qd, o3) = unpack_uint16(msg, o2)?;
        let (an, o4) = unpack_uint16(msg, o3)?;
        let (ns, o5) = unpack_uint16(msg, o4)?;
        let (ar, o6) = unpack_uint16(msg, o5)?;
        let header = MessageHeader {
            id,
            response: flags & 0x8000 != 0,
            op_code: (flags >> 11) & 0xf,
            authoritative: flags & 0x0400 != 0,
            truncated: flags & 0x0200 != 0,
            recursion_desired: flags & 0x0100 != 0,
            recursion_available: flags & 0x0080 != 0,
            rcode: RCode((flags & 0xf) as u8),
        };
        let mut off = o6;
        let mut questions: Vec<Question> = Vec::new();
        proof {
            match parse_questions(msg@, 12, qd as int) {
                Some(qs) => {
                    assert(questions_model(questions@) + qs.0 =~= qs.0);
                },
                None => {},
            }
        }
        let mut i: usize = 0;
        while i < qd as usize
            invariant
                msg@.len() >= 12,
                questions@.len() == i,
                i <= qd as usize,
                qd == u16_of(msg@[4], msg@[5]),
                (parse_questions(msg@, 12, qd as int) matches Some(qs) ==> (parse_questions(
                    msg@,
                    off as int,
                    qd - i,
                ) matches Some(rest) && qs.0 == questions_model(questions@) + rest.0 && qs.1
                    == rest.1)),
            decreases qd as usize - i,
        {
            let ghost qs_before = questions@;
            let (name, p1) = Name::unpack(msg, off)?;
            let (typ, p2) = DNSType::unpack(msg, p1)?;
            let (class, p3) = DNSClass::unpack(msg, p2)?;
            let q = Question { name, typ, class };
            proof {
                match parse_questions(msg@, 12, qd as int) {
                    Some(qs) => {
                        match parse_questions(msg@, off as int, qd - i) {
                            Some(rest) => {
                                DNSType::lemma_code_roundtrip(
                                    u16_of(msg@[p1 as int], msg@[p1 + 1]),
                                );
                                assert(questions_model(qs_before.push(q)) =~= questions_model(
                                    qs_before,
                                ).push(question_model(q)));
                                assert(questions_model(qs_before) + rest.0 =~= questions_model(
                                    qs_before,
                                ).push(question_model(q)) + rest.0.drop_first());
                            },
                            None => {},
                        }
                    },
                    None => {},
                }
            }
            questions.push(q);
            off = p3;
            i += 1;
        }
        let ghost q_end = off;
        let (answers, off_a) = Self::unpack_section(msg, off, an)?;
        let (authorities, off_n) = Self::unpack_section(msg, off_a, ns)?;
        let (additionals, off_r) = Self::unpack_section(msg, off_n, ar)?;
        proof {
            match parse_message(msg@) {
                Some(pm) => {
                    match parse_questions(msg@, 12, qd as int) {
                        Some(qs) => {
                            assert(questions_model(questions@) + Seq::<
                                (Seq<u8>, u16, u16),
                            >::empty() =~= questions_model(questions@));
                        },
                        None => {},
                    }
                },
                None => {},
            }
        }
        Ok(Message { header, questions, answers, authorities, additionals })
    }
}

} // verus!