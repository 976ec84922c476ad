use vstd::prelude::*;
use crate::errors::Error;
use crate::name::{
    CompressionMap, Name, canonical_labels, lemma_name_roundtrip, lemma_name_wire_len, name_wire,
    parse_plain, valid_name_text,
};
use crate::packer::{
    lemma_u16_roundtrip, lemma_u32_roundtrip, pack_uint16, pack_uint32, read_bytes, u16_bytes,
    u16_of, u32_bytes, u32_of, unpack_uint16, unpack_uint32,
};
use crate::types::DNSType;

verus! {

// The ten resource-record body kinds, modelled as a closed sum so that
// dispatch on the record type is static and exhaustive.

/// The mathematical value of one resource body: every field as a plain
/// value, names as their dot-terminated texts.
pub enum BodyModel {
    A(Seq<u8>),
    AAAA(Seq<u8>),
    CNAME(Seq<u8>),
    NS(Seq<u8>),
    PTR(Seq<u8>),
    MX(u16, Seq<u8>),
    SOA(Seq<u8>, Seq<u8>, u32, u32, u32, u32, u32),
    SRV(u16, u16, u16, Seq<u8>),
    TXT(Seq<Seq<u8>>),
    OPT(Seq<(u16, Seq<u8>)>),
}

/// The record type a body kind is stamped with when packing.
pub open spec fn model_type(m: BodyModel) -> DNSType {
    match m {
        BodyModel::A(_) => DNSType::A,
        BodyModel::AAAA(_) => DNSType::AAAA,
        BodyModel::CNAME(_) => DNSType::CNAME,
        BodyModel::NS(_) => DNSType::NS,
        BodyModel::PTR(_) => DNSType::PTR,
        BodyModel::MX(_, _) => DNSType::MX,
        BodyModel::SOA(_, _, _, _, _, _, _) => DNSType::SOA,
        BodyModel::SRV(_, _, _, _) => DNSType::SRV,
        BodyModel::TXT(_) => DNSType::TXT,
        BodyModel::OPT(_) => DNSType::OPT,
    }
}

/// The wire form of a run of TXT character-strings: each length-prefixed.
pub open spec fn txt_wire(ss: Seq<Seq<u8>>) -> Seq<u8>
    decreases ss.len(),
{
    if ss.len() == 0 {
        Seq::empty()
    } else {
        seq![ss[0].len() as u8] + ss[0] + txt_wire(ss.drop_first())
    }
}

/// The wire form of a run of EDNS options: code, length, data each.
pub open spec fn opt_wire(os: Seq<(u16, Seq<u8>)>) -> Seq<u8>
    decreases os.len(),
{
    if os.len() == 0 {
        Seq::empty()
    } else {
        u16_bytes(os[0].0) + u16_bytes(os[0].1.len() as u16) + os[0].1 + opt_wire(os.drop_first())
    }
}

/// The uncompressed wire form of a body.
pub open spec fn body_wire(m: BodyModel) -> Seq<u8> {
    match m {
        BodyModel::A(a) => a,
        BodyModel::AAAA(a) => a,
        BodyModel::CNAME(nm) => name_wire(nm),
        BodyModel::NS(nm) => name_wire(nm),
        BodyModel::PTR(nm) => name_wire(nm),
        BodyModel::MX(pref, nm) => u16_bytes(pref) + name_wire(nm),
        BodyModel::SOA(ns, mbox, serial, refresh, retry, expire, min_ttl) => name_wire(ns)
            + name_wire(mbox) + u32_bytes(serial) + u32_bytes(refresh) + u32_bytes(retry)
            + u32_bytes(expire) + u32_bytes(min_ttl),
        BodyModel::SRV(priority, weight, port, target) => u16_bytes(priority) + u16_bytes(weight)
            + u16_bytes(port) + name_wire(target),
        BodyModel::TXT(ss) => txt_wire(ss),
        BodyModel::OPT(os) => opt_wire(os),
    }
}

/// Every TXT character-string fits its one-octet length prefix.
pub open spec fn txt_valid(ss: Seq<Seq<u8>>) -> bool {
    forall|i: int| 0 <= i < ss.len() ==> (#[trigger] ss[i]).len() <= 255
}

/// Every EDNS option's data fits its 16-bit length field.
pub open spec fn opt_valid(os: Seq<(u16, Seq<u8>)>) -> bool {
    forall|i: int| 0 <= i < os.len() ==> (#[trigger] os[i]).1.len() <= 65535
}

/// The values a body may hold to be packable: names valid, addresses of
/// their fixed width, TXT strings within one length octet, option data
/// within one 16-bit length field.
pub open spec fn body_valid(m: BodyModel) -> bool {
    match m {
        BodyModel::A(a) => a.len() == 4,
        BodyModel::AAAA(a) => a.len() == 16,
        BodyModel::CNAME(nm) => valid_name_text(nm),
        BodyModel::NS(nm) => valid_name_text(nm),
        BodyModel::PTR(nm) => valid_name_text(nm),
        BodyModel::MX(_, nm) => valid_name_text(nm),
        BodyModel::SOA(ns, mbox, _, _, _, _, _) => valid_name_text(ns) && valid_name_text(mbox),
        BodyModel::SRV(_, _, _, target) => valid_name_text(target),
        BodyModel::TXT(ss) => txt_valid(ss),
        BodyModel::OPT(os) => opt_valid(os),
    }
}

/// A name parse whose text respects the 254-octet text cap.
pub open spec fn parse_name_capped(msg: Seq<u8>, off: int) -> Option<(Seq<u8>, int)> {
    match parse_plain(msg, off) {
        Some(p) => if p.0.len() <= 254 {
            Some(p)
        } else {
            None
        },
        None => None,
    }
}

/// Reads TXT character-strings from `off` up to exactly `end`.
pub open spec fn parse_txt(msg: Seq<u8>, off: int, end: int) -> Option<Seq<Seq<u8>>>
    decreases end - off,
{
    if off == end {
        Some(Seq::empty())
    } else if 0 <= off < end && end <= msg.len() {
        let l = msg[off] as int;
        if off + 1 + l <= end {
            match parse_txt(msg, off + 1 + l, end) {
                Some(rest) => Some(seq![msg.subrange(off + 1, off + 1 + l)] + rest),
                None => None,
            }
        } else {
            None
        }
    } else {
        None
    }
}

/// Reads EDNS options from `off` up to exactly `end`.
pub open spec fn parse_opt(msg: Seq<u8>, off: int, end: int) -> Option<Seq<(u16, Seq<u8>)>>
    decreases end - off,
{
    if off == end {
        Some(Seq::empty())
    } else if 0 <= off && off + 4 <= end && end <= msg.len() {
        let code = u16_of(msg[off], msg[off + 1]);
        let l = u16_of(msg[off + 2], msg[off + 3]) as int;
        if off + 4 + l <= end {
            match parse_opt(msg, off + 4 + l, end) {
                Some(rest) => Some(
                    seq![(code, msg.subrange(off + 4, off + 4 + l))] + rest,
                ),
                None => None,
            }
        } else {
            None
        }
    } else {
        None
    }
}

/// Reads the body of type `t` at `off`; `length` is the header-declared
/// RDLENGTH, which drives TXT and OPT and is ignored by the
/// self-describing kinds. Yields the body's value and the offset past the
/// bytes the body itself consumed.
pub open spec fn parse_body(t: DNSType, msg: Seq<u8>, off: int, length: int) -> Option<
    (BodyModel, int),
> {
    match t {
        DNSType::A => if 0 <= off && off + 4 <= msg.len() {
            Some((BodyModel::A(msg.subrange(off, off + 4)), off + 4))
        } else {
            None
        },
        DNSType::AAAA => if 0 <= off && off + 16 <= msg.len() {
            Some((BodyModel::AAAA(msg.subrange(off, off + 16)), off + 16))
        } else {
            None
        },
        DNSType::CNAME => match parse_name_capped(msg, off) {
            Some(p) => Some((BodyModel::CNAME(p.0), p.1)),
            None => None,
        },
        DNSType::NS => match parse_name_capped(msg, off) {
            Some(p) => Some((BodyModel::NS(p.0), p.1)),
            None => None,
        },
        DNSType::PTR => match parse_name_capped(msg, off) {
            Some(p) => Some((BodyModel::PTR(p.0), p.1)),
            None => None,
        },
        DNSType::MX => if 0 <= off && off + 2 <= msg.len() {
            match parse_name_capped(msg, off + 2) {
                Some(p) => Some((BodyModel::MX(u16_of(msg[off], msg[off + 1]), p.0), p.1)),
                None => None,
            }
        } else {
            None
        },
        DNSType::SOA => match parse_name_capped(msg, off) {
            Some(p1) => match parse_name_capped(msg, p1.1) {
                Some(p2) => {
                    let e = p2.1;
                    if e + 20 <= msg.len() {
                        Some(
                            (
                                BodyModel::SOA(
                                    p1.0,
                                    p2.0,
                                    u32_of(msg[e], msg[e + 1], msg[e + 2], msg[e + 3]),
                                    u32_of(msg[e + 4], msg[e + 5], msg[e + 6], msg[e + 7]),
                                    u32_of(msg[e + 8], msg[e + 9], msg[e + 10], msg[e + 11]),
                                    u32_of(msg[e + 12], msg[e + 13], msg[e + 14], msg[e + 15]),
                                    u32_of(msg[e + 16], msg[e + 17], msg[e + 18], msg[e + 19]),
                                ),
                                e + 20,
                            ),
                        )
                    } else {
                        None
                    }
                },
                None => None,
            },
            None => None,
        },
        DNSType::SRV => if 0 <= off && off + 6 <= msg.len() {
            match parse_name_capped(msg, off + 6) {
                Some(p) => Some(
                    (
                        BodyModel::SRV(
                            u16_of(msg[off], msg[off + 1]),
                            u16_of(msg[off + 2], msg[off + 3]),
                            u16_of(msg[off + 4], msg[off + 5]),
                            p.0,
                        ),
                        p.1,
                    ),
                ),
                None => None,
            }
        } else {
            None
        },
        DNSType::TXT => if 0 <= off && 0 <= length && off + length <= msg.len() {
            match parse_txt(msg, off, off + length) {
                Some(ss) => Some((BodyModel::TXT(ss), off + length)),
                None => None,
            }
        } else {
            None
        },
        DNSType::OPT => if 0 <= off && 0 <= length && off + length <= msg.len() {
            match parse_opt(msg, off, off + length) {
                Some(os) => Some((BodyModel::OPT(os), off + length)),
                None => None,
            }
        } else {
            None
        },
        DNSType::Unsupported(_) => None,
    }
}

/// `Some((p + items, ...))` for a successful tail parse; `None` stays `None`.
pub open spec fn prepend_strs(p: Seq<Seq<u8>>, o: Option<Seq<Seq<u8>>>) -> Option<Seq<Seq<u8>>> {
    match o {
        Some(r) => Some(p + r),
        None => None,
    }
}

pub open spec fn prepend_opts(p: Seq<(u16, Seq<u8>)>, o: Option<Seq<(u16, Seq<u8>)>>) -> Option<
    Seq<(u16, Seq<u8>)>,
> {
    match o {
        Some(r) => Some(p + r),
        None => None,
    }
}

/// Appending one more string extends the wire form at its end.
pub proof fn lemma_txt_wire_snoc(ss: Seq<Seq<u8>>, s: Seq<u8>)
    ensures
        txt_wire(ss.push(s)) == txt_wire(ss) + seq![s.len() as u8] + s,
    decreases ss.len(),
{
    if ss.len() == 0 {
        assert(ss.push(s)[0] == s);
        assert(ss.push(s).drop_first() =~= Seq::<Seq<u8>>::empty());
        assert(txt_wire(Seq::<Seq<u8>>::empty()) == Seq::<u8>::empty());
        assert(txt_wire(ss.push(s)) == seq![s.len() as u8] + s + txt_wire(
            ss.push(s).drop_first(),
        ));
        assert(txt_wire(ss.push(s)) =~= txt_wire(ss) + seq![s.len() as u8] + s);
    } else {
        assert(ss.push(s)[0] == ss[0]);
        assert(ss.push(s).drop_first() =~= ss.drop_first().push(s));
        lemma_txt_wire_snoc(ss.drop_first(), s);
        assert(txt_wire(ss.push(s)) == seq![ss[0].len() as u8] + ss[0] + txt_wire(
            ss.drop_first().push(s),
        ));
        assert(txt_wire(ss) == seq![ss[0].len() as u8] + ss[0] + txt_wire(ss.drop_first()));
        assert(txt_wire(ss.push(s)) =~= txt_wire(ss) + seq![s.len() as u8] + s);
    }
}

/// Appending one more option extends the wire form at its end.
pub proof fn lemma_opt_wire_snoc(os: Seq<(u16, Seq<u8>)>, code: u16, data: Seq<u8>)
    ensures
        opt_wire(os.push((code, data))) == opt_wire(os) + u16_bytes(code) + u16_bytes(
            data.len() as u16,
        ) + data,
    decreases os.len(),
{
    if os.len() == 0 {
        assert(os.push((code, data))[0] == (code, data));
        assert(os.push((code, data)).drop_first() =~= Seq::<(u16, Seq<u8>)>::empty());
        assert(opt_wire(Seq::<(u16, Seq<u8>)>::empty()) == Seq::<u8>::empty());
        assert(opt_wire(os.push((code, data))) == u16_bytes(code) + u16_bytes(data.len() as u16)
            + data + opt_wire(os.push((code, data)).drop_first()));
        assert(opt_wire(os.push((code, data))) =~= opt_wire(os) + u16_bytes(code) + u16_bytes(
            data.len() as u16,
        ) + data);
    } else {
        assert(os.push((code, data))[0] == os[0]);
        assert(os.push((code, data)).drop_first() =~= os.drop_first().push((code, data)));
        lemma_opt_wire_snoc(os.drop_first(), code, data);
        assert(opt_wire(os.push((code, data))) == u16_bytes(os[0].0) + u16_bytes(
            os[0].1.len() as u16,
        ) + os[0].1 + opt_wire(os.drop_first().push((code, data))));
        assert(opt_wire(os) == u16_bytes(os[0].0) + u16_bytes(os[0].1.len() as u16) + os[0].1
            + opt_wire(os.drop_first()));
        assert(opt_wire(os.push((code, data))) =~= opt_wire(os) + u16_bytes(code) + u16_bytes(
            data.len() as u16,
        ) + data);
    }
}

/// An IPv4 host address record.
#[derive(Debug)]
pub struct AResource {
    pub a: [u8; 4],
}

/// An IPv6 host address record.
#[derive(Debug)]
pub struct AAAAResource {
    pub aaaa: [u8; 16],
}

/// A canonical-name record.
#[derive(Debug)]
pub struct CNAMEResource {
    pub cname: Name,
}

/// A name-server record.
#[derive(Debug)]
pub struct NSResource {
    pub ns: Name,
}

/// A pointer record.
#[derive(Debug)]
pub struct PTRResource {
    pub ptr: Name,
}

/// A mail-exchange record.
#[derive(Debug)]
pub struct MXResource {
    pub pref: u16,
    pub mx: Name,
}

/// A start-of-authority record.
#[derive(Debug)]
pub struct SOAResource {
    pub ns: Name,
    pub mbox: Name,
    pub serial: u32,
    pub refresh: u32,
    pub retry: u32,
    pub expire: u32,
    pub min_ttl: u32,
}

/// A service-locator record. Its target is packed without compression, as
/// RFC 2782 requires.
#[derive(Debug)]
pub struct SRVResource {
    pub priority: u16,
    pub weight: u16,
    pub port: u16,
    pub target: Name,
}

/// A text record: a run of character-strings.
#[derive(Debug)]
pub struct TXTResource {
    pub txt: Vec<Vec<u8>>,
}

/// One EDNS option inside an OPT pseudo-record.
#[derive(Debug)]
pub struct DNSOption {
    pub code: u16,
    pub data: Vec<u8>,
}

/// An EDNS(0) OPT pseudo-record body.
#[derive(Debug)]
pub struct OPTResource {
    pub options: Vec<DNSOption>,
}

/// A DNS resource record minus its header: one of the ten body kinds the
/// codec implements.
#[derive(Debug)]
pub enum ResourceBody {
    A(AResource),
    AAAA(AAAAResource),
    CNAME(CNAMEResource),
    NS(NSResource),
    PTR(PTRResource),
    MX(MXResource),
    SOA(SOAResource),
    SRV(SRVResource),
    TXT(TXTResource),
    OPT(OPTResource),
}

/// The mathematical value a body holds.
pub open spec fn body_model(b: ResourceBody) -> BodyModel {
    match b {
        ResourceBody::A(r) => BodyModel::A(r.a@),
        ResourceBody::AAAA(r) => BodyModel::AAAA(r.aaaa@),
        ResourceBody::CNAME(r) => BodyModel::CNAME(r.cname@),
        ResourceBody::NS(r) => BodyModel::NS(r.ns@),
        ResourceBody::PTR(r) => BodyModel::PTR(r.ptr@),
        ResourceBody::MX(r) => BodyModel::MX(r.pref, r.mx@),
        ResourceBody::SOA(r) => BodyModel::SOA(
            r.ns@,
            r.mbox@,
            r.serial,
            r.refresh,
            r.retry,
            r.expire,
            r.min_ttl,
        ),
        ResourceBody::SRV(r) => BodyModel::SRV(r.priority, r.weight, r.port, r.target@),
        ResourceBody::TXT(r) => BodyModel::TXT(r.txt@.map_values(|v: Vec<u8>| v@)),
        ResourceBody::OPT(r) => BodyModel::OPT(
            r.options@.map_values(|o: DNSOption| (o.code, o.data@)),
        ),
    }
}

impl ResourceBody {
    /// The record type used to stamp the header when packing.
    pub fn real_type(&self) -> (r: DNSType)
        ensures
            r == model_type(body_model(*self)),
    {
        match self {
            ResourceBody::A(_) => DNSType::A,
            ResourceBody::AAAA(_) => DNSType::AAAA,
            ResourceBody::CNAME(_) => DNSType::CNAME,
            ResourceBody::NS(_) => DNSType::NS,
            ResourceBody::PTR(_) => DNSType::PTR,
            ResourceBody::MX(_) => DNSType::MX,
            ResourceBody::SOA(_) => DNSType::SOA,
            ResourceBody::SRV(_) => DNSType::SRV,
            ResourceBody::TXT(_) => DNSType::TXT,
            ResourceBody::OPT(_) => DNSType::OPT,
        }
    }

    /// Appends the body's wire form. Record data is always emitted
    /// uncompressed, so the output is exactly `body_wire` of the value.
    pub fn pack(&self, msg: Vec<u8>) -> (r: Result<Vec<u8>, Error>)
        ensures
            (r matches Ok(out) ==> body_valid(body_model(*self)) && out@ == msg@ + body_wire(
                body_model(*self),
            )),
            body_valid(body_model(*self)) ==> r is Ok,
            r is Err ==> !body_valid(body_model(*self)),
    {
        let ghost m0 = msg@;
        match self {
            ResourceBody::A(res) => {
                let mut m = msg;
                for i in 0..4
                    invariant
                        m@ == m0 + res.a@.subrange(0, i as int),
                {
                    m.push(res.a[i]);
                    proof {
                        assert(m@ =~= m0 + res.a@.subrange(0, i + 1 as int));
                    }
                }
                proof {
                    assert(m@ =~= m0 + res.a@);
                }
                Ok(m)
            },
            ResourceBody::AAAA(res) => {
                let mut m = msg;
                for i in 0..16
                    invariant
                        m@ == m0 + res.aaaa@.subrange(0, i as int),
                {
                    m.push(res.aaaa[i]);
                    proof {
                        assert(m@ =~= m0 + res.aaaa@.subrange(0, i + 1 as int));
                    }
                }
                proof {
                    assert(m@ =~= m0 + res.aaaa@);
                }
                Ok(m)
            },
            ResourceBody::CNAME(res) => {
                let mut nc: Option<CompressionMap> = None;
                res.cname.pack(msg, &mut nc, 0)
            },
            ResourceBody::NS(res) => {
                let mut nc: Option<CompressionMap> = None;
                res.ns.pack(msg, &mut nc, 0)
            },
            ResourceBody::PTR(res) => {
                let mut nc: Option<CompressionMap> = None;
                res.ptr.pack(msg, &mut nc, 0)
            },
            ResourceBody::MX(res) => {
                let m = pack_uint16(msg, res.pref);
                let mut nc: Option<CompressionMap> = None;
                let m = res.mx.pack(m, &mut nc, 0)?;
                proof {
                    assert(m@ =~= m0 + body_wire(body_model(*self)));
                }
                Ok(m)
            },
            ResourceBody::SOA(res) => {
                let mut nc: Option<CompressionMap> = None;
                let m = res.ns.pack(msg, &mut nc, 0)?;
                let m = res.mbox.pack(m, &mut nc, 0)?;
                let m = pack_uint32(m, res.serial);
                let m = pack_uint32(m, res.refresh);
                let m = pack_uint32(m, res.retry);
                let m = pack_uint32(m, res.expire);
                let m = pack_uint32(m, res.min_ttl);
                proof {
                    assert(m@ =~= m0 + body_wire(body_model(*self)));
                }
                Ok(m)
            },
            ResourceBody::SRV(res) => {
                let m = pack_uint16(msg, res.priority);
                let m = pack_uint16(m, res.weight);
                let m = pack_uint16(m, res.port);
                let mut nc: Option<CompressionMap> = None;
                let m = res.target.pack(m, &mut nc, 0)?;
                proof {
                    assert(m@ =~= m0 + body_wire(body_model(*self)));
                }
                Ok(m)
            },
            ResourceBody::TXT(res) => {
                let ghost ss = res.txt@.map_values(|v: Vec<u8>| v@);
                let mut m = msg;
                let n = res.txt.len();
                proof {
                    assert(ss.take(0) =~= Seq::<Seq<u8>>::empty());
                }
                for i in 0..n
                    invariant
                        n == res.txt@.len(),
                        ss == res.txt@.map_values(|v: Vec<u8>| v@),
                        body_model(*self) == BodyModel::TXT(ss),
                        m@ == m0 + txt_wire(ss.take(i as int)),
                        forall|k: int| 0 <= k < i ==> (#[trigger] ss[k]).len() <= 255,
                {
                    let s = &res.txt[i];
                    if s.len() > 255 {
                        proof {
                            assert(ss[i as int] == res.txt@[i as int]@);
                            assert(ss[i as int].len() > 255);
                            assert(ss.len() == res.txt@.len());
                            assert(!txt_valid(ss));
                        }
                        return Err(Error::StringTooLong);
                    }
                    m.push(s.len() as u8);
                    m = crate::packer::append_bytes(m, s.as_slice());
                    proof {
                        lemma_txt_wire_snoc(ss.take(i as int), ss[i as int]);
                        assert(ss.take(i + 1 as int) =~= ss.take(i as int).push(ss[i as int]));
                        assert(m@ =~= m0 + txt_wire(ss.take(i + 1 as int)));
                    }
                }
                proof {
                    assert(ss.take(n as int) =~= ss);
                }
                Ok(m)
            },
            ResourceBody::OPT(res) => {
                let ghost os = res.options@.map_values(|o: DNSOption| (o.code, o.data@));
                let mut m = msg;
                let n = res.options.len();
                proof {
                    assert(os.take(0) =~= Seq::<(u16, Seq<u8>)>::empty());
                }
                for i in 0..n
                    invariant
                        n == res.options@.len(),
                        os == res.options@.map_values(|o: DNSOption| (o.code, o.data@)),
                        body_model(*self) == BodyModel::OPT(os),
                        m@ == m0 + opt_wire(os.take(i as int)),
                        forall|k: int| 0 <= k < i ==> (#[trigger] os[k]).1.len() <= 65535,
                {
                    let o = &res.options[i];
                    if o.data.len() > 65535 {
                        proof {
                            assert(os[i as int] == (res.options@[i as int].code, res.options@[
                                i as int].data@));
                            assert(os[i as int].1.len() > 65535);
                            assert(os.len() == res.options@.len());
                            assert(!opt_valid(os));
                        }
                        return Err(Error::StringTooLong);
                    }
                    m = pack_uint16(m, o.code);
                    m = pack_uint16(m, o.data.len() as u16);
                    m = crate::packer::append_bytes(m, o.data.as_slice());
                    proof {
                        lemma_opt_wire_snoc(os.take(i as int), o.code, o.data@);
                        assert(os.take(i + 1 as int) =~= os.take(i as int).push(os[i as int]));
                        assert(os[i as int] == (o.code, o.data@));
                        assert(m@ =~= m0 + opt_wire(os.take(i + 1 as int)));
                    }
                }
                proof {
                    assert(os.take(n as int) =~= os);
                }
                Ok(m)
            },
        }
    }

    /// Reads the body of type `typ` at `off`; `length` is the
    /// header-declared RDLENGTH, which drives TXT and OPT. On a
    /// pointerless region the result agrees exactly with `parse_body`;
    /// record types outside the ten implemented kinds are refused.
    #[verifier::rlimit(100)]
    pub fn unpack(typ: DNSType, msg: &[u8], off: usize, length: u16) -> (r: Result<
        (ResourceBody, usize),
        Error,
    >)
        ensures
            (parse_body(typ, msg@, off as int, length as int) matches Some(p) ==> (r matches Ok(q)
                && body_model(q.0) == p.0 && q.1 == p.1)),
            (r matches Ok(q) ==> off <= q.1 <= msg@.len()),
            typ is Unsupported ==> r == Err::<(ResourceBody, usize), Error>(Error::NilResourceBody),
    {
        match typ {
            DNSType::A => {
                if msg.len() < 4 || off > msg.len() - 4 {
                    return Err(Error::BufferTooSmall);
                }
                let a = [msg[off], msg[off + 1], msg[off + 2], msg[off + 3]];
                proof {
                    assert(a@ =~= msg@.subrange(off as int, off + 4));
                }
                Ok((ResourceBody::A(AResource { a }), off + 4))
            },
            DNSType::AAAA => {
                if msg.len() < 16 || off > msg.len() - 16 {
                    return Err(Error::BufferTooSmall);
                }
                let aaaa = [
                    msg[off],
                    msg[off + 1],
                    msg[off + 2],
                    msg[off + 3],
                    msg[off + 4],
                    msg[off + 5],
                    msg[off + 6],
                    msg[off + 7],
                    msg[off + 8],
                    msg[off + 9],
                    msg[off + 10],
                    msg[off + 11],
                    msg[off + 12],
                    msg[off + 13],
                    msg[off + 14],
                    msg[off + 15],
                ];
                proof {
                    assert(aaaa@ =~= msg@.subrange(off as int, off + 16));
                }
                Ok((ResourceBody::AAAA(AAAAResource { aaaa }), off + 16))
            },
            DNSType::CNAME => {
                let (cname, e) = Name::unpack(msg, off)?;
                Ok((ResourceBody::CNAME(CNAMEResource { cname }), e))
            },
            DNSType::NS => {
                let (ns, e) = Name::unpack(msg, off)?;
                Ok((ResourceBody::NS(NSResource { ns }), e))
            },
            DNSType::PTR => {
                let (ptr, e) = Name::unpack(msg, off)?;
                Ok((ResourceBody::PTR(PTRResource { ptr }), e))
            },
            DNSType::MX => {
                let (pref, o1) = unpack_uint16(msg, off)?;
                let (mx, e) = Name::unpack(msg, o1)?;
                Ok((ResourceBody::MX(MXResource { pref, mx }), e))
            },
            DNSType::SOA => {
                let (ns, o1) = Name::unpack(msg, off)?;
                let (mbox, o2) = Name::unpack(msg, o1)?;
                let (serial, o3) = unpack_uint32(msg, o2)?;
                let (refresh, o4) = unpack_uint32(msg, o3)?;
                let (retry, o5) = unpack_uint32(msg, o4)?;
                let (expire, o6) = unpack_uint32(msg, o5)?;
                let (min_ttl, o7) = unpack_uint32(msg, o6)?;
                Ok(
                    (
                        ResourceBody::SOA(
                            SOAResource { ns, mbox, serial, refresh, retry, expire, min_ttl },
                        ),
                        o7,
                    ),
                )
            },
            DNSType::SRV => {
                let (priority, o1) = unpack_uint16(msg, off)?;
                let (weight, o2) = unpack_uint16(msg, o1)?;
                let (port, o3) = unpack_uint16(msg, o2)?;
                let (target, e) = Name::unpack(msg, o3)?;
                Ok((ResourceBody::SRV(SRVResource { priority, weight, port, target }), e))
            },
            DNSType::TXT => {
                let ml = msg.len();
                if off > ml || (length as usize) > ml - off {
                    return Err(Error::BufferTooSmall);
                }
                let end = off + length as usize;
                let mut acc: Vec<Vec<u8>> = Vec::new();
                let mut curr = off;
                proof {
                    assert(acc@.map_values(|v: Vec<u8>| v@) =~= Seq::<Seq<u8>>::empty());
                }
                while curr < end
                    invariant
                        typ == DNSType::TXT,
                        off <= curr <= end,
                        end == off + length as int,
                        end <= ml,
                        ml == msg@.len(),
                        parse_txt(msg@, off as int, end as int) == prepend_strs(
                            acc@.map_values(|v: Vec<u8>| v@),
                            parse_txt(msg@, curr as int, end as int),
                        ),
                    decreases end - curr,
                {
                    let ghost gacc = acc@.map_values(|v: Vec<u8>| v@);
                    let l = msg[curr] as usize;
                    if l + 1 > end - curr {
                        return Err(Error::BufferTooSmall);
                    }
                    let s = read_bytes(msg, curr + 1, l);
                    acc.push(s);
                    proof {
                        let item = msg@.subrange(curr + 1, curr + 1 + l);
                        assert(acc@.map_values(|v: Vec<u8>| v@) =~= gacc.push(item));
                        match parse_txt(msg@, curr + 1 + l, end as int) {
                            Some(rest) => {
                                assert(parse_txt(msg@, curr as int, end as int) == Some(
                                    seq![item] + rest,
                                ));
                                assert(gacc + (seq![item] + rest) =~= gacc.push(item) + rest);
                            },
                            None => {},
                        }
                    }
                    curr = curr + 1 + l;
                }
                proof {
                    let gacc = acc@.map_values(|v: Vec<u8>| v@);
                    assert(parse_txt(msg@, curr as int, end as int) == Some(
                        Seq::<Seq<u8>>::empty(),
                    ));
                    assert(gacc + Seq::<Seq<u8>>::empty() =~= gacc);
                }
                Ok((ResourceBody::TXT(TXTResource { txt: acc }), end))
            },
            DNSType::OPT => {
                let ml = msg.len();
                if off > ml || (length as usize) > ml - off {
                    return Err(Error::BufferTooSmall);
                }
                let end = off + length as usize;
                let mut acc: Vec<DNSOption> = Vec::new();
                let mut curr = off;
                proof {
                    assert(acc@.map_values(|o: DNSOption| (o.code, o.data@)) =~= Seq::<
                        (u16, Seq<u8>),
                    >::empty());
                }
                while curr < end
                    invariant
                        typ == DNSType::OPT,
                        off <= curr <= end,
                        end == off + length as int,
                        end <= ml,
                        ml == msg@.len(),
                        parse_opt(msg@, off as int, end as int) == prepend_opts(
                            acc@.map_values(|o: DNSOption| (o.code, o.data@)),
                            parse_opt(msg@, curr as int, end as int),
                        ),
                    decreases end - curr,
                {
                    let ghost gacc = acc@.map_values(|o: DNSOption| (o.code, o.data@));
                    if end - curr < 4 {
                        return Err(Error::BufferTooSmall);
                    }
                    let (code, c1) = unpack_uint16(msg, curr)?;
                    let (l16, c2) = unpack_uint16(msg, c1)?;
                    let l = l16 as usize;
                    if l > end - c2 {
                        return Err(Error::BufferTooSmall);
                    }
                    let data = read_bytes(msg, c2, l);
                    acc.push(DNSOption { code, data });
                    proof {
                        let item = (code, msg@.subrange(curr + 4, curr + 4 + l));
                        assert(acc@.map_values(|o: DNSOption| (o.code, o.data@)) =~= gacc.push(
                            item,
                        ));
                        match parse_opt(msg@, curr + 4 + l, end as int) {
                            Some(rest) => {
                                assert(parse_opt(msg@, curr as int, end as int) == Some(
                                    seq![item] + rest,
                                ));
                                assert(gacc + (seq![item] + rest) =~= gacc.push(item) + rest);
                            },
                            None => {},
                        }
                    }
                    curr = c2 + l;
                }
                proof {
                    let gacc = acc@.map_values(|o: DNSOption| (o.code, o.data@));
                    assert(parse_opt(msg@, curr as int, end as int) == Some(
                        Seq::<(u16, Seq<u8>)>::empty(),
                    ));
                    assert(gacc + Seq::<(u16, Seq<u8>)>::empty() =~= gacc);
                }
                Ok((ResourceBody::OPT(OPTResource { options: acc }), end))
            },
            DNSType::Unsupported(_) => Err(Error::NilResourceBody),
        }
    }
}

/// A subrange of an embedded segment is the segment's own subrange.
pub proof fn lemma_embed(pre: Seq<u8>, w: Seq<u8>, post: Seq<u8>, a: int, b: int)
    requires
        0 <= a <= b <= w.len(),
    ensures
        (pre + w + post).subrange(pre.len() + a, pre.len() + b) == w.subrange(a, b),
{
    assert((pre + w + post).subrange(pre.len() + a, pre.len() + b) =~= w.subrange(a, b)) by {
        assert forall|k: int| 0 <= k < b - a implies (pre + w + post)[pre.len() + a + k]
            == #[trigger] w[a + k] by {
            assert((pre + w + post)[pre.len() + a + k] == (pre + w)[pre.len() + a + k]);
        }
    }
}

/// One byte of an embedded segment.
pub proof fn lemma_embed_at(pre: Seq<u8>, w: Seq<u8>, post: Seq<u8>, j: int)
    requires
        0 <= j < w.len(),
    ensures
        (pre + w + post)[pre.len() + j] == w[j],
{
    assert((pre + w + post)[pre.len() + j] == (pre + w)[pre.len() + j]);
}

/// The wire form of a valid run of TXT strings parses back to the same
/// strings, wherever it sits inside a larger message.
pub proof fn lemma_txt_parse_of_wire(msg: Seq<u8>, off: int, ss: Seq<Seq<u8>>)
    requires
        txt_valid(ss),
        0 <= off,
        off + txt_wire(ss).len() <= msg.len(),
        msg.subrange(off, off + txt_wire(ss).len()) == txt_wire(ss),
    ensures
        parse_txt(msg, off, off + txt_wire(ss).len()) == Some(ss),
    decreases ss.len(),
{
    let w = txt_wire(ss);
    if ss.len() == 0 {
        assert(w =~= Seq::<u8>::empty());
        assert(parse_txt(msg, off, off) == Some(Seq::<Seq<u8>>::empty()));
        assert(Seq::<Seq<u8>>::empty() =~= ss);
    } else {
        let s0 = ss[0];
        let rest = ss.drop_first();
        let wr = txt_wire(rest);
        assert(s0.len() <= 255);
        assert(w == seq![s0.len() as u8] + s0 + wr);
        let l = s0.len() as int;
        let end = off + w.len();
        assert(msg[off] == w[0]) by {
            assert(msg[off] == msg.subrange(off, off + w.len())[0]);
        }
        assert(w[0] == s0.len() as u8);
        assert(msg[off] as int == l);
        assert(msg.subrange(off + 1, off + 1 + l) =~= s0) by {
            assert forall|k: int| 0 <= k < l implies msg[off + 1 + k] == s0[k] by {
                assert(msg[off + 1 + k] == msg.subrange(off, off + w.len())[1 + k]);
                assert(w[1 + k] == s0[k]);
            }
        }
        assert(msg.subrange(off + 1 + l, off + 1 + l + wr.len()) =~= wr) by {
            assert forall|k: int| 0 <= k < wr.len() implies msg[off + 1 + l + k] == wr[k] by {
                assert(msg[off + 1 + l + k] == msg.subrange(off, off + w.len())[1 + l + k]);
                assert(w[1 + l + k] == wr[k]);
            }
        }
        assert(txt_valid(rest)) by {
            assert forall|k: int| 0 <= k < rest.len() implies (#[trigger] rest[k]).len()
                <= 255 by {
                assert(rest[k] == ss[k + 1]);
            }
        }
        lemma_txt_parse_of_wire(msg, off + 1 + l, rest);
        assert(parse_txt(msg, off + 1 + l, end) == Some(rest));
        assert(seq![msg.subrange(off + 1, off + 1 + l)] + rest =~= ss) by {
            assert((seq![s0] + rest).len() == ss.len());
        }
    }
}

/// The wire form of a valid run of EDNS options parses back to the same
/// options, wherever it sits inside a larger message.
pub proof fn lemma_opt_parse_of_wire(msg: Seq<u8>, off: int, os: Seq<(u16, Seq<u8>)>)
    requires
        opt_valid(os),
        0 <= off,
        off + opt_wire(os).len() <= msg.len(),
        msg.subrange(off, off + opt_wire(os).len()) == opt_wire(os),
    ensures
        parse_opt(msg, off, off + opt_wire(os).len()) == Some(os),
    decreases os.len(),
{
    let w = opt_wire(os);
    if os.len() == 0 {
        assert(w =~= Seq::<u8>::empty());
        assert(parse_opt(msg, off, off) == Some(Seq::<(u16, Seq<u8>)>::empty()));
        assert(Seq::<(u16, Seq<u8>)>::empty() =~= os);
    } else {
        let code = os[0].0;
        let d0 = os[0].1;
        let rest = os.drop_first();
        let wr = opt_wire(rest);
        assert(d0.len() <= 65535);
        assert(w == u16_bytes(code) + u16_bytes(d0.len() as u16) + d0 + wr);
        let l = d0.len() as int;
        let end = off + w.len();
        let hd = u16_bytes(code) + u16_bytes(d0.len() as u16);
        assert forall|k: int| 0 <= k < 4 implies msg[off + k] == hd[k] by {
            assert(msg[off + k] == msg.subrange(off, off + w.len())[k]);
            assert(w[k] == (hd + d0 + wr)[k]);
            assert((hd + d0 + wr)[k] == (hd + d0)[k]);
            assert((hd + d0)[k] == hd[k]);
        }
        assert(hd[0] == u16_bytes(code)[0]);
        assert(hd[1] == u16_bytes(code)[1]);
        assert(hd[2] == u16_bytes(d0.len() as u16)[0]);
        assert(hd[3] == u16_bytes(d0.len() as u16)[1]);
        lemma_u16_roundtrip(code);
        lemma_u16_roundtrip(d0.len() as u16);
        assert(u16_of(msg[off], msg[off + 1]) == code);
        assert(u16_of(msg[off + 2], msg[off + 3]) == d0.len() as u16);
        assert(u16_of(msg[off + 2], msg[off + 3]) as int == l);
        assert(msg.subrange(off + 4, off + 4 + l) =~= d0) by {
            assert forall|k: int| 0 <= k < l implies msg[off + 4 + k] == d0[k] by {
                assert(msg[off + 4 + k] == msg.subrange(off, off + w.len())[4 + k]);
                assert(w[4 + k] == d0[k]);
            }
        }
        assert(msg.subrange(off + 4 + l, off + 4 + l + wr.len()) =~= wr) by {
            assert forall|k: int| 0 <= k < wr.len() implies msg[off + 4 + l + k] == wr[k] by {
                assert(msg[off + 4 + l + k] == msg.subrange(off, off + w.len())[4 + l + k]);
                assert(w[4 + l + k] == wr[k]);
            }
        }
        assert(opt_valid(rest)) by {
            assert forall|k: int| 0 <= k < rest.len() implies (#[trigger] rest[k]).1.len()
                <= 65535 by {
                assert(rest[k] == os[k + 1]);
            }
        }
        lemma_opt_parse_of_wire(msg, off + 4 + l, rest);
        assert(parse_opt(msg, off + 4 + l, end) == Some(rest));
        assert(seq![(code, msg.subrange(off + 4, off + 4 + l))] + rest =~= os) by {
            assert((seq![(code, d0)] + rest).len() == os.len());
        }
    }
}

/// The wire length of a valid name text.
pub open spec fn name_wire_len(nm: Seq<u8>) -> int {
    if nm.len() == 1 {
        1
    } else {
        nm.len() + 1 as int
    }
}

/// Packing round-trip for an embedded name: helper wrapping
/// `lemma_name_roundtrip` for a name sitting at `off` of a larger message.
pub proof fn lemma_embedded_name(msg: Seq<u8>, off: int, nm: Seq<u8>)
    requires
        valid_name_text(nm),
        0 <= off,
        off + name_wire_len(nm) <= msg.len(),
        msg.subrange(off, off + name_wire_len(nm)) == name_wire(nm),
    ensures
        parse_name_capped(msg, off) == Some((nm, off + name_wire_len(nm))),
{
    if nm.len() != 1 {
        lemma_name_wire_len(nm);
    }
    lemma_name_roundtrip(msg, off, nm);
}

/// Round-trip for every body kind: the wire form of a valid body, read
/// back as its own record type with its own length, yields the very same
/// body value, wherever it sits inside a larger message.

#[verifier::rlimit(100)]
proof fn lemma_body_roundtrip_mx(m: BodyModel, pre: Seq<u8>, post: Seq<u8>)
    requires
        body_valid(m),
        m is MX,
    ensures
        parse_body(
            model_type(m),
            pre + body_wire(m) + post,
            pre.len() as int,
            body_wire(m).len() as int,
        ) == Some((m, pre.len() + body_wire(m).len() as int)),
{
    let w = body_wire(m);
    let msg = pre + w + post;
    let off = pre.len() as int;
    assert(msg.len() == pre.len() + w.len() + post.len());
    assert(msg.subrange(off, off + w.len()) =~= w) by {
        lemma_embed(pre, w, post, 0, w.len() as int);
        assert(w.subrange(0, w.len() as int) =~= w);
    }
    match m {
        BodyModel::MX(pref, nm) => {

            if nm.len() != 1 {
                lemma_name_wire_len(nm);
            }
            let nw = name_wire(nm);
            assert(w == u16_bytes(pref) + nw);
            assert forall|k: int| 0 <= k < 2 implies msg[off + k] == u16_bytes(pref)[k] by {
                assert(msg[off + k] == msg.subrange(off, off + w.len())[k]);
                assert(w[k] == (u16_bytes(pref) + nw)[k]);
                assert((u16_bytes(pref) + nw)[k] == u16_bytes(pref)[k]);
            }
            lemma_u16_roundtrip(pref);
            assert(u16_of(msg[off], msg[off + 1]) == pref);
            assert(msg.subrange(off + 2, off + 2 + nw.len()) =~= nw) by {
                assert forall|k: int| 0 <= k < nw.len() implies msg[off + 2 + k] == nw[k] by {
                    assert(msg[off + 2 + k] == msg.subrange(off, off + w.len())[2 + k]);
                    assert(w[2 + k] == nw[k]);
                }
            }
            lemma_embedded_name(msg, off + 2, nm);
                },
        _ => {
        },
    }
}

#[verifier::rlimit(100)]
proof fn lemma_body_roundtrip_srv(m: BodyModel, pre: Seq<u8>, post: Seq<u8>)
    requires
        body_valid(m),
        m is SRV,
    ensures
        parse_body(
            model_type(m),
            pre + body_wire(m) + post,
            pre.len() as int,
            body_wire(m).len() as int,
        ) == Some((m, pre.len() + body_wire(m).len() as int)),
{
    let w = body_wire(m);
    let msg = pre + w + post;
    let off = pre.len() as int;
    assert(msg.len() == pre.len() + w.len() + post.len());
    assert(msg.subrange(off, off + w.len()) =~= w) by {
        lemma_embed(pre, w, post, 0, w.len() as int);
        assert(w.subrange(0, w.len() as int) =~= w);
    }
    match m {
        BodyModel::SRV(priority, weight, port, nm) => {

            if nm.len() != 1 {
                lemma_name_wire_len(nm);
            }
            let nw = name_wire(nm);
            assert(w == u16_bytes(priority) + u16_bytes(weight) + u16_bytes(port) + nw);
            let hd = u16_bytes(priority) + u16_bytes(weight) + u16_bytes(port);
            assert forall|k: int| 0 <= k < 6 implies msg[off + k] == hd[k] by {
                assert(msg[off + k] == msg.subrange(off, off + w.len())[k]);
                assert(w[k] == (hd + nw)[k]);
                assert((hd + nw)[k] == hd[k]);
            }
            assert(hd[0] == u16_bytes(priority)[0] && hd[1] == u16_bytes(priority)[1]) by {
                assert(hd[0] == (u16_bytes(priority) + u16_bytes(weight))[0]);
                assert(hd[1] == (u16_bytes(priority) + u16_bytes(weight))[1]);
            }
            assert(hd[2] == u16_bytes(weight)[0] && hd[3] == u16_bytes(weight)[1]) by {
                assert(hd[2] == (u16_bytes(priority) + u16_bytes(weight))[2]);
                assert(hd[3] == (u16_bytes(priority) + u16_bytes(weight))[3]);
            }
            assert(hd[4] == u16_bytes(port)[0] && hd[5] == u16_bytes(port)[1]);
            lemma_u16_roundtrip(priority);
            lemma_u16_roundtrip(weight);
            lemma_u16_roundtrip(port);
            assert(u16_of(msg[off], msg[off + 1]) == priority);
            assert(u16_of(msg[off + 2], msg[off + 3]) == weight);
            assert(u16_of(msg[off + 4], msg[off + 5]) == port);
            assert(msg.subrange(off + 6, off + 6 + nw.len()) =~= nw) by {
                assert forall|k: int| 0 <= k < nw.len() implies msg[off + 6 + k] == nw[k] by {
                    assert(msg[off + 6 + k] == msg.subrange(off, off + w.len())[6 + k]);
                    assert(w[6 + k] == nw[k]);
                }
            }
            lemma_embedded_name(msg, off + 6, nm);
                },
        _ => {
        },
    }
}

#[verifier::rlimit(100)]
proof fn lemma_body_roundtrip_soa(m: BodyModel, pre: Seq<u8>, post: Seq<u8>)
    requires
        body_valid(m),
        m is SOA,
    ensures
        parse_body(
            model_type(m),
            pre + body_wire(m) + post,
            pre.len() as int,
            body_wire(m).len() as int,
        ) == Some((m, pre.len() + body_wire(m).len() as int)),
{
    let w = body_wire(m);
    let msg = pre + w + post;
    let off = pre.len() as int;
    assert(msg.len() == pre.len() + w.len() + post.len());
    assert(msg.subrange(off, off + w.len()) =~= w) by {
        lemma_embed(pre, w, post, 0, w.len() as int);
        assert(w.subrange(0, w.len() as int) =~= w);
    }
    match m {
        BodyModel::SOA(ns, mbox, serial, refresh, retry, expire, min_ttl) => {

            if ns.len() != 1 {
                lemma_name_wire_len(ns);
            }
            if mbox.len() != 1 {
                lemma_name_wire_len(mbox);
            }
            let w1 = name_wire(ns);
            let w2 = name_wire(mbox);
            let nums = u32_bytes(serial) + u32_bytes(refresh) + u32_bytes(retry) + u32_bytes(
                expire,
            ) + u32_bytes(min_ttl);
            assert(w == w1 + w2 + nums);
            assert(msg.subrange(off, off + w1.len()) =~= w1) by {
                assert forall|k: int| 0 <= k < w1.len() implies msg[off + k] == w1[k] by {
                    assert(msg[off + k] == msg.subrange(off, off + w.len())[k]);
                    assert(w[k] == w1[k]);
                }
            }
            lemma_embedded_name(msg, off, ns);
            let o2 = off + w1.len();
            assert(msg.subrange(o2, o2 + w2.len()) =~= w2) by {
                assert forall|k: int| 0 <= k < w2.len() implies msg[o2 + k] == w2[k] by {
                    assert(msg[o2 + k] == msg.subrange(off, off + w.len())[w1.len() + k]);
                    assert(w[w1.len() + k] == w2[k]);
                }
            }
            lemma_embedded_name(msg, o2, mbox);
            let e = o2 + w2.len();
            assert forall|k: int| 0 <= k < 20 implies msg[e + k] == nums[k] by {
                assert(msg[e + k] == msg.subrange(off, off + w.len())[w1.len() + w2.len() + k]);
                assert(w[w1.len() + w2.len() + k] == ((w1 + w2) + nums)[w1.len() + w2.len() + k]);
                assert(((w1 + w2) + nums)[w1.len() + w2.len() + k] == nums[k]);
            }
            let b1 = u32_bytes(serial);
            let b2 = u32_bytes(refresh);
            let b3 = u32_bytes(retry);
            let b4 = u32_bytes(expire);
            let b5 = u32_bytes(min_ttl);
            assert forall|k: int| 0 <= k < 4 implies nums[k] == b1[k] && nums[4 + k] == b2[k]
                && nums[8 + k] == b3[k] && nums[12 + k] == b4[k] && nums[16 + k] == b5[k] by {
                assert(nums[k] == ((((b1 + b2) + b3) + b4) + b5)[k]);
                assert(((((b1 + b2) + b3) + b4) + b5)[k] == (((b1 + b2) + b3) + b4)[k]);
                assert((((b1 + b2) + b3) + b4)[k] == ((b1 + b2) + b3)[k]);
                assert(((b1 + b2) + b3)[k] == (b1 + b2)[k]);
                assert((b1 + b2)[k] == b1[k]);
                assert(nums[4 + k] == ((((b1 + b2) + b3) + b4) + b5)[4 + k]);
                assert(((((b1 + b2) + b3) + b4) + b5)[4 + k] == (((b1 + b2) + b3) + b4)[4 + k]);
                assert((((b1 + b2) + b3) + b4)[4 + k] == ((b1 + b2) + b3)[4 + k]);
                assert(((b1 + b2) + b3)[4 + k] == (b1 + b2)[4 + k]);
                assert((b1 + b2)[4 + k] == b2[k]);
                assert(nums[8 + k] == ((((b1 + b2) + b3) + b4) + b5)[8 + k]);
                assert(((((b1 + b2) + b3) + b4) + b5)[8 + k] == (((b1 + b2) + b3) + b4)[8 + k]);
                assert((((b1 + b2) + b3) + b4)[8 + k] == ((b1 + b2) + b3)[8 + k]);
                assert(((b1 + b2) + b3)[8 + k] == b3[k]);
                assert(nums[12 + k] == ((((b1 + b2) + b3) + b4) + b5)[12 + k]);
                assert(((((b1 + b2) + b3) + b4) + b5)[12 + k] == (((b1 + b2) + b3) + b4)[12 + k]);
                assert((((b1 + b2) + b3) + b4)[12 + k] == b4[k]);
                assert(nums[16 + k] == ((((b1 + b2) + b3) + b4) + b5)[16 + k]);
                assert(((((b1 + b2) + b3) + b4) + b5)[16 + k] == b5[k]);
            }
            lemma_u32_roundtrip(serial);
            lemma_u32_roundtrip(refresh);
            lemma_u32_roundtrip(retry);
            lemma_u32_roundtrip(expire);
            lemma_u32_roundtrip(min_ttl);
            assert(u32_of(msg[e], msg[e + 1], msg[e + 2], msg[e + 3]) == serial);
            assert(u32_of(msg[e + 4], msg[e + 5], msg[e + 6], msg[e + 7]) == refresh);
            assert(u32_of(msg[e + 8], msg[e + 9], msg[e + 10], msg[e + 11]) == retry);
            assert(u32_of(msg[e + 12], msg[e + 13], msg[e + 14], msg[e + 15]) == expire);
            assert(u32_of(msg[e + 16], msg[e + 17], msg[e + 18], msg[e + 19]) == min_ttl);
                },
        _ => {
        },
    }
}

#[verifier::rlimit(100)]
pub proof fn lemma_body_roundtrip(m: BodyModel, pre: Seq<u8>, post: Seq<u8>)
    requires
        body_valid(m),
    ensures
        parse_body(
            model_type(m),
            pre + body_wire(m) + post,
            pre.len() as int,
            body_wire(m).len() as int,
        ) == Some((m, pre.len() + body_wire(m).len() as int)),
{
    let w = body_wire(m);
    let msg = pre + w + post;
    let off = pre.len() as int;
    assert(msg.len() == pre.len() + w.len() + post.len());
    assert(msg.subrange(off, off + w.len()) =~= w) by {
        lemma_embed(pre, w, post, 0, w.len() as int);
        assert(w.subrange(0, w.len() as int) =~= w);
    }
    match m {
        BodyModel::A(a) => {
            assert(msg.subrange(off, off + 4) == a);
        },
        BodyModel::AAAA(a) => {
            assert(msg.subrange(off, off + 16) == a);
        },
        BodyModel::CNAME(nm) => {
            if nm.len() != 1 {
                lemma_name_wire_len(nm);
            }
            lemma_embedded_name(msg, off, nm);
        },
        BodyModel::NS(nm) => {
            if nm.len() != 1 {
                lemma_name_wire_len(nm);
            }
            lemma_embedded_name(msg, off, nm);
        },
        BodyModel::PTR(nm) => {
            if nm.len() != 1 {
                lemma_name_wire_len(nm);
            }
            lemma_embedded_name(msg, off, nm);
        },
        BodyModel::MX(_, _) => {
            lemma_body_roundtrip_mx(m, pre, post);
        },
        BodyModel::SRV(_, _, _, _) => {
            lemma_body_roundtrip_srv(m, pre, post);
        },
        BodyModel::SOA(_, _, _, _, _, _, _) => {
            lemma_body_roundtrip_soa(m, pre, post);
        },
        BodyModel::TXT(ss) => {
            lemma_txt_parse_of_wire(msg, off, ss);
        },
        BodyModel::OPT(os) => {
            lemma_opt_parse_of_wire(msg, off, os);
        },
    }
}

} // verus!
