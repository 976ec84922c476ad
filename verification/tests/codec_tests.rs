use mdns::errors::Error;
use mdns::name::{CompressionMap, Name};
use mdns::packer::{pack_uint16, pack_uint32, unpack_uint16, unpack_uint32};
use mdns::rdata::{
    AAAAResource, AResource, CNAMEResource, DNSOption, MXResource, NSResource, OPTResource,
    PTRResource, ResourceBody, SOAResource, SRVResource, TXTResource,
};
use mdns::resource::{Resource, ResourceHeader};
use mdns::types::{DNSClass, DNSType, RCode, CLASS_INET};

fn name(text: &[u8]) -> Name {
    Name::new(text.to_vec())
}

fn header(text: &[u8]) -> ResourceHeader {
    ResourceHeader {
        name: name(text),
        typ: DNSType::A,
        class: DNSClass(CLASS_INET),
        ttl: 120,
        length: 0,
    }
}

fn pack_resource(r: &Resource) -> Vec<u8> {
    let mut compression: Option<CompressionMap> = None;
    r.pack(Vec::new(), &mut compression, 0).unwrap()
}

#[test]
fn test_uint16_roundtrip() {
    let buf = pack_uint16(Vec::new(), 0xabcd);
    assert_eq!(buf, vec![0xab, 0xcd]);
    let (v, off) = unpack_uint16(&buf, 0).unwrap();
    assert_eq!(v, 0xabcd);
    assert_eq!(off, 2);
}

#[test]
fn test_uint32_roundtrip() {
    let buf = pack_uint32(Vec::new(), 0x01020304);
    assert_eq!(buf, vec![1, 2, 3, 4]);
    let (v, off) = unpack_uint32(&buf, 0).unwrap();
    assert_eq!(v, 0x01020304);
    assert_eq!(off, 4);
}

#[test]
fn test_uint16_truncated() {
    let buf = vec![0xab];
    assert_eq!(unpack_uint16(&buf, 0), Err(Error::BufferTooSmall));
}

#[test]
fn test_name_pack_exact_bytes() {
    let n = name(b"example.local.");
    let mut compression: Option<CompressionMap> = None;
    let out = n.pack(Vec::new(), &mut compression, 0).unwrap();
    let mut expected = vec![7u8];
    expected.extend_from_slice(b"example");
    expected.push(5);
    expected.extend_from_slice(b"local");
    expected.push(0);
    assert_eq!(out, expected);
}

#[test]
fn test_root_name_packs_to_zero_octet() {
    let mut compression: Option<CompressionMap> = None;
    let out = name(b".").pack(Vec::new(), &mut compression, 0).unwrap();
    assert_eq!(out, vec![0u8]);
}

#[test]
fn test_name_without_trailing_dot_rejected() {
    let mut compression: Option<CompressionMap> = None;
    let r = name(b"example.local").pack(Vec::new(), &mut compression, 0);
    assert_eq!(r, Err(Error::NameNotCanonical));
}

#[test]
fn test_name_label_over_63_rejected() {
    let mut text = vec![b'a'; 64];
    text.push(b'.');
    let mut compression: Option<CompressionMap> = None;
    let r = name(&text).pack(Vec::new(), &mut compression, 0);
    assert_eq!(r, Err(Error::NameTooLong));
}

#[test]
fn test_name_max_label_accepted() {
    // a single 63-octet label is the largest the wire form can carry
    let mut text = vec![b'a'; 63];
    text.push(b'.');
    let n = name(&text);
    let mut compression: Option<CompressionMap> = None;
    let out = n.pack(Vec::new(), &mut compression, 0).unwrap();
    assert_eq!(out.len(), 65);
    let (back, off) = Name::unpack(&out, 0).unwrap();
    assert_eq!(back, n);
    assert_eq!(off, 65);
}

#[test]
fn test_name_total_length_over_255_rejected() {
    // 4 labels of 63 octets: text length 256, wire length 257
    let mut text = Vec::new();
    for _ in 0..4 {
        text.extend_from_slice(&vec![b'a'; 63]);
        text.push(b'.');
    }
    let mut compression: Option<CompressionMap> = None;
    let r = name(&text).pack(Vec::new(), &mut compression, 0);
    assert_eq!(r, Err(Error::NameTooLong));
}

#[test]
fn test_name_unpack_follows_backward_pointer() {
    // "host.local." at offset 0; at offset 12 a pointer back to it
    let n = name(b"host.local.");
    let mut compression: Option<CompressionMap> = None;
    let mut buf = n.pack(Vec::new(), &mut compression, 0).unwrap();
    assert_eq!(buf.len(), 12);
    buf.push(0xC0);
    buf.push(0x00);
    let (back, off) = Name::unpack(&buf, 12).unwrap();
    assert_eq!(back, n);
    assert_eq!(off, 14);
}

#[test]
fn test_pointer_to_self_rejected() {
    // pointer at offset 0 aiming at offset 0: not strictly backwards
    let buf = vec![0xC0u8, 0x00];
    assert_eq!(Name::unpack(&buf, 0), Err(Error::InvalidPointer));
}

#[test]
fn test_pointer_forward_rejected() {
    // pointer at offset 2 aiming at offset 5, beyond its own position
    let buf = vec![0u8, 0, 0xC0, 0x05, 0, 0, 0];
    assert_eq!(Name::unpack(&buf, 2), Err(Error::InvalidPointer));
}

#[test]
fn test_reserved_length_bits_rejected() {
    let buf = vec![0x80u8, 0x01];
    assert_eq!(Name::unpack(&buf, 0), Err(Error::InvalidPointer));
}

#[test]
fn test_a_roundtrip() {
    let r = Resource {
        header: header(b"host.local."),
        body: ResourceBody::A(AResource { a: [192, 168, 0, 1] }),
    };
    let buf = pack_resource(&r);
    let (back, off) = Resource::unpack(&buf, 0).unwrap();
    assert_eq!(off, buf.len());
    assert_eq!(back.header.name, name(b"host.local."));
    assert_eq!(back.header.typ, DNSType::A);
    assert_eq!(back.header.length, 4);
    match back.body {
        ResourceBody::A(a) => assert_eq!(a.a, [192, 168, 0, 1]),
        _ => panic!("wrong body kind"),
    }
}

#[test]
fn test_aaaa_roundtrip() {
    let addr = [0u8, 1, 2, 3, 4, 5, 6, 7, 8, 9, 10, 11, 12, 13, 14, 15];
    let r = Resource {
        header: header(b"host.local."),
        body: ResourceBody::AAAA(AAAAResource { aaaa: addr }),
    };
    let buf = pack_resource(&r);
    let (back, _) = Resource::unpack(&buf, 0).unwrap();
    assert_eq!(back.header.typ, DNSType::AAAA);
    match back.body {
        ResourceBody::AAAA(a) => assert_eq!(a.aaaa, addr),
        _ => panic!("wrong body kind"),
    }
}

#[test]
fn test_cname_roundtrip() {
    let r = Resource {
        header: header(b"alias.local."),
        body: ResourceBody::CNAME(CNAMEResource { cname: name(b"real.local.") }),
    };
    let buf = pack_resource(&r);
    let (back, _) = Resource::unpack(&buf, 0).unwrap();
    match back.body {
        ResourceBody::CNAME(c) => assert_eq!(c.cname, name(b"real.local.")),
        _ => panic!("wrong body kind"),
    }
}

#[test]
fn test_ns_roundtrip() {
    let r = Resource {
        header: header(b"zone.local."),
        body: ResourceBody::NS(NSResource { ns: name(b"ns1.local.") }),
    };
    let buf = pack_resource(&r);
    let (back, _) = Resource::unpack(&buf, 0).unwrap();
    match back.body {
        ResourceBody::NS(b) => assert_eq!(b.ns, name(b"ns1.local.")),
        _ => panic!("wrong body kind"),
    }
}

#[test]
fn test_ptr_roundtrip() {
    let r = Resource {
        header: header(b"service.local."),
        body: ResourceBody::PTR(PTRResource { ptr: name(b"instance.service.local.") }),
    };
    let buf = pack_resource(&r);
    let (back, _) = Resource::unpack(&buf, 0).unwrap();
    match back.body {
        ResourceBody::PTR(b) => assert_eq!(b.ptr, name(b"instance.service.local.")),
        _ => panic!("wrong body kind"),
    }
}

#[test]
fn test_mx_roundtrip() {
    let r = Resource {
        header: header(b"zone.local."),
        body: ResourceBody::MX(MXResource { pref: 10, mx: name(b"mail.local.") }),
    };
    let buf = pack_resource(&r);
    let (back, _) = Resource::unpack(&buf, 0).unwrap();
    match back.body {
        ResourceBody::MX(b) => {
            assert_eq!(b.pref, 10);
            assert_eq!(b.mx, name(b"mail.local."));
        },
        _ => panic!("wrong body kind"),
    }
}

#[test]
fn test_soa_roundtrip() {
    let r = Resource {
        header: header(b"zone.local."),
        body: ResourceBody::SOA(SOAResource {
            ns: name(b"ns1.local."),
            mbox: name(b"admin.local."),
            serial: 2024010101,
            refresh: 7200,
            retry: 900,
            expire: 1209600,
            min_ttl: 300,
        }),
    };
    let buf = pack_resource(&r);
    let (back, off) = Resource::unpack(&buf, 0).unwrap();
    assert_eq!(off, buf.len());
    match back.body {
        ResourceBody::SOA(b) => {
            assert_eq!(b.ns, name(b"ns1.local."));
            assert_eq!(b.mbox, name(b"admin.local."));
            assert_eq!(b.serial, 2024010101);
            assert_eq!(b.refresh, 7200);
            assert_eq!(b.retry, 900);
            assert_eq!(b.expire, 1209600);
            assert_eq!(b.min_ttl, 300);
        },
        _ => panic!("wrong body kind"),
    }
}

#[test]
fn test_srv_roundtrip() {
    let r = Resource {
        header: header(b"service.local."),
        body: ResourceBody::SRV(SRVResource {
            priority: 1,
            weight: 5,
            port: 8080,
            target: name(b"host.local."),
        }),
    };
    let buf = pack_resource(&r);
    let (back, _) = Resource::unpack(&buf, 0).unwrap();
    match back.body {
        ResourceBody::SRV(b) => {
            assert_eq!(b.priority, 1);
            assert_eq!(b.weight, 5);
            assert_eq!(b.port, 8080);
            assert_eq!(b.target, name(b"host.local."));
        },
        _ => panic!("wrong body kind"),
    }
}

#[test]
fn test_txt_roundtrip_with_empty_string() {
    let r = Resource {
        header: header(b"host.local."),
        body: ResourceBody::TXT(TXTResource {
            txt: vec![b"".to_vec(), b"key=value".to_vec()],
        }),
    };
    let buf = pack_resource(&r);
    let (back, off) = Resource::unpack(&buf, 0).unwrap();
    assert_eq!(off, buf.len());
    match back.body {
        ResourceBody::TXT(b) => {
            assert_eq!(b.txt.len(), 2);
            assert_eq!(b.txt[0], b"".to_vec());
            assert_eq!(b.txt[1], b"key=value".to_vec());
        },
        _ => panic!("wrong body kind"),
    }
}

#[test]
fn test_txt_string_over_255_rejected() {
    let r = Resource {
        header: header(b"host.local."),
        body: ResourceBody::TXT(TXTResource { txt: vec![vec![b'x'; 256]] }),
    };
    let mut compression: Option<CompressionMap> = None;
    assert_eq!(
        r.pack(Vec::new(), &mut compression, 0),
        Err(Error::StringTooLong)
    );
}

#[test]
fn test_opt_roundtrip() {
    let r = Resource {
        header: header(b"."),
        body: ResourceBody::OPT(OPTResource {
            options: vec![DNSOption { code: 10, data: vec![1, 2, 3, 4] }],
        }),
    };
    let buf = pack_resource(&r);
    let (back, _) = Resource::unpack(&buf, 0).unwrap();
    assert_eq!(back.header.typ, DNSType::OPT);
    match back.body {
        ResourceBody::OPT(b) => {
            assert_eq!(b.options.len(), 1);
            assert_eq!(b.options[0].code, 10);
            assert_eq!(b.options[0].data, vec![1, 2, 3, 4]);
        },
        _ => panic!("wrong body kind"),
    }
}

#[test]
fn test_unsupported_type_gives_nil_resource_body() {
    // TYPE 99 is outside the implemented set: header parses, body refused
    let mut buf = vec![4u8];
    buf.extend_from_slice(b"host");
    buf.push(0);
    buf.extend_from_slice(&[0, 99]); // type
    buf.extend_from_slice(&[0, 1]); // class
    buf.extend_from_slice(&[0, 0, 0, 60]); // ttl
    buf.extend_from_slice(&[0, 0]); // length
    assert!(matches!(Resource::unpack(&buf, 0), Err(Error::NilResourceBody)));
}

#[test]
fn test_rdlength_past_buffer_rejected() {
    // an A record whose declared RDLENGTH (200) runs past the buffer
    let mut buf = vec![4u8];
    buf.extend_from_slice(b"host");
    buf.push(0);
    buf.extend_from_slice(&[0, 1]); // type A
    buf.extend_from_slice(&[0, 1]); // class
    buf.extend_from_slice(&[0, 0, 0, 60]); // ttl
    buf.extend_from_slice(&[0, 200]); // length: past the end
    buf.extend_from_slice(&[192, 168, 0, 1]);
    assert_eq!(
        Resource::unpack(&buf, 0).map(|_| ()),
        Err(Error::ResourceLen)
    );
    assert_eq!(Resource::skip(&buf, 0), Err(Error::ResourceLen));
}

#[test]
fn test_resource_skip_matches_unpack_end() {
    let r = Resource {
        header: header(b"host.local."),
        body: ResourceBody::A(AResource { a: [10, 0, 0, 1] }),
    };
    let buf = pack_resource(&r);
    let (_, end) = Resource::unpack(&buf, 0).unwrap();
    assert_eq!(Resource::skip(&buf, 0).unwrap(), end);
}

#[test]
fn test_edns0_roundtrip() {
    let mut h = header(b"host.local.");
    h.set_edns0(4096, RCode(0x25), true).unwrap();
    assert_eq!(h.typ, DNSType::OPT);
    assert_eq!(h.class, DNSClass(4096));
    assert!(h.dnssec_allowed());
    assert_eq!(h.extended_rcode(RCode(0x05)), RCode(0x25));
}

#[test]
fn test_edns0_without_dnssec_ok() {
    let mut h = header(b"host.local.");
    h.set_edns0(1400, RCode(0x10), false).unwrap();
    assert!(!h.dnssec_allowed());
    assert_eq!(h.extended_rcode(RCode(0x00)), RCode(0x10));
}

#[test]
fn test_extended_rcode_nonzero_version_passthrough() {
    let mut h = header(b"host.local.");
    h.set_edns0(4096, RCode(0x25), false).unwrap();
    h.ttl |= 0x00010000; // EDNS version 1: not understood, base RCode returned
    assert_eq!(h.extended_rcode(RCode(0x07)), RCode(0x07));
}

#[test]
fn test_pointer_inside_name_not_backwards_rejected() {
    // a label, then a pointer aiming at its own offset
    let buf = vec![1u8, b'a', 0xC0, 0x02];
    assert_eq!(Name::unpack(&buf, 0).map(|_| ()), Err(Error::InvalidPointer));
}

#[test]
fn test_name_at_full_wire_limit_accepted() {
    // text of 254 octets: wire form is exactly 255 octets
    let mut text = Vec::new();
    for _ in 0..3 {
        text.extend_from_slice(&vec![b'a'; 63]);
        text.push(b'.');
    }
    text.extend_from_slice(&vec![b'a'; 61]);
    text.push(b'.');
    assert_eq!(text.len(), 254);
    let n = name(&text);
    assert!(n.is_valid());
    let mut compression: Option<CompressionMap> = None;
    let out = n.pack(Vec::new(), &mut compression, 0).unwrap();
    assert_eq!(out.len(), 255);
    let (back, _) = Name::unpack(&out, 0).unwrap();
    assert_eq!(back, n);
}

#[test]
fn test_name_one_over_wire_limit_rejected() {
    // text of 255 octets: wire form would be 256 octets
    let mut text = Vec::new();
    for _ in 0..3 {
        text.extend_from_slice(&vec![b'a'; 63]);
        text.push(b'.');
    }
    text.extend_from_slice(&vec![b'a'; 62]);
    text.push(b'.');
    assert_eq!(text.len(), 255);
    let n = name(&text);
    assert!(!n.is_valid());
    let mut compression: Option<CompressionMap> = None;
    assert_eq!(n.pack(Vec::new(), &mut compression, 0), Err(Error::NameTooLong));
}

#[test]
fn test_empty_label_rejected() {
    let mut compression: Option<CompressionMap> = None;
    let r = name(b"a..b.").pack(Vec::new(), &mut compression, 0);
    assert_eq!(r, Err(Error::NameNotCanonical));
}

#[test]
fn test_rdlength_past_buffer_with_compressed_name() {
    // "a." at offset 0; at offset 3 a record whose owner name is a
    // pointer back to it, and whose RDLENGTH runs past the buffer
    let mut buf = vec![1u8, b'a', 0];
    buf.extend_from_slice(&[0xC0, 0x00]); // name: pointer to offset 0
    buf.extend_from_slice(&[0, 1]); // type A
    buf.extend_from_slice(&[0, 1]); // class
    buf.extend_from_slice(&[0, 0, 0, 60]); // ttl
    buf.extend_from_slice(&[0, 200]); // length: past the end
    buf.extend_from_slice(&[10, 0, 0, 1]);
    assert_eq!(Resource::skip(&buf, 3), Err(Error::ResourceLen));
    assert_eq!(Resource::unpack(&buf, 3).map(|_| ()), Err(Error::ResourceLen));
}

#[test]
fn test_record_with_compressed_name_unpacks() {
    let mut buf = vec![1u8, b'a', 0];
    buf.extend_from_slice(&[0xC0, 0x00]); // name: pointer to offset 0
    buf.extend_from_slice(&[0, 1]); // type A
    buf.extend_from_slice(&[0, 1]); // class
    buf.extend_from_slice(&[0, 0, 0, 60]); // ttl
    buf.extend_from_slice(&[0, 4]); // length
    buf.extend_from_slice(&[10, 0, 0, 1]);
    let (res, end) = Resource::unpack(&buf, 3).unwrap();
    assert_eq!(end, buf.len());
    assert_eq!(res.header.name, name(b"a."));
    assert_eq!(Resource::skip(&buf, 3).unwrap(), end);
}
