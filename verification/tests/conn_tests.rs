use mdns::conn::{Config, DnsConn, DEFAULT_QUERY_INTERVAL_MS};
use mdns::errors::Error;
use mdns::message::{Message, MessageHeader, Question};
use mdns::name::{CompressionMap, Name};
use mdns::rdata::{AResource, ResourceBody};
use mdns::resource::{Resource, ResourceHeader};
use mdns::types::{DNSClass, DNSType, RCode, CLASS_INET, RCODE_SUCCESS};

fn name(text: &[u8]) -> Name {
    Name::new(text.to_vec())
}

fn a_record(owner: &[u8], addr: [u8; 4]) -> Resource {
    Resource {
        header: ResourceHeader {
            name: name(owner),
            typ: DNSType::A,
            class: DNSClass(CLASS_INET),
            ttl: 120,
            length: 0,
        },
        body: ResourceBody::A(AResource { a: addr }),
    }
}

fn query_header() -> MessageHeader {
    MessageHeader {
        id: 0,
        response: false,
        op_code: 0,
        authoritative: false,
        truncated: false,
        recursion_desired: false,
        recursion_available: false,
        rcode: RCode(RCODE_SUCCESS),
    }
}

#[test]
fn test_multiple_close() {
    let mut conn = DnsConn::server(Config::default());
    assert_eq!(conn.close(), Ok(()));
    assert_eq!(conn.close(), Err(Error::ConnectionClosed));
}

#[test]
fn test_query_on_closed_connection_rejected() {
    let mut conn = DnsConn::server(Config::default());
    conn.close().unwrap();
    assert_eq!(
        conn.start_query(name(b"invalid-host.local.")).map(|_| ()),
        Err(Error::ConnectionClosed)
    );
}

#[test]
fn test_default_config() {
    let c = Config::default();
    assert_eq!(c.query_interval_ms, DEFAULT_QUERY_INTERVAL_MS);
    assert_eq!(c.query_interval_ms, 1000);
    assert!(c.local_names.is_empty());
}

#[test]
fn test_start_query_builds_single_question_datagram() {
    let mut conn = DnsConn::server(Config::default());
    let pkt = conn.start_query(name(b"host.local.")).unwrap();
    let msg = Message::unpack(&pkt).unwrap();
    assert!(!msg.header.response);
    assert_eq!(msg.questions.len(), 1);
    assert_eq!(msg.questions[0].name, name(b"host.local."));
    assert!(msg.answers.is_empty());
}

#[test]
fn test_answer_wakes_pending_query() {
    let mut conn = DnsConn::server(Config::default());
    conn.start_query(name(b"host.local.")).unwrap();
    // an unrelated answer wakes nothing
    assert!(!conn.handle_answer(&name(b"other.local.")));
    // the matching answer wakes the waiter, exactly once
    assert!(conn.handle_answer(&name(b"host.local.")));
    assert!(!conn.handle_answer(&name(b"host.local.")));
}

#[test]
fn test_is_local_name() {
    let config = Config {
        query_interval_ms: 1000,
        local_names: vec![name(b"printer.local."), name(b"nas.local.")],
    };
    let conn = DnsConn::server(config);
    assert!(conn.is_local_name(&name(b"nas.local.")));
    assert!(!conn.is_local_name(&name(b"unknown.local.")));
}

#[test]
fn test_message_roundtrip() {
    let msg = Message {
        header: MessageHeader { id: 7, response: true, ..query_header() },
        questions: vec![Question {
            name: name(b"host.local."),
            typ: DNSType::A,
            class: DNSClass(CLASS_INET),
        }],
        answers: vec![a_record(b"host.local.", [10, 0, 0, 7])],
        authorities: vec![],
        additionals: vec![],
    };
    let pkt = msg.pack().unwrap();
    let back = Message::unpack(&pkt).unwrap();
    assert_eq!(back.header.id, 7);
    assert!(back.header.response);
    assert_eq!(back.questions.len(), 1);
    assert_eq!(back.questions[0].name, name(b"host.local."));
    assert_eq!(back.answers.len(), 1);
    assert_eq!(back.answers[0].header.name, name(b"host.local."));
    match &back.answers[0].body {
        ResourceBody::A(a) => assert_eq!(a.a, [10, 0, 0, 7]),
        _ => panic!("wrong body kind"),
    }
}

#[test]
fn test_compression_shrinks_shared_suffixes() {
    // two records under the same domain: packing with one compression
    // table must beat packing each alone, and decode to the same names
    let r1 = a_record(b"alpha.example.local.", [10, 0, 0, 1]);
    let r2 = a_record(b"beta.example.local.", [10, 0, 0, 2]);

    let mut table: Option<CompressionMap> = Some(CompressionMap::new());
    let compressed = {
        let buf = r1.pack(Vec::new(), &mut table, 0).unwrap();
        r2.pack(buf, &mut table, 0).unwrap()
    };

    let mut no_table: Option<CompressionMap> = None;
    let plain = {
        let buf = r1.pack(Vec::new(), &mut no_table, 0).unwrap();
        r2.pack(buf, &mut no_table, 0).unwrap()
    };

    assert!(compressed.len() < plain.len());

    // both forms carry the same two owner names
    let (p1, off1) = Resource::unpack(&plain, 0).unwrap();
    let (p2, _) = Resource::unpack(&plain, off1).unwrap();
    let (c1, coff1) = Resource::unpack(&compressed, 0).unwrap();
    let (c2, _) = Resource::unpack(&compressed, coff1).unwrap();
    assert_eq!(p1.header.name, c1.header.name);
    assert_eq!(p2.header.name, c2.header.name);
    assert_eq!(c1.header.name, name(b"alpha.example.local."));
    assert_eq!(c2.header.name, name(b"beta.example.local."));
}

#[test]
fn test_message_too_many_questions_rejected() {
    let mut questions = Vec::new();
    for _ in 0..65536 {
        questions.push(Question {
            name: name(b"a."),
            typ: DNSType::A,
            class: DNSClass(CLASS_INET),
        });
    }
    let msg = Message {
        header: query_header(),
        questions,
        answers: vec![],
        authorities: vec![],
        additionals: vec![],
    };
    assert_eq!(msg.pack().map(|_| ()), Err(Error::SectionTooLong));
}

#[test]
fn test_message_header_exact_bytes() {
    let msg = Message {
        header: MessageHeader { id: 0x1234, ..query_header() },
        questions: vec![],
        answers: vec![],
        authorities: vec![],
        additionals: vec![],
    };
    let pkt = msg.pack().unwrap();
    assert_eq!(pkt, vec![0x12, 0x34, 0, 0, 0, 0, 0, 0, 0, 0, 0, 0]);
}

#[test]
fn test_message_truncated_header_rejected() {
    let buf = vec![0u8; 11];
    assert_eq!(Message::unpack(&buf).map(|_| ()), Err(Error::BufferTooSmall));
}
