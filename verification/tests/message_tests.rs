use dns_resolver::client::format_wire_message;
use dns_resolver::message::formatter::{format_message, push_ipv4, push_ipv6};
use dns_resolver::message::record_types::{Name, OptRecord, SOARecord, TxtRecord};
use dns_resolver::message::{
    write_label, DecodeError, Header, Message, Opcode, QClass, QType, Question, RData, Rcode,
    ResourceRecord,
};

fn ipv4_text(ip: &[u8]) -> String {
    let mut s = String::new();
    push_ipv4(&mut s, ip);
    s
}

fn ipv6_text(ip: &[u8]) -> String {
    let mut s = String::new();
    push_ipv6(&mut s, ip);
    s
}

#[test]
fn round_trip_query() {
    let msg = Message::new_query(0x1234, "example.com", QType::A);
    let bytes = msg.encode();
    let decoded = Message::decode(&bytes).unwrap();

    assert_eq!(decoded.header.id, 0x1234);
    assert_eq!(decoded.header.qdcount, 1);
    assert_eq!(decoded.questions[0].name.to_string(), "example.com");
    assert_eq!(decoded.questions[0].qtype, QType::A);
}

#[test]
fn name_from_str_round_trip() {
    let n = Name::from_str("www.example.com.");
    assert_eq!(n.to_string(), "www.example.com");
    assert_eq!(n.0, vec!["www", "example", "com"]);
}

#[test]
fn decode_root_referral_style_message() {
    let mut out = Vec::new();

    out.extend_from_slice(&1u16.to_be_bytes()); // id
    out.extend_from_slice(&0x8000u16.to_be_bytes()); // QR=1 (response), rest 0
    out.extend_from_slice(&1u16.to_be_bytes()); // qdcount
    out.extend_from_slice(&0u16.to_be_bytes()); // ancount
    out.extend_from_slice(&1u16.to_be_bytes()); // nscount
    out.extend_from_slice(&1u16.to_be_bytes()); // arcount

    write_label(&mut out, "com");
    out.push(0);
    out.extend_from_slice(&1u16.to_be_bytes()); // A
    out.extend_from_slice(&1u16.to_be_bytes()); // IN

    write_label(&mut out, "com");
    out.push(0);
    out.extend_from_slice(&2u16.to_be_bytes()); // NS
    out.extend_from_slice(&1u16.to_be_bytes()); // IN
    out.extend_from_slice(&172800u32.to_be_bytes()); // TTL

    let mut rdata = Vec::new();
    write_label(&mut rdata, "a");
    write_label(&mut rdata, "gtld-servers");
    write_label(&mut rdata, "net");
    rdata.push(0);
    out.extend_from_slice(&(rdata.len() as u16).to_be_bytes());
    out.extend_from_slice(&rdata);

    write_label(&mut out, "a");
    write_label(&mut out, "gtld-servers");
    write_label(&mut out, "net");
    out.push(0);
    out.extend_from_slice(&1u16.to_be_bytes()); // A
    out.extend_from_slice(&1u16.to_be_bytes()); // IN
    out.extend_from_slice(&172800u32.to_be_bytes());
    out.extend_from_slice(&4u16.to_be_bytes()); // rdlength
    out.extend_from_slice(&[192, 5, 6, 30]);

    let msg = Message::decode(&out).unwrap();
    assert_eq!(msg.authorities.len(), 1);
    assert_eq!(msg.additionals.len(), 1);
    match &msg.authorities[0].rdata {
        RData::NS(n) => assert_eq!(n.to_string(), "a.gtld-servers.net"),
        _ => panic!("expected NS"),
    }
    match &msg.additionals[0].rdata {
        RData::A(ip) => assert_eq!(ipv4_text(ip), "192.5.6.30"),
        _ => panic!("expected A"),
    }
}

#[test]
fn decode_soa_record() {
    let mut out = Vec::new();
    out.extend_from_slice(&1u16.to_be_bytes());
    out.extend_from_slice(&0x8000u16.to_be_bytes());
    out.extend_from_slice(&0u16.to_be_bytes()); // qdcount
    out.extend_from_slice(&0u16.to_be_bytes()); // ancount
    out.extend_from_slice(&1u16.to_be_bytes()); // nscount
    out.extend_from_slice(&0u16.to_be_bytes()); // arcount

    write_label(&mut out, "example");
    write_label(&mut out, "com");
    out.push(0);
    out.extend_from_slice(&6u16.to_be_bytes()); // SOA
    out.extend_from_slice(&1u16.to_be_bytes()); // IN
    out.extend_from_slice(&3600u32.to_be_bytes()); // TTL

    let mut rdata = Vec::new();
    write_label(&mut rdata, "ns1");
    write_label(&mut rdata, "example");
    write_label(&mut rdata, "com");
    rdata.push(0);
    write_label(&mut rdata, "hostmaster");
    write_label(&mut rdata, "example");
    write_label(&mut rdata, "com");
    rdata.push(0);
    rdata.extend_from_slice(&2024010101u32.to_be_bytes()); // serial
    rdata.extend_from_slice(&7200u32.to_be_bytes()); // refresh
    rdata.extend_from_slice(&3600u32.to_be_bytes()); // retry
    rdata.extend_from_slice(&1209600u32.to_be_bytes()); // expire
    rdata.extend_from_slice(&300u32.to_be_bytes()); // minimum

    out.extend_from_slice(&(rdata.len() as u16).to_be_bytes());
    out.extend_from_slice(&rdata);

    let msg = Message::decode(&out).unwrap();
    match &msg.authorities[0].rdata {
        RData::SOA(soa) => {
            assert_eq!(soa.mname.to_string(), "ns1.example.com");
            assert_eq!(soa.rname.to_string(), "hostmaster.example.com");
            assert_eq!(soa.serial, 2024010101);
            assert_eq!(soa.minimum, 300);
        }
        _ => panic!("expected SOA"),
    }
}

fn full_response() -> Message {
    Message {
        header: Header {
            id: 0xABCD,
            qr: true,
            opcode: Opcode::Query,
            aa: true,
            tc: false,
            rd: true,
            ra: true,
            rcode: Rcode::NoError,
            qdcount: 0,
            ancount: 0,
            nscount: 0,
            arcount: 0,
        },
        questions: vec![Question {
            name: Name::from_str("example.com"),
            qtype: QType::A,
            qclass: QClass::IN,
        }],
        answers: vec![ResourceRecord {
            name: Name::from_str("example.com"),
            rtype: QType::A,
            rclass: QClass::IN,
            ttl: 300,
            rdata: RData::A([93, 184, 216, 34]),
        }],
        authorities: vec![],
        additionals: vec![],
    }
}

#[test]
fn encode_decode_full_response_round_trip() {
    let msg = full_response();

    let bytes = msg.encode();
    let decoded = Message::decode(&bytes).unwrap();

    assert_eq!(decoded.header.id, 0xABCD);
    assert!(decoded.header.qr);
    assert_eq!(decoded.header.ancount, 1);
    assert_eq!(decoded.answers.len(), 1);
    match decoded.answers[0].rdata {
        RData::A(ip) => assert_eq!(ipv4_text(&ip), "93.184.216.34"),
        _ => panic!("expected A"),
    }
    // The answer's owner name compresses against the question's name.
    assert!(bytes.len() < 60);
}

#[test]
fn query_wire_bytes_are_exact() {
    let bytes = Message::new_query(0x1234, "example.com", QType::A).encode();
    let expected: Vec<u8> = vec![
        0x12, 0x34, 0x01, 0x00, 0, 1, 0, 0, 0, 0, 0, 0, 7, b'e', b'x', b'a', b'm', b'p', b'l',
        b'e', 3, b'c', b'o', b'm', 0, 0, 1, 0, 1,
    ];
    assert_eq!(bytes, expected);
}

#[test]
fn repeated_name_is_a_bare_pointer_to_the_question() {
    let bytes = full_response().encode();
    // header 12 + question 17 = 29: the answer's owner name, the same as the
    // question's, is just a pointer to offset 12
    assert_eq!(&bytes[29..31], &[0xC0, 0x0C]);
    assert_eq!(bytes.len(), 29 + 2 + 10 + 4);
}

#[test]
fn name_sharing_a_suffix_points_at_it() {
    let mut msg = full_response();
    msg.answers[0].name = Name::from_str("www.example.com");
    let bytes = msg.encode();
    // "www" spelled out, then a pointer to "example.com" at offset 12
    assert_eq!(&bytes[29..35], &[3, b'w', b'w', b'w', 0xC0, 0x0C]);
    let decoded = Message::decode(&bytes).unwrap();
    assert_eq!(decoded.answers[0].name.to_string(), "www.example.com");
}

#[test]
fn qtype_codes_round_trip() {
    for v in [1u16, 2, 5, 6, 12, 15, 16, 28, 255, 41, 0, 99, 65535] {
        assert_eq!(QType::from_u16(v).to_u16(), v);
    }
    assert_eq!(QType::from_u16(28), QType::AAAA);
    assert_eq!(QType::from_u16(41), QType::Other(41));
    assert_eq!(QType::OPT.to_u16(), 41);
    assert_eq!(QClass::from_u16(1), QClass::IN);
    assert_eq!(QClass::from_u16(3).to_u16(), 3);
    assert_eq!(Rcode::from_u8(3), Rcode::NxDomain);
    assert_eq!(Rcode::from_u8(9), Rcode::Other(9));
    assert_eq!(Opcode::from_u8(2), Opcode::Status);
    assert_eq!(Opcode::Other(7).to_u8(), 7);
}

#[test]
fn truncated_input_is_unexpected_eof() {
    let bytes = Message::new_query(7, "example.com", QType::A).encode();
    assert_eq!(Message::decode(&bytes[..5]).unwrap_err(), DecodeError::UnexpectedEof);
    assert_eq!(Message::decode(&bytes[..20]).unwrap_err(), DecodeError::UnexpectedEof);
    assert_eq!(DecodeError::UnexpectedEof.describe(), "UnexpectedEof");
}

fn header_with_one_question(name_bytes: &[u8]) -> Vec<u8> {
    let mut out = vec![0, 1, 0, 0, 0, 1, 0, 0, 0, 0, 0, 0];
    out.extend_from_slice(name_bytes);
    out.extend_from_slice(&[0, 1, 0, 1]);
    out
}

#[test]
fn label_over_63_bytes_is_refused() {
    let mut name = vec![64u8];
    name.extend_from_slice(&[b'a'; 64]);
    name.push(0);
    let bytes = header_with_one_question(&name);
    assert_eq!(Message::decode(&bytes).unwrap_err(), DecodeError::LabelTooLong);
}

#[test]
fn pointer_past_the_end_is_refused() {
    // a pointer at offset 12 to offset 40, past the end of the 18-byte message
    let bytes = header_with_one_question(&[0xC0, 40]);
    assert_eq!(Message::decode(&bytes).unwrap_err(), DecodeError::BadPointerOffset);
}

#[test]
fn pointer_loop_is_refused() {
    // a pointer at offset 12 to itself
    let bytes = header_with_one_question(&[0xC0, 12]);
    assert_eq!(Message::decode(&bytes).unwrap_err(), DecodeError::TooManyPointerHops);
}

#[test]
fn name_over_128_labels_is_refused() {
    let mut name = Vec::new();
    for _ in 0..129 {
        name.push(1u8);
        name.push(b'a');
    }
    name.push(0);
    let bytes = header_with_one_question(&name);
    assert_eq!(Message::decode(&bytes).unwrap_err(), DecodeError::NameTooLong);
}

#[test]
fn root_name_prints_as_dot() {
    assert_eq!(Name::from_str("").to_string(), ".");
    assert_eq!(Name::from_str(".").0.len(), 0);
    assert_eq!(Name::from_str("a..b").0, vec!["a", "", "b"]);
}

#[test]
fn opt_ttl_packs_rcode_version_and_flags() {
    let opt = OptRecord {
        udp_payload_size: 4096,
        extended_rcode: 1,
        version: 2,
        flags: 0x8000,
        options: vec![],
    };
    assert_eq!(opt.ttl(), 0x0102_8000);
}

#[test]
fn txt_and_soa_round_trip_through_encode() {
    let msg = Message {
        header: full_response().header,
        questions: vec![],
        answers: vec![
            ResourceRecord {
                name: Name::from_str("example.com"),
                rtype: QType::TXT,
                rclass: QClass::IN,
                ttl: 60,
                rdata: RData::TXT(TxtRecord(vec!["hello".to_string(), "world".to_string()])),
            },
            ResourceRecord {
                name: Name::from_str("example.com"),
                rtype: QType::SOA,
                rclass: QClass::IN,
                ttl: 60,
                rdata: RData::SOA(SOARecord {
                    mname: Name::from_str("ns1.example.com"),
                    rname: Name::from_str("hostmaster.example.com"),
                    serial: 1,
                    refresh: 2,
                    retry: 3,
                    expire: 4,
                    minimum: 5,
                }),
            },
        ],
        authorities: vec![],
        additionals: vec![],
    };
    assert!(msg.can_encode());
    let decoded = Message::decode(&msg.encode()).unwrap();
    match &decoded.answers[0].rdata {
        RData::TXT(t) => assert_eq!(t.0, vec!["hello", "world"]),
        _ => panic!("expected TXT"),
    }
    match &decoded.answers[1].rdata {
        RData::SOA(s) => {
            assert_eq!(s.rname.to_string(), "hostmaster.example.com");
            assert_eq!((s.serial, s.refresh, s.retry, s.expire, s.minimum), (1, 2, 3, 4, 5));
        }
        _ => panic!("expected SOA"),
    }
}

#[test]
fn txt_string_too_long_cannot_be_encoded() {
    let mut msg = full_response();
    msg.answers[0].rdata = RData::TXT(TxtRecord(vec!["x".repeat(256)]));
    assert!(!msg.can_encode());
}

#[test]
fn format_message_matches_dig_style_text() {
    let text = format_message(&full_response());
    let expected = ";; HEADER\n  ID:      43981\n  QR:      true\n  OPCODE:  Query\n  AA:      true\n  TC:      false\n  RD:      true\n  RA:      true\n  RCODE:   NoError\n\n;; COUNTS\n  Questions:   1\n  Answers:     1\n  Authority:   0\n  Additional:  0\n\n;; QUESTION SECTION\n;example.com\tIN\tA\n\n;; ANSWER SECTION\nexample.com\t300\tIN\tA\t93.184.216.34\n";
    assert_eq!(text, expected);
}

#[test]
fn format_rdata_texts() {
    let mut msg = full_response();
    msg.questions.clear();
    msg.answers = vec![
        ResourceRecord {
            name: Name::from_str(""),
            rtype: QType::OPT,
            rclass: QClass::Other(4096),
            ttl: 0,
            rdata: RData::OPT(OptRecord {
                udp_payload_size: 4096,
                extended_rcode: 0,
                version: 0,
                flags: 32768,
                options: vec![],
            }),
        },
        ResourceRecord {
            name: Name::from_str("x"),
            rtype: QType::Other(99),
            rclass: QClass::IN,
            ttl: 7,
            rdata: RData::Raw(vec![0x0a, 0xff, 0x00]),
        },
    ];
    let text = format_message(&msg);
    assert!(text.ends_with(
        ";; ANSWER SECTION\n.\t0\tOther(4096)\tOPT\tUDP=4096 EXT_RCODE=0 VERSION=0 DO=32768 OPTIONS=0\nx\t7\tIN\tOther(99)\t[0a, ff, 00]\n"
    ));
}

#[test]
fn ipv6_text_follows_rfc5952() {
    let mut a = [0u8; 16];
    a[15] = 1;
    assert_eq!(ipv6_text(&a), "::1");
    assert_eq!(ipv6_text(&[0u8; 16]), "::");
    let doc = [0x20, 0x01, 0x0d, 0xb8, 0, 0, 0, 0, 0, 0, 0, 0, 0, 0, 0, 1];
    assert_eq!(ipv6_text(&doc), "2001:db8::1");
    let single = [0x20, 0x01, 0x0d, 0xb8, 0, 0, 0, 1, 0, 1, 0, 1, 0, 1, 0, 1];
    assert_eq!(ipv6_text(&single), "2001:db8:0:1:1:1:1:1");
    let two_runs = [0x20, 0x01, 0, 0, 0, 0, 0, 1, 0, 0, 0, 0, 0, 0, 0, 1];
    assert_eq!(ipv6_text(&two_runs), "2001:0:0:1::1");
    let mapped = [0, 0, 0, 0, 0, 0, 0, 0, 0, 0, 0xff, 0xff, 192, 0, 2, 1];
    assert_eq!(ipv6_text(&mapped), "::ffff:192.0.2.1");
}

#[test]
fn format_wire_message_reports_decode_errors() {
    assert_eq!(format_wire_message(&[1, 2, 3]).unwrap_err(), DecodeError::UnexpectedEof);
    let bytes = full_response().encode();
    assert_eq!(format_wire_message(&bytes).unwrap(), format_message(&full_response()));
}

#[test]
fn any_stands_for_five_types() {
    assert_eq!(
        QType::any_types(),
        vec![QType::A, QType::AAAA, QType::CNAME, QType::SOA, QType::TXT]
    );
}

#[test]
fn readme_google_com_question_bytes() {
    let bytes = Message::new_query(0x1234, "google.com", QType::A).encode();
    // header flags: RD only
    assert_eq!(&bytes[2..4], &[0x01, 0x00]);
    assert_eq!(
        &bytes[12..],
        &[6, b'g', b'o', b'o', b'g', b'l', b'e', 3, b'c', b'o', b'm', 0, 0, 1, 0, 1]
    );
}

#[test]
fn invalid_utf8_in_a_label_reads_as_replacement_character() {
    let bytes = header_with_one_question(&[2, b'a', 0xff, 0]);
    let msg = Message::decode(&bytes).unwrap();
    assert_eq!(msg.questions[0].name.0, vec!["a\u{fffd}"]);
}
