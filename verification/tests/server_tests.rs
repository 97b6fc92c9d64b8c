use dns_resolver::message::record_types::{Name, OptRecord};
use dns_resolver::message::{Message, QClass, QType, RData, Rcode, ResourceRecord};
use dns_resolver::server::{
    build_reply, get_default_res, question_of, servfail_reply, tcp_length_prefix, tcp_message_len,
    udp_limit,
};
use dns_resolver::singleflight::{share_outcome, InFlight, Role, SharedResolveError};
use dns_resolver::resolver::ResolveError;

fn a_record(name: &str, last: u8) -> ResourceRecord {
    ResourceRecord {
        name: Name::from_str(name),
        rtype: QType::A,
        rclass: QClass::IN,
        ttl: 60,
        rdata: RData::A([10, 0, 0, last]),
    }
}

fn opt_record(size: u16) -> ResourceRecord {
    ResourceRecord {
        name: Name::from_str(""),
        rtype: QType::OPT,
        rclass: QClass::Other(size),
        ttl: 0,
        rdata: RData::OPT(OptRecord {
            udp_payload_size: size,
            extended_rcode: 0,
            version: 0,
            flags: 0,
            options: vec![],
        }),
    }
}

#[test]
fn default_response_echoes_id_flags_and_question() {
    let mut req = Message::new_query(0x4242, "example.com", QType::MX);
    req.header.tc = true;
    let res = get_default_res(&req);
    assert_eq!(res.header.id, 0x4242);
    assert!(res.header.qr && res.header.ra && res.header.rd && res.header.tc);
    assert_eq!(res.header.rcode, Rcode::NoError);
    assert_eq!(res.questions.len(), 1);
    assert_eq!(res.questions[0].qtype, QType::MX);
    assert!(res.answers.is_empty());
}

#[test]
fn question_of_names_the_first_question() {
    let req = Message::new_query(1, "Example.com.", QType::A);
    let (name, qtype) = question_of(&req).unwrap();
    assert_eq!(name, "Example.com");
    assert_eq!(qtype, QType::A);
    let mut empty = req.clone();
    empty.questions.clear();
    assert_eq!(question_of(&empty).unwrap_err(), SharedResolveError::NoData);
}

#[test]
fn outcomes_set_the_response_code() {
    let req = Message::new_query(9, "example.com", QType::A);
    let nx = Message::decode(&build_reply(&req, Err(SharedResolveError::NxDomain), false)).unwrap();
    assert_eq!(nx.header.rcode, Rcode::NxDomain);
    let nodata = Message::decode(&build_reply(&req, Err(SharedResolveError::NoData), false)).unwrap();
    assert_eq!(nodata.header.rcode, Rcode::NoError);
    assert!(nodata.answers.is_empty());
    let failed = Message::decode(&build_reply(&req, Err(SharedResolveError::TooManyHops), false)).unwrap();
    assert_eq!(failed.header.rcode, Rcode::ServFail);
    let ok = Message::decode(&build_reply(&req, Ok(vec![a_record("example.com", 1)]), false)).unwrap();
    assert_eq!(ok.answers.len(), 1);
    assert_eq!(ok.header.ancount, 1);
}

#[test]
fn udp_reply_is_cut_to_512_bytes() {
    let req = Message::new_query(9, "example.com", QType::A);
    assert_eq!(udp_limit(&req), 512);
    let records: Vec<ResourceRecord> = (0..40).map(|i| a_record("example.com", i as u8)).collect();
    let full = build_reply(&req, Ok(records.clone()), false);
    assert!(full.len() > 512);
    let cut = build_reply(&req, Ok(records), true);
    assert!(cut.len() <= 512);
    let decoded = Message::decode(&cut).unwrap();
    assert!(decoded.header.tc);
    assert!(decoded.answers.len() < 40);
    // 12 header + 17 question + 16 per A record (pointer, fixed part, address)
    assert_eq!(decoded.answers.len(), (512 - 29) / 16);
}

#[test]
fn edns_payload_size_raises_the_limit() {
    let mut req = Message::new_query(9, "example.com", QType::A);
    req.additionals.push(opt_record(4096));
    assert_eq!(udp_limit(&req), 4096);
    let records: Vec<ResourceRecord> = (0..40).map(|i| a_record("example.com", i as u8)).collect();
    let reply = build_reply(&req, Ok(records), true);
    let decoded = Message::decode(&reply).unwrap();
    assert!(!decoded.header.tc);
    assert_eq!(decoded.answers.len(), 40);
}

#[test]
fn servfail_reply_mirrors_the_request() {
    let mut req = Message::new_query(0x0102, "example.com", QType::A);
    req.header.rd = false;
    let bytes = servfail_reply(&req.encode()).unwrap();
    let reply = Message::decode(&bytes).unwrap();
    assert_eq!(reply.header.id, 0x0102);
    assert_eq!(reply.header.rcode, Rcode::ServFail);
    assert!(reply.header.qr && !reply.header.rd);
    assert_eq!(reply.questions.len(), 1);
    assert!(servfail_reply(&[1, 2, 3]).is_none());
}

#[test]
fn tcp_length_prefix_is_big_endian() {
    assert_eq!(tcp_length_prefix(300), [1, 44]);
    assert_eq!(tcp_message_len([1, 44]), 300);
    assert_eq!(tcp_length_prefix(65536 + 5), [0, 5]);
}

#[test]
fn shared_errors_collapse_transport_detail() {
    let shared = share_outcome(Err(ResolveError::Transport(dns_resolver::net::QueryError::Timeout)));
    assert_eq!(shared.unwrap_err(), SharedResolveError::Transport);
    let shared = share_outcome(Err(ResolveError::NxDomain));
    assert_eq!(shared.unwrap_err(), SharedResolveError::NxDomain);
    assert_eq!(SharedResolveError::NoUsableServers.describe(), "NoUsableServers");
}

#[test]
fn identical_lookups_share_one_resolution() {
    let mut f = InFlight::new();
    let first = f.join("Example.com.", QType::A);
    assert!(matches!(first, Role::Leader(_)));
    let second = f.join("example.com", QType::A);
    match (first, second) {
        (Role::Leader(a), Role::Follower(b)) => assert_eq!(a, b),
        _ => panic!("the second lookup should wait on the first"),
    }
    // another name or type is resolved on its own
    assert!(matches!(f.join("other.com", QType::A), Role::Leader(_)));
    assert!(matches!(f.join("example.com", QType::AAAA), Role::Leader(_)));
    // once the leader leaves, the next lookup leads again
    f.leave("example.com", QType::A);
    assert!(matches!(f.join("example.com", QType::A), Role::Leader(_)));
}
