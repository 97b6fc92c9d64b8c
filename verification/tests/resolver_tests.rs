use std::cell::RefCell;
use std::collections::HashMap;

use dns_resolver::message::record_types::Name;
use dns_resolver::message::{
    DecodeError, Header, Message, Opcode, QClass, QType, Question, RData, Rcode, ResourceRecord,
};
use dns_resolver::net::{
    attempt_outcome, udp_begin, udp_step, AttemptEvent, AttemptOutcome, QueryError, ServerAddr,
    Transport, UdpState,
};
use dns_resolver::resolver::{
    after_lookups, chase_step, classify_response, glued_addrs, names_equal_ci,
    query_first_available, resolve, resolve_iterative, round_action, server_try, ChaseStep,
    IterResult, ResolveError, RoundAction, ServerTry, Step,
};
use dns_resolver::root_hints::root_server_addrs;

/// Answers from a script keyed by server, query name and type, so a full
/// root -> TLD -> authoritative chain can be walked without a network.
struct MockTransport {
    script: RefCell<HashMap<(ServerAddr, String, u16), Message>>,
    calls: RefCell<usize>,
}

impl MockTransport {
    fn new() -> Self {
        MockTransport {
            script: RefCell::new(HashMap::new()),
            calls: RefCell::new(0),
        }
    }

    fn program(&self, server: ServerAddr, qname: &str, qtype: QType, response: Message) {
        self.script
            .borrow_mut()
            .insert((server, qname.to_string(), qtype.to_u16()), response);
    }
}

impl Transport for MockTransport {
    fn query(&self, server: ServerAddr, msg: &Message) -> Result<Message, QueryError> {
        *self.calls.borrow_mut() += 1;
        let q = &msg.questions[0];
        let key = (server, q.name.to_string(), q.qtype.to_u16());
        match self.script.borrow().get(&key) {
            Some(resp) => {
                let mut resp = resp.clone();
                resp.header.id = msg.header.id; // real servers echo the query id
                Ok(resp)
            }
            None => Err(QueryError::Timeout),
        }
    }
}

fn addr(ip: [u8; 4]) -> ServerAddr {
    ServerAddr { ip, port: 53 }
}

fn header(aa: bool, ancount: u16, nscount: u16, arcount: u16) -> Header {
    Header {
        id: 0,
        qr: true,
        opcode: Opcode::Query,
        aa,
        tc: false,
        rd: false,
        ra: false,
        rcode: Rcode::NoError,
        qdcount: 1,
        ancount,
        nscount,
        arcount,
    }
}

fn referral(ns_name: &str, ns_ip: [u8; 4]) -> Message {
    Message {
        header: header(false, 0, 1, 1),
        questions: vec![Question {
            name: Name::from_str("example.com"),
            qtype: QType::A,
            qclass: QClass::IN,
        }],
        answers: vec![],
        authorities: vec![ResourceRecord {
            name: Name::from_str("com"),
            rtype: QType::NS,
            rclass: QClass::IN,
            ttl: 172800,
            rdata: RData::NS(Name::from_str(ns_name)),
        }],
        additionals: vec![ResourceRecord {
            name: Name::from_str(ns_name),
            rtype: QType::A,
            rclass: QClass::IN,
            ttl: 172800,
            rdata: RData::A(ns_ip),
        }],
    }
}

fn final_answer(name: &str, ip: [u8; 4]) -> Message {
    Message {
        header: header(true, 1, 0, 0),
        questions: vec![Question {
            name: Name::from_str(name),
            qtype: QType::A,
            qclass: QClass::IN,
        }],
        answers: vec![ResourceRecord {
            name: Name::from_str(name),
            rtype: QType::A,
            rclass: QClass::IN,
            ttl: 300,
            rdata: RData::A(ip),
        }],
        authorities: vec![],
        additionals: vec![],
    }
}

#[test]
fn walks_root_to_tld_to_authoritative() {
    let transport = MockTransport::new();

    let tld_server = addr([192, 5, 6, 30]); // a.gtld-servers.net
    let auth_server = addr([93, 184, 216, 34]); // pretend authoritative NS

    for root in root_server_addrs() {
        transport.program(
            root,
            "example.com",
            QType::A,
            referral("a.gtld-servers.net", [192, 5, 6, 30]),
        );
    }
    transport.program(
        tld_server,
        "example.com",
        QType::A,
        referral("ns1.example.com", [93, 184, 216, 34]),
    );
    transport.program(
        auth_server,
        "example.com",
        QType::A,
        final_answer("example.com", [93, 184, 216, 34]),
    );

    let result = resolve(&transport, "example.com", QType::A).unwrap();
    assert_eq!(result.len(), 1);
    match result[0].rdata {
        RData::A(ip) => assert_eq!(ip, [93, 184, 216, 34]),
        _ => panic!("expected A record"),
    }
}

#[test]
fn nxdomain_propagates_as_error() {
    let transport = MockTransport::new();
    let mut nx = final_answer("nope.invalid", [0, 0, 0, 0]);
    nx.header.rcode = Rcode::NxDomain;
    nx.answers.clear();
    nx.header.ancount = 0;

    for root in root_server_addrs() {
        transport.program(root, "nope.invalid", QType::A, nx.clone());
    }

    let result = resolve(&transport, "nope.invalid", QType::A);
    assert!(matches!(result, Err(ResolveError::NxDomain)));
}

#[test]
fn unreachable_roots_end_in_a_transport_error() {
    let transport = MockTransport::new();
    let result = resolve(&transport, "example.com", QType::A);
    assert!(matches!(result, Err(ResolveError::Transport(QueryError::Timeout))));
    // every root server was tried once
    assert_eq!(*transport.calls.borrow(), 13);
}

#[test]
fn referral_loop_stops_after_max_hops() {
    let transport = MockTransport::new();
    for root in root_server_addrs() {
        transport.program(root, "example.com", QType::A, referral("a.gtld-servers.net", [192, 5, 6, 30]));
    }
    // the TLD server refers to itself forever
    transport.program(addr([192, 5, 6, 30]), "example.com", QType::A, referral("a.gtld-servers.net", [192, 5, 6, 30]));
    let result = resolve(&transport, "example.com", QType::A);
    assert!(matches!(result, Err(ResolveError::TooManyHops)));
}

#[test]
fn cname_is_followed() {
    let transport = MockTransport::new();
    let mut alias = final_answer("www.example.com", [0, 0, 0, 0]);
    alias.answers[0].rtype = QType::CNAME;
    alias.answers[0].rdata = RData::CNAME(Name::from_str("example.com"));
    for root in root_server_addrs() {
        transport.program(root, "www.example.com", QType::A, alias.clone());
        transport.program(root, "example.com", QType::A, final_answer("example.com", [93, 184, 216, 34]));
    }
    let result = resolve(&transport, "www.example.com", QType::A).unwrap();
    assert_eq!(result.len(), 1);
    assert!(matches!(result[0].rdata, RData::A([93, 184, 216, 34])));
}

#[test]
fn classify_sorts_responses() {
    let answer = final_answer("example.com", [1, 2, 3, 4]);
    assert!(matches!(classify_response(&answer, QType::A), Ok(Step::Answer(v)) if v.len() == 1));
    assert!(matches!(classify_response(&answer, QType::AAAA), Err(ResolveError::NoData)));

    let mut failed = answer.clone();
    failed.header.rcode = Rcode::Refused;
    assert!(matches!(classify_response(&failed, QType::A), Err(ResolveError::ServFail)));

    match classify_response(&referral("ns1.example.com", [9, 9, 9, 9]), QType::A) {
        Ok(Step::Referral(ns, servers)) => {
            assert_eq!(ns.len(), 1);
            assert_eq!(ns[0].to_string(), "ns1.example.com");
            assert_eq!(servers, vec![addr([9, 9, 9, 9])]);
        }
        _ => panic!("expected a referral"),
    }

    let mut no_ns = referral("ns1.example.com", [9, 9, 9, 9]);
    no_ns.authorities[0].rtype = QType::SOA;
    no_ns.authorities[0].rdata = RData::Raw(vec![1, 2, 3]);
    assert!(matches!(classify_response(&no_ns, QType::A), Err(ResolveError::ServFail)));
}

#[test]
fn glue_matches_names_ignoring_case() {
    let ns = vec![Name::from_str("NS1.Example.com")];
    let adds = vec![
        ResourceRecord {
            name: Name::from_str("ns1.example.COM"),
            rtype: QType::A,
            rclass: QClass::IN,
            ttl: 60,
            rdata: RData::A([10, 0, 0, 1]),
        },
        ResourceRecord {
            name: Name::from_str("ns2.example.com"),
            rtype: QType::A,
            rclass: QClass::IN,
            ttl: 60,
            rdata: RData::A([10, 0, 0, 2]),
        },
    ];
    assert_eq!(glued_addrs(&ns, &adds), vec![addr([10, 0, 0, 1])]);
    assert!(names_equal_ci(&Name::from_str("A.b"), &Name::from_str("a.B")));
    assert!(!names_equal_ci(&Name::from_str("a.b"), &Name::from_str("a.c")));
}

#[test]
fn root_hints_are_the_thirteen_roots_on_port_53() {
    let roots = root_server_addrs();
    assert_eq!(roots.len(), 13);
    assert_eq!(roots[0], addr([198, 41, 0, 4]));
    assert_eq!(roots[12], addr([202, 12, 27, 33]));
    assert!(roots.iter().all(|a| a.port == 53));
}

#[test]
fn no_servers_is_no_usable_servers() {
    let transport = MockTransport::new();
    let result = query_first_available(&transport, &vec![], "example.com", QType::A);
    assert!(matches!(result, Err(ResolveError::NoUsableServers)));
    assert_eq!(*transport.calls.borrow(), 0);
}

#[test]
fn udp_attempts_are_judged_by_id_and_decoding() {
    let query = Message::new_query(0x0707, "example.com", QType::A);
    let mut reply = final_answer("example.com", [1, 2, 3, 4]);
    reply.header.id = 0x0707;
    match attempt_outcome(0x0707, AttemptEvent::Reply(reply.encode())) {
        AttemptOutcome::Finish(Ok(m)) => assert_eq!(m.answers.len(), 1),
        _ => panic!("expected the reply"),
    }
    reply.header.id = 0x0808;
    assert!(matches!(
        attempt_outcome(0x0707, AttemptEvent::Reply(reply.encode())),
        AttemptOutcome::Retry(QueryError::IdMismatch)
    ));
    assert!(matches!(
        attempt_outcome(0x0707, AttemptEvent::Reply(vec![7, 7, 1])),
        AttemptOutcome::Retry(QueryError::Decode(DecodeError::UnexpectedEof))
    ));
    let refused = std::io::Error::new(std::io::ErrorKind::ConnectionRefused, "refused");
    assert!(matches!(
        attempt_outcome(0x0707, AttemptEvent::Setup(refused)),
        AttemptOutcome::Finish(Err(QueryError::Io(_)))
    ));
    let timed_out = std::io::Error::new(std::io::ErrorKind::WouldBlock, "timed out");
    assert!(matches!(
        attempt_outcome(0x0707, AttemptEvent::Recv(timed_out)),
        AttemptOutcome::Retry(QueryError::Io(_))
    ));
    assert_eq!(query.header.id, 0x0707);
}

#[test]
fn cname_and_address_in_one_reply_give_the_address_in_one_hop() {
    let transport = MockTransport::new();
    let mut reply = final_answer("www.example.com", [0, 0, 0, 0]);
    reply.answers = vec![
        ResourceRecord {
            name: Name::from_str("www.example.com"),
            rtype: QType::CNAME,
            rclass: QClass::IN,
            ttl: 300,
            rdata: RData::CNAME(Name::from_str("example.com")),
        },
        ResourceRecord {
            name: Name::from_str("example.com"),
            rtype: QType::A,
            rclass: QClass::IN,
            ttl: 300,
            rdata: RData::A([93, 184, 216, 34]),
        },
    ];
    for root in root_server_addrs() {
        transport.program(root, "www.example.com", QType::A, reply.clone());
    }
    let mut hops = 0u32;
    match resolve_iterative(&transport, "www.example.com", QType::A, &mut hops) {
        Ok(IterResult::Answer(rs)) => {
            assert_eq!(rs.len(), 1);
            assert_eq!(rs[0].rtype, QType::A);
            assert!(matches!(rs[0].rdata, RData::A([93, 184, 216, 34])));
        }
        _ => panic!("expected an answer"),
    }
    assert_eq!(hops, 1);
}

#[test]
fn first_answering_server_decides_the_error() {
    let transport = MockTransport::new();
    let mut nx = final_answer("nope.invalid", [0, 0, 0, 0]);
    nx.header.rcode = Rcode::NxDomain;
    nx.answers.clear();
    transport.program(root_server_addrs()[0], "nope.invalid", QType::A, nx.clone());
    let mut refused = nx.clone();
    refused.header.rcode = Rcode::Refused;
    transport.program(root_server_addrs()[0], "refused.invalid", QType::A, refused);

    let mut hops = 3u32;
    let r = resolve_iterative(&transport, "nope.invalid", QType::A, &mut hops);
    assert!(matches!(r, Err(ResolveError::NxDomain)));
    assert_eq!(hops, 4);
    assert_eq!(*transport.calls.borrow(), 1);

    let mut hops = 0u32;
    let r = resolve_iterative(&transport, "refused.invalid", QType::A, &mut hops);
    assert!(matches!(r, Err(ResolveError::ServFail)));
    assert_eq!(hops, 1);
    assert_eq!(*transport.calls.borrow(), 2);
}

#[test]
fn spent_hop_budget_asks_no_one() {
    let transport = MockTransport::new();
    let mut hops = 20u32;
    let r = resolve_iterative(&transport, "example.com", QType::A, &mut hops);
    assert!(matches!(r, Err(ResolveError::TooManyHops)));
    assert_eq!(hops, 21);
    let mut hops = 57u32;
    assert!(matches!(
        resolve_iterative(&transport, "example.com", QType::A, &mut hops),
        Err(ResolveError::TooManyHops)
    ));
    assert_eq!(hops, 58);
    assert_eq!(*transport.calls.borrow(), 0);
}

#[test]
fn referral_without_glue_looks_up_the_name_server() {
    let transport = MockTransport::new();
    let mut no_glue = referral("ns1.other.net", [0, 0, 0, 0]);
    no_glue.additionals.clear();
    for root in root_server_addrs() {
        transport.program(root, "example.com", QType::A, no_glue.clone());
        transport.program(root, "ns1.other.net", QType::A, final_answer("ns1.other.net", [10, 0, 0, 1]));
    }
    transport.program(addr([10, 0, 0, 1]), "example.com", QType::A, final_answer("example.com", [93, 184, 216, 34]));
    let mut hops = 0u32;
    match resolve_iterative(&transport, "example.com", QType::A, &mut hops) {
        Ok(IterResult::Answer(rs)) => assert!(matches!(rs[0].rdata, RData::A([93, 184, 216, 34]))),
        _ => panic!("expected an answer"),
    }
    // the referral round, the nested lookup (one hop for it, one for its own
    // round), and the round at the found server
    assert_eq!(hops, 4);
}

#[test]
fn round_decisions() {
    assert!(matches!(round_action(Err(ResolveError::NoData)), RoundAction::Finish(Err(ResolveError::NoData))));
    assert!(matches!(
        round_action(Ok(Step::Cname("a.b".to_string()))),
        RoundAction::Finish(Ok(IterResult::Cname(t))) if t == "a.b"
    ));
    match round_action(Ok(Step::Referral(vec![Name::from_str("ns")], vec![addr([1, 1, 1, 1])]))) {
        RoundAction::Ask(servers) => assert_eq!(servers, vec![addr([1, 1, 1, 1])]),
        _ => panic!("expected the glued servers"),
    }
    match round_action(Ok(Step::Referral(vec![Name::from_str("ns")], vec![]))) {
        RoundAction::LookupNs(ns) => assert_eq!(ns[0].to_string(), "ns"),
        _ => panic!("expected name server lookups"),
    }
    assert!(matches!(after_lookups(vec![]), Err(ResolveError::ServFail)));
    assert_eq!(after_lookups(vec![addr([2, 2, 2, 2])]).ok().unwrap(), vec![addr([2, 2, 2, 2])]);
    assert!(matches!(server_try(Err(QueryError::Timeout)), ServerTry::Next(ResolveError::Transport(QueryError::Timeout))));
    assert!(matches!(server_try(Ok(final_answer("a", [1, 1, 1, 1]))), ServerTry::Done(_)));
}

#[test]
fn cname_chase_gives_up_after_ten() {
    assert!(matches!(chase_step(0, IterResult::Cname("x".to_string())), ChaseStep::Follow(t, 1) if t == "x"));
    assert!(matches!(chase_step(9, IterResult::Cname("x".to_string())), ChaseStep::Follow(_, 10)));
    assert!(matches!(chase_step(10, IterResult::Cname("x".to_string())), ChaseStep::GiveUp));
    assert!(matches!(chase_step(10, IterResult::Answer(vec![])), ChaseStep::Done(v) if v.is_empty()));
}

#[test]
fn cname_loop_ends_in_too_many_hops() {
    let transport = MockTransport::new();
    let mut alias = final_answer("loop.example", [0, 0, 0, 0]);
    alias.answers[0].rtype = QType::CNAME;
    alias.answers[0].rdata = RData::CNAME(Name::from_str("loop.example"));
    for root in root_server_addrs() {
        transport.program(root, "loop.example", QType::A, alias.clone());
    }
    assert!(matches!(resolve(&transport, "loop.example", QType::A), Err(ResolveError::TooManyHops)));
    // eleven walks of one round each: the eleventh redirection gives up
    assert_eq!(*transport.calls.borrow(), 11);
}

#[test]
fn udp_attempts_retry_until_spent() {
    assert!(matches!(udp_begin(0), UdpState::Finished(Err(QueryError::Timeout))));
    assert!(matches!(udp_begin(2), UdpState::Trying(2)));
    let timed_out = || std::io::Error::new(std::io::ErrorKind::WouldBlock, "timed out");
    assert!(matches!(udp_step(1, 2, AttemptEvent::Recv(timed_out())), UdpState::Trying(1)));
    assert!(matches!(
        udp_step(1, 1, AttemptEvent::Recv(timed_out())),
        UdpState::Finished(Err(QueryError::Io(_)))
    ));
    assert!(matches!(
        udp_step(1, 1, AttemptEvent::Reply(vec![1])),
        UdpState::Finished(Err(QueryError::Decode(DecodeError::UnexpectedEof)))
    ));
}
