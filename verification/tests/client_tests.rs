use dns_resolver::client::{
    doh_get_url, doh_method_from_arg, encode_query, qtype_from_arg, text_eq, DohMethod,
};
use dns_resolver::doh::{dns_param, doh_reply, doh_request, DohReply};
use dns_resolver::message::{Message, QType};
use dns_resolver::singleflight::SharedResolveError;
use dns_resolver::workerpool::SubmitError;

#[test]
fn qtype_arguments() {
    assert_eq!(qtype_from_arg(Some("aaaa")), QType::AAAA);
    assert_eq!(qtype_from_arg(Some("Ns")), QType::NS);
    assert_eq!(qtype_from_arg(Some("MX")), QType::MX);
    assert_eq!(qtype_from_arg(Some("txt")), QType::TXT);
    assert_eq!(qtype_from_arg(Some("any")), QType::ANY);
    assert_eq!(qtype_from_arg(Some("soa")), QType::A);
    assert_eq!(qtype_from_arg(None), QType::A);
}

#[test]
fn method_arguments() {
    assert_eq!(doh_method_from_arg(None), Some(DohMethod::Post));
    assert_eq!(doh_method_from_arg(Some("GET")), Some(DohMethod::Get));
    assert_eq!(doh_method_from_arg(Some("Post")), Some(DohMethod::Post));
    assert_eq!(doh_method_from_arg(Some("put")), None);
    assert!(text_eq("abc", "abc"));
    assert!(!text_eq("abc", "abd"));
    assert!(!text_eq("abc", "ab"));
}

#[test]
fn encode_query_builds_a_recursive_query() {
    let bytes = encode_query(0x1234, "example.com", 28);
    assert_eq!(bytes, Message::new_query(0x1234, "example.com", QType::AAAA).encode());
    let decoded = Message::decode(&bytes).unwrap();
    assert!(decoded.header.rd);
    assert_eq!(decoded.questions[0].qtype, QType::AAAA);
}

#[test]
fn get_url_carries_the_query_in_base64url() {
    let url = doh_get_url("http://127.0.0.1:8443/dns-query", &[0xfb, 0xff, 0x00]);
    assert_eq!(url, "http://127.0.0.1:8443/dns-query?dns=-_8A");
    let body = encode_query(0, "example.com", 1);
    let url = doh_get_url("u", &body);
    let param = &url["u?dns=".len()..];
    assert!(!param.contains('='));
    assert_eq!(dns_param(param).ok().unwrap(), body);
}

#[test]
fn bad_dns_parameter_is_a_bad_request() {
    match dns_param("not base64!") {
        Err(reply) => {
            assert_eq!(reply.status(), 400);
            match reply {
                DohReply::BadRequest(text) => assert!(text.starts_with("Invalid dns parameter: ")),
                DohReply::Dns(_) => panic!("expected a 400"),
            }
        }
        Ok(_) => panic!("expected a refusal"),
    }
}

#[test]
fn doh_replies() {
    match doh_reply(Ok(vec![1, 2, 3])) {
        DohReply::Dns(b) => assert_eq!(b, vec![1, 2, 3]),
        _ => panic!("expected a DNS message"),
    }
    let reply = doh_reply(Err(SharedResolveError::NxDomain));
    assert_eq!(reply.status(), 400);
    match reply {
        DohReply::BadRequest(t) => assert_eq!(t, "NxDomain"),
        _ => panic!("expected a 400"),
    }
    match doh_request(&[0, 1]) {
        Err(DohReply::BadRequest(t)) => assert_eq!(t, "UnexpectedEof"),
        _ => panic!("expected a 400"),
    }
    let q = encode_query(5, "example.com", 1);
    assert_eq!(doh_request(&q).ok().unwrap().header.id, 5);
}

#[test]
fn submit_errors_as_io_errors() {
    assert_eq!(SubmitError::QueueFull.message(), "UDP server worker queue is full");
    assert_eq!(SubmitError::PoolShutDown.message(), "Worker pool has been shut down");
    let e = SubmitError::QueueFull.into_io_error();
    assert_eq!(e.kind(), std::io::ErrorKind::WouldBlock);
    assert_eq!(e.to_string(), "UDP server worker queue is full");
    let e = SubmitError::PoolShutDown.into_io_error();
    assert_eq!(e.kind(), std::io::ErrorKind::Other);
}
