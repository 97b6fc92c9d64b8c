use dns_resolver::cache::{Cache, CacheHit};
use dns_resolver::message::record_types::Name;
use dns_resolver::message::{QClass, QType, RData, Rcode, ResourceRecord};
use dns_resolver::net::ServerAddr;

fn a_record(name: &str, ip: [u8; 4], ttl: u32) -> ResourceRecord {
    ResourceRecord {
        name: Name::from_str(name),
        rtype: QType::A,
        rclass: QClass::IN,
        ttl,
        rdata: RData::A(ip),
    }
}

fn server(ip: [u8; 4]) -> ServerAddr {
    ServerAddr { ip, port: 53 }
}

#[test]
fn positive_hit_then_expiry() {
    // Times are milliseconds on the cache's clock: filed at 0 with a TTL of
    // one second, looked up at once and again 1100 ms later.
    let mut cache = Cache::new();
    let rrs = vec![a_record("example.com", [1, 2, 3, 4], 1)];
    cache.put_answer_at("example.com", QType::A, &rrs, 0);

    match cache.get_answer_at("example.com", QType::A, 0) {
        Some(CacheHit::Positive(records)) => assert_eq!(records.len(), 1),
        _ => panic!("expected a positive cache hit"),
    }

    assert!(cache.get_answer_at("example.com", QType::A, 1100).is_none());
}

#[test]
fn positive_hit_by_the_cache_clock() {
    let mut cache = Cache::new();
    let rrs = vec![a_record("example.com", [1, 2, 3, 4], 300)];
    cache.put_answer("example.com", QType::A, &rrs);
    match cache.get_answer("example.com", QType::A) {
        Some(CacheHit::Positive(records)) => assert_eq!(records.len(), 1),
        _ => panic!("expected a positive cache hit"),
    }
}

#[test]
fn negative_hit_records_rcode() {
    let mut cache = Cache::new();
    cache.put_negative("nope.invalid", QType::A, Rcode::NxDomain, 300);
    match cache.get_answer("nope.invalid", QType::A) {
        Some(CacheHit::Negative(Rcode::NxDomain)) => {}
        _ => panic!("expected a negative cache hit"),
    }
}

#[test]
fn most_specific_zone_wins() {
    let mut cache = Cache::new();
    let com_servers = vec![server([192, 5, 6, 30])];
    let example_servers = vec![server([93, 184, 216, 34])];

    cache.put_zone("com", com_servers.clone(), 3600);
    cache.put_zone("example.com", example_servers.clone(), 3600);

    let result = cache
        .best_zone_servers(&Name::from_str("www.example.com"))
        .unwrap();
    assert_eq!(result, example_servers);

    let result2 = cache.best_zone_servers(&Name::from_str("other.org"));
    assert!(result2.is_none());

    let result3 = cache
        .best_zone_servers(&Name::from_str("another.com"))
        .unwrap();
    assert_eq!(result3, com_servers);
}

#[test]
fn keys_ignore_case_and_trailing_dots() {
    let mut cache = Cache::new();
    let rrs = vec![a_record("example.com", [1, 2, 3, 4], 60)];
    cache.put_answer_at("Example.COM.", QType::A, &rrs, 0);
    assert!(cache.get_answer_at("example.com", QType::A, 10).is_some());
    assert!(cache.get_answer_at("example.com", QType::AAAA, 10).is_none());
}

#[test]
fn ttl_is_the_smallest_in_the_rrset() {
    let mut cache = Cache::new();
    let rrs = vec![
        a_record("example.com", [1, 2, 3, 4], 300),
        a_record("example.com", [5, 6, 7, 8], 2),
    ];
    cache.put_answer_at("example.com", QType::A, &rrs, 1000);
    match cache.get_answer_at("example.com", QType::A, 2999) {
        Some(CacheHit::Positive(records)) => assert_eq!(records.len(), 2),
        _ => panic!("expected a positive cache hit"),
    }
    assert!(cache.get_answer_at("example.com", QType::A, 3000).is_none());
}

#[test]
fn empty_rrset_is_not_filed() {
    let mut cache = Cache::new();
    cache.put_answer_at("example.com", QType::A, &[], 0);
    assert!(cache.get_answer_at("example.com", QType::A, 0).is_none());
}

#[test]
fn positive_entry_comes_before_negative() {
    let mut cache = Cache::new();
    cache.put_negative_at("example.com", QType::A, Rcode::NxDomain, 60, 0);
    let rrs = vec![a_record("example.com", [1, 2, 3, 4], 10)];
    cache.put_answer_at("example.com", QType::A, &rrs, 0);
    assert!(matches!(
        cache.get_answer_at("example.com", QType::A, 5000),
        Some(CacheHit::Positive(_))
    ));
    // after the answer expires the negative entry shows again
    assert!(matches!(
        cache.get_answer_at("example.com", QType::A, 20000),
        Some(CacheHit::Negative(Rcode::NxDomain))
    ));
    assert!(cache.get_answer_at("example.com", QType::A, 60000).is_none());
}

#[test]
fn expired_zone_is_not_used() {
    let mut cache = Cache::new();
    cache.put_zone_at("com", vec![server([192, 5, 6, 30])], 10, 0);
    assert!(cache
        .best_zone_servers_at(&Name::from_str("example.com"), 9999)
        .is_some());
    assert!(cache
        .best_zone_servers_at(&Name::from_str("example.com"), 10000)
        .is_none());
}

#[test]
fn zone_match_ignores_case_and_empty_labels() {
    let mut cache = Cache::new();
    cache.put_zone_at("Example..COM.", vec![server([1, 1, 1, 1])], 60, 0);
    let found = cache.best_zone_servers_at(&Name::from_str("www.EXAMPLE.com"), 0);
    assert_eq!(found, Some(vec![server([1, 1, 1, 1])]));
    // a zone with more labels than the name does not enclose it
    assert!(cache
        .best_zone_servers_at(&Name::from_str("com"), 0)
        .is_none());
    // an empty server list is not filed
    cache.put_zone_at("org", vec![], 60, 0);
    assert!(cache
        .best_zone_servers_at(&Name::from_str("example.org"), 0)
        .is_none());
}
