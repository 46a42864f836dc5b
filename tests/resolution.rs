use dotlocal_dns::breaker::DatagramAction;
use dotlocal_dns::ipv4::Ipv4Addr;
use dotlocal_dns::protocol::{DnsPacket, DnsQuestion, DnsRecord, QueryType, ResultCode};
use dotlocal_dns::records::{parse_records, RecordsDB};
use dotlocal_dns::resolve::{ip_from_domain_or_default, lookup};
use dotlocal_dns::server::{ControlAction, ControlEvent, DnsServer, LookupError, RequestError};
use dotlocal_dns::wire::DecodeError;

fn store(text: &str) -> RecordsDB {
    parse_records(text, ".local").unwrap()
}

fn a_query(name: &str) -> DnsPacket {
    let mut p = DnsPacket::new();
    p.header.id = 7;
    p.questions.push(DnsQuestion::new(name.to_string(), QueryType::A));
    p
}

#[test]
fn subdomain_of_registered_gets_its_address() {
    let db = store("registered.local:192.168.0.1\n");
    let r = lookup(&a_query("sub.registered.local"), &db, ".local");
    assert_eq!(r.answers.len(), 1);
    assert_eq!(
        r.answers[0],
        DnsRecord::A { domain: "sub.registered.local".to_string(), addr: Ipv4Addr::new(192, 168, 0, 1), ttl: 0 }
    );
}

#[test]
fn empty_store_answers_localhost() {
    let db = RecordsDB::new();
    let r = lookup(&a_query("anything.local"), &db, ".local");
    assert_eq!(r.answers.len(), 1);
    assert_eq!(
        r.answers[0],
        DnsRecord::A { domain: "anything.local".to_string(), addr: Ipv4Addr::localhost(), ttl: 0 }
    );
}

#[test]
fn soa_query_gets_no_answers() {
    let db = store("x.local:1.2.3.4\n");
    let mut q = DnsPacket::new();
    q.questions.push(DnsQuestion::new("x.local".to_string(), QueryType::SOA));
    let r = lookup(&q, &db, ".local");
    assert_eq!(r.header.rescode, ResultCode::NOERROR);
    assert!(r.answers.is_empty());
    assert_eq!(r.questions.len(), 1);
}

#[test]
fn unknown_type_is_server_failure() {
    let mut q = DnsPacket::new();
    q.questions.push(DnsQuestion::new("x.local".to_string(), QueryType::UNKNOWN(99)));
    let r = lookup(&q, &RecordsDB::new(), ".local");
    assert_eq!(r.header.rescode, ResultCode::SERVFAIL);
    assert!(r.answers.is_empty());
}

#[test]
fn no_questions_is_not_implemented_whatever_the_header() {
    let mut q = DnsPacket::new();
    q.header.id = 99;
    q.header.opcode = 3;
    q.header.response = true;
    q.header.recursion_desired = true;
    let r = lookup(&q, &RecordsDB::new(), ".local");
    assert_eq!(r.header.rescode, ResultCode::NOTIMP);
    assert!(r.answers.is_empty());
    assert!(r.questions.is_empty());
    assert_eq!(r.header.id, 99);
    assert!(r.header.response);
    assert!(r.header.recursion_desired);
}

#[test]
fn response_flag_wins_over_foreign_name() {
    let mut q = a_query("example.com");
    q.header.response = true;
    let r = lookup(&q, &RecordsDB::new(), ".local");
    assert_eq!(r.header.rescode, ResultCode::NOTIMP);
}

#[test]
fn only_first_question_is_answered() {
    let mut q = a_query("a.local");
    q.questions.push(DnsQuestion::new("b.local".to_string(), QueryType::A));
    let r = lookup(&q, &RecordsDB::new(), ".local");
    assert_eq!(r.questions.len(), 1);
    assert_eq!(r.questions[0].name, "a.local");
    assert_eq!(r.answers.len(), 1);
}

#[test]
fn longest_matching_key_wins() {
    let db = store("b.local:1.1.1.1\na.b.local:2.2.2.2\n");
    assert_eq!(ip_from_domain_or_default("x.a.b.local", &db), Ipv4Addr::new(2, 2, 2, 2));
    assert_eq!(ip_from_domain_or_default("a.b.local", &db), Ipv4Addr::new(2, 2, 2, 2));
    assert_eq!(ip_from_domain_or_default("y.b.local", &db), Ipv4Addr::new(1, 1, 1, 1));
    assert_eq!(ip_from_domain_or_default("ab.local", &db), Ipv4Addr::localhost());
    assert_eq!(ip_from_domain_or_default("xb.local", &db), Ipv4Addr::localhost());
}

#[test]
fn lookup_name_outside_suffix_fails() {
    let mut s = DnsServer::new(RecordsDB::new(), ".local");
    assert_eq!(s.lookup_name("example.com".to_string()), Err(LookupError::NoAnswer(ResultCode::SERVFAIL)));
    match s.handle_notification(ControlEvent::LookupRequested("a.local".to_string())) {
        ControlAction::ReplyLookup(r) => assert_eq!(r, Ok(Ipv4Addr::localhost())),
        other => panic!("unexpected {other:?}"),
    }
}

#[test]
fn failed_reload_keeps_the_table() {
    let mut s = DnsServer::new(store("a.local:1.1.1.1\n"), ".local");
    let action = s.handle_notification(ControlEvent::Reloaded(parse_records("bad", ".local")));
    assert!(matches!(action, ControlAction::ReloadFailed(_)));
    assert_eq!(s.lookup_name("a.local".to_string()), Ok(Ipv4Addr::new(1, 1, 1, 1)));
    let action = s.handle_notification(ControlEvent::MergeLoaded(parse_records("x:y", ".local")));
    assert!(matches!(action, ControlAction::ReplyMerge(Err(_))));
    assert_eq!(s.lookup_name("a.local".to_string()), Ok(Ipv4Addr::new(1, 1, 1, 1)));
    assert_eq!(s.top_level_domain(), ".local");
    assert!(s.records().contains_key("a.local"));
}

#[test]
fn datagram_round_trip_through_the_server() {
    let s = DnsServer::new(store("web.local:10.1.2.3\n"), ".local");
    let mut q = a_query("web.local");
    q.header.id = 0x4242;
    q.header.recursion_desired = true;
    let bytes = q.encode().unwrap();
    let reply = s.handle_request(&bytes).unwrap();
    let r = DnsPacket::decode(&reply).unwrap();
    assert_eq!(r.header.id, 0x4242);
    assert!(r.header.response);
    assert!(r.header.recursion_desired);
    assert_eq!(r.header.answers, 1);
    assert_eq!(
        r.answers[0],
        DnsRecord::A { domain: "web.local".to_string(), addr: Ipv4Addr::new(10, 1, 2, 3), ttl: 0 }
    );
}

#[test]
fn malformed_datagram_is_reported() {
    let s = DnsServer::new(RecordsDB::new(), ".local");
    let mut v = vec![0, 1, 0, 0, 0, 1, 0, 0, 0, 0, 0, 0];
    v.extend_from_slice(&[0xC0, 12, 0, 1, 0, 1]);
    assert_eq!(s.handle_request(&v), Err(RequestError::Decode(DecodeError::MalformedName)));
}

#[test]
fn breaker_passes_results_through_then_trips() {
    let s = DnsServer::new(store("web.local:10.1.2.3\n"), ".local");
    let breaker = failsafe::Config::new().build();
    let q = a_query("web.local").encode().unwrap();
    match s.serve_datagram(&breaker, &q) {
        DatagramAction::Reply(bytes) => {
            let r = DnsPacket::decode(&bytes).unwrap();
            assert_eq!(r.answers.len(), 1);
        }
        other => panic!("unexpected {other:?}"),
    }
    let mut bad = vec![0, 1, 0, 0, 0, 1, 0, 0, 0, 0, 0, 0];
    bad.extend_from_slice(&[0xC0, 12, 0, 1, 0, 1]);
    let mut saw_fatal = false;
    for _ in 0..20 {
        match s.serve_datagram(&breaker, &bad) {
            DatagramAction::Drop(e) => assert_eq!(e, RequestError::Decode(DecodeError::MalformedName)),
            DatagramAction::Fatal => {
                saw_fatal = true;
                break;
            }
            DatagramAction::Reply(_) => panic!("a malformed datagram got a reply"),
        }
    }
    assert!(saw_fatal, "the breaker never opened");
}
