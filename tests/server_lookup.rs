use dotlocal_dns::ipv4::Ipv4Addr;
use dotlocal_dns::protocol::{DnsPacket, DnsQuestion, DnsRecord, QueryType, ResultCode};
use dotlocal_dns::records::{parse_records, RecordsDB};
use dotlocal_dns::server::{ControlAction, ControlEvent, DnsServer, LookupError};

const TOP_LEVEL: &str = ".loc";

fn records() -> RecordsDB {
    let mut db = RecordsDB::new();
    db.insert("registered.loc".to_string(), Ipv4Addr::parse("192.168.0.1").unwrap());
    db
}

fn packet_with_question(name: String, query_type: QueryType) -> DnsPacket {
    let mut packet = DnsPacket::new();
    packet.header.id = 10;
    packet.questions.push(DnsQuestion::new(name, query_type));
    packet.clone()
}

fn basic_query_and_validation(query: DnsPacket, result: ResultCode, records: RecordsDB) -> DnsPacket {
    let ds = DnsServer::new(records, TOP_LEVEL);
    let response = ds.lookup(&query);
    assert_eq!(query.header.id, response.header.id);
    assert_eq!(response.header.rescode, result);
    response
}

fn lookup_via(server: &mut DnsServer, host: &str) -> Result<Ipv4Addr, LookupError> {
    match server.handle_notification(ControlEvent::LookupRequested(host.to_string())) {
        ControlAction::ReplyLookup(r) => r,
        other => panic!("unexpected action {other:?}"),
    }
}

#[test]
fn normal_dns_request() {
    let mut query = packet_with_question("hello.loc".to_string(), QueryType::A);
    query.header.recursion_desired = true;
    let response = basic_query_and_validation(query, ResultCode::NOERROR, records());
    assert!(response.header.recursion_desired);
    assert_eq!(
        response.questions[0].name, "hello.loc",
        "response question's name doesn't match original name"
    );
    assert_eq!(
        response.answers[0],
        DnsRecord::A {
            domain: "hello.loc".to_string(),
            addr: Ipv4Addr::localhost(),
            ttl: 0
        }
    );
}

#[test]
fn subdomain_a_requests_are_supported() {
    let query = packet_with_question("sub.domain.loc".to_string(), QueryType::A);
    let response = basic_query_and_validation(query, ResultCode::NOERROR, records());
    match response.answers[0] {
        DnsRecord::A {
            ref domain,
            ref addr,
            ..
        } => {
            assert_eq!(domain, "sub.domain.loc");
            assert_eq!(*addr, Ipv4Addr::localhost());
        }
        _ => panic!(
            "Did not receive DnsRecord::A (received {:?}",
            response.answers[0]
        ),
    }
}

#[test]
fn query_of_existing_record_returns_the_record() {
    let query = packet_with_question("registered.loc".to_string(), QueryType::A);
    let response = basic_query_and_validation(query, ResultCode::NOERROR, records());
    match response.answers[0] {
        DnsRecord::A {
            ref domain,
            ref addr,
            ..
        } => {
            assert_eq!(domain, "registered.loc");
            assert_eq!(*addr, Ipv4Addr::parse("192.168.0.1").unwrap());
        }
        _ => panic!(
            "Did not receive DnsRecord::A (received {:?}",
            response.answers[0]
        ),
    }
}

#[test]
fn query_subdomain_of_existing_record_returns_the_record() {
    let query = packet_with_question("sub.registered.loc".to_string(), QueryType::A);
    let response = basic_query_and_validation(query, ResultCode::NOERROR, records());
    match response.answers[0] {
        DnsRecord::A {
            ref domain,
            ref addr,
            ..
        } => {
            assert_eq!(domain, "sub.registered.loc");
            assert_eq!(*addr, Ipv4Addr::parse("192.168.0.1").unwrap());
        }
        _ => panic!(
            "Did not receive DnsRecord::A (received {:?}",
            response.answers[0]
        ),
    }
}

#[test]
fn query_name_that_ends_with_existing_record_returns_localhost() {
    let query = packet_with_question("not-registered.loc".to_string(), QueryType::A);
    let response = basic_query_and_validation(query, ResultCode::NOERROR, records());
    match response.answers[0] {
        DnsRecord::A {
            ref domain,
            ref addr,
            ..
        } => {
            assert_eq!(domain, "not-registered.loc");
            assert_eq!(*addr, Ipv4Addr::localhost());
        }
        _ => panic!(
            "Did not receive DnsRecord::A (received {:?}",
            response.answers[0]
        ),
    }
}

#[test]
fn soa_requests_return_no_error_and_zero_answers() {
    let query = packet_with_question("test.loc".to_string(), QueryType::SOA);
    let response = basic_query_and_validation(query, ResultCode::NOERROR, records());
    assert_eq!(response.answers.len(), 0);
}

#[test]
fn ns_requests_return_no_error_and_zero_answers() {
    let query = packet_with_question("test.loc".to_string(), QueryType::NS);
    let response = basic_query_and_validation(query, ResultCode::NOERROR, records());
    assert_eq!(response.answers.len(), 0);
}

#[test]
fn packets_with_no_queries_are_not_implemented() {
    let mut query = DnsPacket::new();
    query.header.id = 1234;
    basic_query_and_validation(query, ResultCode::NOTIMP, records());
}

#[test]
fn response_packets_are_not_supported() {
    let mut query = packet_with_question("test.loc".to_string(), QueryType::A);
    query.header.response = true;
    basic_query_and_validation(query, ResultCode::NOTIMP, records());
}

#[test]
fn non_zero_opcode_are_not_supported() {
    let mut query = packet_with_question("test.loc".to_string(), QueryType::A);
    query.header.opcode = 1;
    basic_query_and_validation(query, ResultCode::NOTIMP, records());
}

#[test]
fn does_not_accept_wrong_domain() {
    let query = packet_with_question("example.com".to_string(), QueryType::A);
    let response = basic_query_and_validation(query, ResultCode::SERVFAIL, records());
    assert_eq!(response.answers.len(), 0);
}

#[test]
fn service_starts_with_no_db_file() {
    // A missing records file gives an empty table; the server then stops on request.
    let mut dns = DnsServer::new(RecordsDB::new(), TOP_LEVEL);
    assert!(matches!(dns.handle_notification(ControlEvent::Shutdown), ControlAction::Stop));
}

#[test]
fn reloading_records_updates_live_service() {
    let host = "test-host.loc".to_owned();
    let first = "# comment\n".to_string();
    let mut dns = DnsServer::new(parse_records(&first, TOP_LEVEL).unwrap(), TOP_LEVEL);
    let ip1 = lookup_via(&mut dns, &host).unwrap();
    assert_eq!(ip1, Ipv4Addr::localhost());
    let second = format!("{first}{host}:192.168.0.1\n");
    let action = dns.handle_notification(ControlEvent::Reloaded(parse_records(&second, TOP_LEVEL)));
    assert!(matches!(action, ControlAction::Reloaded));
    let ip2 = lookup_via(&mut dns, &host).unwrap();
    assert_eq!(ip2, Ipv4Addr::parse("192.168.0.1").unwrap());
    assert!(matches!(dns.handle_notification(ControlEvent::Shutdown), ControlAction::Stop));
}

#[test]
fn merge_records_workflow() {
    let records = "a.host.loc:192.168.0.4\r\nb-host.loc:192.168.0.4";
    let to_merge = "c.host.loc:192.168.1.1\r\nb-host.loc:192.168.1.1";
    let records_file = format!("{records}\n");
    let merged_file = format!("{to_merge}\n");
    let mut dns = DnsServer::new(parse_records(&records_file, TOP_LEVEL).unwrap(), TOP_LEVEL);
    let action = dns.handle_notification(ControlEvent::MergeLoaded(parse_records(&merged_file, TOP_LEVEL)));
    assert!(matches!(action, ControlAction::ReplyMerge(Ok(()))));
    assert_eq!(lookup_via(&mut dns, "a.host.loc").unwrap(), Ipv4Addr::parse("192.168.0.4").unwrap(), "records-only host should remain the same");
    assert_eq!(lookup_via(&mut dns, "b-host.loc").unwrap(), Ipv4Addr::parse("192.168.1.1").unwrap(), "merge should overwrite original");
    assert_eq!(lookup_via(&mut dns, "c.host.loc").unwrap(), Ipv4Addr::parse("192.168.1.1").unwrap(), "merge only host should resolve");
    dns.handle_notification(ControlEvent::Reloaded(parse_records(&records_file, TOP_LEVEL)));
    assert_eq!(lookup_via(&mut dns, "b-host.loc").unwrap(), Ipv4Addr::parse("192.168.0.4").unwrap(), "after reset original host should resolve to original ip");
    assert!(matches!(dns.handle_notification(ControlEvent::Shutdown), ControlAction::Stop));
}

#[test]
fn ignore_invalid_top_level_domains() {
    let records_contents = "hello.loc:127.0.0.1\nhello.com:127.0.0.1\n";
    let records = parse_records(records_contents, "loc").unwrap();
    assert!(
        !records.contains_key("hello.com"),
        "hello.com should not be in records"
    );
}
