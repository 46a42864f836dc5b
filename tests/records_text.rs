use dotlocal_dns::config::DotLocalDNSConfig;
use dotlocal_dns::ipv4::Ipv4Addr;
use dotlocal_dns::records::{parse_line, parse_records, RecordsDB, RecordsError};
use dotlocal_dns::text::string_from_chars;

#[test]
fn ipv4_parse_accepts_dotted_decimal() {
    assert_eq!(Ipv4Addr::parse("192.168.0.1"), Some(Ipv4Addr::new(192, 168, 0, 1)));
    assert_eq!(Ipv4Addr::parse("0.0.0.0"), Some(Ipv4Addr::new(0, 0, 0, 0)));
    assert_eq!(Ipv4Addr::parse("255.255.255.255"), Some(Ipv4Addr::new(255, 255, 255, 255)));
    assert_eq!(Ipv4Addr::parse("127.0.0.1"), Some(Ipv4Addr::localhost()));
}

#[test]
fn ipv4_parse_rejects_malformed() {
    assert_eq!(Ipv4Addr::parse("256.0.0.1"), None);
    assert_eq!(Ipv4Addr::parse("1.2.3"), None);
    assert_eq!(Ipv4Addr::parse("1.2.3.4.5"), None);
    assert_eq!(Ipv4Addr::parse("01.2.3.4"), None);
    assert_eq!(Ipv4Addr::parse("1..3.4"), None);
    assert_eq!(Ipv4Addr::parse("1.2.3.4 "), None);
    assert_eq!(Ipv4Addr::parse("1.2.3.a"), None);
    assert_eq!(Ipv4Addr::parse("1000.2.3.4"), None);
    assert_eq!(Ipv4Addr::parse(""), None);
}

#[test]
fn ipv4_octets() {
    assert_eq!(Ipv4Addr::new(10, 1, 2, 3).octets(), [10, 1, 2, 3]);
}

#[test]
fn parse_line_splits_at_first_colon() {
    let (name, ip) = parse_line("zero.local:0.0.0.0").unwrap();
    assert_eq!(name, "zero.local");
    assert_eq!(ip, Ipv4Addr::new(0, 0, 0, 0));
    assert_eq!(parse_line("no-ip.local"), Err(RecordsError::InvalidLine("no-ip.local".to_string())));
    assert_eq!(parse_line("a:b:1.2.3.4"), Err(RecordsError::InvalidLine("a:b:1.2.3.4".to_string())));
    let (empty, ip) = parse_line(":1.2.3.4").unwrap();
    assert_eq!(empty, "");
    assert_eq!(ip, Ipv4Addr::new(1, 2, 3, 4));
}

#[test]
fn load_skips_comments_and_blank_lines() {
    let db = parse_records("# comment\n\nhost.local:10.0.0.1\r\n#x:1.1.1.1\n", ".local").unwrap();
    assert_eq!(db.get("host.local"), Some(Ipv4Addr::new(10, 0, 0, 1)));
    assert!(!db.contains_key("#x"));
    assert_eq!(db.entries().len(), 1);
}

#[test]
fn load_of_empty_text_is_empty() {
    let db = parse_records("", ".local").unwrap();
    assert!(db.is_empty());
}

#[test]
fn load_last_line_without_newline() {
    let db = parse_records("a.local:1.1.1.1\nb.local:2.2.2.2", ".local").unwrap();
    assert_eq!(db.get("b.local"), Some(Ipv4Addr::new(2, 2, 2, 2)));
}

#[test]
fn load_rejects_duplicate_hostname() {
    let r = parse_records("a.local:1.1.1.1\na.local:2.2.2.2\n", ".local");
    assert!(matches!(r, Err(RecordsError::DuplicateHostname(ref n)) if n == "a.local"));
}

#[test]
fn duplicate_of_dropped_name_is_an_error() {
    let r = parse_records("x.com:1.1.1.1\nx.com:1.1.1.1\n", ".loc");
    assert!(matches!(r, Err(RecordsError::DuplicateHostname(ref n)) if n == "x.com"));
    let r = parse_records("a.com:1.1.1.1\nb.local:2.2.2.2\na.com:2.2.2.2\n", ".local");
    assert!(matches!(r, Err(RecordsError::DuplicateHostname(ref n)) if n == "a.com"));
}

#[test]
fn load_rejects_bad_line_naming_it() {
    let r = parse_records("a.local:1.1.1.1\nbroken line\n", ".local");
    assert!(matches!(r, Err(RecordsError::InvalidLine(ref l)) if l == "broken line"));
    let r = parse_records("a.local:1.1.1.300\n", ".local");
    assert!(matches!(r, Err(RecordsError::InvalidLine(ref l)) if l == "a.local:1.1.1.300"));
}

#[test]
fn load_then_lookup_each_line() {
    let text = "one.local:10.0.0.1\ntwo.local:10.0.0.2\n";
    let db = parse_records(text, ".local").unwrap();
    assert_eq!(db.get("one.local"), Some(Ipv4Addr::new(10, 0, 0, 1)));
    assert_eq!(db.get("two.local"), Some(Ipv4Addr::new(10, 0, 0, 2)));
}

#[test]
fn insert_overwrites_and_extend_prefers_incoming() {
    let mut db = RecordsDB::new();
    db.insert("a.local".to_string(), Ipv4Addr::new(1, 1, 1, 1));
    db.insert("a.local".to_string(), Ipv4Addr::new(2, 2, 2, 2));
    assert_eq!(db.get("a.local"), Some(Ipv4Addr::new(2, 2, 2, 2)));
    assert_eq!(db.entries().len(), 1);
    let mut other = RecordsDB::new();
    other.insert("a.local".to_string(), Ipv4Addr::new(3, 3, 3, 3));
    other.insert("b.local".to_string(), Ipv4Addr::new(4, 4, 4, 4));
    db.insert("c.local".to_string(), Ipv4Addr::new(5, 5, 5, 5));
    db.extend(other);
    assert_eq!(db.get("a.local"), Some(Ipv4Addr::new(3, 3, 3, 3)));
    assert_eq!(db.get("b.local"), Some(Ipv4Addr::new(4, 4, 4, 4)));
    assert_eq!(db.get("c.local"), Some(Ipv4Addr::new(5, 5, 5, 5)));
    assert_eq!(db.get("d.local"), None);
}

#[test]
fn keys_are_case_sensitive() {
    let db = parse_records("Host.local:1.2.3.4\n", ".local").unwrap();
    assert!(db.contains_key("Host.local"));
    assert!(!db.contains_key("host.local"));
}

#[test]
fn settings_table_keeps_every_name() {
    let c = DotLocalDNSConfig::from_contents("a.com:1.1.1.1\nb.local:2.2.2.2\n").unwrap();
    assert_eq!(c.records.get("a.com"), Some(Ipv4Addr::new(1, 1, 1, 1)));
    assert!(c.records.contains_key("b.local"));
    let empty = DotLocalDNSConfig::new(None).unwrap();
    assert!(empty.records.is_empty());
    assert!(DotLocalDNSConfig::new(Some("x:y")).is_err());
}

#[test]
fn string_from_chars_builds_text() {
    assert_eq!(string_from_chars(&['a', 'é', 'z']), "aéz");
    assert_eq!(string_from_chars(&[]), "");
}

#[test]
fn load_reports_names_without_suffix() {
    let (r, dropped) = dotlocal_dns::records::load_records("a.local:1.1.1.1\nb.com:2.2.2.2\n# c.org:3.3.3.3\nd.net:4.4.4.4\n", ".local");
    assert!(r.unwrap().contains_key("a.local"));
    assert_eq!(dropped, vec!["b.com".to_string(), "d.net".to_string()]);
}
