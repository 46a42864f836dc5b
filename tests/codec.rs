use dotlocal_dns::buffer::{name_is_valid, BytePacketBuffer};
use dotlocal_dns::ipv4::Ipv4Addr;
use dotlocal_dns::protocol::{DnsPacket, DnsQuestion, DnsRecord, QueryType, ResultCode};
use dotlocal_dns::wire::{DecodeError, EncodeError};

fn hello_query_bytes() -> Vec<u8> {
    let mut v = vec![0x12, 0x34, 0x01, 0x00, 0, 1, 0, 0, 0, 0, 0, 0];
    v.extend_from_slice(&[5, b'h', b'e', b'l', b'l', b'o', 3, b'l', b'o', b'c', 0]);
    v.extend_from_slice(&[0, 1, 0, 1]);
    v
}

#[test]
fn decode_simple_query() {
    let p = DnsPacket::decode(&hello_query_bytes()).unwrap();
    assert_eq!(p.header.id, 0x1234);
    assert!(p.header.recursion_desired);
    assert!(!p.header.response);
    assert_eq!(p.header.opcode, 0);
    assert_eq!(p.header.questions, 1);
    assert_eq!(p.questions.len(), 1);
    assert_eq!(p.questions[0].name, "hello.loc");
    assert_eq!(p.questions[0].qtype, QueryType::A);
}

#[test]
fn encode_simple_query_matches_wire_bytes() {
    let mut p = DnsPacket::new();
    p.header.id = 0x1234;
    p.header.recursion_desired = true;
    p.questions.push(DnsQuestion::new("hello.loc".to_string(), QueryType::A));
    assert_eq!(p.encode().unwrap(), hello_query_bytes());
}

#[test]
fn header_flags_round_trip() {
    let mut p = DnsPacket::new();
    p.header.id = 0xBEEF;
    p.header.response = true;
    p.header.opcode = 5;
    p.header.authoritative_answer = true;
    p.header.truncated_message = true;
    p.header.recursion_available = true;
    p.header.z = true;
    p.header.rescode = ResultCode::NXDOMAIN;
    let bytes = p.encode().unwrap();
    assert_eq!(&bytes[0..4], &[0xBE, 0xEF, 0x80 | (5 << 3) | 0x04 | 0x02, 0x80 | 0x40 | 3]);
    let back = DnsPacket::decode(&bytes).unwrap();
    assert_eq!(back, p);
}

#[test]
fn full_message_round_trip() {
    let mut p = DnsPacket::new();
    p.header.id = 77;
    p.questions.push(DnsQuestion::new("www.example.local".to_string(), QueryType::MX));
    p.answers.push(DnsRecord::A { domain: "a.local".to_string(), addr: Ipv4Addr::new(10, 0, 0, 7), ttl: 300 });
    p.answers.push(DnsRecord::CNAME { domain: "c.local".to_string(), host: "a.local".to_string(), ttl: 1 });
    p.authorities.push(DnsRecord::NS { domain: "local".to_string(), host: "ns.local".to_string(), ttl: 2 });
    p.authorities.push(DnsRecord::SOA {
        domain: "local".to_string(),
        m_name: "ns.local".to_string(),
        r_name: "admin.local".to_string(),
        serial: 2024010101,
        refresh: 3600,
        retry: 600,
        expire: 86400,
        minimum: 60,
        ttl: 5,
    });
    p.resources.push(DnsRecord::MX { domain: "local".to_string(), priority: 10, host: "mail.local".to_string(), ttl: 3 });
    p.resources.push(DnsRecord::UNKNOWN { domain: "x.local".to_string(), qtype: 99, data_len: 3, ttl: 4 });
    p.header.questions = 1;
    p.header.answers = 2;
    p.header.authoritative_entries = 2;
    p.header.resource_entries = 2;
    let bytes = p.encode().unwrap();
    let back = DnsPacket::decode(&bytes).unwrap();
    assert_eq!(back, p);
}

#[test]
fn encode_sets_counts_from_sections() {
    let mut p = DnsPacket::new();
    p.questions.push(DnsQuestion::new("a.loc".to_string(), QueryType::A));
    p.answers.push(DnsRecord::A { domain: "a.loc".to_string(), addr: Ipv4Addr::localhost(), ttl: 0 });
    let bytes = p.encode().unwrap();
    assert_eq!(&bytes[4..12], &[0, 1, 0, 1, 0, 0, 0, 0]);
}

#[test]
fn a_record_wire_form() {
    let mut p = DnsPacket::new();
    p.answers.push(DnsRecord::A { domain: "a".to_string(), addr: Ipv4Addr::new(1, 2, 3, 4), ttl: 0x01020304 });
    let bytes = p.encode().unwrap();
    assert_eq!(&bytes[12..], &[1, b'a', 0, 0, 1, 0, 1, 1, 2, 3, 4, 0, 4, 1, 2, 3, 4]);
}

#[test]
fn decode_follows_compression_pointer() {
    // Question "hello.loc", then an answer whose name points back at offset 12.
    let mut v = vec![0, 1, 0x81, 0x80, 0, 1, 0, 1, 0, 0, 0, 0];
    v.extend_from_slice(&[5, b'h', b'e', b'l', b'l', b'o', 3, b'l', b'o', b'c', 0, 0, 1, 0, 1]);
    v.extend_from_slice(&[0xC0, 12, 0, 1, 0, 1, 0, 0, 0, 60, 0, 4, 192, 168, 0, 1]);
    let p = DnsPacket::decode(&v).unwrap();
    assert_eq!(
        p.answers[0],
        DnsRecord::A { domain: "hello.loc".to_string(), addr: Ipv4Addr::new(192, 168, 0, 1), ttl: 60 }
    );
    assert_eq!(p.header.rescode, ResultCode::NOERROR);
    assert!(p.header.recursion_available);
}

#[test]
fn pointer_loop_is_malformed() {
    // The question's name points at itself.
    let mut v = vec![0, 1, 0, 0, 0, 1, 0, 0, 0, 0, 0, 0];
    v.extend_from_slice(&[0xC0, 12, 0, 1, 0, 1]);
    assert_eq!(DnsPacket::decode(&v), Err(DecodeError::MalformedName));
}

#[test]
fn five_jumps_are_allowed() {
    // Offsets 12..22 hold a chain of pointers ending in the name "a".
    let mut v = vec![0, 1, 0, 0, 0, 1, 0, 0, 0, 0, 0, 0];
    v.extend_from_slice(&[0xC0, 14, 0xC0, 16, 0xC0, 18, 0xC0, 20, 0xC0, 22, 1, b'a', 0]);
    v.extend_from_slice(&[0, 1, 0, 1]);
    let mut buffer = BytePacketBuffer::from_bytes(&v);
    buffer.seek(12);
    assert_eq!(buffer.read_qname().unwrap(), "a");
    assert_eq!(buffer.pos(), 14);
    let mut six = vec![0, 1, 0, 0, 0, 1, 0, 0, 0, 0, 0, 0];
    six.extend_from_slice(&[0xC0, 14, 0xC0, 16, 0xC0, 18, 0xC0, 20, 0xC0, 22, 0xC0, 24, 1, b'a', 0]);
    let mut buffer = BytePacketBuffer::from_bytes(&six);
    buffer.seek(12);
    assert_eq!(buffer.read_qname(), Err(DecodeError::MalformedName));
}

#[test]
fn too_many_questions_overflow() {
    // A header that claims more questions than the buffer can hold.
    let mut v = vec![0, 1, 0, 0, 0xFF, 0xFF, 0, 0, 0, 0, 0, 0];
    v.extend_from_slice(&[1, b'a', 0, 0, 1, 0, 1]);
    assert_eq!(DnsPacket::decode(&v), Err(DecodeError::BufferOverflow));
}

#[test]
fn label_past_the_end_overflows() {
    let mut b = BytePacketBuffer::new();
    b.seek(510);
    // A zeroed buffer; a label length of 0 at 510 is the root, so build one that runs off.
    let mut v = vec![0u8; 510];
    v.push(5);
    v.push(b'a');
    let mut b2 = BytePacketBuffer::from_bytes(&v);
    b2.seek(510);
    assert_eq!(b2.read_qname(), Err(DecodeError::BufferOverflow));
    assert_eq!(b.read_qname(), Ok(String::new()));
}

#[test]
fn short_input_is_zero_padded() {
    let p = DnsPacket::decode(&[0u8; 0]).unwrap();
    assert_eq!(p.header.id, 0);
    assert!(p.questions.is_empty());
    let bytes = hello_query_bytes();
    let p = DnsPacket::decode(&bytes[..5]).unwrap();
    assert_eq!(p.header.id, 0x1234);
    assert_eq!(p.header.questions, 0);
}

#[test]
fn label_too_long_is_rejected() {
    let long = "a".repeat(64);
    assert!(!name_is_valid(&long));
    assert!(name_is_valid(&"a".repeat(63)));
    let mut p = DnsPacket::new();
    p.questions.push(DnsQuestion::new(format!("{long}.loc"), QueryType::A));
    assert_eq!(p.encode(), Err(EncodeError::InvalidLabel));
}

#[test]
fn empty_label_is_rejected() {
    assert!(!name_is_valid("a..loc"));
    assert!(!name_is_valid("a.loc."));
    assert!(!name_is_valid(".loc"));
    assert!(name_is_valid(""));
    let mut p = DnsPacket::new();
    p.questions.push(DnsQuestion::new("a..loc".to_string(), QueryType::A));
    assert_eq!(p.encode(), Err(EncodeError::InvalidLabel));
}

#[test]
fn oversized_message_overflows() {
    let mut p = DnsPacket::new();
    for _ in 0..40 {
        p.answers.push(DnsRecord::A { domain: "abcdefgh.loc".to_string(), addr: Ipv4Addr::localhost(), ttl: 0 });
    }
    assert_eq!(p.encode(), Err(EncodeError::BufferOverflow));
}

#[test]
fn non_utf8_label_is_decoded_lossily() {
    let mut v = vec![0, 1, 0, 0, 0, 1, 0, 0, 0, 0, 0, 0];
    v.extend_from_slice(&[2, 0xFF, b'x', 0, 0, 1, 0, 1]);
    let p = DnsPacket::decode(&v).unwrap();
    assert_eq!(p.questions[0].name, "\u{FFFD}x");
}

#[test]
fn unknown_record_is_skipped_by_length() {
    let mut v = vec![0, 1, 0, 0, 0, 0, 0, 2, 0, 0, 0, 0];
    v.extend_from_slice(&[1, b'u', 0, 0, 99, 0, 1, 0, 0, 0, 9, 0, 3, 7, 7, 7]);
    v.extend_from_slice(&[1, b'a', 0, 0, 1, 0, 1, 0, 0, 0, 0, 0, 4, 1, 2, 3, 4]);
    let p = DnsPacket::decode(&v).unwrap();
    assert_eq!(p.answers[0], DnsRecord::UNKNOWN { domain: "u".to_string(), qtype: 99, data_len: 3, ttl: 9 });
    assert_eq!(p.answers[1], DnsRecord::A { domain: "a".to_string(), addr: Ipv4Addr::new(1, 2, 3, 4), ttl: 0 });
}

#[test]
fn unrecognised_result_code_reads_as_noerror() {
    let v = vec![0, 1, 0x80, 0x0B, 0, 0, 0, 0, 0, 0, 0, 0];
    let p = DnsPacket::decode(&v).unwrap();
    assert_eq!(p.header.rescode, ResultCode::NOERROR);
}

#[test]
fn buffer_bounds_are_checked() {
    let mut b = BytePacketBuffer::new();
    b.seek(511);
    assert_eq!(b.read_u16(), Err(DecodeError::BufferOverflow));
    assert_eq!(b.read(), Ok(0));
    assert_eq!(b.read(), Err(DecodeError::BufferOverflow));
    assert_eq!(b.get(512), Err(DecodeError::BufferOverflow));
    assert_eq!(b.get_range(500, 13), Err(DecodeError::BufferOverflow));
    let mut w = BytePacketBuffer::new();
    w.seek(510);
    assert_eq!(w.write_u16(0xABCD), Ok(()));
    assert_eq!(w.write(1), Err(EncodeError::BufferOverflow));
    assert_eq!(w.get_range(510, 2), Ok(vec![0xAB, 0xCD]));
}

#[test]
fn query_type_codes() {
    assert_eq!(QueryType::from_num(1), QueryType::A);
    assert_eq!(QueryType::from_num(28), QueryType::AAAA);
    assert_eq!(QueryType::from_num(6), QueryType::SOA);
    assert_eq!(QueryType::from_num(255), QueryType::UNKNOWN(255));
    assert_eq!(QueryType::MX.to_num(), 15);
    assert_eq!(QueryType::UNKNOWN(42).to_num(), 42);
    assert_eq!(ResultCode::from_num(4), ResultCode::NOTIMP);
    assert_eq!(ResultCode::from_num(9), ResultCode::NOERROR);
    assert_eq!(ResultCode::REFUSED.to_num(), 5);
}
