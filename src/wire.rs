//! The wire form of a message: what encoding writes and what decoding reads.
use vstd::prelude::*;
use vstd::utf8::{decode_utf8, encode_utf8, valid_utf8};
use crate::ipv4::Ipv4Addr;
use crate::protocol::{
    query_type_from, query_type_num, result_code_from, result_code_num, DnsHeader, PacketView,
    QuestionView, RecordView,
};
use crate::text::first_index_of;

verus! {

/// The capacity of a message buffer, the classic limit of DNS over UDP.
pub const PACKET_SIZE: usize = 512;

/// How many compression pointers one name may follow.
pub const MAX_JUMPS: u8 = 5;

/// The byte that separates labels in a written-out name.
pub const DOT: u8 = 46;

/// Why bytes could not be read as a message.
#[derive(Clone, Copy, Debug, PartialEq, Eq, Structural)]
pub enum DecodeError {
    /// A read went past the end of the buffer.
    BufferOverflow,
    /// A name followed too many compression pointers.
    MalformedName,
}

/// Why a message could not be written.
#[derive(Clone, Copy, Debug, PartialEq, Eq, Structural)]
pub enum EncodeError {
    /// The message does not fit in the buffer.
    BufferOverflow,
    /// A name has an empty label or one longer than 63 bytes.
    InvalidLabel,
}

// ----- writing -----

pub open spec fn be16(v: u16) -> Seq<u8> {
    seq![(v / 256) as u8, (v % 256) as u8]
}

pub open spec fn be32(v: u32) -> Seq<u8> {
    seq![(v / 0x1000000) as u8, ((v / 0x10000) % 256) as u8, ((v / 256) % 256) as u8, (v % 256) as u8]
}

pub open spec fn bit(b: bool, w: int) -> int {
    if b {
        w
    } else {
        0
    }
}

/// First flag byte: QR, opcode (low four bits), AA, TC, RD.
pub open spec fn flags_hi(h: DnsHeader) -> u8 {
    (bit(h.recursion_desired, 1) + bit(h.truncated_message, 2) + bit(h.authoritative_answer, 4)
        + (h.opcode % 16) * 8 + bit(h.response, 128)) as u8
}

/// Second flag byte: RA, Z, AD, CD, response code.
pub open spec fn flags_lo(h: DnsHeader) -> u8 {
    (result_code_num(h.rescode) + bit(h.checking_disabled, 16) + bit(h.authed_data, 32) + bit(h.z, 64)
        + bit(h.recursion_available, 128)) as u8
}

pub open spec fn header_wire(h: DnsHeader) -> Seq<u8> {
    be16(h.id) + seq![flags_hi(h), flags_lo(h)] + be16(h.questions) + be16(h.answers) + be16(
        h.authoritative_entries,
    ) + be16(h.resource_entries)
}

/// Every label of the dotted byte string `b` has 1 to 63 bytes.
pub open spec fn labels_ok(b: Seq<u8>) -> bool
    decreases b.len(),
{
    if b.len() == 0 {
        true
    } else {
        let i = first_index_of(b, DOT);
        &&& 1 <= i <= 63
        &&& (i < b.len() ==> b.len() > i + 1 && labels_ok(b.subrange(i + 1, b.len() as int)))
    }
}

/// The labels of the dotted byte string `b`, each after its length byte.
pub open spec fn labels_wire(b: Seq<u8>) -> Seq<u8>
    decreases b.len(),
{
    if b.len() == 0 {
        Seq::empty()
    } else {
        let i = first_index_of(b, DOT);
        if 0 <= i < b.len() {
            seq![i as u8] + b.take(i) + labels_wire(b.subrange(i + 1, b.len() as int))
        } else {
            seq![b.len() as u8] + b
        }
    }
}

/// A name can be written: none of its labels is empty or too long.
pub open spec fn name_ok(name: Seq<char>) -> bool {
    labels_ok(encode_utf8(name))
}

/// A name as written: its UTF-8 labels, then the root label.
pub open spec fn name_wire(name: Seq<char>) -> Seq<u8> {
    labels_wire(encode_utf8(name)) + seq![0u8]
}

pub open spec fn question_wire(q: QuestionView) -> Seq<u8> {
    name_wire(q.name) + be16(query_type_num(q.qtype)) + be16(1)
}

pub open spec fn record_type(r: RecordView) -> u16 {
    match r {
        RecordView::UNKNOWN { qtype, .. } => qtype,
        RecordView::A { .. } => 1,
        RecordView::NS { .. } => 2,
        RecordView::CNAME { .. } => 5,
        RecordView::SOA { .. } => 6,
        RecordView::MX { .. } => 15,
    }
}

pub open spec fn record_domain(r: RecordView) -> Seq<char> {
    match r {
        RecordView::UNKNOWN { domain, .. } => domain,
        RecordView::A { domain, .. } => domain,
        RecordView::NS { domain, .. } => domain,
        RecordView::CNAME { domain, .. } => domain,
        RecordView::SOA { domain, .. } => domain,
        RecordView::MX { domain, .. } => domain,
    }
}

pub open spec fn record_ttl(r: RecordView) -> u32 {
    match r {
        RecordView::UNKNOWN { ttl, .. } => ttl,
        RecordView::A { ttl, .. } => ttl,
        RecordView::NS { ttl, .. } => ttl,
        RecordView::CNAME { ttl, .. } => ttl,
        RecordView::SOA { ttl, .. } => ttl,
        RecordView::MX { ttl, .. } => ttl,
    }
}

/// What follows a record's length field. An unknown record is written as
/// zero bytes of its declared length.
pub open spec fn record_data(r: RecordView) -> Seq<u8> {
    match r {
        RecordView::UNKNOWN { data_len, .. } => Seq::new(data_len as nat, |i: int| 0u8),
        RecordView::A { addr, .. } => seq![addr.a, addr.b, addr.c, addr.d],
        RecordView::NS { host, .. } => name_wire(host),
        RecordView::CNAME { host, .. } => name_wire(host),
        RecordView::SOA { m_name, r_name, serial, refresh, retry, expire, minimum, .. } => name_wire(
            m_name,
        ) + name_wire(r_name) + be32(serial) + be32(refresh) + be32(retry) + be32(expire) + be32(
            minimum,
        ),
        RecordView::MX { priority, host, .. } => be16(priority) + name_wire(host),
    }
}

pub open spec fn record_wire(r: RecordView) -> Seq<u8> {
    name_wire(record_domain(r)) + be16(record_type(r)) + be16(1) + be32(record_ttl(r)) + be16(
        record_data(r).len() as u16,
    ) + record_data(r)
}

/// Every name in the record can be written.
pub open spec fn record_ok(r: RecordView) -> bool {
    &&& name_ok(record_domain(r))
    &&& match r {
        RecordView::NS { host, .. } => name_ok(host),
        RecordView::CNAME { host, .. } => name_ok(host),
        RecordView::MX { host, .. } => name_ok(host),
        RecordView::SOA { m_name, r_name, .. } => name_ok(m_name) && name_ok(r_name),
        _ => true,
    }
}

pub open spec fn questions_wire(qs: Seq<QuestionView>) -> Seq<u8>
    decreases qs.len(),
{
    if qs.len() == 0 {
        Seq::empty()
    } else {
        questions_wire(qs.drop_last()) + question_wire(qs.last())
    }
}

pub open spec fn records_wire(rs: Seq<RecordView>) -> Seq<u8>
    decreases rs.len(),
{
    if rs.len() == 0 {
        Seq::empty()
    } else {
        records_wire(rs.drop_last()) + record_wire(rs.last())
    }
}

/// The header as written: its counts are the lengths of the sections.
pub open spec fn counted_header(p: PacketView) -> DnsHeader {
    DnsHeader {
        questions: p.questions.len() as u16,
        answers: p.answers.len() as u16,
        authoritative_entries: p.authorities.len() as u16,
        resource_entries: p.resources.len() as u16,
        ..p.header
    }
}

/// The bytes of a message, sections in order, names without compression.
pub open spec fn packet_wire(p: PacketView) -> Seq<u8> {
    header_wire(counted_header(p)) + questions_wire(p.questions) + records_wire(p.answers)
        + records_wire(p.authorities) + records_wire(p.resources)
}

/// Every name of the message can be written.
pub open spec fn packet_ok(p: PacketView) -> bool {
    &&& forall|i: int| 0 <= i < p.questions.len() ==> name_ok(#[trigger] p.questions[i].name)
    &&& forall|i: int| 0 <= i < p.answers.len() ==> record_ok(#[trigger] p.answers[i])
    &&& forall|i: int| 0 <= i < p.authorities.len() ==> record_ok(#[trigger] p.authorities[i])
    &&& forall|i: int| 0 <= i < p.resources.len() ==> record_ok(#[trigger] p.resources[i])
}

// ----- reading -----

/// What the decoder makes of a name's bytes; depends on the bytes alone.
pub uninterp spec fn lossy_utf8(b: Seq<u8>) -> Seq<char>;

pub open spec fn parse_u8(buf: Seq<u8>, pos: int) -> Result<(u8, int), DecodeError> {
    if 0 <= pos < buf.len() {
        Ok((buf[pos], pos + 1))
    } else {
        Err(DecodeError::BufferOverflow)
    }
}

pub open spec fn parse_u16(buf: Seq<u8>, pos: int) -> Result<(u16, int), DecodeError> {
    if 0 <= pos && pos + 2 <= buf.len() {
        Ok(((buf[pos] * 256 + buf[pos + 1]) as u16, pos + 2))
    } else {
        Err(DecodeError::BufferOverflow)
    }
}

pub open spec fn parse_u32(buf: Seq<u8>, pos: int) -> Result<(u32, int), DecodeError> {
    if 0 <= pos && pos + 4 <= buf.len() {
        Ok(
            (
                (buf[pos] * 0x1000000 + buf[pos + 1] * 0x10000 + buf[pos + 2] * 256 + buf[pos
                    + 3]) as u32,
                pos + 4,
            ),
        )
    } else {
        Err(DecodeError::BufferOverflow)
    }
}

/// A label's bytes before the rest of a name, with a dot between them.
pub open spec fn join_label(label: Seq<u8>, rest: Seq<u8>) -> Seq<u8> {
    if rest.len() == 0 {
        label
    } else {
        label + seq![DOT] + rest
    }
}

/// Reads a name at `pos` having followed `jumps` pointers: its dotted bytes,
/// and where reading goes on (after the first pointer, if any).
pub open spec fn parse_name_at(buf: Seq<u8>, pos: int, jumps: int) -> Result<(Seq<u8>, int), DecodeError>
    decreases MAX_JUMPS + 1 - jumps, buf.len() - pos,
{
    if jumps > MAX_JUMPS {
        Err(DecodeError::MalformedName)
    } else if !(0 <= pos < buf.len()) {
        Err(DecodeError::BufferOverflow)
    } else {
        let len = buf[pos];
        if len >= 0xC0 {
            if pos + 1 >= buf.len() {
                Err(DecodeError::BufferOverflow)
            } else {
                let offset = (len - 0xC0) * 256 + buf[pos + 1];
                match parse_name_at(buf, offset, jumps + 1) {
                    Ok((name, _)) => Ok((name, pos + 2)),
                    Err(e) => Err(e),
                }
            }
        } else if len == 0 {
            Ok((Seq::empty(), pos + 1))
        } else if pos + 1 + len > buf.len() {
            Err(DecodeError::BufferOverflow)
        } else {
            match parse_name_at(buf, pos + 1 + len, jumps) {
                Ok((rest, end)) => Ok(
                    (join_label(buf.subrange(pos + 1, pos + 1 + len), rest), end),
                ),
                Err(e) => Err(e),
            }
        }
    }
}

/// The text of a name's bytes: their UTF-8 decoding where they are valid,
/// else what the lossy decoder makes of them.
pub open spec fn name_text(b: Seq<u8>) -> Seq<char> {
    if valid_utf8(b) {
        decode_utf8(b)
    } else {
        lossy_utf8(b)
    }
}

pub open spec fn parse_name(buf: Seq<u8>, pos: int) -> Result<(Seq<char>, int), DecodeError> {
    match parse_name_at(buf, pos, 0) {
        Ok((b, end)) => Ok((name_text(b), end)),
        Err(e) => Err(e),
    }
}

pub open spec fn header_from(a: u8, b: u8, id: u16, qd: u16, an: u16, ns: u16, ar: u16) -> DnsHeader {
    DnsHeader {
        id,
        recursion_desired: a % 2 == 1,
        truncated_message: (a / 2) % 2 == 1,
        authoritative_answer: (a / 4) % 2 == 1,
        opcode: (a / 8) % 16,
        response: a / 128 == 1,
        rescode: result_code_from(b % 16),
        checking_disabled: (b / 16) % 2 == 1,
        authed_data: (b / 32) % 2 == 1,
        z: (b / 64) % 2 == 1,
        recursion_available: b / 128 == 1,
        questions: qd,
        answers: an,
        authoritative_entries: ns,
        resource_entries: ar,
    }
}

pub open spec fn parse_header(buf: Seq<u8>, pos: int) -> Result<(DnsHeader, int), DecodeError> {
    if 0 <= pos && pos + 12 <= buf.len() {
        Ok(
            (
                header_from(
                    buf[pos + 2],
                    buf[pos + 3],
                    (buf[pos] * 256 + buf[pos + 1]) as u16,
                    (buf[pos + 4] * 256 + buf[pos + 5]) as u16,
                    (buf[pos + 6] * 256 + buf[pos + 7]) as u16,
                    (buf[pos + 8] * 256 + buf[pos + 9]) as u16,
                    (buf[pos + 10] * 256 + buf[pos + 11]) as u16,
                ),
                pos + 12,
            ),
        )
    } else {
        Err(DecodeError::BufferOverflow)
    }
}

/// A question: name, type, and a class that is read and dropped.
pub open spec fn parse_question(buf: Seq<u8>, pos: int) -> Result<(QuestionView, int), DecodeError> {
    match parse_name(buf, pos) {
        Err(e) => Err(e),
        Ok((name, p1)) => match parse_u16(buf, p1) {
            Err(e) => Err(e),
            Ok((t, p2)) => match parse_u16(buf, p2) {
                Err(e) => Err(e),
                Ok((_, p3)) => Ok((QuestionView { name, qtype: query_type_from(t) }, p3)),
            },
        },
    }
}

/// The part of a record after its length field, by type. An unknown type is
/// skipped by its declared length, unread.
pub open spec fn parse_record_data(
    buf: Seq<u8>,
    pos: int,
    domain: Seq<char>,
    qtype: u16,
    data_len: u16,
    ttl: u32,
) -> Result<(RecordView, int), DecodeError> {
    if qtype == 1 {
        if 0 <= pos && pos + 4 <= buf.len() {
            Ok(
                (
                    RecordView::A {
                        domain,
                        addr: Ipv4Addr { a: buf[pos], b: buf[pos + 1], c: buf[pos + 2], d: buf[pos + 3] },
                        ttl,
                    },
                    pos + 4,
                ),
            )
        } else {
            Err(DecodeError::BufferOverflow)
        }
    } else if qtype == 2 {
        match parse_name(buf, pos) {
            Err(e) => Err(e),
            Ok((host, p)) => Ok((RecordView::NS { domain, host, ttl }, p)),
        }
    } else if qtype == 5 {
        match parse_name(buf, pos) {
            Err(e) => Err(e),
            Ok((host, p)) => Ok((RecordView::CNAME { domain, host, ttl }, p)),
        }
    } else if qtype == 15 {
        match parse_u16(buf, pos) {
            Err(e) => Err(e),
            Ok((priority, p1)) => match parse_name(buf, p1) {
                Err(e) => Err(e),
                Ok((host, p)) => Ok((RecordView::MX { domain, priority, host, ttl }, p)),
            },
        }
    } else if qtype == 6 {
        match parse_name(buf, pos) {
            Err(e) => Err(e),
            Ok((m_name, p1)) => match parse_name(buf, p1) {
                Err(e) => Err(e),
                Ok((r_name, p2)) => if p2 + 20 <= buf.len() {
                    Ok(
                        (
                            RecordView::SOA {
                                domain,
                                m_name,
                                r_name,
                                serial: parse_u32(buf, p2)->Ok_0.0,
                                refresh: parse_u32(buf, p2 + 4)->Ok_0.0,
                                retry: parse_u32(buf, p2 + 8)->Ok_0.0,
                                expire: parse_u32(buf, p2 + 12)->Ok_0.0,
                                minimum: parse_u32(buf, p2 + 16)->Ok_0.0,
                                ttl,
                            },
                            p2 + 20,
                        ),
                    )
                } else {
                    Err(DecodeError::BufferOverflow)
                },
            },
        }
    } else {
        Ok((RecordView::UNKNOWN { domain, qtype, data_len, ttl }, pos + data_len))
    }
}

/// A record: name, type, class (dropped), TTL, data length, then its data.
pub open spec fn parse_record(buf: Seq<u8>, pos: int) -> Result<(RecordView, int), DecodeError> {
    match parse_name(buf, pos) {
        Err(e) => Err(e),
        Ok((domain, p1)) => if p1 + 10 <= buf.len() {
            parse_record_data(
                buf,
                p1 + 10,
                domain,
                parse_u16(buf, p1)->Ok_0.0,
                parse_u16(buf, p1 + 8)->Ok_0.0,
                parse_u32(buf, p1 + 4)->Ok_0.0,
            )
        } else {
            Err(DecodeError::BufferOverflow)
        },
    }
}

pub open spec fn parse_questions(buf: Seq<u8>, pos: int, n: nat) -> Result<(Seq<QuestionView>, int), DecodeError>
    decreases n,
{
    if n == 0 {
        Ok((Seq::empty(), pos))
    } else {
        match parse_questions(buf, pos, (n - 1) as nat) {
            Err(e) => Err(e),
            Ok((qs, p)) => match parse_question(buf, p) {
                Err(e) => Err(e),
                Ok((q, p2)) => Ok((qs.push(q), p2)),
            },
        }
    }
}

pub open spec fn parse_records(buf: Seq<u8>, pos: int, n: nat) -> Result<(Seq<RecordView>, int), DecodeError>
    decreases n,
{
    if n == 0 {
        Ok((Seq::empty(), pos))
    } else {
        match parse_records(buf, pos, (n - 1) as nat) {
            Err(e) => Err(e),
            Ok((rs, p)) => match parse_record(buf, p) {
                Err(e) => Err(e),
                Ok((r, p2)) => Ok((rs.push(r), p2)),
            },
        }
    }
}

/// The message in `buf`: header, then as many entries of each section as
/// the header counts, in order.
pub open spec fn parse_packet(buf: Seq<u8>, pos: int) -> Result<PacketView, DecodeError> {
    match parse_header(buf, pos) {
        Err(e) => Err(e),
        Ok((h, p0)) => match parse_questions(buf, p0, h.questions as nat) {
            Err(e) => Err(e),
            Ok((qs, p1)) => match parse_records(buf, p1, h.answers as nat) {
                Err(e) => Err(e),
                Ok((ans, p2)) => match parse_records(buf, p2, h.authoritative_entries as nat) {
                    Err(e) => Err(e),
                    Ok((auth, p3)) => match parse_records(buf, p3, h.resource_entries as nat) {
                        Err(e) => Err(e),
                        Ok((res, _)) => Ok(
                            PacketView {
                                header: h,
                                questions: qs,
                                answers: ans,
                                authorities: auth,
                                resources: res,
                            },
                        ),
                    },
                },
            },
        },
    }
}

/// The buffer that holds `data`: its first bytes, zeros after them.
pub open spec fn buffer_of(data: Seq<u8>) -> Seq<u8> {
    Seq::new(PACKET_SIZE as nat, |i: int| if i < data.len() { data[i] } else { 0u8 })
}

pub proof fn lemma_parse_questions_err(buf: Seq<u8>, pos: int, k: nat, n: nat)
    requires
        k <= n,
        parse_questions(buf, pos, k) is Err,
    ensures
        parse_questions(buf, pos, n) == parse_questions(buf, pos, k),
    decreases n - k,
{
    if k < n {
        lemma_parse_questions_err(buf, pos, k, (n - 1) as nat);
    }
}

pub proof fn lemma_parse_records_err(buf: Seq<u8>, pos: int, k: nat, n: nat)
    requires
        k <= n,
        parse_records(buf, pos, k) is Err,
    ensures
        parse_records(buf, pos, n) == parse_records(buf, pos, k),
    decreases n - k,
{
    if k < n {
        lemma_parse_records_err(buf, pos, k, (n - 1) as nat);
    }
}

pub proof fn lemma_questions_wire_prefix(qs: Seq<QuestionView>, j: int)
    requires
        0 <= j <= qs.len(),
    ensures
        questions_wire(qs.take(j)).len() <= questions_wire(qs).len(),
    decreases qs.len(),
{
    if j < qs.len() {
        assert(qs.drop_last().take(j) =~= qs.take(j));
        lemma_questions_wire_prefix(qs.drop_last(), j);
    } else {
        assert(qs.take(j) =~= qs);
    }
}

pub proof fn lemma_records_wire_prefix(rs: Seq<RecordView>, j: int)
    requires
        0 <= j <= rs.len(),
    ensures
        records_wire(rs.take(j)).len() <= records_wire(rs).len(),
    decreases rs.len(),
{
    if j < rs.len() {
        assert(rs.drop_last().take(j) =~= rs.take(j));
        lemma_records_wire_prefix(rs.drop_last(), j);
    } else {
        assert(rs.take(j) =~= rs);
    }
}

/// Relies on `String::from_utf8_lossy`: valid UTF-8 comes back decoded as
/// it is, and the result depends on the bytes alone.
#[verifier::external_body]
pub(crate) fn string_from_utf8_lossy(b: &[u8]) -> (r: String)
    ensures
        r@ == lossy_utf8(b@),
        valid_utf8(b@) ==> r@ == decode_utf8(b@),
{
    String::from_utf8_lossy(b).into_owned()
}

} // verus!
