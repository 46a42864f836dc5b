//! Properties that relate several operations of the library.
use vstd::prelude::*;
use vstd::utf8::{encode_utf8, encode_utf8_decode_utf8, encode_utf8_valid_utf8};
use crate::ipv4::{localhost_spec, Ipv4Addr};
use crate::records::{
    is_skipped_line, line_name, lines_spec, load_lines, load_spec, parse_line_spec, seen_names,
};
use crate::resolve::{covers, is_best_key, lookup_spec, resolved_addr};
use crate::server::lookup_name_spec;
use crate::protocol::ResultCode;
use crate::text::{ends_with, first_index_of, lemma_first_index_of};
use crate::protocol::{
    query_type_from, query_type_num, DnsHeader, PacketView, QueryType, QuestionView, RecordView,
};
use crate::wire::{
    be16, be32, bit, flags_hi, flags_lo, header_wire, join_label, labels_ok, labels_wire, name_ok,
    name_wire, parse_header, parse_name, parse_name_at, parse_question, parse_record, parse_record_data, parse_u16, parse_questions, parse_records,
    parse_packet, packet_ok, packet_wire, questions_wire, records_wire, counted_header, buffer_of,
    PACKET_SIZE,
    parse_u32, question_wire, record_data, record_ok, record_wire, DecodeError, DOT, MAX_JUMPS,
};

verus! {

/// `buf` holds `w` from `pos` on.
pub open spec fn holds_at(buf: Seq<u8>, pos: int, w: Seq<u8>) -> bool {
    0 <= pos && pos + w.len() <= buf.len() && buf.subrange(pos, pos + w.len()) == w
}

proof fn lemma_holds_split(buf: Seq<u8>, pos: int, a: Seq<u8>, b: Seq<u8>)
    requires
        holds_at(buf, pos, a + b),
    ensures
        holds_at(buf, pos, a),
        holds_at(buf, pos + a.len(), b),
{
    let s = buf.subrange(pos, pos + (a + b).len());
    assert(s == a + b);
    assert(buf.subrange(pos, pos + a.len()) =~= s.subrange(0, a.len() as int));
    assert(s.subrange(0, a.len() as int) =~= a);
    assert(buf.subrange(pos + a.len(), pos + a.len() + b.len()) =~= s.subrange(
        a.len() as int,
        s.len() as int,
    ));
    assert(s.subrange(a.len() as int, s.len() as int) =~= b);
}

proof fn lemma_u16_round_trip(buf: Seq<u8>, pos: int, v: u16)
    requires
        holds_at(buf, pos, be16(v)),
    ensures
        parse_u16(buf, pos) == Ok::<(u16, int), DecodeError>((v, pos + 2)),
{
    assert(buf[pos] == be16(v)[0]);
    assert(buf[pos + 1] == be16(v)[1]);
}

proof fn lemma_u32_round_trip(buf: Seq<u8>, pos: int, v: u32)
    requires
        holds_at(buf, pos, be32(v)),
    ensures
        parse_u32(buf, pos) == Ok::<(u32, int), DecodeError>((v, pos + 4)),
{
    assert(buf[pos] == be32(v)[0]);
    assert(buf[pos + 1] == be32(v)[1]);
    assert(buf[pos + 2] == be32(v)[2]);
    assert(buf[pos + 3] == be32(v)[3]);
    let x = v as int;
    assert((x / 0x1000000) * 0x1000000 + ((x / 0x10000) % 256) * 0x10000 + ((x / 256) % 256) * 256
        + x % 256 == x) by (nonlinear_arith)
        requires
            0 <= x < 0x100000000,
    ;
}

proof fn lemma_labels_round_trip(buf: Seq<u8>, pos: int, b: Seq<u8>, jumps: int)
    requires
        labels_ok(b),
        holds_at(buf, pos, labels_wire(b) + seq![0u8]),
        0 <= jumps <= MAX_JUMPS,
    ensures
        parse_name_at(buf, pos, jumps) == Ok::<(Seq<u8>, int), DecodeError>(
            (b, pos + labels_wire(b).len() + 1),
        ),
    decreases b.len(),
{
    let w = labels_wire(b) + seq![0u8];
    assert(buf[pos] == w[0]);
    if b.len() == 0 {
        assert(labels_wire(b) =~= Seq::<u8>::empty());
        assert(b =~= Seq::<u8>::empty());
    } else {
        let i = first_index_of(b, DOT);
        lemma_first_index_of(b, DOT);
        assert(buf[pos] == i as u8);
        let label = b.take(i);
        if i < b.len() {
            let rest = b.subrange(i + 1, b.len() as int);
            assert(labels_wire(b) == seq![i as u8] + label + labels_wire(rest));
            assert(w =~= (seq![i as u8] + label) + (labels_wire(rest) + seq![0u8]));
            lemma_holds_split(buf, pos, seq![i as u8] + label, labels_wire(rest) + seq![0u8]);
            lemma_holds_split(buf, pos, seq![i as u8], label);
            lemma_labels_round_trip(buf, pos + 1 + i, rest, jumps);
            assert(rest.len() > 0);
            assert(join_label(label, rest) =~= b);
            assert(buf.subrange(pos + 1, pos + 1 + i) == label);
            assert(labels_wire(b).len() == 1 + i + labels_wire(rest).len());
            assert(buf[pos] < 0xC0 && buf[pos] != 0);
            assert(pos + 1 + buf[pos] <= buf.len());
            assert(parse_name_at(buf, pos + 1 + i, jumps) == Ok::<(Seq<u8>, int), DecodeError>((rest, pos + 1 + i + labels_wire(rest).len() + 1)));
            assert(parse_name_at(buf, pos, jumps) == Ok::<(Seq<u8>, int), DecodeError>((b, pos + labels_wire(b).len() + 1)));
        } else {
            assert(labels_wire(b) == seq![b.len() as u8] + b);
            assert(label =~= b);
            assert(w =~= (seq![i as u8] + label) + seq![0u8]);
            lemma_holds_split(buf, pos, seq![i as u8] + label, seq![0u8]);
            lemma_holds_split(buf, pos, seq![i as u8], label);
            assert(buf.subrange(pos + 1 + i, pos + 2 + i)[0] == buf[pos + 1 + i]);
            assert(buf[pos + 1 + i] == 0);
            assert(buf.subrange(pos + 1, pos + 1 + i) == label);
            assert(parse_name_at(buf, pos + 1 + i, jumps) == Ok::<(Seq<u8>, int), DecodeError>((Seq::<u8>::empty(), pos + 2 + i)));
            assert(join_label(label, Seq::<u8>::empty()) =~= b);
            assert(parse_name_at(buf, pos, jumps) == Ok::<(Seq<u8>, int), DecodeError>((b, pos + labels_wire(b).len() + 1)));
        }
    }
}

proof fn lemma_name_round_trip(buf: Seq<u8>, pos: int, name: Seq<char>)
    requires
        name_ok(name),
        holds_at(buf, pos, name_wire(name)),
    ensures
        parse_name(buf, pos) == Ok::<(Seq<char>, int), DecodeError>(
            (name, pos + name_wire(name).len()),
        ),
{
    lemma_labels_round_trip(buf, pos, encode_utf8(name), 0);
    encode_utf8_valid_utf8(name);
    encode_utf8_decode_utf8(name);
}

proof fn lemma_flags_round_trip(h: DnsHeader)
    requires
        h.opcode < 16,
    ensures
        ({
            let a = flags_hi(h);
            let b = flags_lo(h);
            &&& h.recursion_desired == (a % 2 == 1)
            &&& h.truncated_message == ((a / 2) % 2 == 1)
            &&& h.authoritative_answer == ((a / 4) % 2 == 1)
            &&& h.opcode == (a / 8) % 16
            &&& h.response == (a / 128 == 1)
            &&& crate::protocol::result_code_num(h.rescode) == b % 16
            &&& h.checking_disabled == ((b / 16) % 2 == 1)
            &&& h.authed_data == ((b / 32) % 2 == 1)
            &&& h.z == ((b / 64) % 2 == 1)
            &&& h.recursion_available == (b / 128 == 1)
        }),
{
    let a = bit(h.recursion_desired, 1) + bit(h.truncated_message, 2) + bit(h.authoritative_answer, 4)
        + h.opcode * 8 + bit(h.response, 128);
    assert(flags_hi(h) == a);
    let c = crate::protocol::result_code_num(h.rescode) as int;
    let b = c + bit(h.checking_disabled, 16) + bit(h.authed_data, 32) + bit(h.z, 64) + bit(
        h.recursion_available,
        128,
    );
    assert(flags_lo(h) == b);
}

proof fn lemma_header_round_trip(buf: Seq<u8>, pos: int, h: DnsHeader)
    requires
        h.opcode < 16,
        holds_at(buf, pos, header_wire(h)),
    ensures
        parse_header(buf, pos) == Ok::<(DnsHeader, int), DecodeError>((h, pos + 12)),
{
    let w = header_wire(h);
    let f = seq![flags_hi(h), flags_lo(h)];
    let c = be16(h.questions) + be16(h.answers) + be16(h.authoritative_entries) + be16(h.resource_entries);
    assert(w =~= be16(h.id) + (f + c));
    lemma_holds_split(buf, pos, be16(h.id), f + c);
    lemma_holds_split(buf, pos + 2, f, c);
    assert(buf.subrange(pos + 2, pos + 4)[0] == buf[pos + 2]);
    assert(buf.subrange(pos + 2, pos + 4)[1] == buf[pos + 3]);
    lemma_holds_split(buf, pos + 4, be16(h.questions) + be16(h.answers) + be16(h.authoritative_entries), be16(h.resource_entries));
    lemma_holds_split(buf, pos + 4, be16(h.questions) + be16(h.answers), be16(h.authoritative_entries));
    lemma_holds_split(buf, pos + 4, be16(h.questions), be16(h.answers));
    lemma_u16_round_trip(buf, pos, h.id);
    lemma_u16_round_trip(buf, pos + 4, h.questions);
    lemma_u16_round_trip(buf, pos + 6, h.answers);
    lemma_u16_round_trip(buf, pos + 8, h.authoritative_entries);
    lemma_u16_round_trip(buf, pos + 10, h.resource_entries);
    lemma_flags_round_trip(h);
    let rc = h.rescode;
    assert(crate::protocol::result_code_from(crate::protocol::result_code_num(rc)) == rc);
}

/// A question type that reads back as itself: not an `UNKNOWN` code that
/// has a name.
pub open spec fn query_type_canonical(q: QueryType) -> bool {
    query_type_from(query_type_num(q)) == q
}

/// A record that reads back as itself: not an `UNKNOWN` of a type that the
/// decoder reads by its fields.
pub open spec fn record_canonical(r: RecordView) -> bool {
    match r {
        RecordView::UNKNOWN { qtype, .. } => qtype != 1 && qtype != 2 && qtype != 5 && qtype != 6
            && qtype != 15,
        _ => true,
    }
}

proof fn lemma_question_round_trip(buf: Seq<u8>, pos: int, q: QuestionView)
    requires
        name_ok(q.name),
        query_type_canonical(q.qtype),
        holds_at(buf, pos, question_wire(q)),
    ensures
        parse_question(buf, pos) == Ok::<(QuestionView, int), DecodeError>(
            (q, pos + question_wire(q).len()),
        ),
{
    let nw = name_wire(q.name);
    assert(question_wire(q) =~= nw + (be16(query_type_num(q.qtype)) + be16(1)));
    lemma_holds_split(buf, pos, nw, be16(query_type_num(q.qtype)) + be16(1));
    lemma_holds_split(buf, pos + nw.len(), be16(query_type_num(q.qtype)), be16(1));
    lemma_name_round_trip(buf, pos, q.name);
    lemma_u16_round_trip(buf, pos + nw.len(), query_type_num(q.qtype));
    lemma_u16_round_trip(buf, pos + nw.len() + 2, 1);
}

proof fn lemma_record_round_trip(buf: Seq<u8>, pos: int, r: RecordView)
    requires
        record_ok(r),
        record_canonical(r),
        holds_at(buf, pos, record_wire(r)),
    ensures
        parse_record(buf, pos) == Ok::<(RecordView, int), DecodeError>(
            (r, pos + record_wire(r).len()),
        ),
{
    let domain = crate::wire::record_domain(r);
    let nw = name_wire(domain);
    let t = crate::wire::record_type(r);
    let ttl = crate::wire::record_ttl(r);
    let d = record_data(r);
    let fixed = be16(t) + be16(1) + be32(ttl) + be16(d.len() as u16);
    assert(record_wire(r) =~= nw + (fixed + d));
    lemma_holds_split(buf, pos, nw, fixed + d);
    let p1 = pos + nw.len();
    lemma_holds_split(buf, p1, fixed, d);
    lemma_holds_split(buf, p1, be16(t) + be16(1) + be32(ttl), be16(d.len() as u16));
    lemma_holds_split(buf, p1, be16(t) + be16(1), be32(ttl));
    lemma_holds_split(buf, p1, be16(t), be16(1));
    lemma_name_round_trip(buf, pos, domain);
    lemma_u16_round_trip(buf, p1, t);
    lemma_u32_round_trip(buf, p1 + 4, ttl);
    lemma_u16_round_trip(buf, p1 + 8, d.len() as u16);
    lemma_record_data_round_trip(buf, p1 + 10, r);
}

proof fn lemma_record_data_round_trip(buf: Seq<u8>, p: int, r: RecordView)
    requires
        record_ok(r),
        record_canonical(r),
        holds_at(buf, p, record_data(r)),
    ensures
        parse_record_data(
            buf,
            p,
            crate::wire::record_domain(r),
            crate::wire::record_type(r),
            record_data(r).len() as u16,
            crate::wire::record_ttl(r),
        ) == Ok::<(RecordView, int), DecodeError>((r, p + record_data(r).len())),
{
    let d = record_data(r);
    match r {
        RecordView::UNKNOWN { .. } => {},
        RecordView::A { addr, .. } => {
            assert(buf.subrange(p, p + 4)[0] == buf[p]);
            assert(buf.subrange(p, p + 4)[1] == buf[p + 1]);
            assert(buf.subrange(p, p + 4)[2] == buf[p + 2]);
            assert(buf.subrange(p, p + 4)[3] == buf[p + 3]);
        },
        RecordView::NS { host, .. } => {
            lemma_name_round_trip(buf, p, host);
        },
        RecordView::CNAME { host, .. } => {
            lemma_name_round_trip(buf, p, host);
        },
        RecordView::MX { priority, host, .. } => {
            lemma_holds_split(buf, p, be16(priority), name_wire(host));
            lemma_u16_round_trip(buf, p, priority);
            lemma_name_round_trip(buf, p + 2, host);
        },
        RecordView::SOA { m_name, r_name, serial, refresh, retry, expire, minimum, .. } => {
            let mw = name_wire(m_name);
            let rw = name_wire(r_name);
            let nums = be32(serial) + be32(refresh) + be32(retry) + be32(expire) + be32(minimum);
            assert(d =~= mw + (rw + nums));
            lemma_holds_split(buf, p, mw, rw + nums);
            lemma_holds_split(buf, p + mw.len(), rw, nums);
            lemma_name_round_trip(buf, p, m_name);
            lemma_name_round_trip(buf, p + mw.len(), r_name);
            let p2 = p + mw.len() + rw.len();
            lemma_holds_split(buf, p2, be32(serial) + be32(refresh) + be32(retry) + be32(expire), be32(minimum));
            lemma_holds_split(buf, p2, be32(serial) + be32(refresh) + be32(retry), be32(expire));
            lemma_holds_split(buf, p2, be32(serial) + be32(refresh), be32(retry));
            lemma_holds_split(buf, p2, be32(serial), be32(refresh));
            lemma_u32_round_trip(buf, p2, serial);
            lemma_u32_round_trip(buf, p2 + 4, refresh);
            lemma_u32_round_trip(buf, p2 + 8, retry);
            lemma_u32_round_trip(buf, p2 + 12, expire);
            lemma_u32_round_trip(buf, p2 + 16, minimum);
        },
    }
}

proof fn lemma_questions_round_trip(buf: Seq<u8>, pos: int, qs: Seq<QuestionView>)
    requires
        forall|i: int| 0 <= i < qs.len() ==> name_ok(#[trigger] qs[i].name),
        forall|i: int| 0 <= i < qs.len() ==> query_type_canonical(#[trigger] qs[i].qtype),
        holds_at(buf, pos, questions_wire(qs)),
    ensures
        parse_questions(buf, pos, qs.len()) == Ok::<(Seq<QuestionView>, int), DecodeError>(
            (qs, pos + questions_wire(qs).len()),
        ),
    decreases qs.len(),
{
    if qs.len() == 0 {
        assert(qs =~= Seq::<QuestionView>::empty());
    } else {
        let init = qs.drop_last();
        lemma_holds_split(buf, pos, questions_wire(init), question_wire(qs.last()));
        assert forall|i: int| 0 <= i < init.len() implies name_ok(#[trigger] init[i].name) by {
            assert(init[i] == qs[i]);
        }
        assert forall|i: int| 0 <= i < init.len() implies query_type_canonical(#[trigger] init[i].qtype) by {
            assert(init[i] == qs[i]);
        }
        lemma_questions_round_trip(buf, pos, init);
        assert(name_ok(qs[qs.len() - 1].name));
        assert(query_type_canonical(qs[qs.len() - 1].qtype));
        lemma_question_round_trip(buf, pos + questions_wire(init).len(), qs.last());
        assert(init.push(qs.last()) =~= qs);
    }
}

proof fn lemma_records_round_trip(buf: Seq<u8>, pos: int, rs: Seq<RecordView>)
    requires
        forall|i: int| 0 <= i < rs.len() ==> record_ok(#[trigger] rs[i]),
        forall|i: int| 0 <= i < rs.len() ==> record_canonical(#[trigger] rs[i]),
        holds_at(buf, pos, records_wire(rs)),
    ensures
        parse_records(buf, pos, rs.len()) == Ok::<(Seq<RecordView>, int), DecodeError>(
            (rs, pos + records_wire(rs).len()),
        ),
    decreases rs.len(),
{
    if rs.len() == 0 {
        assert(rs =~= Seq::<RecordView>::empty());
    } else {
        let init = rs.drop_last();
        lemma_holds_split(buf, pos, records_wire(init), record_wire(rs.last()));
        assert forall|i: int| 0 <= i < init.len() implies record_ok(#[trigger] init[i]) by {
            assert(init[i] == rs[i]);
        }
        assert forall|i: int| 0 <= i < init.len() implies record_canonical(#[trigger] init[i]) by {
            assert(init[i] == rs[i]);
        }
        lemma_records_round_trip(buf, pos, init);
        assert(record_ok(rs[rs.len() - 1]));
        assert(record_canonical(rs[rs.len() - 1]));
        lemma_record_round_trip(buf, pos + records_wire(init).len(), rs.last());
        assert(init.push(rs.last()) =~= rs);
    }
}

/// A message that decoding can give back exactly: the header counts equal
/// the section lengths, the opcode fits its four bits, and no type code is
/// kept as `UNKNOWN` where the decoder has a name for it.
pub open spec fn packet_canonical(p: PacketView) -> bool {
    &&& p.header.questions == p.questions.len()
    &&& p.header.answers == p.answers.len()
    &&& p.header.authoritative_entries == p.authorities.len()
    &&& p.header.resource_entries == p.resources.len()
    &&& p.header.opcode < 16
    &&& forall|i: int| 0 <= i < p.questions.len() ==> query_type_canonical(#[trigger] p.questions[i].qtype)
    &&& forall|i: int| 0 <= i < p.answers.len() ==> record_canonical(#[trigger] p.answers[i])
    &&& forall|i: int| 0 <= i < p.authorities.len() ==> record_canonical(#[trigger] p.authorities[i])
    &&& forall|i: int| 0 <= i < p.resources.len() ==> record_canonical(#[trigger] p.resources[i])
}

/// Round trip: decoding the bytes that encoding writes for a message gives
/// back the same header and the same sections. Encoding writes names without
/// compression, so decoding never follows a pointer here.
pub proof fn lemma_round_trip(p: PacketView)
    requires
        packet_ok(p),
        packet_canonical(p),
        packet_wire(p).len() <= PACKET_SIZE,
    ensures
        parse_packet(buffer_of(packet_wire(p)), 0) == Ok::<PacketView, DecodeError>(p),
{
    lemma_buffer_holds(packet_wire(p));
    lemma_round_trip_in(buffer_of(packet_wire(p)), p);
}

proof fn lemma_round_trip_in(buf: Seq<u8>, p: PacketView)
    requires
        packet_ok(p),
        packet_canonical(p),
        holds_at(buf, 0, packet_wire(p)),
    ensures
        parse_packet(buf, 0) == Ok::<PacketView, DecodeError>(p),
{
    lemma_packet_wire_parts(p);
    lemma_split_sections(
        buf,
        header_wire(p.header),
        questions_wire(p.questions),
        records_wire(p.answers),
        records_wire(p.authorities),
        records_wire(p.resources),
    );
    lemma_sections_round_trip(buf, p);
}

proof fn lemma_packet_wire_parts(p: PacketView)
    requires
        p.header.questions == p.questions.len(),
        p.header.answers == p.answers.len(),
        p.header.authoritative_entries == p.authorities.len(),
        p.header.resource_entries == p.resources.len(),
    ensures
        packet_wire(p) == header_wire(p.header) + questions_wire(p.questions) + records_wire(
            p.answers,
        ) + records_wire(p.authorities) + records_wire(p.resources),
{
    let c = counted_header(p);
    assert(c.questions == p.header.questions);
    assert(c.answers == p.header.answers);
    assert(c.authoritative_entries == p.header.authoritative_entries);
    assert(c.resource_entries == p.header.resource_entries);
    assert(c == p.header);
}

proof fn lemma_split_sections(buf: Seq<u8>, hw: Seq<u8>, qw: Seq<u8>, aw: Seq<u8>, nw: Seq<u8>, rw: Seq<u8>)
    requires
        hw.len() == 12,
        holds_at(buf, 0, hw + qw + aw + nw + rw),
    ensures
        holds_at(buf, 0, hw),
        holds_at(buf, 12, qw),
        holds_at(buf, 12int + qw.len(), aw),
        holds_at(buf, 12int + qw.len() + aw.len(), nw),
        holds_at(buf, 12int + qw.len() + aw.len() + nw.len(), rw),
{
    lemma_holds_split(buf, 0, hw + qw + aw + nw, rw);
    lemma_holds_split(buf, 0, hw + qw + aw, nw);
    lemma_holds_split(buf, 0, hw + qw, aw);
    lemma_holds_split(buf, 0, hw, qw);
}

proof fn lemma_buffer_holds(w: Seq<u8>)
    requires
        w.len() <= PACKET_SIZE,
    ensures
        holds_at(buffer_of(w), 0, w),
{
    assert(buffer_of(w).subrange(0, w.len() as int) =~= w);
}

proof fn lemma_sections_round_trip(buf: Seq<u8>, p: PacketView)
    requires
        packet_ok(p),
        packet_canonical(p),
        holds_at(buf, 0, header_wire(p.header)),
        holds_at(buf, 12, questions_wire(p.questions)),
        holds_at(buf, 12int + questions_wire(p.questions).len(), records_wire(p.answers)),
        holds_at(
            buf,
            12int + questions_wire(p.questions).len() + records_wire(p.answers).len(),
            records_wire(p.authorities),
        ),
        holds_at(
            buf,
            12int + questions_wire(p.questions).len() + records_wire(p.answers).len() + records_wire(
                p.authorities,
            ).len(),
            records_wire(p.resources),
        ),
    ensures
        parse_packet(buf, 0) == Ok::<PacketView, DecodeError>(p),
{
    let h = p.header;
    let p1 = 12int + questions_wire(p.questions).len();
    let p2 = p1 + records_wire(p.answers).len();
    let p3 = p2 + records_wire(p.authorities).len();
    lemma_header_round_trip(buf, 0, h);
    lemma_questions_round_trip(buf, 12, p.questions);
    lemma_records_round_trip(buf, p1, p.answers);
    lemma_records_round_trip(buf, p2, p.authorities);
    lemma_records_round_trip(buf, p3, p.resources);
}

// ----- the records table and resolution -----

/// A stored name resolves to its own address: no other key covers it
/// with a longer name.
pub proof fn lemma_exact_key(host: Seq<char>, m: Map<Seq<char>, Ipv4Addr>)
    requires
        m.contains_key(host),
    ensures
        resolved_addr(host, m) == m[host],
{
    assert forall|k: Seq<char>| #[trigger] m.contains_key(k) && covers(host, k) implies k.len() <= host.len() by {}
    assert(is_best_key(host, m, host));
    let c = choose|c: Seq<char>| is_best_key(host, m, c);
    crate::resolve::lemma_covering_keys_equal(host, c, host);
}

proof fn lemma_load_keeps_line(lines: Seq<Seq<char>>, tld: Seq<char>, j: int)
    requires
        load_lines(lines, tld) is Loaded,
        0 <= j < lines.len(),
        !is_skipped_line(lines[j]),
        parse_line_spec(lines[j]) is Some,
        ends_with(parse_line_spec(lines[j])->Some_0.0, tld),
    ensures
        ({
            let (h, ip) = parse_line_spec(lines[j])->Some_0;
            let m = load_lines(lines, tld)->Loaded_0;
            m.contains_key(h) && m[h] == ip
        }),
    decreases lines.len(),
{
    let init = lines.drop_last();
    let (h, ip) = parse_line_spec(lines[j])->Some_0;
    if j < lines.len() - 1 {
        assert(init[j] == lines[j]);
        lemma_load_keeps_line(init, tld, j);
        lemma_seen_names_contains(init, j);
    }
}

/// A line before the end has its hostname among the names seen.
proof fn lemma_seen_names_contains(lines: Seq<Seq<char>>, j: int)
    requires
        0 <= j < lines.len(),
        line_name(lines[j]) is Some,
    ensures
        seen_names(lines).contains(line_name(lines[j])->Some_0),
    decreases lines.len(),
{
    if j < lines.len() - 1 {
        assert(lines.drop_last()[j] == lines[j]);
        lemma_seen_names_contains(lines.drop_last(), j);
    }
}

proof fn lemma_loaded_keys_end_with(lines: Seq<Seq<char>>, tld: Seq<char>)
    requires
        load_lines(lines, tld) is Loaded,
    ensures
        forall|k: Seq<char>| #[trigger] load_lines(lines, tld)->Loaded_0.contains_key(k) ==> ends_with(k, tld),
    decreases lines.len(),
{
    if lines.len() > 0 {
        lemma_loaded_keys_end_with(lines.drop_last(), tld);
    }
}

/// Every key that a load keeps ends with the suffix.
pub proof fn lemma_load_suffix(contents: Seq<char>, tld: Seq<char>)
    requires
        load_spec(contents, tld) is Loaded,
    ensures
        forall|k: Seq<char>| #[trigger] load_spec(contents, tld)->Loaded_0.contains_key(k) ==> ends_with(k, tld),
{
    lemma_loaded_keys_end_with(lines_spec(contents), tld);
}

/// A loaded line is found again: when a records text loads, each of its
/// lines `hostname:address` whose hostname ends with the suffix is in the
/// table, and looking that hostname up gives that address.
pub proof fn lemma_load_then_lookup(contents: Seq<char>, tld: Seq<char>, j: int)
    requires
        load_spec(contents, tld) is Loaded,
        0 <= j < lines_spec(contents).len(),
        !is_skipped_line(lines_spec(contents)[j]),
        parse_line_spec(lines_spec(contents)[j]) is Some,
        ends_with(parse_line_spec(lines_spec(contents)[j])->Some_0.0, tld),
    ensures
        ({
            let (h, ip) = parse_line_spec(lines_spec(contents)[j])->Some_0;
            let m = load_spec(contents, tld)->Loaded_0;
            &&& m.contains_key(h)
            &&& m[h] == ip
            &&& lookup_name_spec(h, m, tld) == Ok::<Ipv4Addr, crate::server::LookupError>(ip)
        }),
{
    let (h, ip) = parse_line_spec(lines_spec(contents)[j])->Some_0;
    lemma_load_keeps_line(lines_spec(contents), tld, j);
    lemma_exact_key(h, load_spec(contents, tld)->Loaded_0);
}

/// A request for an A record about `name` alone, with `id`.
pub open spec fn a_query(id: u16, name: Seq<char>) -> PacketView {
    PacketView {
        header: DnsHeader { id, ..crate::protocol::empty_header() },
        questions: seq![QuestionView { name, qtype: QueryType::A }],
        answers: Seq::empty(),
        authorities: Seq::empty(),
        resources: Seq::empty(),
    }
}

/// A name under the suffix that no stored key covers resolves to 127.0.0.1.
pub proof fn lemma_unknown_name_is_localhost(
    host: Seq<char>,
    m: Map<Seq<char>, Ipv4Addr>,
    tld: Seq<char>,
    id: u16,
)
    requires
        ends_with(host, tld),
        forall|k: Seq<char>| #[trigger] m.contains_key(k) ==> !covers(host, k),
    ensures
        resolved_addr(host, m) == localhost_spec(),
        lookup_name_spec(host, m, tld) == Ok::<Ipv4Addr, crate::server::LookupError>(localhost_spec()),
        lookup_spec(a_query(id, host), m, tld).answers == seq![
            RecordView::A { domain: host, addr: localhost_spec(), ttl: 0 },
        ],
{
}

/// A name below a stored key gets that key's address, where no longer
/// stored key covers the name.
pub proof fn lemma_subdomain_inherits(
    sub: Seq<char>,
    key: Seq<char>,
    m: Map<Seq<char>, Ipv4Addr>,
    tld: Seq<char>,
    id: u16,
)
    requires
        m.contains_key(key),
        ends_with(sub + seq!['.'] + key, tld),
        forall|k: Seq<char>|
            #[trigger] m.contains_key(k) && covers(sub + seq!['.'] + key, k) ==> k.len() <= key.len(),
    ensures
        resolved_addr(sub + seq!['.'] + key, m) == m[key],
        lookup_name_spec(sub + seq!['.'] + key, m, tld) == Ok::<Ipv4Addr, crate::server::LookupError>(m[key]),
        lookup_spec(a_query(id, sub + seq!['.'] + key), m, tld).answers == seq![
            RecordView::A { domain: sub + seq!['.'] + key, addr: m[key], ttl: 0 },
        ],
{
    let host = sub + seq!['.'] + key;
    let dk = seq!['.'] + key;
    assert(host.subrange(host.len() - dk.len(), host.len() as int) =~= dk);
    assert(covers(host, key));
    assert(is_best_key(host, m, key));
    let c = choose|c: Seq<char>| is_best_key(host, m, c);
    crate::resolve::lemma_covering_keys_equal(host, c, key);
}

/// A request without questions is answered NOTIMP, with no answers, whatever
/// its header holds.
pub proof fn lemma_no_question_not_implemented(req: PacketView, m: Map<Seq<char>, Ipv4Addr>, tld: Seq<char>)
    requires
        req.questions.len() == 0,
    ensures
        lookup_spec(req, m, tld).header.rescode == ResultCode::NOTIMP,
        lookup_spec(req, m, tld).answers.len() == 0,
{
}

/// A request that is itself a response, or has a non-zero opcode, is
/// answered NOTIMP.
pub proof fn lemma_response_or_opcode_not_implemented(
    req: PacketView,
    m: Map<Seq<char>, Ipv4Addr>,
    tld: Seq<char>,
)
    requires
        req.header.response || req.header.opcode != 0,
    ensures
        lookup_spec(req, m, tld).header.rescode == ResultCode::NOTIMP,
        lookup_spec(req, m, tld).answers.len() == 0,
{
}

/// A query for a name outside the suffix is answered SERVFAIL, with no
/// answers (a request that is a response, or has a non-zero opcode, gets
/// NOTIMP first).
pub proof fn lemma_foreign_name_server_failure(req: PacketView, m: Map<Seq<char>, Ipv4Addr>, tld: Seq<char>)
    requires
        req.questions.len() > 0,
        !req.header.response,
        req.header.opcode == 0,
        !ends_with(req.questions[0].name, tld),
    ensures
        lookup_spec(req, m, tld).header.rescode == ResultCode::SERVFAIL,
        lookup_spec(req, m, tld).answers.len() == 0,
{
}

/// Merging a records text that holds a stored key gives that key the merged
/// address; reloading the original text afterwards gives back the original
/// table, and with it the original address.
pub proof fn lemma_merge_then_reload(
    original: Seq<char>,
    merged: Seq<char>,
    tld: Seq<char>,
    key: Seq<char>,
)
    requires
        load_spec(original, tld) is Loaded,
        load_spec(merged, tld) is Loaded,
        load_spec(original, tld)->Loaded_0.contains_key(key),
        load_spec(merged, tld)->Loaded_0.contains_key(key),
    ensures
        ({
            let m0 = load_spec(original, tld)->Loaded_0;
            let m2 = load_spec(merged, tld)->Loaded_0;
            let after_merge = m0.union_prefer_right(m2);
            let after_reload = load_spec(original, tld)->Loaded_0;
            &&& after_merge[key] == m2[key]
            &&& lookup_name_spec(key, after_merge, tld) == Ok::<Ipv4Addr, crate::server::LookupError>(m2[key])
            &&& after_reload == m0
            &&& lookup_name_spec(key, after_reload, tld) == Ok::<Ipv4Addr, crate::server::LookupError>(m0[key])
        }),
{
    let m0 = load_spec(original, tld)->Loaded_0;
    let m2 = load_spec(merged, tld)->Loaded_0;
    lemma_load_suffix(original, tld);
    assert(ends_with(key, tld));
    lemma_exact_key(key, m0.union_prefer_right(m2));
    lemma_exact_key(key, m0);
}

proof fn lemma_failure_persists(lines: Seq<Seq<char>>, tld: Seq<char>, n: int)
    requires
        0 <= n <= lines.len(),
        !(load_lines(lines.take(n), tld) is Loaded),
    ensures
        !(load_lines(lines, tld) is Loaded),
    decreases lines.len() - n,
{
    if n < lines.len() {
        assert(lines.take(n + 1).drop_last() =~= lines.take(n));
        lemma_failure_persists(lines, tld, n + 1);
    } else {
        assert(lines.take(n) =~= lines);
    }
}

/// A hostname named on two record lines of one text makes the load fail,
/// whether or not the hostname ends with the suffix.
pub proof fn lemma_duplicate_hostname_fails(contents: Seq<char>, tld: Seq<char>, j: int, k: int)
    requires
        0 <= j < k < lines_spec(contents).len(),
        line_name(lines_spec(contents)[j]) is Some,
        line_name(lines_spec(contents)[k]) == line_name(lines_spec(contents)[j]),
    ensures
        !(load_spec(contents, tld) is Loaded),
{
    let lines = lines_spec(contents);
    let pre = lines.take(k + 1);
    assert(pre.drop_last() =~= lines.take(k));
    assert(lines.take(k)[j] == lines[j]);
    lemma_seen_names_contains(lines.take(k), j);
    assert(pre.last() == lines[k]);
    lemma_failure_persists(lines, tld, k + 1);
}

} // verus!
