//! Reading and writing whole messages through a [`BytePacketBuffer`].
use vstd::prelude::*;
use crate::buffer::{appended, name_is_valid, BytePacketBuffer};
use crate::ipv4::Ipv4Addr;
use crate::protocol::{
    DnsHeader, DnsPacket, DnsQuestion, DnsRecord, QueryType, QuestionView,
    RecordView, ResultCode, records_view,
};
use crate::wire::{
    be16, be32, buffer_of, counted_header, flags_hi, flags_lo, header_wire, lemma_parse_questions_err, lemma_parse_records_err, lemma_questions_wire_prefix,
    lemma_records_wire_prefix, name_ok, name_wire, packet_ok, packet_wire, parse_header,
    parse_name, parse_packet, parse_question, parse_questions, parse_record, parse_record_data,
    parse_records, question_wire, questions_wire, record_data, record_ok, record_wire,
    records_wire, DecodeError, EncodeError, PACKET_SIZE,
};

verus! {

impl DnsHeader {
    /// Reads the twelve header bytes at the cursor.
    pub fn read(buffer: &mut BytePacketBuffer) -> (r: Result<DnsHeader, DecodeError>)
        requires
            old(buffer).wf(),
        ensures
            final(buffer).data() == old(buffer).data(),
            match parse_header(old(buffer).data(), old(buffer).cursor()) {
                Ok((h, p)) => r == Ok::<DnsHeader, DecodeError>(h) && final(buffer).cursor() == p,
                Err(e) => r == Err::<DnsHeader, DecodeError>(e),
            },
    {
        let id = buffer.read_u16()?;
        let a = buffer.read()?;
        let b = buffer.read()?;
        let questions = buffer.read_u16()?;
        let answers = buffer.read_u16()?;
        let authoritative_entries = buffer.read_u16()?;
        let resource_entries = buffer.read_u16()?;
        Ok(
            DnsHeader {
                id,
                recursion_desired: a % 2 == 1,
                truncated_message: (a / 2) % 2 == 1,
                authoritative_answer: (a / 4) % 2 == 1,
                opcode: (a / 8) % 16,
                response: a / 128 == 1,
                rescode: ResultCode::from_num(b % 16),
                checking_disabled: (b / 16) % 2 == 1,
                authed_data: (b / 32) % 2 == 1,
                z: (b / 64) % 2 == 1,
                recursion_available: b / 128 == 1,
                questions,
                answers,
                authoritative_entries,
                resource_entries,
            },
        )
    }
}

impl DnsQuestion {
    /// Reads a question at the cursor.
    pub fn read(buffer: &mut BytePacketBuffer) -> (r: Result<DnsQuestion, DecodeError>)
        requires
            old(buffer).wf(),
        ensures
            final(buffer).data() == old(buffer).data(),
            match parse_question(old(buffer).data(), old(buffer).cursor()) {
                Ok((q, p)) => r matches Ok(v) && v@ == q && final(buffer).cursor() == p,
                Err(e) => r == Err::<DnsQuestion, DecodeError>(e),
            },
    {
        let name = buffer.read_qname()?;
        let t = buffer.read_u16()?;
        let _class = buffer.read_u16()?;
        Ok(DnsQuestion { name, qtype: QueryType::from_num(t) })
    }
}

impl DnsRecord {
    /// Reads a record at the cursor.
    pub fn read(buffer: &mut BytePacketBuffer) -> (r: Result<DnsRecord, DecodeError>)
        requires
            old(buffer).wf(),
        ensures
            final(buffer).data() == old(buffer).data(),
            match parse_record(old(buffer).data(), old(buffer).cursor()) {
                Ok((rv, p)) => r matches Ok(v) && v@ == rv && final(buffer).cursor() == p,
                Err(e) => r == Err::<DnsRecord, DecodeError>(e),
            },
    {
        let ghost buf = buffer.data();
        let ghost c0 = buffer.cursor();
        let domain = buffer.read_qname()?;
        if buffer.pos() > PACKET_SIZE - 10 {
            return Err(DecodeError::BufferOverflow);
        }
        let ghost p1 = buffer.cursor();
        let qtype_num = buffer.read_u16()?;
        let _class = buffer.read_u16()?;
        let ttl = buffer.read_u32()?;
        let data_len = buffer.read_u16()?;
        let ghost p = buffer.cursor();
        proof {
            assert(parse_name(buf, c0) == Ok::<(Seq<char>, int), DecodeError>((domain@, p1)));
            assert(parse_record(buf, c0) == parse_record_data(buf, p, domain@, qtype_num, data_len, ttl));
        }
        match qtype_num {
            1 => {
                let a = buffer.read()?;
                let b = buffer.read()?;
                let c = buffer.read()?;
                let d = buffer.read()?;
                Ok(DnsRecord::A { domain, addr: Ipv4Addr { a, b, c, d }, ttl })
            },
            2 => {
                let host = buffer.read_qname()?;
                Ok(DnsRecord::NS { domain, host, ttl })
            },
            5 => {
                let host = buffer.read_qname()?;
                Ok(DnsRecord::CNAME { domain, host, ttl })
            },
            15 => {
                let priority = buffer.read_u16()?;
                let host = buffer.read_qname()?;
                Ok(DnsRecord::MX { domain, priority, host, ttl })
            },
            6 => {
                let m_name = buffer.read_qname()?;
                let r_name = buffer.read_qname()?;
                if buffer.pos() > PACKET_SIZE - 20 {
                    return Err(DecodeError::BufferOverflow);
                }
                let serial = buffer.read_u32()?;
                let refresh = buffer.read_u32()?;
                let retry = buffer.read_u32()?;
                let expire = buffer.read_u32()?;
                let minimum = buffer.read_u32()?;
                Ok(
                    DnsRecord::SOA {
                        domain,
                        m_name,
                        r_name,
                        serial,
                        refresh,
                        retry,
                        expire,
                        minimum,
                        ttl,
                    },
                )
            },
            _ => {
                buffer.step(data_len as usize);
                Ok(DnsRecord::UNKNOWN { domain, qtype: qtype_num, data_len, ttl })
            },
        }
    }
}

fn read_questions(buffer: &mut BytePacketBuffer, n: u16) -> (r: Result<Vec<DnsQuestion>, DecodeError>)
    requires
        old(buffer).wf(),
    ensures
        final(buffer).data() == old(buffer).data(),
        match parse_questions(old(buffer).data(), old(buffer).cursor(), n as nat) {
            Ok((qs, p)) => r matches Ok(v) && v@.map_values(|q: DnsQuestion| q@) == qs
                && final(buffer).cursor() == p,
            Err(e) => r == Err::<Vec<DnsQuestion>, DecodeError>(e),
        },
{
    let ghost buf = buffer.data();
    let ghost start = buffer.cursor();
    let mut out: Vec<DnsQuestion> = Vec::new();
    let mut i: u16 = 0;
    assert(out@.map_values(|q: DnsQuestion| q@) =~= Seq::<QuestionView>::empty());
    while i < n
        invariant
            buffer.wf(),
            buffer.data() == buf,
            buf == old(buffer).data(),
            start == old(buffer).cursor(),
            i <= n,
            parse_questions(buf, start, i as nat) == Ok::<(Seq<QuestionView>, int), DecodeError>(
                (out@.map_values(|q: DnsQuestion| q@), buffer.cursor()),
            ),
        decreases n - i,
    {
        match DnsQuestion::read(buffer) {
            Ok(q) => {
                out.push(q);
                i += 1;
                assert(out@.map_values(|q: DnsQuestion| q@) =~= parse_questions(buf, start, i as nat)->Ok_0.0);
            },
            Err(e) => {
                proof {
                    lemma_parse_questions_err(buf, start, (i + 1) as nat, n as nat);
                }
                return Err(e);
            },
        }
    }
    Ok(out)
}

fn read_records(buffer: &mut BytePacketBuffer, n: u16) -> (r: Result<Vec<DnsRecord>, DecodeError>)
    requires
        old(buffer).wf(),
    ensures
        final(buffer).data() == old(buffer).data(),
        match parse_records(old(buffer).data(), old(buffer).cursor(), n as nat) {
            Ok((rs, p)) => r matches Ok(v) && records_view(v@) == rs && final(buffer).cursor() == p,
            Err(e) => r == Err::<Vec<DnsRecord>, DecodeError>(e),
        },
{
    let ghost buf = buffer.data();
    let ghost start = buffer.cursor();
    let mut out: Vec<DnsRecord> = Vec::new();
    let mut i: u16 = 0;
    assert(records_view(out@) =~= Seq::<RecordView>::empty());
    while i < n
        invariant
            buffer.wf(),
            buffer.data() == buf,
            buf == old(buffer).data(),
            start == old(buffer).cursor(),
            i <= n,
            parse_records(buf, start, i as nat) == Ok::<(Seq<RecordView>, int), DecodeError>(
                (records_view(out@), buffer.cursor()),
            ),
        decreases n - i,
    {
        match DnsRecord::read(buffer) {
            Ok(rec) => {
                out.push(rec);
                i += 1;
                assert(records_view(out@) =~= parse_records(buf, start, i as nat)->Ok_0.0);
            },
            Err(e) => {
                proof {
                    lemma_parse_records_err(buf, start, (i + 1) as nat, n as nat);
                }
                return Err(e);
            },
        }
    }
    Ok(out)
}

impl DnsPacket {
    /// Reads a whole message from the cursor on.
    pub fn from_buffer(buffer: &mut BytePacketBuffer) -> (r: Result<DnsPacket, DecodeError>)
        requires
            old(buffer).wf(),
        ensures
            match parse_packet(old(buffer).data(), old(buffer).cursor()) {
                Ok(p) => r matches Ok(v) && v@ == p,
                Err(e) => r == Err::<DnsPacket, DecodeError>(e),
            },
    {
        let header = DnsHeader::read(buffer)?;
        let questions = read_questions(buffer, header.questions)?;
        let answers = read_records(buffer, header.answers)?;
        let authorities = read_records(buffer, header.authoritative_entries)?;
        let resources = read_records(buffer, header.resource_entries)?;
        Ok(DnsPacket { header, questions, answers, authorities, resources })
    }

    /// Reads the message that `data` holds (at most its first 512 bytes).
    pub fn decode(data: &[u8]) -> (r: Result<DnsPacket, DecodeError>)
        ensures
            match parse_packet(buffer_of(data@), 0) {
                Ok(p) => r matches Ok(v) && v@ == p,
                Err(e) => r == Err::<DnsPacket, DecodeError>(e),
            },
    {
        let mut buffer = BytePacketBuffer::from_bytes(data);
        DnsPacket::from_buffer(&mut buffer)
    }
}

// ----- writing -----

impl DnsHeader {
    /// Writes the twelve header bytes at the cursor.
    pub fn write(&self, buffer: &mut BytePacketBuffer) -> (r: Result<(), EncodeError>)
        requires
            old(buffer).wf(),
            old(buffer).cursor() <= PACKET_SIZE,
        ensures
            final(buffer).wf(),
            final(buffer).cursor() <= PACKET_SIZE,
            appended(old(buffer).written(), old(buffer).cursor(), final(buffer).written(), final(buffer).cursor(), r, header_wire(*self)),
    {
        let ghost w0 = buffer.written();
        let hi: u8 = (if self.recursion_desired { 1u8 } else { 0u8 }) + (if self.truncated_message {
            2u8
        } else {
            0u8
        }) + (if self.authoritative_answer { 4u8 } else { 0u8 }) + (self.opcode % 16) * 8 + (
        if self.response {
            128u8
        } else {
            0u8
        });
        let lo: u8 = self.rescode.to_num() + (if self.checking_disabled { 16u8 } else { 0u8 }) + (
        if self.authed_data {
            32u8
        } else {
            0u8
        }) + (if self.z { 64u8 } else { 0u8 }) + (if self.recursion_available { 128u8 } else { 0u8 });
        assert(hi == flags_hi(*self));
        assert(lo == flags_lo(*self));
        buffer.write_u16(self.id)?;
        buffer.write(hi)?;
        buffer.write(lo)?;
        buffer.write_u16(self.questions)?;
        buffer.write_u16(self.answers)?;
        buffer.write_u16(self.authoritative_entries)?;
        buffer.write_u16(self.resource_entries)?;
        assert(buffer.written() =~= w0 + header_wire(*self));
        Ok(())
    }
}

impl DnsQuestion {
    /// Writes the question at the cursor, class IN.
    pub fn write(&self, buffer: &mut BytePacketBuffer) -> (r: Result<(), EncodeError>)
        requires
            old(buffer).wf(),
            old(buffer).cursor() <= PACKET_SIZE,
            name_ok(self.name@),
        ensures
            final(buffer).wf(),
            final(buffer).cursor() <= PACKET_SIZE,
            appended(old(buffer).written(), old(buffer).cursor(), final(buffer).written(), final(buffer).cursor(), r, question_wire(self@)),
    {
        let ghost w0 = buffer.written();
        buffer.write_qname(self.name.as_str())?;
        buffer.write_u16(self.qtype.to_num())?;
        buffer.write_u16(1)?;
        assert(buffer.written() =~= w0 + question_wire(self@));
        Ok(())
    }
}

impl DnsRecord {
    /// The wire code of this record's type.
    pub fn type_num(&self) -> (r: u16)
        ensures
            r == crate::wire::record_type(self@),
    {
        match self {
            DnsRecord::UNKNOWN { qtype, .. } => *qtype,
            DnsRecord::A { .. } => 1,
            DnsRecord::NS { .. } => 2,
            DnsRecord::CNAME { .. } => 5,
            DnsRecord::SOA { .. } => 6,
            DnsRecord::MX { .. } => 15,
        }
    }

    /// The owner name of this record.
    pub fn domain(&self) -> (r: &String)
        ensures
            r@ == crate::wire::record_domain(self@),
    {
        match self {
            DnsRecord::UNKNOWN { domain, .. } => domain,
            DnsRecord::A { domain, .. } => domain,
            DnsRecord::NS { domain, .. } => domain,
            DnsRecord::CNAME { domain, .. } => domain,
            DnsRecord::SOA { domain, .. } => domain,
            DnsRecord::MX { domain, .. } => domain,
        }
    }

    /// The time to live of this record.
    pub fn ttl(&self) -> (r: u32)
        ensures
            r == crate::wire::record_ttl(self@),
    {
        match self {
            DnsRecord::UNKNOWN { ttl, .. } => *ttl,
            DnsRecord::A { ttl, .. } => *ttl,
            DnsRecord::NS { ttl, .. } => *ttl,
            DnsRecord::CNAME { ttl, .. } => *ttl,
            DnsRecord::SOA { ttl, .. } => *ttl,
            DnsRecord::MX { ttl, .. } => *ttl,
        }
    }

    fn write_data(&self, buffer: &mut BytePacketBuffer) -> (r: Result<(), EncodeError>)
        requires
            old(buffer).wf(),
            old(buffer).cursor() <= PACKET_SIZE,
            record_ok(self@),
        ensures
            final(buffer).wf(),
            final(buffer).cursor() <= PACKET_SIZE,
            appended(old(buffer).written(), old(buffer).cursor(), final(buffer).written(), final(buffer).cursor(), r, record_data(self@)),
    {
        let ghost w0 = buffer.written();
        let ghost c0 = buffer.cursor();
        match self {
            DnsRecord::UNKNOWN { data_len, .. } => {
                let n = *data_len;
                let mut i: u16 = 0;
                while i < n
                    invariant
                        buffer.wf(),
                        buffer.cursor() <= PACKET_SIZE,
                        i <= n,
                        n == data_len,
                        record_data(self@) == Seq::new(n as nat, |k: int| 0u8),
                        c0 == old(buffer).cursor(),
                        w0 == old(buffer).written(),
                        buffer.cursor() == c0 + i,
                        buffer.written() == w0 + Seq::new(i as nat, |k: int| 0u8),
                    decreases n - i,
                {
                    let r = buffer.write(0);
                    if r.is_err() {
                        return r;
                    }
                    i += 1;
                    assert(buffer.written() =~= w0 + Seq::new(i as nat, |k: int| 0u8));
                }
                Ok(())
            },
            DnsRecord::A { addr, .. } => {
                buffer.write(addr.a)?;
                buffer.write(addr.b)?;
                buffer.write(addr.c)?;
                buffer.write(addr.d)?;
                assert(buffer.written() =~= w0 + record_data(self@));
                Ok(())
            },
            DnsRecord::NS { host, .. } => buffer.write_qname(host.as_str()),
            DnsRecord::CNAME { host, .. } => buffer.write_qname(host.as_str()),
            DnsRecord::MX { priority, host, .. } => {
                buffer.write_u16(*priority)?;
                buffer.write_qname(host.as_str())?;
                assert(buffer.written() =~= w0 + record_data(self@));
                Ok(())
            },
            DnsRecord::SOA { m_name, r_name, serial, refresh, retry, expire, minimum, .. } => {
                buffer.write_qname(m_name.as_str())?;
                buffer.write_qname(r_name.as_str())?;
                buffer.write_u32(*serial)?;
                buffer.write_u32(*refresh)?;
                buffer.write_u32(*retry)?;
                buffer.write_u32(*expire)?;
                buffer.write_u32(*minimum)?;
                assert(buffer.written() =~= w0 + record_data(self@));
                Ok(())
            },
        }
    }

    fn write_head(&self, buffer: &mut BytePacketBuffer) -> (r: Result<(), EncodeError>)
        requires
            old(buffer).wf(),
            old(buffer).cursor() <= PACKET_SIZE,
            record_ok(self@),
        ensures
            final(buffer).wf(),
            final(buffer).cursor() <= PACKET_SIZE,
            appended(old(buffer).written(), old(buffer).cursor(), final(buffer).written(), final(buffer).cursor(), r, record_head(self@)),
    {
        let ghost w0 = buffer.written();
        buffer.write_qname(self.domain().as_str())?;
        buffer.write_u16(self.type_num())?;
        buffer.write_u16(1)?;
        buffer.write_u32(self.ttl())?;
        assert(buffer.written() =~= w0 + record_head(self@));
        Ok(())
    }

    /// Writes the record at the cursor: name, type, class IN, TTL, then the
    /// data, whose length is filled in once it is written.
    pub fn write(&self, buffer: &mut BytePacketBuffer) -> (r: Result<(), EncodeError>)
        requires
            old(buffer).wf(),
            old(buffer).cursor() <= PACKET_SIZE,
            record_ok(self@),
        ensures
            final(buffer).wf(),
            final(buffer).cursor() <= PACKET_SIZE,
            appended(old(buffer).written(), old(buffer).cursor(), final(buffer).written(), final(buffer).cursor(), r, record_wire(self@)),
    {
        let ghost w0 = buffer.written();
        let ghost head = record_head(self@);
        let ghost d = record_data(self@);
        proof {
            assert(record_wire(self@) == head + be16(d.len() as u16) + d);
        }
        let r1 = self.write_head(buffer);
        if r1.is_err() {
            return r1;
        }
        let len_pos = buffer.pos();
        let ghost wa = buffer.written();
        let r2 = buffer.write_u16(0);
        if r2.is_err() {
            return r2;
        }
        let r3 = self.write_data(buffer);
        if r3.is_err() {
            return r3;
        }
        let size = buffer.pos() - (len_pos + 2);
        let ghost before = buffer.data();
        let ghost c = buffer.cursor();
        buffer.set_u16(len_pos, size as u16);
        proof {
            assert(d.len() == size);
            lemma_patch_length(before, c, wa, d, size as u16);
            assert(buffer.written() =~= w0 + record_wire(self@));
        }
        Ok(())
    }
}

/// A record's name, type, class and TTL, as written.
pub open spec fn record_head(r: RecordView) -> Seq<u8> {
    name_wire(crate::wire::record_domain(r)) + be16(crate::wire::record_type(r)) + be16(1) + be32(
        crate::wire::record_ttl(r),
    )
}

proof fn lemma_patch_length(data: Seq<u8>, c: int, wa: Seq<u8>, d: Seq<u8>, v: u16)
    requires
        0 <= c <= data.len(),
        data.take(c) == wa + be16(0) + d,
    ensures
        data.update(wa.len() as int, be16(v)[0]).update(wa.len() + 1int, be16(v)[1]).take(c) == wa
            + be16(v) + d,
{
    let t = wa + be16(0) + d;
    assert(data.take(c).len() == c);
    assert(c == wa.len() + 2 + d.len());
    let n = data.update(wa.len() as int, be16(v)[0]).update(wa.len() + 1int, be16(v)[1]);
    assert forall|k: int| 0 <= k < c implies #[trigger] n.take(c)[k] == (wa + be16(v) + d)[k] by {
        assert(data.take(c)[k] == t[k]);
        assert(data[k] == t[k]);
        if k < wa.len() {
            assert(t[k] == wa[k]);
        } else if k >= wa.len() + 2 {
            assert(t[k] == d[k - wa.len() - 2]);
        }
    }
    assert(n.take(c) =~= wa + be16(v) + d);
}

fn write_questions(buffer: &mut BytePacketBuffer, qs: &Vec<DnsQuestion>) -> (r: Result<(), EncodeError>)
    requires
        old(buffer).wf(),
        old(buffer).cursor() <= PACKET_SIZE,
        forall|i: int| 0 <= i < qs@.len() ==> name_ok(#[trigger] qs@[i].name@),
    ensures
        final(buffer).wf(),
        final(buffer).cursor() <= PACKET_SIZE,
        appended(old(buffer).written(), old(buffer).cursor(), final(buffer).written(), final(buffer).cursor(), r, questions_wire(qs@.map_values(|q: DnsQuestion| q@))),
{
    let ghost vs = qs@.map_values(|q: DnsQuestion| q@);
    let ghost w0 = buffer.written();
    let ghost c0 = buffer.cursor();
    let mut i: usize = 0;
    assert(vs.take(0) =~= Seq::<QuestionView>::empty());
    while i < qs.len()
        invariant
            buffer.wf(),
            buffer.cursor() <= PACKET_SIZE,
            vs == qs@.map_values(|q: DnsQuestion| q@),
            forall|i: int| 0 <= i < qs@.len() ==> name_ok(#[trigger] qs@[i].name@),
            i <= qs@.len(),
            c0 == old(buffer).cursor(),
            w0 == old(buffer).written(),
            buffer.cursor() == c0 + questions_wire(vs.take(i as int)).len(),
            buffer.written() == w0 + questions_wire(vs.take(i as int)),
        decreases qs@.len() - i,
    {
        proof {
            assert(vs.take(i + 1).drop_last() =~= vs.take(i as int));
            lemma_questions_wire_prefix(vs, i + 1);
        }
        let r = qs[i].write(buffer);
        if r.is_err() {
            return r;
        }
        i += 1;
        assert(buffer.written() =~= w0 + questions_wire(vs.take(i as int)));
    }
    assert(vs.take(i as int) =~= vs);
    Ok(())
}

fn write_records(buffer: &mut BytePacketBuffer, rs: &Vec<DnsRecord>) -> (r: Result<(), EncodeError>)
    requires
        old(buffer).wf(),
        old(buffer).cursor() <= PACKET_SIZE,
        forall|i: int| 0 <= i < rs@.len() ==> record_ok(#[trigger] rs@[i]@),
    ensures
        final(buffer).wf(),
        final(buffer).cursor() <= PACKET_SIZE,
        appended(old(buffer).written(), old(buffer).cursor(), final(buffer).written(), final(buffer).cursor(), r, records_wire(records_view(rs@))),
{
    let ghost vs = records_view(rs@);
    let ghost w0 = buffer.written();
    let ghost c0 = buffer.cursor();
    let mut i: usize = 0;
    assert(vs.take(0) =~= Seq::<RecordView>::empty());
    while i < rs.len()
        invariant
            buffer.wf(),
            buffer.cursor() <= PACKET_SIZE,
            vs == records_view(rs@),
            forall|i: int| 0 <= i < rs@.len() ==> record_ok(#[trigger] rs@[i]@),
            i <= rs@.len(),
            c0 == old(buffer).cursor(),
            w0 == old(buffer).written(),
            buffer.cursor() == c0 + records_wire(vs.take(i as int)).len(),
            buffer.written() == w0 + records_wire(vs.take(i as int)),
        decreases rs@.len() - i,
    {
        proof {
            assert(vs.take(i + 1).drop_last() =~= vs.take(i as int));
            lemma_records_wire_prefix(vs, i + 1);
        }
        let r = rs[i].write(buffer);
        if r.is_err() {
            return r;
        }
        i += 1;
        assert(buffer.written() =~= w0 + records_wire(vs.take(i as int)));
    }
    assert(vs.take(i as int) =~= vs);
    Ok(())
}

fn records_valid(rs: &Vec<DnsRecord>) -> (r: bool)
    ensures
        r == forall|i: int| 0 <= i < rs@.len() ==> record_ok(#[trigger] rs@[i]@),
{
    let mut i: usize = 0;
    while i < rs.len()
        invariant
            i <= rs@.len(),
            forall|j: int| 0 <= j < i ==> record_ok(#[trigger] rs@[j]@),
        decreases rs@.len() - i,
    {
        let rec = &rs[i];
        let ok = name_is_valid(rec.domain().as_str()) && match rec {
            DnsRecord::NS { host, .. } => name_is_valid(host.as_str()),
            DnsRecord::CNAME { host, .. } => name_is_valid(host.as_str()),
            DnsRecord::MX { host, .. } => name_is_valid(host.as_str()),
            DnsRecord::SOA { m_name, r_name, .. } => name_is_valid(m_name.as_str()) && name_is_valid(
                r_name.as_str(),
            ),
            _ => true,
        };
        if !ok {
            return false;
        }
        i += 1;
    }
    true
}

proof fn lemma_records_ok_from_view(rs: Seq<DnsRecord>)
    requires
        forall|i: int| 0 <= i < records_view(rs).len() ==> record_ok(#[trigger] records_view(rs)[i]),
    ensures
        forall|i: int| 0 <= i < rs.len() ==> record_ok(#[trigger] rs[i]@),
{
    assert forall|i: int| 0 <= i < rs.len() implies record_ok(#[trigger] rs[i]@) by {
        assert(records_view(rs)[i] == rs[i]@);
        assert(record_ok(records_view(rs)[i]));
    }
}

proof fn lemma_records_ok_to_view(rs: Seq<DnsRecord>)
    requires
        forall|i: int| 0 <= i < rs.len() ==> record_ok(#[trigger] rs[i]@),
    ensures
        forall|i: int| 0 <= i < records_view(rs).len() ==> record_ok(#[trigger] records_view(rs)[i]),
{
    assert forall|i: int| 0 <= i < records_view(rs).len() implies record_ok(#[trigger] records_view(rs)[i]) by {
        assert(records_view(rs)[i] == rs[i]@);
        assert(record_ok(rs[i]@));
    }
}

proof fn lemma_packet_ok_parts(p: &DnsPacket)
    requires
        packet_ok(p@),
    ensures
        forall|i: int| 0 <= i < p.questions@.len() ==> name_ok(#[trigger] p.questions@[i].name@),
        forall|i: int| 0 <= i < p.answers@.len() ==> record_ok(#[trigger] p.answers@[i]@),
        forall|i: int| 0 <= i < p.authorities@.len() ==> record_ok(#[trigger] p.authorities@[i]@),
        forall|i: int| 0 <= i < p.resources@.len() ==> record_ok(#[trigger] p.resources@[i]@),
{
    assert forall|i: int| 0 <= i < p.questions@.len() implies name_ok(#[trigger] p.questions@[i].name@) by {
        assert(p@.questions[i] == p.questions@[i]@);
        assert(name_ok(p@.questions[i].name));
    }
    let v = p@;
    assert(v.answers == records_view(p.answers@));
    assert(v.authorities == records_view(p.authorities@));
    assert(v.resources == records_view(p.resources@));
    assert(forall|i: int| 0 <= i < v.answers.len() ==> record_ok(#[trigger] v.answers[i]));
    assert(forall|i: int| 0 <= i < v.authorities.len() ==> record_ok(#[trigger] v.authorities[i]));
    lemma_records_ok_from_view(p.answers@);
    lemma_records_ok_from_view(p.authorities@);
    lemma_records_ok_from_view(p.resources@);
}

impl DnsPacket {
    /// Whether every name in the message can be written.
    pub fn names_valid(&self) -> (r: bool)
        ensures
            r == packet_ok(self@),
    {
        let mut i: usize = 0;
        while i < self.questions.len()
            invariant
                i <= self.questions@.len(),
                self@.questions.len() == self.questions@.len(),
                forall|j: int| 0 <= j < i ==> name_ok(#[trigger] self@.questions[j].name),
            decreases self.questions@.len() - i,
        {
            assert(self@.questions[i as int] == self.questions@[i as int]@);
            if !name_is_valid(self.questions[i].name.as_str()) {
                assert(!name_ok(self@.questions[i as int].name));
                return false;
            }
            i += 1;
        }
        let a = records_valid(&self.answers);
        let b = records_valid(&self.authorities);
        let c = records_valid(&self.resources);
        proof {
            if a {
                lemma_records_ok_to_view(self.answers@);
            } else if forall|i: int| 0 <= i < self@.answers.len() ==> record_ok(#[trigger] self@.answers[i]) {
                assert(self@.answers == records_view(self.answers@));
                lemma_records_ok_from_view(self.answers@);
            }
            if b {
                lemma_records_ok_to_view(self.authorities@);
            } else if forall|i: int| 0 <= i < self@.authorities.len() ==> record_ok(#[trigger] self@.authorities[i]) {
                assert(self@.authorities == records_view(self.authorities@));
                lemma_records_ok_from_view(self.authorities@);
            }
            if c {
                lemma_records_ok_to_view(self.resources@);
            } else if forall|i: int| 0 <= i < self@.resources.len() ==> record_ok(#[trigger] self@.resources[i]) {
                assert(self@.resources == records_view(self.resources@));
                lemma_records_ok_from_view(self.resources@);
            }
        }
        a && b && c
    }

    /// Writes the message at the cursor; the header's counts are taken from
    /// the sections.
    pub fn write(&self, buffer: &mut BytePacketBuffer) -> (r: Result<(), EncodeError>)
        requires
            old(buffer).wf(),
            old(buffer).cursor() <= PACKET_SIZE,
            packet_ok(self@),
        ensures
            final(buffer).wf(),
            final(buffer).cursor() <= PACKET_SIZE,
            appended(old(buffer).written(), old(buffer).cursor(), final(buffer).written(), final(buffer).cursor(), r, packet_wire(self@)),
    {
        let ghost w0 = buffer.written();
        let mut header = self.header;
        header.questions = self.questions.len() as u16;
        header.answers = self.answers.len() as u16;
        header.authoritative_entries = self.authorities.len() as u16;
        header.resource_entries = self.resources.len() as u16;
        assert(header == counted_header(self@));
        proof {
            lemma_packet_ok_parts(self);
        }
        let ghost hw = header_wire(counted_header(self@));
        let ghost qw = questions_wire(self@.questions);
        let ghost aw = records_wire(self@.answers);
        let ghost nw = records_wire(self@.authorities);
        let ghost rw = records_wire(self@.resources);
        let ghost c0 = buffer.cursor();
        assert(packet_wire(self@) == hw + qw + aw + nw + rw);
        let r1 = header.write(buffer);
        if r1.is_err() {
            return r1;
        }
        let r2 = write_questions(buffer, &self.questions);
        if r2.is_err() {
            return r2;
        }
        let r3 = write_records(buffer, &self.answers);
        if r3.is_err() {
            return r3;
        }
        let r4 = write_records(buffer, &self.authorities);
        if r4.is_err() {
            return r4;
        }
        let r5 = write_records(buffer, &self.resources);
        if r5.is_err() {
            return r5;
        }
        assert(buffer.written() =~= w0 + packet_wire(self@));
        Ok(())
    }

    /// The bytes of the message. Fails with `InvalidLabel` when a name has an
    /// empty or over-long label, else with `BufferOverflow` when the message
    /// is longer than 512 bytes.
    pub fn encode(&self) -> (r: Result<Vec<u8>, EncodeError>)
        ensures
            match r {
                Ok(v) => packet_ok(self@) && packet_wire(self@).len() <= PACKET_SIZE && v@
                    == packet_wire(self@),
                Err(e) => (e == EncodeError::InvalidLabel && !packet_ok(self@)) || (e
                    == EncodeError::BufferOverflow && packet_ok(self@) && packet_wire(self@).len()
                    > PACKET_SIZE),
            },
    {
        if !self.names_valid() {
            return Err(EncodeError::InvalidLabel);
        }
        let mut buffer = BytePacketBuffer::new();
        assert(buffer.written() =~= Seq::<u8>::empty());
        self.write(&mut buffer)?;
        assert(packet_wire(self@) =~= buffer.written());
        Ok(buffer.filled())
    }
}

} // verus!
