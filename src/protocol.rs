//! DNS message types and their mathematical models.
use vstd::prelude::*;
use crate::ipv4::Ipv4Addr;

verus! {

/// The type of a question or record. `UNKNOWN` keeps the raw code.
#[allow(non_camel_case_types)]
#[derive(Clone, Copy, Debug, PartialEq, Eq, Structural, Hash)]
pub enum QueryType {
    UNKNOWN(u16),
    A,
    NS,
    CNAME,
    SOA,
    MX,
    AAAA,
}

pub open spec fn query_type_num(q: QueryType) -> u16 {
    match q {
        QueryType::UNKNOWN(x) => x,
        QueryType::A => 1,
        QueryType::NS => 2,
        QueryType::CNAME => 5,
        QueryType::SOA => 6,
        QueryType::MX => 15,
        QueryType::AAAA => 28,
    }
}

pub open spec fn query_type_from(n: u16) -> QueryType {
    if n == 1 {
        QueryType::A
    } else if n == 2 {
        QueryType::NS
    } else if n == 5 {
        QueryType::CNAME
    } else if n == 6 {
        QueryType::SOA
    } else if n == 15 {
        QueryType::MX
    } else if n == 28 {
        QueryType::AAAA
    } else {
        QueryType::UNKNOWN(n)
    }
}

impl QueryType {
    /// The wire code of this type.
    pub fn to_num(&self) -> (r: u16)
        ensures
            r == query_type_num(*self),
    {
        match *self {
            QueryType::UNKNOWN(x) => x,
            QueryType::A => 1,
            QueryType::NS => 2,
            QueryType::CNAME => 5,
            QueryType::SOA => 6,
            QueryType::MX => 15,
            QueryType::AAAA => 28,
        }
    }

    /// The type for a wire code; codes without a name give `UNKNOWN`.
    pub fn from_num(n: u16) -> (r: QueryType)
        ensures
            r == query_type_from(n),
    {
        match n {
            1 => QueryType::A,
            2 => QueryType::NS,
            5 => QueryType::CNAME,
            6 => QueryType::SOA,
            15 => QueryType::MX,
            28 => QueryType::AAAA,
            _ => QueryType::UNKNOWN(n),
        }
    }
}

/// The response code of a header.
#[derive(Clone, Copy, Debug, PartialEq, Eq, Structural, Hash)]
pub enum ResultCode {
    NOERROR,
    FORMERR,
    SERVFAIL,
    NXDOMAIN,
    NOTIMP,
    REFUSED,
}

pub open spec fn result_code_num(c: ResultCode) -> u8 {
    match c {
        ResultCode::NOERROR => 0,
        ResultCode::FORMERR => 1,
        ResultCode::SERVFAIL => 2,
        ResultCode::NXDOMAIN => 3,
        ResultCode::NOTIMP => 4,
        ResultCode::REFUSED => 5,
    }
}

/// The code for a number; numbers without a name give `NOERROR`.
pub open spec fn result_code_from(n: u8) -> ResultCode {
    if n == 1 {
        ResultCode::FORMERR
    } else if n == 2 {
        ResultCode::SERVFAIL
    } else if n == 3 {
        ResultCode::NXDOMAIN
    } else if n == 4 {
        ResultCode::NOTIMP
    } else if n == 5 {
        ResultCode::REFUSED
    } else {
        ResultCode::NOERROR
    }
}

impl ResultCode {
    pub fn to_num(&self) -> (r: u8)
        ensures
            r == result_code_num(*self),
    {
        match *self {
            ResultCode::NOERROR => 0,
            ResultCode::FORMERR => 1,
            ResultCode::SERVFAIL => 2,
            ResultCode::NXDOMAIN => 3,
            ResultCode::NOTIMP => 4,
            ResultCode::REFUSED => 5,
        }
    }

    pub fn from_num(n: u8) -> (r: ResultCode)
        ensures
            r == result_code_from(n),
    {
        match n {
            1 => ResultCode::FORMERR,
            2 => ResultCode::SERVFAIL,
            3 => ResultCode::NXDOMAIN,
            4 => ResultCode::NOTIMP,
            5 => ResultCode::REFUSED,
            _ => ResultCode::NOERROR,
        }
    }
}

/// The fixed twelve-byte header of a message.
#[derive(Clone, Copy, Debug, PartialEq, Eq, Structural)]
pub struct DnsHeader {
    pub id: u16,
    pub recursion_desired: bool,
    pub truncated_message: bool,
    pub authoritative_answer: bool,
    pub opcode: u8,
    pub response: bool,
    pub rescode: ResultCode,
    pub checking_disabled: bool,
    pub authed_data: bool,
    pub z: bool,
    pub recursion_available: bool,
    pub questions: u16,
    pub answers: u16,
    pub authoritative_entries: u16,
    pub resource_entries: u16,
}

pub open spec fn empty_header() -> DnsHeader {
    DnsHeader {
        id: 0,
        recursion_desired: false,
        truncated_message: false,
        authoritative_answer: false,
        opcode: 0,
        response: false,
        rescode: ResultCode::NOERROR,
        checking_disabled: false,
        authed_data: false,
        z: false,
        recursion_available: false,
        questions: 0,
        answers: 0,
        authoritative_entries: 0,
        resource_entries: 0,
    }
}

impl DnsHeader {
    /// A header with every field zero or false.
    pub fn new() -> (r: DnsHeader)
        ensures
            r == empty_header(),
    {
        DnsHeader {
            id: 0,
            recursion_desired: false,
            truncated_message: false,
            authoritative_answer: false,
            opcode: 0,
            response: false,
            rescode: ResultCode::NOERROR,
            checking_disabled: false,
            authed_data: false,
            z: false,
            recursion_available: false,
            questions: 0,
            answers: 0,
            authoritative_entries: 0,
            resource_entries: 0,
        }
    }
}

/// A question: a name and the type asked for; the class is always IN.
#[derive(Clone, Debug, PartialEq, Eq)]
pub struct DnsQuestion {
    pub name: String,
    pub qtype: QueryType,
}

pub ghost struct QuestionView {
    pub name: Seq<char>,
    pub qtype: QueryType,
}

impl View for DnsQuestion {
    type V = QuestionView;

    open spec fn view(&self) -> QuestionView {
        QuestionView { name: self.name@, qtype: self.qtype }
    }
}

impl DnsQuestion {
    pub fn new(name: String, qtype: QueryType) -> (r: DnsQuestion)
        ensures
            r@ == (QuestionView { name: name@, qtype }),
    {
        DnsQuestion { name, qtype }
    }
}

/// A resource record. `UNKNOWN` keeps only what is needed to skip it.
#[allow(non_camel_case_types)]
#[derive(Clone, Debug, PartialEq, Eq)]
pub enum DnsRecord {
    UNKNOWN { domain: String, qtype: u16, data_len: u16, ttl: u32 },
    A { domain: String, addr: Ipv4Addr, ttl: u32 },
    NS { domain: String, host: String, ttl: u32 },
    CNAME { domain: String, host: String, ttl: u32 },
    MX { domain: String, priority: u16, host: String, ttl: u32 },
    SOA {
        domain: String,
        m_name: String,
        r_name: String,
        serial: u32,
        refresh: u32,
        retry: u32,
        expire: u32,
        minimum: u32,
        ttl: u32,
    },
}

#[allow(non_camel_case_types)]
pub ghost enum RecordView {
    UNKNOWN { domain: Seq<char>, qtype: u16, data_len: u16, ttl: u32 },
    A { domain: Seq<char>, addr: Ipv4Addr, ttl: u32 },
    NS { domain: Seq<char>, host: Seq<char>, ttl: u32 },
    CNAME { domain: Seq<char>, host: Seq<char>, ttl: u32 },
    MX { domain: Seq<char>, priority: u16, host: Seq<char>, ttl: u32 },
    SOA {
        domain: Seq<char>,
        m_name: Seq<char>,
        r_name: Seq<char>,
        serial: u32,
        refresh: u32,
        retry: u32,
        expire: u32,
        minimum: u32,
        ttl: u32,
    },
}

impl View for DnsRecord {
    type V = RecordView;

    open spec fn view(&self) -> RecordView {
        match self {
            DnsRecord::UNKNOWN { domain, qtype, data_len, ttl } => RecordView::UNKNOWN {
                domain: domain@,
                qtype: *qtype,
                data_len: *data_len,
                ttl: *ttl,
            },
            DnsRecord::A { domain, addr, ttl } => RecordView::A {
                domain: domain@,
                addr: *addr,
                ttl: *ttl,
            },
            DnsRecord::NS { domain, host, ttl } => RecordView::NS {
                domain: domain@,
                host: host@,
                ttl: *ttl,
            },
            DnsRecord::CNAME { domain, host, ttl } => RecordView::CNAME {
                domain: domain@,
                host: host@,
                ttl: *ttl,
            },
            DnsRecord::MX { domain, priority, host, ttl } => RecordView::MX {
                domain: domain@,
                priority: *priority,
                host: host@,
                ttl: *ttl,
            },
            DnsRecord::SOA {
                domain,
                m_name,
                r_name,
                serial,
                refresh,
                retry,
                expire,
                minimum,
                ttl,
            } => RecordView::SOA {
                domain: domain@,
                m_name: m_name@,
                r_name: r_name@,
                serial: *serial,
                refresh: *refresh,
                retry: *retry,
                expire: *expire,
                minimum: *minimum,
                ttl: *ttl,
            },
        }
    }
}

/// A whole message: header and the four sections, in order.
#[derive(Clone, Debug, PartialEq, Eq)]
pub struct DnsPacket {
    pub header: DnsHeader,
    pub questions: Vec<DnsQuestion>,
    pub answers: Vec<DnsRecord>,
    pub authorities: Vec<DnsRecord>,
    pub resources: Vec<DnsRecord>,
}

pub ghost struct PacketView {
    pub header: DnsHeader,
    pub questions: Seq<QuestionView>,
    pub answers: Seq<RecordView>,
    pub authorities: Seq<RecordView>,
    pub resources: Seq<RecordView>,
}

pub open spec fn records_view(v: Seq<DnsRecord>) -> Seq<RecordView> {
    v.map_values(|r: DnsRecord| r@)
}

impl View for DnsPacket {
    type V = PacketView;

    open spec fn view(&self) -> PacketView {
        PacketView {
            header: self.header,
            questions: self.questions@.map_values(|q: DnsQuestion| q@),
            answers: records_view(self.answers@),
            authorities: records_view(self.authorities@),
            resources: records_view(self.resources@),
        }
    }
}

impl DnsPacket {
    /// A message with an empty header and no entries.
    pub fn new() -> (r: DnsPacket)
        ensures
            r@ == (PacketView {
                header: empty_header(),
                questions: Seq::empty(),
                answers: Seq::empty(),
                authorities: Seq::empty(),
                resources: Seq::empty(),
            }),
    {
        let r = DnsPacket {
            header: DnsHeader::new(),
            questions: Vec::new(),
            answers: Vec::new(),
            authorities: Vec::new(),
            resources: Vec::new(),
        };
        assert(r@.questions =~= Seq::<QuestionView>::empty());
        assert(r@.answers =~= Seq::<RecordView>::empty());
        assert(r@.authorities =~= Seq::<RecordView>::empty());
        assert(r@.resources =~= Seq::<RecordView>::empty());
        r
    }
}

} // verus!
