//! The server's state and the decisions its event loop takes.
use vstd::prelude::*;
use crate::ipv4::Ipv4Addr;
use crate::protocol::{DnsPacket, DnsQuestion, DnsRecord, QueryType, ResultCode};
use crate::records::{RecordsDB, RecordsError};
use crate::resolve::{lookup, lookup_spec, resolved_addr};
use crate::text::ends_with;
use crate::wire::{buffer_of, packet_ok, packet_wire, parse_packet, DecodeError, EncodeError, PACKET_SIZE};

verus! {

/// Why a name lookup gave no address.
#[derive(Clone, Copy, Debug, PartialEq, Eq, Structural)]
pub enum LookupError {
    /// The response held no answer; it carries the response code.
    NoAnswer(ResultCode),
}

/// What a lookup of `host` yields for table `m` and suffix `tld`.
pub open spec fn lookup_name_spec(host: Seq<char>, m: Map<Seq<char>, Ipv4Addr>, tld: Seq<char>) -> Result<
    Ipv4Addr,
    LookupError,
> {
    if ends_with(host, tld) {
        Ok(resolved_addr(host, m))
    } else {
        Err(LookupError::NoAnswer(ResultCode::SERVFAIL))
    }
}

/// Why a datagram got no response.
#[derive(Clone, Copy, Debug, PartialEq, Eq, Structural)]
pub enum RequestError {
    /// The datagram is not a message.
    Decode(DecodeError),
    /// The response could not be written.
    Encode(EncodeError),
}

/// What the server sends back for the datagram `data`.
pub open spec fn respond_spec(data: Seq<u8>, m: Map<Seq<char>, Ipv4Addr>, tld: Seq<char>) -> Result<
    Seq<u8>,
    RequestError,
> {
    match parse_packet(buffer_of(data), 0) {
        Err(e) => Err(RequestError::Decode(e)),
        Ok(req) => {
            let resp = lookup_spec(req, m, tld);
            if !packet_ok(resp) {
                Err(RequestError::Encode(EncodeError::InvalidLabel))
            } else if packet_wire(resp).len() > PACKET_SIZE {
                Err(RequestError::Encode(EncodeError::BufferOverflow))
            } else {
                Ok(packet_wire(resp))
            }
        },
    }
}

/// A control message, with what the loop read from disk for it.
pub enum ControlEvent {
    /// Stop serving.
    Shutdown,
    /// The records file was read again; this is what its text gave.
    Reloaded(Result<RecordsDB, RecordsError>),
    /// A caller asks for the address of a name.
    LookupRequested(String),
    /// A file to merge was read; this is what its text gave.
    MergeLoaded(Result<RecordsDB, RecordsError>),
}

/// What the loop does after a control message.
#[derive(Debug)]
pub enum ControlAction {
    /// Leave the loop.
    Stop,
    /// The table was replaced; go on serving.
    Reloaded,
    /// The reload failed and the table was kept; report it and go on.
    ReloadFailed(RecordsError),
    /// Send this to the caller that asked for an address.
    ReplyLookup(Result<Ipv4Addr, LookupError>),
    /// Send this to the caller that asked for a merge.
    ReplyMerge(Result<(), RecordsError>),
}

/// The live state of the server: the suffix it answers for and the table.
pub struct DnsServer {
    top_level_domain: String,
    records: RecordsDB,
}

impl DnsServer {
    pub closed spec fn wf(&self) -> bool {
        self.records.wf()
    }

    pub closed spec fn top_level_domain_spec(&self) -> Seq<char> {
        self.top_level_domain@
    }

    pub closed spec fn records_spec(&self) -> Map<Seq<char>, Ipv4Addr> {
        self.records@
    }

    /// A server for names under `top_level_domain`, answering from `records`.
    pub fn new(records: RecordsDB, top_level_domain: &str) -> (r: DnsServer)
        requires
            records.wf(),
        ensures
            r.wf(),
            r.top_level_domain_spec() == top_level_domain@,
            r.records_spec() == records@,
    {
        DnsServer { top_level_domain: top_level_domain.to_owned(), records }
    }

    pub fn top_level_domain(&self) -> (r: &str)
        ensures
            r@ == self.top_level_domain_spec(),
    {
        self.top_level_domain.as_str()
    }

    pub fn records(&self) -> (r: &RecordsDB)
        requires
            self.wf(),
        ensures
            r.wf(),
            r@ == self.records_spec(),
    {
        &self.records
    }

    /// The response to `request`.
    pub fn lookup(&self, request: &DnsPacket) -> (r: DnsPacket)
        requires
            self.wf(),
        ensures
            r@ == lookup_spec(request@, self.records_spec(), self.top_level_domain_spec()),
    {
        lookup(request, &self.records, self.top_level_domain.as_str())
    }

    /// The address an A query for `host` gets, or why there is none.
    pub fn lookup_name(&self, host: String) -> (r: Result<Ipv4Addr, LookupError>)
        requires
            self.wf(),
        ensures
            r == lookup_name_spec(host@, self.records_spec(), self.top_level_domain_spec()),
    {
        let mut query = DnsPacket::new();
        let ghost h = host@;
        query.questions.push(DnsQuestion::new(host, QueryType::A));
        assert(query@.questions =~= seq![crate::protocol::QuestionView { name: h, qtype: QueryType::A }]);
        let response = self.lookup(&query);
        assert(response.answers@.len() == response@.answers.len());
        if response.answers.len() == 0 {
            return Err(LookupError::NoAnswer(response.header.rescode));
        }
        assert(response@.answers[0] == response.answers@[0]@);
        match &response.answers[0] {
            DnsRecord::A { addr, .. } => Ok(*addr),
            _ => Err(LookupError::NoAnswer(response.header.rescode)),
        }
    }

    /// The bytes to send back for the datagram `data`: it is decoded,
    /// answered and the answer encoded.
    pub fn handle_request(&self, data: &[u8]) -> (r: Result<Vec<u8>, RequestError>)
        requires
            self.wf(),
        ensures
            match respond_spec(data@, self.records_spec(), self.top_level_domain_spec()) {
                Ok(bytes) => r matches Ok(v) && v@ == bytes,
                Err(e) => r == Err::<Vec<u8>, RequestError>(e),
            },
    {
        let request = match DnsPacket::decode(data) {
            Ok(p) => p,
            Err(e) => {
                return Err(RequestError::Decode(e));
            },
        };
        let response = self.lookup(&request);
        match response.encode() {
            Ok(v) => Ok(v),
            Err(e) => Err(RequestError::Encode(e)),
        }
    }

    /// Replaces the table.
    pub fn reload_records(&mut self, records: RecordsDB)
        requires
            old(self).wf(),
            records.wf(),
        ensures
            final(self).wf(),
            final(self).records_spec() == records@,
            final(self).top_level_domain_spec() == old(self).top_level_domain_spec(),
    {
        self.records = records;
    }

    /// Adds `records` to the table; their addresses win over stored ones.
    pub fn merge_records(&mut self, records: RecordsDB)
        requires
            old(self).wf(),
            records.wf(),
        ensures
            final(self).wf(),
            final(self).records_spec() == old(self).records_spec().union_prefer_right(records@),
            final(self).top_level_domain_spec() == old(self).top_level_domain_spec(),
    {
        self.records.extend(records);
    }

    /// Applies one control message and says what the loop does next.
    pub fn handle_notification(&mut self, event: ControlEvent) -> (r: ControlAction)
        requires
            old(self).wf(),
            match event {
                ControlEvent::Reloaded(Ok(db)) => db.wf(),
                ControlEvent::MergeLoaded(Ok(db)) => db.wf(),
                _ => true,
            },
        ensures
            final(self).wf(),
            final(self).top_level_domain_spec() == old(self).top_level_domain_spec(),
            match event {
                ControlEvent::Shutdown => r is Stop && final(self).records_spec()
                    == old(self).records_spec(),
                ControlEvent::Reloaded(Ok(db)) => r is Reloaded && final(self).records_spec()
                    == db@,
                ControlEvent::Reloaded(Err(e)) => r == ControlAction::ReloadFailed(e)
                    && final(self).records_spec() == old(self).records_spec(),
                ControlEvent::LookupRequested(host) => r == ControlAction::ReplyLookup(
                    lookup_name_spec(
                        host@,
                        old(self).records_spec(),
                        old(self).top_level_domain_spec(),
                    ),
                ) && final(self).records_spec() == old(self).records_spec(),
                ControlEvent::MergeLoaded(Ok(db)) => r == ControlAction::ReplyMerge(Ok(()))
                    && final(self).records_spec() == old(self).records_spec().union_prefer_right(
                    db@,
                ),
                ControlEvent::MergeLoaded(Err(e)) => r == ControlAction::ReplyMerge(Err(e))
                    && final(self).records_spec() == old(self).records_spec(),
            },
    {
        match event {
            ControlEvent::Shutdown => ControlAction::Stop,
            ControlEvent::Reloaded(Ok(db)) => {
                self.reload_records(db);
                ControlAction::Reloaded
            },
            ControlEvent::Reloaded(Err(e)) => ControlAction::ReloadFailed(e),
            ControlEvent::LookupRequested(host) => ControlAction::ReplyLookup(self.lookup_name(host)),
            ControlEvent::MergeLoaded(Ok(db)) => {
                self.merge_records(db);
                ControlAction::ReplyMerge(Ok(()))
            },
            ControlEvent::MergeLoaded(Err(e)) => ControlAction::ReplyMerge(Err(e)),
        }
    }
}

} // verus!
