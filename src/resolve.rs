//! The resolution engine: from a request and the records table to a response.
use vstd::prelude::*;
use crate::ipv4::{Ipv4Addr, localhost_spec};
use crate::protocol::{
    empty_header, DnsHeader, DnsPacket, DnsQuestion, DnsRecord, PacketView, QueryType, QuestionView,
    RecordView, ResultCode,
};
use crate::records::RecordsDB;
use crate::text::{chars_of, ends_with, slice_ends_with, slice_eq};

verus! {

/// `host` is `key` itself or a name below it (`sub.key`).
pub open spec fn covers(host: Seq<char>, key: Seq<char>) -> bool {
    host == key || ends_with(host, seq!['.'] + key)
}

/// `key` is the longest stored key that covers `host`.
pub open spec fn is_best_key(host: Seq<char>, m: Map<Seq<char>, Ipv4Addr>, key: Seq<char>) -> bool {
    &&& m.contains_key(key)
    &&& covers(host, key)
    &&& forall|k: Seq<char>| #[trigger] m.contains_key(k) && covers(host, k) ==> k.len() <= key.len()
}

/// The address `host` resolves to: that of the longest covering key, else
/// the loopback address.
pub open spec fn resolved_addr(host: Seq<char>, m: Map<Seq<char>, Ipv4Addr>) -> Ipv4Addr {
    if exists|k: Seq<char>| is_best_key(host, m, k) {
        m[choose|k: Seq<char>| is_best_key(host, m, k)]
    } else {
        localhost_spec()
    }
}

/// Two covering keys of one length are the same key.
pub proof fn lemma_covering_keys_equal(host: Seq<char>, k1: Seq<char>, k2: Seq<char>)
    requires
        covers(host, k1),
        covers(host, k2),
        k1.len() == k2.len(),
    ensures
        k1 == k2,
{
    if k1 != host && k2 != host {
        let a = seq!['.'] + k1;
        let b = seq!['.'] + k2;
        assert(k1 =~= a.subrange(1, a.len() as int));
        assert(k2 =~= b.subrange(1, b.len() as int));
        assert(a =~= b);
    }
}

proof fn lemma_best_key_unique(host: Seq<char>, m: Map<Seq<char>, Ipv4Addr>, k1: Seq<char>, k2: Seq<char>)
    requires
        is_best_key(host, m, k1),
        is_best_key(host, m, k2),
    ensures
        k1 == k2,
{
    assert(m.contains_key(k2) && covers(host, k2));
    assert(m.contains_key(k1) && covers(host, k1));
    lemma_covering_keys_equal(host, k1, k2);
}

/// Whether `host` is `key` or a name below it.
pub fn host_covered_by(host: &[char], key: &[char]) -> (r: bool)
    ensures
        r == covers(host@, key@),
{
    if slice_eq(host, key) {
        return true;
    }
    if host.len() <= key.len() {
        proof {
            if ends_with(host@, seq!['.'] + key@) {
                assert((seq!['.'] + key@).len() == key@.len() + 1);
            }
        }
        return false;
    }
    let e = slice_ends_with(host, key);
    let dot = host[host.len() - key.len() - 1] == '.';
    proof {
        let s = seq!['.'] + key@;
        let n = host@.len() as int;
        let kl = key@.len() as int;
        if e && dot {
            assert(host@.subrange(n - kl - 1, n) =~= s);
        }
        if ends_with(host@, s) {
            assert(host@.subrange(n - kl, n) =~= host@.subrange(n - kl - 1, n).subrange(1, kl + 1));
            assert(s.subrange(1, kl + 1) =~= key@);
            assert(host@[n - kl - 1] == host@.subrange(n - kl - 1, n)[0]);
        }
    }
    e && dot
}

/// The address of the longest stored key equal to `host` or above it, or
/// 127.0.0.1 when no key is.
pub fn ip_from_domain_or_default(host: &str, domain: &RecordsDB) -> (r: Ipv4Addr)
    requires
        domain.wf(),
    ensures
        r == resolved_addr(host@, domain@),
{
    let hcs = chars_of(host);
    let es = domain.entries();
    let ghost m = domain@;
    let mut best: Option<usize> = None;
    let mut best_len: usize = 0;
    let mut i: usize = 0;
    while i < es.len()
        invariant
            i <= es@.len(),
            hcs@ == host@,
            m == domain@,
            forall|j: int|
                0 <= j < es@.len() ==> m.contains_key((#[trigger] es@[j]).0@) && m[es@[j].0@]
                    == es@[j].1,
            forall|k: Seq<char>|
                #[trigger] m.contains_key(k) ==> exists|j: int|
                    0 <= j < es@.len() && (#[trigger] es@[j]).0@ == k,
            match best {
                Some(b) => b < i && covers(host@, es@[b as int].0@) && best_len == es@[b as int].0@.len()
                    && forall|j: int|
                    0 <= j < i && covers(host@, (#[trigger] es@[j]).0@) ==> es@[j].0@.len() <= best_len,
                None => forall|j: int| 0 <= j < i ==> !covers(host@, (#[trigger] es@[j]).0@),
            },
        decreases es@.len() - i,
    {
        let kcs = chars_of(es[i].0.as_str());
        if host_covered_by(hcs.as_slice(), kcs.as_slice()) {
            match best {
                Some(_) => {
                    if kcs.len() > best_len {
                        best = Some(i);
                        best_len = kcs.len();
                    }
                },
                None => {
                    best = Some(i);
                    best_len = kcs.len();
                },
            }
        }
        i += 1;
    }
    match best {
        Some(b) => {
            proof {
                let k = es@[b as int].0@;
                assert forall|k2: Seq<char>| #[trigger] m.contains_key(k2) && covers(host@, k2) implies k2.len() <= k.len() by {
                    let j = choose|j: int| 0 <= j < es@.len() && (#[trigger] es@[j]).0@ == k2;
                    assert(covers(host@, es@[j].0@));
                }
                assert(is_best_key(host@, m, k));
                let c = choose|c: Seq<char>| is_best_key(host@, m, c);
                lemma_best_key_unique(host@, m, k, c);
            }
            es[b].1
        },
        None => {
            proof {
                if exists|k: Seq<char>| is_best_key(host@, m, k) {
                    let k = choose|k: Seq<char>| is_best_key(host@, m, k);
                    let j = choose|j: int| 0 <= j < es@.len() && (#[trigger] es@[j]).0@ == k;
                    assert(!covers(host@, es@[j].0@));
                }
            }
            Ipv4Addr::localhost()
        },
    }
}

/// The header every response starts from: the request's id and
/// recursion-desired flag, the response flag set, all else empty.
pub open spec fn response_header(req: DnsHeader, rescode: ResultCode) -> DnsHeader {
    DnsHeader {
        id: req.id,
        recursion_desired: req.recursion_desired,
        response: true,
        rescode,
        ..empty_header()
    }
}

pub open spec fn response_of(
    req: DnsHeader,
    rescode: ResultCode,
    questions: Seq<QuestionView>,
    answers: Seq<RecordView>,
) -> PacketView {
    PacketView {
        header: response_header(req, rescode),
        questions,
        answers,
        authorities: Seq::empty(),
        resources: Seq::empty(),
    }
}

/// The response to `req`, given the table `m` and the suffix `tld`.
pub open spec fn lookup_spec(req: PacketView, m: Map<Seq<char>, Ipv4Addr>, tld: Seq<char>) -> PacketView {
    if req.questions.len() == 0 {
        response_of(req.header, ResultCode::NOTIMP, Seq::empty(), Seq::empty())
    } else {
        let q = req.questions[0];
        let qs = seq![q];
        if req.header.response {
            response_of(req.header, ResultCode::NOTIMP, qs, Seq::empty())
        } else if req.header.opcode != 0 {
            response_of(req.header, ResultCode::NOTIMP, qs, Seq::empty())
        } else if !ends_with(q.name, tld) {
            response_of(req.header, ResultCode::SERVFAIL, qs, Seq::empty())
        } else {
            match q.qtype {
                QueryType::A => response_of(
                    req.header,
                    ResultCode::NOERROR,
                    qs,
                    seq![RecordView::A { domain: q.name, addr: resolved_addr(q.name, m), ttl: 0 }],
                ),
                QueryType::UNKNOWN(_) => response_of(req.header, ResultCode::SERVFAIL, qs, Seq::empty()),
                _ => response_of(req.header, ResultCode::NOERROR, qs, Seq::empty()),
            }
        }
    }
}

/// Answers `request` from `records` for names under `top_level_domain`.
pub fn lookup(request: &DnsPacket, records: &RecordsDB, top_level_domain: &str) -> (r: DnsPacket)
    requires
        records.wf(),
    ensures
        r@ == lookup_spec(request@, records@, top_level_domain@),
{
    let mut response = DnsPacket::new();
    response.header.response = true;
    response.header.id = request.header.id;
    response.header.recursion_desired = request.header.recursion_desired;
    if request.questions.len() == 0 {
        response.header.rescode = ResultCode::NOTIMP;
        return response;
    }
    let query = &request.questions[0];
    response.questions.push(DnsQuestion { name: query.name.clone(), qtype: query.qtype });
    assert(response@.questions =~= seq![request@.questions[0]]);
    if request.header.response {
        response.header.rescode = ResultCode::NOTIMP;
        return response;
    }
    if request.header.opcode != 0 {
        response.header.rescode = ResultCode::NOTIMP;
        return response;
    }
    let ncs = chars_of(query.name.as_str());
    let tcs = chars_of(top_level_domain);
    if !slice_ends_with(ncs.as_slice(), tcs.as_slice()) {
        response.header.rescode = ResultCode::SERVFAIL;
        return response;
    }
    match query.qtype {
        QueryType::A => {
            let record = DnsRecord::A {
                domain: query.name.clone(),
                addr: ip_from_domain_or_default(query.name.as_str(), records),
                ttl: 0,
            };
            response.answers.push(record);
            assert(response@.answers =~= seq![
                RecordView::A { domain: request@.questions[0].name, addr: resolved_addr(request@.questions[0].name, records@), ttl: 0 }
            ]);
        },
        QueryType::UNKNOWN(_) => {
            response.header.rescode = ResultCode::SERVFAIL;
        },
        _ => {
            response.header.rescode = ResultCode::NOERROR;
        },
    }
    response
}

} // verus!
