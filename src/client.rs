//! DNS client: the message codec modules and the decisions of iterative
//! resolution. The caller owns the transport: it asks the resolver which
//! server to query next, sends the query, and hands back what came in.

pub mod header;
pub mod message;
pub mod name;
pub mod question;
pub mod rr;
pub mod utility;

use crate::client::message::{message_at, views, DnsMessage, MessageView};
use crate::client::name::name_from;
use crate::client::rr::{host_addr_of, RecordView, ResourceRecord};
use crate::client::utility::FormatError;
use vstd::prelude::*;
use vstd::utf8::{decode_utf8, valid_utf8};

verus! {

/// The well-known root servers, in the order they are tried.
pub open spec fn root_servers() -> Seq<[u8; 4]> {
    seq![
        [198u8, 41u8, 0u8, 4u8],
        [199u8, 9u8, 14u8, 201u8],
        [192u8, 33u8, 4u8, 12u8],
        [199u8, 7u8, 91u8, 13u8],
        [192u8, 203u8, 230u8, 10u8],
        [192u8, 5u8, 5u8, 241u8],
        [198u8, 97u8, 190u8, 53u8],
        [192u8, 36u8, 148u8, 17u8],
        [192u8, 58u8, 128u8, 30u8],
        [193u8, 0u8, 14u8, 129u8],
        [199u8, 7u8, 83u8, 42u8],
        [202u8, 12u8, 27u8, 33u8],
    ]
}

/// Get all root servers address
pub fn get_root_servers() -> (r: Vec<[u8; 4]>)
    ensures
        r@ == root_servers(),
{
    let r: Vec<[u8; 4]> = vec![
        [198, 41, 0, 4],
        [199, 9, 14, 201],
        [192, 33, 4, 12],
        [199, 7, 91, 13],
        [192, 203, 230, 10],
        [192, 5, 5, 241],
        [198, 97, 190, 53],
        [192, 36, 148, 17],
        [192, 58, 128, 30],
        [193, 0, 14, 129],
        [199, 7, 83, 42],
        [202, 12, 27, 33],
    ];
    assert(r@ =~= root_servers());
    r
}

/// The addresses of the host-address records among `rs`, in order.
pub open spec fn host_addrs(rs: Seq<RecordView>) -> Seq<[u8; 4]>
    decreases rs.len(),
{
    if rs.len() == 0 {
        seq![]
    } else {
        match host_addr_of(rs.last()) {
            Some(a) => host_addrs(rs.drop_last()).push(a),
            None => host_addrs(rs.drop_last()),
        }
    }
}

/// Record type of an authoritative name server (NS).
pub const TYPE_NS: u16 = 2;

/// The server names carried by the name-server records among `rs`, read from
/// their data in the message `s`, in order; `None` when one of them does not
/// decode to text.
pub open spec fn delegate_names(s: Seq<u8>, rs: Seq<RecordView>) -> Option<Seq<Seq<char>>>
    decreases rs.len(),
{
    if rs.len() == 0 {
        Some(seq![])
    } else {
        match delegate_names(s, rs.drop_last()) {
            Some(names) => if rs.last().rtype != TYPE_NS {
                Some(names)
            } else {
                let at = rs.last().rdata_offset;
                match name_from(s, at, at) {
                    Some((t, _)) => if valid_utf8(t) {
                        Some(names.push(decode_utf8(t)))
                    } else {
                        None
                    },
                    None => None,
                }
            },
            None => None,
        }
    }
}

/// Resolution state as plain values.
pub struct ResolverView {
    pub frontier: Seq<[u8; 4]>,
    pub next: int,
    pub ns_names: Seq<Seq<char>>,
}

/// State of one resolution: the candidate servers, how many have been taken,
/// and the delegate names collected from authority-only referrals.
pub struct Resolver {
    /// Candidate servers in the order they are tried
    pub frontier: Vec<[u8; 4]>,
    /// Index of the next candidate to try
    pub next: usize,
    /// Names of delegated servers that came without addresses
    pub ns_names: Vec<String>,
}

impl View for Resolver {
    type V = ResolverView;

    open spec fn view(&self) -> ResolverView {
        ResolverView {
            frontier: self.frontier@,
            next: self.next as int,
            ns_names: self.ns_names@.map_values(|s: String| s@),
        }
    }
}

/// Outcome of a finished resolution.
pub enum Resolution {
    /// A server answered with these addresses
    Answered(Vec<[u8; 4]>),
    /// No answer; only these delegate names were learned
    Delegated(Vec<String>),
    /// No answer and no delegate names
    Unresolved,
}

/// The view of a resolver freshly seeded with `servers`.
pub open spec fn seeded(servers: Seq<[u8; 4]>) -> ResolverView {
    ResolverView { frontier: servers, next: 0, ns_names: seq![] }
}

/// Whether every candidate has been tried.
pub open spec fn exhausted(v: ResolverView) -> bool {
    v.next >= v.frontier.len()
}

/// The state after taking the next candidate.
pub open spec fn after_query(v: ResolverView) -> ResolverView {
    ResolverView { next: v.next + 1, ..v }
}

/// The addresses a response answers with: those of its host-address answer
/// records, when it parses and counts at least one answer.
pub open spec fn answer_of(resp: Seq<u8>) -> Option<Seq<[u8; 4]>> {
    match message_at(resp) {
        Some((_, m)) => if m.header.an_cnt > 0 {
            Some(host_addrs(m.answers))
        } else {
            None
        },
        None => None,
    }
}

/// A parsed response that neither answers nor lists usable additional
/// addresses, but has authority records: its delegate names are taken.
pub open spec fn is_authority_only(m: MessageView) -> bool {
    m.header.an_cnt == 0 && host_addrs(m.additionals).len() == 0 && m.header.ns_cnt > 0
}

/// A response that parses and, where its delegate names are needed, whose
/// name-server records decode.
pub open spec fn response_ok(resp: Seq<u8>) -> bool {
    match message_at(resp) {
        Some((_, m)) => is_authority_only(m) ==> delegate_names(resp, m.authorities) is Some,
        None => false,
    }
}

/// The state after a response that carries no answer: one whose additional
/// records give host addresses queues them at the back; one with authority
/// records otherwise replaces the delegate names; a malformed one, or any
/// other, changes nothing.
pub open spec fn after_response(v: ResolverView, resp: Seq<u8>) -> ResolverView {
    match message_at(resp) {
        Some((_, m)) => if !response_ok(resp) || m.header.an_cnt > 0 {
            v
        } else if host_addrs(m.additionals).len() > 0 {
            ResolverView { frontier: v.frontier + host_addrs(m.additionals), ..v }
        } else if m.header.ns_cnt > 0 {
            ResolverView { ns_names: delegate_names(resp, m.authorities).unwrap(), ..v }
        } else {
            v
        },
        None => v,
    }
}

/// A response that answers nothing and refers nowhere: it does not parse, or
/// all its section counts are zero.
pub open spec fn is_silent(resp: Seq<u8>) -> bool {
    match message_at(resp) {
        Some((_, m)) => m.header.an_cnt == 0 && m.header.ar_cnt == 0 && m.header.ns_cnt == 0,
        None => true,
    }
}

/// Runs the resolution loop on the responses `resps`, one per query: the final
/// state, the number of queries made, and the answer if one came.
pub open spec fn run(v: ResolverView, resps: Seq<Seq<u8>>) -> (ResolverView, nat, Option<
    Seq<[u8; 4]>,
>)
    decreases resps.len(),
{
    if exhausted(v) || resps.len() == 0 {
        (v, 0, None)
    } else {
        let q = after_query(v);
        match answer_of(resps[0]) {
            Some(a) => (q, 1, Some(a)),
            None => {
                let (f, n, a) = run(after_response(q, resps[0]), resps.drop_first());
                (f, n + 1, a)
            },
        }
    }
}

/// Host addresses among `rs`, in order.
fn collect_host_addrs(rs: &Vec<ResourceRecord>, out: &mut Vec<[u8; 4]>)
    ensures
        final(out)@ == old(out)@ + host_addrs(rs@.map_values(|r: ResourceRecord| r@)),
{
    let ghost start = out@;
    let mut i: usize = 0;
    while i < rs.len()
        invariant
            i <= rs@.len(),
            out@ == start + host_addrs(rs@.subrange(0, i as int).map_values(|r: ResourceRecord| r@)),
        decreases rs@.len() - i,
    {
        let ghost pre = rs@.subrange(0, i as int).map_values(|r: ResourceRecord| r@);
        let ghost nxt = rs@.subrange(0, i + 1).map_values(|r: ResourceRecord| r@);
        assert(nxt.drop_last() =~= pre);
        assert(nxt.last() == rs@[i as int]@);
        match rs[i].host_addr() {
            Some(a) => {
                out.push(a);
                assert(out@ =~= start + host_addrs(nxt));
            },
            None => {},
        }
        i += 1;
    }
    assert(rs@.subrange(0, i as int) =~= rs@);
}

/// Server names of the name-server records among `rs`, read from their data
/// in `response`; fails when one does not decode.
fn collect_delegate_names(response: &Vec<u8>, rs: &Vec<ResourceRecord>) -> (r: Result<
    Vec<String>,
    FormatError,
>)
    ensures
        match r {
            Ok(names) => delegate_names(response@, views(rs@)) == Some(
                names@.map_values(|s: String| s@),
            ),
            Err(_) => delegate_names(response@, views(rs@)) is None,
        },
{
    let mut out: Vec<String> = Vec::new();
    let mut i: usize = 0;
    while i < rs.len()
        invariant
            i <= rs@.len(),
            delegate_names(response@, views(rs@.subrange(0, i as int))) == Some(
                out@.map_values(|s: String| s@),
            ),
        decreases rs@.len() - i,
    {
        let ghost pre = views(rs@.subrange(0, i as int));
        let ghost nxt = views(rs@.subrange(0, i + 1));
        assert(nxt.drop_last() =~= pre);
        assert(nxt.last() == rs@[i as int]@);
        if rs[i].rr_type == TYPE_NS {
            match DnsMessage::decode_name(response, rs[i].rr_rdata_offset) {
                Ok((name, _)) => {
                    let ghost before = out@;
                    out.push(name);
                    assert(out@.map_values(|s: String| s@) =~= before.map_values(|s: String| s@).push(
                        name@,
                    ));
                },
                Err(e) => {
                    proof {
                        lemma_delegate_names_none(response@, views(rs@), i + 1);
                    }
                    return Err(e);
                },
            }
        }
        i += 1;
    }
    assert(rs@.subrange(0, i as int) =~= rs@);
    Ok(out)
}

/// Once the names of a prefix of the records fail to decode, so do those of
/// all the records.
proof fn lemma_delegate_names_none(s: Seq<u8>, rs: Seq<RecordView>, k: int)
    requires
        0 <= k <= rs.len(),
        delegate_names(s, rs.subrange(0, k)) is None,
    ensures
        delegate_names(s, rs) is None,
    decreases rs.len() - k,
{
    if k < rs.len() {
        assert(rs.subrange(0, k + 1).drop_last() =~= rs.subrange(0, k));
        lemma_delegate_names_none(s, rs, k + 1);
    } else {
        assert(rs.subrange(0, k) =~= rs);
    }
}

impl Resolver {
    /// A resolution whose frontier is seeded with the root servers
    pub fn new() -> (r: Resolver)
        ensures
            r@ == seeded(root_servers()),
    {
        Resolver::with_servers(get_root_servers())
    }

    /// A resolution whose frontier is seeded with `servers`
    pub fn with_servers(servers: Vec<[u8; 4]>) -> (r: Resolver)
        ensures
            r@ == seeded(servers@),
    {
        let r = Resolver { frontier: servers, next: 0, ns_names: Vec::new() };
        assert(r@.ns_names =~= seq![]);
        r
    }

    /// Whether every candidate has been tried
    pub fn is_exhausted(&self) -> (r: bool)
        ensures
            r == exhausted(self@),
    {
        self.next >= self.frontier.len()
    }

    /// Take the next candidate server, if any is left
    pub fn next_server(&mut self) -> (r: Option<[u8; 4]>)
        ensures
            exhausted(old(self)@) ==> r is None && final(self)@ == old(self)@,
            !exhausted(old(self)@) ==> r == Some(old(self)@.frontier[old(self)@.next])
                && final(self)@ == after_query(old(self)@),
    {
        if self.next >= self.frontier.len() {
            return None;
        }
        let s = self.frontier[self.next];
        self.next = self.next + 1;
        Some(s)
    }

    /// Act on the response of the last queried server: return the answer
    /// addresses if it answers, otherwise follow what it refers to; a
    /// malformed response is reported and changes nothing
    pub fn on_response(&mut self, response: &Vec<u8>) -> (r: Result<
        Option<Vec<[u8; 4]>>,
        FormatError,
    >)
        ensures
            r is Err <==> !response_ok(response@),
            r matches Ok(Some(a)) ==> answer_of(response@) == Some(a@),
            r matches Ok(None) ==> answer_of(response@) is None,
            final(self)@ == after_response(old(self)@, response@),
    {
        let m = match DnsMessage::parse(response) {
            Ok(m) => m,
            Err(e) => return Err(e),
        };
        if m.header.an_cnt > 0 {
            let mut addrs: Vec<[u8; 4]> = Vec::new();
            collect_host_addrs(&m.answers, &mut addrs);
            assert(addrs@ =~= host_addrs(m@.answers));
            return Ok(Some(addrs));
        }
        let mut referred: Vec<[u8; 4]> = Vec::new();
        collect_host_addrs(&m.additionals, &mut referred);
        assert(referred@ =~= host_addrs(m@.additionals));
        if referred.len() > 0 {
            collect_host_addrs(&m.additionals, &mut self.frontier);
        } else if m.header.ns_cnt > 0 {
            match collect_delegate_names(response, &m.authorities) {
                Ok(names) => {
                    self.ns_names = names;
                },
                Err(e) => return Err(e),
            }
        }
        Ok(None)
    }

    /// The outcome once every candidate has been tried without an answer
    pub fn outcome(&self) -> (r: Resolution)
        ensures
            self@.ns_names.len() == 0 ==> r is Unresolved,
            self@.ns_names.len() > 0 ==> (r matches Resolution::Delegated(names)
                && names@.map_values(|s: String| s@) == self@.ns_names),
    {
        if self.ns_names.len() == 0 {
            Resolution::Unresolved
        } else {
            let mut names: Vec<String> = Vec::new();
            let mut i: usize = 0;
            while i < self.ns_names.len()
                invariant
                    i <= self.ns_names@.len(),
                    names@.len() == i,
                    names@.map_values(|s: String| s@) == self.ns_names@.subrange(
                        0,
                        i as int,
                    ).map_values(|s: String| s@),
                decreases self.ns_names@.len() - i,
            {
                let ghost before = names@;
                let c = self.ns_names[i].clone();
                names.push(c);
                proof {
                    let l = names@.map_values(|s: String| s@);
                    let rr = self.ns_names@.subrange(0, i + 1).map_values(|s: String| s@);
                    let p = self.ns_names@.subrange(0, i as int).map_values(|s: String| s@);
                    assert(before.map_values(|s: String| s@) == p);
                    assert(l.len() == rr.len());
                    assert forall|k: int| 0 <= k < l.len() implies l[k] == rr[k] by {
                        if k < i {
                            assert(l[k] == before.map_values(|s: String| s@)[k]);
                            assert(p[k] == rr[k]);
                        }
                    }
                    assert(l =~= rr);
                }
                i += 1;
            }
            assert(self.ns_names@.subrange(0, i as int) =~= self.ns_names@);
            Resolution::Delegated(names)
        }
    }
}

/// When every server answers with nothing and refers nowhere, the loop makes
/// exactly one query per remaining candidate, ends with the frontier
/// exhausted and no answer, and leaves the delegate names as they were.
pub proof fn lemma_silent_run(v: ResolverView, resps: Seq<Seq<u8>>)
    requires
        0 <= v.next <= v.frontier.len(),
        resps.len() >= v.frontier.len() - v.next,
        forall|i: int| 0 <= i < resps.len() ==> is_silent(#[trigger] resps[i]),
    ensures
        run(v, resps).1 == v.frontier.len() - v.next,
        run(v, resps).2 is None,
        exhausted(run(v, resps).0),
        run(v, resps).0.ns_names == v.ns_names,
        run(v, resps).0.frontier == v.frontier,
    decreases resps.len(),
{
    if !exhausted(v) && resps.len() > 0 {
        let q = after_query(v);
        assert(is_silent(resps[0]));
        assert(after_response(q, resps[0]) == q);
        let rest = resps.drop_first();
        assert forall|i: int| 0 <= i < rest.len() implies is_silent(#[trigger] rest[i]) by {
            assert(rest[i] == resps[i + 1]);
        }
        lemma_silent_run(q, rest);
    }
}

/// A resolution seeded with `servers` that only meets silent responses makes
/// exactly as many queries as there are servers and ends unresolved.
pub proof fn lemma_silent_resolution_terminates(servers: Seq<[u8; 4]>, resps: Seq<Seq<u8>>)
    requires
        resps.len() >= servers.len(),
        forall|i: int| 0 <= i < resps.len() ==> is_silent(#[trigger] resps[i]),
    ensures
        run(seeded(servers), resps).1 == servers.len(),
        run(seeded(servers), resps).2 is None,
        exhausted(run(seeded(servers), resps).0),
        run(seeded(servers), resps).0.ns_names.len() == 0,
{
    lemma_silent_run(seeded(servers), resps);
}

} // verus!
