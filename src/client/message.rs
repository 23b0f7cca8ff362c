//! Whole messages: assembling a query, serializing, and parsing a response.

use crate::client::header::{header_at, header_bytes, Flag, Header};
use crate::client::name::{
    combine_at, encoded_name, read_labels, has_long_label, join2, labels_of, name_from, name_text, split_state, wire_of,
    DOT, MAX_LABEL,
};
use crate::client::question::{question_at, question_bytes, Question, QuestionView};
use crate::client::rr::{lemma_record_at_bytes, record_at, record_bytes, RecordView, ResourceRecord};
use crate::client::utility::{push_all, push_range, read_be_u16, FormatError};
use vstd::prelude::*;
use vstd::string::StringSliceAdditionalSpecFns;
use vstd::utf8::{decode_utf8, valid_utf8};

verus! {

/// Largest datagram a serialized query may fill.
pub const MAX_DATAGRAM: usize = 128;

/// Record type of a host address, asked for by every query.
pub const QUERY_TYPE: u16 = 1;

/// The Internet class, asked for by every query.
pub const QUERY_CLASS: u16 = 1;

/// DNS message
pub struct DnsMessage {
    /// DNS header
    pub header: Header,
    /// DNS question section
    pub question: Question,
    /// DNS answer section
    pub answers: Vec<ResourceRecord>,
    /// DNS authority section
    pub authorities: Vec<ResourceRecord>,
    /// DNS additional section
    pub additionals: Vec<ResourceRecord>,
}

/// A message as plain values.
pub struct MessageView {
    pub header: Header,
    pub question: QuestionView,
    pub answers: Seq<RecordView>,
    pub authorities: Seq<RecordView>,
    pub additionals: Seq<RecordView>,
}

/// The plain values of a list of records.
pub open spec fn views(rs: Seq<ResourceRecord>) -> Seq<RecordView> {
    rs.map_values(|r: ResourceRecord| r@)
}

impl View for DnsMessage {
    type V = MessageView;

    open spec fn view(&self) -> MessageView {
        MessageView {
            header: self.header,
            question: self.question@,
            answers: views(self.answers@),
            authorities: views(self.authorities@),
            additionals: views(self.additionals@),
        }
    }
}

/// Each section count equals the number of records in its list.
pub open spec fn counts_match(m: MessageView) -> bool {
    m.answers.len() == m.header.an_cnt && m.authorities.len() == m.header.ns_cnt
        && m.additionals.len() == m.header.ar_cnt
}

/// The wire bytes of records, one after another.
pub open spec fn records_bytes(rs: Seq<RecordView>) -> Seq<u8>
    decreases rs.len(),
{
    if rs.len() == 0 {
        seq![]
    } else {
        records_bytes(rs.drop_last()) + record_bytes(rs.last())
    }
}

/// The wire bytes of a message: header, question, then the three record sections.
pub open spec fn message_bytes(m: MessageView) -> Seq<u8> {
    header_bytes(m.header) + question_bytes(m.question) + records_bytes(m.answers) + records_bytes(
        m.authorities,
    ) + records_bytes(m.additionals)
}

/// `count` records read one after another from `start`, and the offset past them.
pub open spec fn records_from(s: Seq<u8>, start: int, count: nat) -> Option<(int, Seq<RecordView>)>
    decreases count,
{
    if count == 0 {
        Some((start, seq![]))
    } else {
        match records_from(s, start, (count - 1) as nat) {
            Some((p, rs)) => match record_at(s, p) {
                Some((n, r)) => Some((n, rs.push(r))),
                None => None,
            },
            None => None,
        }
    }
}

/// The message stored in `s` and the offset just past it, if well formed: a
/// header, one question, then as many records in each section as the header counts.
pub open spec fn message_at(s: Seq<u8>) -> Option<(int, MessageView)> {
    if s.len() < 12 {
        None
    } else {
        let h = header_at(s, 0);
        match question_at(s, 12) {
            Some((q_end, q)) => match records_from(s, q_end, h.an_cnt as nat) {
                Some((a_end, ans)) => match records_from(s, a_end, h.ns_cnt as nat) {
                    Some((n_end, auths)) => match records_from(s, n_end, h.ar_cnt as nat) {
                        Some((end, adds)) => Some(
                            (
                                end,
                                MessageView {
                                    header: h,
                                    question: q,
                                    answers: ans,
                                    authorities: auths,
                                    additionals: adds,
                                },
                            ),
                        ),
                        None => None,
                    },
                    None => None,
                },
                None => None,
            },
            None => None,
        }
    }
}

/// A query header: the given id, every flag zero, one question.
pub open spec fn query_header(id: u16) -> Header {
    Header {
        id,
        flags: Flag { qr: 0, op_code: 0, aa: 0, tc: 0, rd: 0, ra: 0, z: 0, r_code: 0 },
        qd_cnt: 1,
        an_cnt: 0,
        ns_cnt: 0,
        ar_cnt: 0,
    }
}

/// A query for the host addresses of the dotted name `name`, with the given id.
pub open spec fn is_query_for(m: MessageView, name: Seq<u8>) -> bool {
    &&& m.header == query_header(m.header.id)
    &&& m.question == QuestionView {
        name: encoded_name(name),
        qtype: QUERY_TYPE,
        qclass: QUERY_CLASS,
    }
    &&& m.answers.len() == 0
    &&& m.authorities.len() == 0
    &&& m.additionals.len() == 0
}

/// Relies on rand's `random::<u16>`: any 16-bit value.
#[verifier::external_body]
fn random_id() -> (r: u16) {
    rand::random::<u16>()
}

/// Relies on std's `String::from_utf8`: succeeds exactly on valid UTF-8 and
/// then holds the characters that the bytes encode.
#[verifier::external_body]
fn string_from_utf8(v: Vec<u8>) -> (r: Option<String>)
    ensures
        r is Some <==> valid_utf8(v@),
        r matches Some(s) ==> s@ == decode_utf8(v@),
{
    String::from_utf8(v).ok()
}

/// Appends the records of `rs`, one after another.
fn push_records(out: &mut Vec<u8>, rs: &Vec<ResourceRecord>)
    ensures
        final(out)@ == old(out)@ + records_bytes(views(rs@)),
{
    let ghost start = out@;
    let mut i: usize = 0;
    while i < rs.len()
        invariant
            i <= rs@.len(),
            out@ == start + records_bytes(views(rs@.subrange(0, i as int))),
        decreases rs@.len() - i,
    {
        let bytes = rs[i].to_be_bytes();
        push_all(out, bytes.as_slice());
        proof {
            let pre = rs@.subrange(0, i as int);
            let next = rs@.subrange(0, i + 1);
            assert(views(next).drop_last() =~= views(pre));
            assert(out@ =~= start + records_bytes(views(next)));
        }
        i += 1;
    }
    assert(rs@.subrange(0, i as int) =~= rs@);
}

/// Reads `count` records one after another from `start`.
fn parse_records(message: &Vec<u8>, start: usize, count: u16) -> (r: Result<
    (usize, Vec<ResourceRecord>),
    FormatError,
>)
    ensures
        match r {
            Ok((next, rs)) => records_from(message@, start as int, count as nat) == Some(
                (next as int, views(rs@)),
            ),
            Err(_) => records_from(message@, start as int, count as nat) is None,
        },
{
    let mut rs: Vec<ResourceRecord> = Vec::new();
    let mut pos: usize = start;
    let mut k: u16 = 0;
    while k < count
        invariant
            k <= count,
            records_from(message@, start as int, k as nat) == Some((pos as int, views(rs@))),
        decreases count - k,
    {
        let (next, rr) = match ResourceRecord::parse(message, pos) {
            Ok(v) => v,
            Err(e) => {
                proof {
                    lemma_records_from_none(message@, start as int, (k + 1) as nat, count as nat);
                }
                return Err(e);
            },
        };
        proof {
            assert(views(rs@.push(rr)) =~= views(rs@).push(rr@));
        }
        rs.push(rr);
        pos = next;
        k += 1;
    }
    Ok((pos, rs))
}

/// Once a run of records fails to parse, every longer run fails too.
proof fn lemma_records_from_none(s: Seq<u8>, start: int, k: nat, count: nat)
    requires
        k <= count,
        records_from(s, start, k) is None,
    ensures
        records_from(s, start, count) is None,
    decreases count - k,
{
    if k < count {
        lemma_records_from_none(s, start, k + 1, count);
    }
}

impl DnsMessage {
    /// Create a query for the host addresses of `address`, with a random id
    pub fn new(address: &str) -> (r: Result<DnsMessage, FormatError>)
        ensures
            r is Err <==> has_long_label(labels_of(address.spec_bytes())),
            r matches Ok(m) ==> is_query_for(m@, address.spec_bytes()),
    {
        DnsMessage::with_id(random_id(), address)
    }

    /// Create a query for the host addresses of `address`, with the given id
    pub fn with_id(id: u16, address: &str) -> (r: Result<DnsMessage, FormatError>)
        ensures
            r is Err <==> has_long_label(labels_of(address.spec_bytes())),
            r matches Ok(m) ==> is_query_for(m@, address.spec_bytes()) && m.header.id == id,
    {
        let q_name = match DnsMessage::encode_address(address) {
            Ok(v) => v,
            Err(e) => return Err(e),
        };
        let flags = Flag { qr: 0, op_code: 0, aa: 0, tc: 0, rd: 0, ra: 0, z: 0, r_code: 0 };
        let header = Header { id, flags, qd_cnt: 1, an_cnt: 0, ns_cnt: 0, ar_cnt: 0 };
        let question = Question { q_name, q_type: QUERY_TYPE, q_class: QUERY_CLASS };
        let m = DnsMessage {
            header,
            question,
            answers: Vec::new(),
            authorities: Vec::new(),
            additionals: Vec::new(),
        };
        assert(m@.answers =~= seq![]);
        assert(m@.authorities =~= seq![]);
        assert(m@.additionals =~= seq![]);
        Ok(m)
    }

    /// Transform a dns message to a vector of bytes; fails when a section
    /// count differs from the number of records in its list
    pub fn to_be_bytes(&self) -> (r: Result<Vec<u8>, FormatError>)
        ensures
            r is Err <==> !counts_match(self@),
            r matches Ok(v) ==> v@ == message_bytes(self@),
    {
        if self.answers.len() != self.header.an_cnt as usize || self.authorities.len()
            != self.header.ns_cnt as usize || self.additionals.len()
            != self.header.ar_cnt as usize {
            return Err(FormatError);
        }
        let mut msg = self.header.to_be_bytes();
        let q = self.question.to_be_bytes();
        push_all(&mut msg, q.as_slice());
        push_records(&mut msg, &self.answers);
        push_records(&mut msg, &self.authorities);
        push_records(&mut msg, &self.additionals);
        Ok(msg)
    }

    /// Serialize for transport; fails when the counts do not match the lists
    /// or the message does not fit in one datagram
    pub fn into_bytes(&self) -> (r: Result<Vec<u8>, FormatError>)
        ensures
            r is Err <==> !counts_match(self@) || message_bytes(self@).len() > MAX_DATAGRAM,
            r matches Ok(v) ==> v@ == message_bytes(self@),
    {
        let bytes = match self.to_be_bytes() {
            Ok(v) => v,
            Err(e) => return Err(e),
        };
        if bytes.len() > MAX_DATAGRAM {
            return Err(FormatError);
        }
        Ok(bytes)
    }

    /// Parse a vector of bytes into a DNS message
    pub fn parse(message: &Vec<u8>) -> (r: Result<DnsMessage, FormatError>)
        ensures
            r is Err <==> message_at(message@) is None,
            r matches Ok(m) ==> message_at(message@).unwrap().1 == m@,
    {
        let (start, header) = match Header::parse(message, 0) {
            Ok(v) => v,
            Err(e) => return Err(e),
        };
        let (start, question) = match Question::parse(message, start) {
            Ok(v) => v,
            Err(e) => return Err(e),
        };
        let (start, answers) = match parse_records(message, start, header.an_cnt) {
            Ok(v) => v,
            Err(e) => return Err(e),
        };
        let (start, authorities) = match parse_records(message, start, header.ns_cnt) {
            Ok(v) => v,
            Err(e) => return Err(e),
        };
        let (_, additionals) = match parse_records(message, start, header.ar_cnt) {
            Ok(v) => v,
            Err(e) => return Err(e),
        };
        Ok(DnsMessage { header, question, answers, authorities, additionals })
    }

    /// Encode a dotted name as length-prefixed labels and a zero terminator;
    /// empty segments are dropped, and a label over 63 bytes is an error
    pub fn encode_address(address: &str) -> (r: Result<Vec<u8>, FormatError>)
        ensures
            r is Err <==> has_long_label(labels_of(address.spec_bytes())),
            r matches Ok(v) ==> v@ == encoded_name(address.spec_bytes()),
    {
        let b = address.as_bytes();
        let mut out: Vec<u8> = Vec::new();
        let mut seg_start: usize = 0;
        let mut too_long = false;
        let ghost mut done: Seq<Seq<u8>> = seq![];
        let mut i: usize = 0;
        while i < b.len()
            invariant
                seg_start <= i <= b@.len(),
                split_state(b@.subrange(0, i as int)) == (done, b@.subrange(
                    seg_start as int,
                    i as int,
                )),
                out@ == wire_of(done),
                too_long == has_long_label(done),
            decreases b@.len() - i,
        {
            proof {
                assert(b@.subrange(0, i + 1).drop_last() =~= b@.subrange(0, i as int));
                assert(b@.subrange(seg_start as int, i + 1) =~= b@.subrange(
                    seg_start as int,
                    i as int,
                ).push(b@[i as int]));
            }
            if b[i] == DOT {
                if i > seg_start {
                    let ghost label = b@.subrange(seg_start as int, i as int);
                    out.push((i - seg_start) as u8);
                    push_range(&mut out, b, seg_start, i);
                    if i - seg_start > MAX_LABEL {
                        too_long = true;
                    }
                    proof {
                        lemma_long_label_push(done, label);
                        assert(done.push(label).drop_last() =~= done);
                        done = done.push(label);
                        assert(out@ =~= wire_of(done));
                    }
                }
                seg_start = i + 1;
                assert(b@.subrange(seg_start as int, i + 1) =~= seq![]);
            }
            i += 1;
        }
        if i > seg_start {
            let ghost label = b@.subrange(seg_start as int, i as int);
            out.push((i - seg_start) as u8);
            push_range(&mut out, b, seg_start, i);
            if i - seg_start > MAX_LABEL {
                too_long = true;
            }
            proof {
                lemma_long_label_push(done, label);
                assert(done.push(label).drop_last() =~= done);
                done = done.push(label);
                assert(out@ =~= wire_of(done));
            }
        }
        assert(b@.subrange(0, i as int) =~= b@);
        assert(labels_of(b@) == done);
        out.push(0);
        if too_long {
            Err(FormatError)
        } else {
            Ok(out)
        }
    }

    /// Decode a label sequence, read up to its zero terminator, into a dotted name;
    /// fails when the sequence is cut short, holds a length byte over 63 (such
    /// as a compression pointer), or is not UTF-8 text
    pub fn decode_address(bytes: &Vec<u8>) -> (r: Result<String, FormatError>)
        ensures
            r is Ok <==> (name_text(bytes@, 0) is Some && valid_utf8(name_text(bytes@, 0).unwrap())),
            r matches Ok(s) ==> s@ == decode_utf8(name_text(bytes@, 0).unwrap()),
    {
        let text = match read_labels(bytes.as_slice(), 0) {
            Ok((t, _)) => t,
            Err(e) => return Err(e),
        };
        match string_from_utf8(text) {
            Some(s) => Ok(s),
            None => Err(FormatError),
        }
    }

    /// Decode the name at `offset` in a whole message, following a compression
    /// pointer: the dotted name and the offset just past the name's bytes (past
    /// the two pointer bytes when a pointer ends it). Fails on truncation, on a
    /// pointer that does not point back before `offset` at plain labels, and on
    /// text that is not UTF-8
    pub fn decode_name(buffer: &Vec<u8>, offset: usize) -> (r: Result<(String, usize), FormatError>)
        ensures
            r is Ok <==> (name_from(buffer@, offset as int, offset as int) is Some && valid_utf8(
                name_from(buffer@, offset as int, offset as int).unwrap().0,
            )),
            r matches Ok((s, next)) ==> s@ == decode_utf8(
                name_from(buffer@, offset as int, offset as int).unwrap().0,
            ) && next == name_from(buffer@, offset as int, offset as int).unwrap().1,
    {
        let w = buffer.as_slice();
        let ghost origin = offset as int;
        let mut out: Vec<u8> = Vec::new();
        let mut i: usize = offset;
        let next: usize;
        loop
            invariant_except_break
                name_from(w@, origin, origin) == combine_at(out@, name_from(w@, i as int, origin)),
            invariant
                w@ == buffer@,
                origin == offset as int,
            ensures
                name_from(w@, origin, origin) == Some((out@, next as int)),
            decreases w@.len() - i,
        {
            if i >= w.len() {
                return Err(FormatError);
            }
            let n = w[i] as usize;
            if n == 0 {
                next = i + 1;
                break;
            }
            if n >= 0xC0 {
                if w.len() - i < 2 {
                    return Err(FormatError);
                }
                let target = (read_be_u16(w, i) % 16384) as usize;
                if target >= offset {
                    return Err(FormatError);
                }
                let tail = match read_labels(w, target) {
                    Ok((t, _)) => t,
                    Err(e) => return Err(e),
                };
                let ghost before = out@;
                if out.len() > 0 && tail.len() > 0 {
                    out.push(DOT);
                }
                push_all(&mut out, tail.as_slice());
                proof {
                    if before.len() > 0 && tail@.len() > 0 {
                        assert(out@ =~= join2(before, tail@));
                    } else if before.len() > 0 {
                        assert(out@ =~= before);
                    } else {
                        assert(out@ =~= tail@);
                    }
                }
                next = i + 2;
                break;
            }
            if n > MAX_LABEL || w.len() - i - 1 < n {
                return Err(FormatError);
            }
            let ghost label = w@.subrange(i + 1, i + 1 + n);
            let ghost before = out@;
            if out.len() > 0 {
                out.push(DOT);
            }
            push_range(&mut out, w, i + 1, i + 1 + n);
            proof {
                if before.len() > 0 {
                    assert(out@ =~= before + seq![DOT] + label);
                    match name_from(w@, i + 1 + n, origin) {
                        Some((rest, _)) => {
                            if rest.len() > 0 {
                                assert(join2(before, join2(label, rest)) =~= join2(out@, rest));
                            }
                        },
                        None => {},
                    }
                } else {
                    assert(out@ =~= label);
                }
            }
            i = i + 1 + n;
        }
        match string_from_utf8(out) {
            Some(s) => Ok((s, next)),
            None => Err(FormatError),
        }
    }
}

/// Adding a label adds a long label exactly when it is one.
proof fn lemma_long_label_push(ls: Seq<Seq<u8>>, l: Seq<u8>)
    ensures
        has_long_label(ls.push(l)) == (has_long_label(ls) || l.len() > MAX_LABEL),
{
    if has_long_label(ls) {
        let k = choose|k: int| 0 <= k < ls.len() && ls[k].len() > MAX_LABEL;
        assert(ls.push(l)[k] == ls[k]);
    }
    if l.len() > MAX_LABEL {
        assert(ls.push(l)[ls.len() as int] == l);
    }
    if has_long_label(ls.push(l)) {
        let k = choose|k: int| 0 <= k < ls.push(l).len() && ls.push(l)[k].len() > MAX_LABEL;
        if k < ls.len() {
            assert(ls[k] == ls.push(l)[k]);
        }
    }
}

/// Records read from `s` span the bytes from `start` to where reading stopped,
/// and writing them back gives exactly those bytes.
proof fn lemma_records_from_bytes(s: Seq<u8>, start: int, count: nat)
    requires
        0 <= start <= s.len(),
        records_from(s, start, count) is Some,
    ensures
        start <= records_from(s, start, count).unwrap().0 <= s.len(),
        records_bytes(records_from(s, start, count).unwrap().1) == s.subrange(
            start,
            records_from(s, start, count).unwrap().0,
        ),
        records_from(s, start, count).unwrap().1.len() == count,
    decreases count,
{
    if count > 0 {
        lemma_records_from_bytes(s, start, (count - 1) as nat);
        let (p, rs) = records_from(s, start, (count - 1) as nat).unwrap();
        let (n, r) = record_at(s, p).unwrap();
        lemma_record_at_bytes(s, p);
        lemma_record_at_end(s, p);
        assert(rs.push(r).drop_last() =~= rs);
        assert(s.subrange(start, p) + s.subrange(p, n) =~= s.subrange(start, n));
    }
}

/// A record read from `s` ends after it starts and within `s`.
proof fn lemma_record_at_end(s: Seq<u8>, start: int)
    requires
        record_at(s, start) is Some,
    ensures
        start < record_at(s, start).unwrap().0 <= s.len(),
{
    if !crate::client::name::is_pointer(s[start]) {
        crate::client::utility::lemma_null_from(s, start);
    }
}

/// Parsing a message that fills the whole buffer, then serializing the
/// result, reproduces the buffer byte for byte; the parsed section counts
/// always match the parsed lists.
pub proof fn lemma_parse_serialize(s: Seq<u8>)
    requires
        message_at(s) is Some,
        message_at(s).unwrap().0 == s.len(),
    ensures
        counts_match(message_at(s).unwrap().1),
        message_bytes(message_at(s).unwrap().1) == s,
{
    let h = header_at(s, 0);
    let (q_end, q) = question_at(s, 12).unwrap();
    crate::client::header::lemma_header_at_bytes(s, 0);
    crate::client::question::lemma_question_at_bytes(s, 12);
    crate::client::utility::lemma_null_from(s, 12);
    let (a_end, _) = records_from(s, q_end, h.an_cnt as nat).unwrap();
    lemma_records_from_bytes(s, q_end, h.an_cnt as nat);
    let (n_end, _) = records_from(s, a_end, h.ns_cnt as nat).unwrap();
    lemma_records_from_bytes(s, a_end, h.ns_cnt as nat);
    let (end, _) = records_from(s, n_end, h.ar_cnt as nat).unwrap();
    lemma_records_from_bytes(s, n_end, h.ar_cnt as nat);
    assert(s.subrange(0, 12) + s.subrange(12, q_end) + s.subrange(q_end, a_end) + s.subrange(
        a_end,
        n_end,
    ) + s.subrange(n_end, end) =~= s);
}

} // verus!
