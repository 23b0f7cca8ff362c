//! The fixed 12-byte message header and its bit-packed flag word.

use crate::client::utility::{
    be16, bits_range, get_bits_range, lemma_u16_bytes, push_u16, read_be_u16, to_u16, u16_be,
    FormatError,
};
use vstd::prelude::*;

verus! {

/// Flag section in DNS header
#[derive(Debug, Clone, Copy, PartialEq, Eq, Structural)]
pub struct Flag {
    /// Whether it is a query (0) or a response (1)
    pub qr: u16,
    /// Kind of query: 0 standard, 1 inverse, 2 server status request
    pub op_code: u16,
    /// Authoritative answer - valid in response
    pub aa: u16,
    /// Truncation - message was truncated due to excessive length
    pub tc: u16,
    /// Recursion desired
    pub rd: u16,
    /// Recursion available
    pub ra: u16,
    /// Reserved for future use
    pub z: u16,
    /// Response code
    pub r_code: u16,
}

/// Each field fits its bit width.
pub open spec fn flag_wf(f: Flag) -> bool {
    f.qr < 2 && f.op_code < 16 && f.aa < 2 && f.tc < 2 && f.rd < 2 && f.ra < 2 && f.z < 8
        && f.r_code < 16
}

/// `qr<<15 | opcode<<11 | aa<<10 | tc<<9 | rd<<8 | ra<<7 | z<<4 | rcode`.
pub open spec fn flag_word(f: Flag) -> u16 {
    f.qr << 15u16 | f.op_code << 11u16 | f.aa << 10u16 | f.tc << 9u16 | f.rd << 8u16 | f.ra
        << 7u16 | f.z << 4u16 | f.r_code
}

/// The flags held in the word `w`.
pub open spec fn flag_of(w: u16) -> Flag {
    Flag {
        qr: bits_range(w, 15, 16),
        op_code: bits_range(w, 11, 15),
        aa: bits_range(w, 10, 11),
        tc: bits_range(w, 9, 10),
        rd: bits_range(w, 8, 9),
        ra: bits_range(w, 7, 8),
        z: bits_range(w, 4, 7),
        r_code: bits_range(w, 0, 4),
    }
}

impl Flag {
    /// Transform the flag to a two-octet number
    pub fn to_be_bytes(&self) -> (r: u16)
        ensures
            r == flag_word(*self),
    {
        self.qr << 15 | self.op_code << 11 | self.aa << 10 | self.tc << 9 | self.rd << 8 | self.ra
            << 7 | self.z << 4 | self.r_code
    }

    /// Parse the first two bytes of `flags` as a DNS flag word
    pub fn parse(flags: &[u8]) -> (r: Flag)
        requires
            flags@.len() >= 2,
        ensures
            r == flag_of(be16(flags@, 0) as u16),
            flag_wf(r),
    {
        Flag::from_word(to_u16(flags))
    }

    /// Unpack the eight fields of a flag word
    pub fn from_word(flag: u16) -> (r: Flag)
        ensures
            r == flag_of(flag),
            flag_wf(r),
    {
        let r_code = get_bits_range(flag, 0, 4);
        let z = get_bits_range(flag, 4, 7);
        let ra = get_bits_range(flag, 7, 8);
        let rd = get_bits_range(flag, 8, 9);
        let tc = get_bits_range(flag, 9, 10);
        let aa = get_bits_range(flag, 10, 11);
        let op_code = get_bits_range(flag, 11, 15);
        let qr = get_bits_range(flag, 15, 16);
        proof {
            lemma_flag_of_wf(flag);
        }
        Flag { qr, op_code, aa, tc, rd, ra, z, r_code }
    }
}

/// Every field decoded from a word fits its bit width.
pub proof fn lemma_flag_of_wf(w: u16)
    ensures
        flag_wf(flag_of(w)),
{
    assert(bits_range(w, 15, 16) < 2) by (bit_vector);
    assert(bits_range(w, 11, 15) < 16) by (bit_vector);
    assert(bits_range(w, 10, 11) < 2) by (bit_vector);
    assert(bits_range(w, 9, 10) < 2) by (bit_vector);
    assert(bits_range(w, 8, 9) < 2) by (bit_vector);
    assert(bits_range(w, 7, 8) < 2) by (bit_vector);
    assert(bits_range(w, 4, 7) < 8) by (bit_vector);
    assert(bits_range(w, 0, 4) < 16) by (bit_vector);
}

/// Decoding the packed word of well-formed flags gives the same flags back.
pub proof fn lemma_flag_round_trip(f: Flag)
    requires
        flag_wf(f),
    ensures
        flag_of(flag_word(f)) == f,
{
    let (qr, op, aa, tc, rd, ra, z, rc) = (f.qr, f.op_code, f.aa, f.tc, f.rd, f.ra, f.z, f.r_code);
    let w = flag_word(f);
    assert(w == qr << 15u16 | op << 11u16 | aa << 10u16 | tc << 9u16 | rd << 8u16 | ra << 7u16 | z
        << 4u16 | rc);
    assert(bits_range(w, 15, 16) == qr && bits_range(w, 11, 15) == op && bits_range(w, 10, 11)
        == aa && bits_range(w, 9, 10) == tc) by (bit_vector)
        requires
            w == qr << 15u16 | op << 11u16 | aa << 10u16 | tc << 9u16 | rd << 8u16 | ra << 7u16 | z
                << 4u16 | rc,
            qr < 2 && op < 16 && aa < 2 && tc < 2 && rd < 2 && ra < 2 && z < 8 && rc < 16,
    ;
    assert(bits_range(w, 8, 9) == rd && bits_range(w, 7, 8) == ra && bits_range(w, 4, 7) == z
        && bits_range(w, 0, 4) == rc) by (bit_vector)
        requires
            w == qr << 15u16 | op << 11u16 | aa << 10u16 | tc << 9u16 | rd << 8u16 | ra << 7u16 | z
                << 4u16 | rc,
            qr < 2 && op < 16 && aa < 2 && tc < 2 && rd < 2 && ra < 2 && z < 8 && rc < 16,
    ;
}

/// DNS Header
#[derive(Debug, Clone, Copy, PartialEq, Eq, Structural)]
pub struct Header {
    /// Identifier from the DNS client
    pub id: u16,
    /// DNS Flag
    pub flags: Flag,
    /// Number of questions
    pub qd_cnt: u16,
    /// Number of answers
    pub an_cnt: u16,
    /// Number of authority records
    pub ns_cnt: u16,
    /// Number of additional records
    pub ar_cnt: u16,
}

/// The 12 wire bytes of a header.
pub open spec fn header_bytes(h: Header) -> Seq<u8> {
    u16_be(h.id) + u16_be(flag_word(h.flags)) + u16_be(h.qd_cnt) + u16_be(h.an_cnt) + u16_be(
        h.ns_cnt,
    ) + u16_be(h.ar_cnt)
}

/// The header stored in `s` at `i` (meaningful when 12 bytes are there).
pub open spec fn header_at(s: Seq<u8>, i: int) -> Header {
    Header {
        id: be16(s, i) as u16,
        flags: flag_of(be16(s, i + 2) as u16),
        qd_cnt: be16(s, i + 4) as u16,
        an_cnt: be16(s, i + 6) as u16,
        ns_cnt: be16(s, i + 8) as u16,
        ar_cnt: be16(s, i + 10) as u16,
    }
}

impl Header {
    /// Transform to a vector of bytes
    pub fn to_be_bytes(&self) -> (r: Vec<u8>)
        ensures
            r@ == header_bytes(*self),
    {
        let mut header: Vec<u8> = Vec::new();
        push_u16(&mut header, self.id);
        push_u16(&mut header, self.flags.to_be_bytes());
        push_u16(&mut header, self.qd_cnt);
        push_u16(&mut header, self.an_cnt);
        push_u16(&mut header, self.ns_cnt);
        push_u16(&mut header, self.ar_cnt);
        assert(header@ =~= header_bytes(*self));
        header
    }

    /// Parse the header that starts at `start`; fails when fewer than 12 bytes remain
    pub fn parse(message: &Vec<u8>, start: usize) -> (r: Result<(usize, Header), FormatError>)
        ensures
            r is Err <==> start + 12 > message@.len(),
            r matches Ok((next, h)) ==> next == start + 12 && h == header_at(message@, start as int)
                && flag_wf(h.flags),
    {
        if start > message.len() || message.len() - start < 12 {
            return Err(FormatError);
        }
        let m = message.as_slice();
        let id = read_be_u16(m, start);
        let flags = Flag::from_word(read_be_u16(m, start + 2));
        let qd_cnt = read_be_u16(m, start + 4);
        let an_cnt = read_be_u16(m, start + 6);
        let ns_cnt = read_be_u16(m, start + 8);
        let ar_cnt = read_be_u16(m, start + 10);
        Ok((start + 12, Header { id, flags, qd_cnt, an_cnt, ns_cnt, ar_cnt }))
    }
}

/// Reading back the bytes of a header gives the same header.
pub proof fn lemma_header_round_trip(h: Header, pre: Seq<u8>, post: Seq<u8>)
    requires
        flag_wf(h.flags),
    ensures
        header_at(pre + header_bytes(h) + post, pre.len() as int) == h,
{
    let s = pre + header_bytes(h) + post;
    let i = pre.len() as int;
    lemma_flag_round_trip(h.flags);
    assert(s.subrange(i, i + 12) =~= header_bytes(h));
    assert(be16(s, i) == h.id as int);
    assert(be16(s, i + 2) == flag_word(h.flags) as int);
    assert(be16(s, i + 4) == h.qd_cnt as int);
    assert(be16(s, i + 6) == h.an_cnt as int);
    assert(be16(s, i + 8) == h.ns_cnt as int);
    assert(be16(s, i + 10) == h.ar_cnt as int);
}

/// Packing the flags read from a word gives the word back.
pub proof fn lemma_flag_word_of(w: u16)
    ensures
        flag_word(flag_of(w)) == w,
{
    let qr = bits_range(w, 15, 16);
    let op = bits_range(w, 11, 15);
    let aa = bits_range(w, 10, 11);
    let tc = bits_range(w, 9, 10);
    let rd = bits_range(w, 8, 9);
    let ra = bits_range(w, 7, 8);
    let z = bits_range(w, 4, 7);
    let rc = bits_range(w, 0, 4);
    assert(qr << 15u16 | op << 11u16 | aa << 10u16 | tc << 9u16 | rd << 8u16 | ra << 7u16 | z
        << 4u16 | rc == w) by (bit_vector)
        requires
            qr == bits_range(w, 15, 16),
            op == bits_range(w, 11, 15),
            aa == bits_range(w, 10, 11),
            tc == bits_range(w, 9, 10),
            rd == bits_range(w, 8, 9),
            ra == bits_range(w, 7, 8),
            z == bits_range(w, 4, 7),
            rc == bits_range(w, 0, 4),
    ;
}

/// Writing back a header read from `s` gives its 12 bytes.
pub proof fn lemma_header_at_bytes(s: Seq<u8>, i: int)
    requires
        0 <= i,
        i + 12 <= s.len(),
    ensures
        header_bytes(header_at(s, i)) == s.subrange(i, i + 12),
{
    lemma_u16_bytes(s, i);
    lemma_u16_bytes(s, i + 2);
    lemma_u16_bytes(s, i + 4);
    lemma_u16_bytes(s, i + 6);
    lemma_u16_bytes(s, i + 8);
    lemma_u16_bytes(s, i + 10);
    lemma_flag_word_of(be16(s, i + 2) as u16);
    assert(header_bytes(header_at(s, i)) =~= s.subrange(i, i + 12));
}

} // verus!
