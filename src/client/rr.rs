//! Resource records, whose owner name may be a compression pointer.

use crate::client::utility::{
    be16, be32, copy_range, find_null_from, lemma_null_from, lemma_u16_bytes, lemma_u32_bytes,
    null_from, push_all, push_u16, push_u32, read_be_u16, read_be_u32, u16_be, u32_be, FormatError,
};
use crate::client::name::{is_pointer, labels_end, name_text, pointer_target, read_labels};
use vstd::prelude::*;

verus! {

/// Record type of a host address (A).
pub const TYPE_A: u16 = 1;

/// Record class of the Internet (IN).
pub const CLASS_IN: u16 = 1;

/// DNS resource record
pub struct ResourceRecord {
    /// The owner name as it stands in the message: labels up to a zero
    /// terminator, or a two-byte compression pointer
    pub rr_name: Vec<u8>,
    /// The label sequence that the owner name stands for, terminator included
    /// (the pointed-to labels when `rr_name` is a pointer)
    pub rr_owner: Vec<u8>,
    /// RR type codes specifying the meaning in rdata
    pub rr_type: u16,
    /// Class of the data in rdata
    pub rr_class: u16,
    /// Time interval in seconds
    pub rr_ttl: u32,
    /// Length of rdata field
    pub rr_rdlength: u16,
    /// The resource data; its format depends on type and class
    pub rr_rdata: Vec<u8>,
    /// Offset of the resource data in the message it was parsed from, where
    /// names inside it are read with their compression pointers
    pub rr_rdata_offset: usize,
}

/// A resource record as plain values.
pub struct RecordView {
    pub name: Seq<u8>,
    pub owner: Seq<u8>,
    pub rtype: u16,
    pub class: u16,
    pub ttl: u32,
    pub rdlength: u16,
    pub rdata: Seq<u8>,
    pub rdata_offset: int,
}

impl View for ResourceRecord {
    type V = RecordView;

    open spec fn view(&self) -> RecordView {
        RecordView {
            name: self.rr_name@,
            owner: self.rr_owner@,
            rtype: self.rr_type,
            class: self.rr_class,
            ttl: self.rr_ttl,
            rdlength: self.rr_rdlength,
            rdata: self.rr_rdata@,
            rdata_offset: self.rr_rdata_offset as int,
        }
    }
}

/// The wire bytes of a record: name, type, class, ttl, rdlength, rdata.
pub open spec fn record_bytes(r: RecordView) -> Seq<u8> {
    r.name + u16_be(r.rtype) + u16_be(r.class) + u32_be(r.ttl) + u16_be(r.rdlength) + r.rdata
}

/// Where the fixed fields of the record at `start` begin, if its owner name is
/// well formed: a pointer must point backwards at a plain label sequence,
/// literal labels must reach a zero terminator.
pub open spec fn fields_start(s: Seq<u8>, start: int) -> Option<int> {
    if start < 0 || start >= s.len() {
        None
    } else if is_pointer(s[start]) {
        if start + 2 > s.len() || pointer_target(s, start) >= start || name_text(
            s,
            pointer_target(s, start),
        ) is None {
            None
        } else {
            Some(start + 2)
        }
    } else if null_from(s, start) >= s.len() {
        None
    } else {
        Some(null_from(s, start) + 1)
    }
}

/// The label sequence named by the owner name at `start`.
pub open spec fn owner_labels(s: Seq<u8>, start: int) -> Seq<u8> {
    if is_pointer(s[start]) {
        s.subrange(pointer_target(s, start), labels_end(s, pointer_target(s, start)))
    } else {
        s.subrange(start, null_from(s, start) + 1)
    }
}

/// The record stored in `s` at `start` and the offset just past it, if well formed.
pub open spec fn record_at(s: Seq<u8>, start: int) -> Option<(int, RecordView)> {
    match fields_start(s, start) {
        Some(f) => if f + 10 <= s.len() && f + 10 + be16(s, f + 8) <= s.len() {
            let end = f + 10 + be16(s, f + 8);
            Some(
                (
                    end,
                    RecordView {
                        name: s.subrange(start, f),
                        owner: owner_labels(s, start),
                        rtype: be16(s, f) as u16,
                        class: be16(s, f + 2) as u16,
                        ttl: be32(s, f + 4) as u32,
                        rdlength: be16(s, f + 8) as u16,
                        rdata: s.subrange(f + 10, end),
                        rdata_offset: f + 10,
                    },
                ),
            )
        } else {
            None
        },
        None => None,
    }
}

/// A record of the host-address type in the Internet class.
pub open spec fn is_host_record(r: RecordView) -> bool {
    r.rtype == TYPE_A && r.class == CLASS_IN
}

/// The IPv4 address carried by a host-address record with four bytes of data.
pub open spec fn host_addr_of(r: RecordView) -> Option<[u8; 4]> {
    if is_host_record(r) && r.rdata.len() == 4 {
        Some([r.rdata[0], r.rdata[1], r.rdata[2], r.rdata[3]])
    } else {
        None
    }
}

impl ResourceRecord {
    /// Transform a resource record to a vector of bytes
    pub fn to_be_bytes(&self) -> (r: Vec<u8>)
        ensures
            r@ == record_bytes(self@),
    {
        let mut reply: Vec<u8> = Vec::new();
        push_all(&mut reply, self.rr_name.as_slice());
        push_u16(&mut reply, self.rr_type);
        push_u16(&mut reply, self.rr_class);
        push_u32(&mut reply, self.rr_ttl);
        push_u16(&mut reply, self.rr_rdlength);
        push_all(&mut reply, self.rr_rdata.as_slice());
        reply
    }

    /// Parse the resource record that starts at `start`
    pub fn parse(message: &Vec<u8>, start: usize) -> (r: Result<(usize, ResourceRecord), FormatError>)
        ensures
            match r {
                Ok((next, rr)) => record_at(message@, start as int) == Some((next as int, rr@)),
                Err(_) => record_at(message@, start as int) is None,
            },
    {
        let m = message.as_slice();
        if start >= m.len() {
            return Err(FormatError);
        }
        let fields: usize;
        let rr_owner: Vec<u8>;
        if m[start] >= 0xC0 {
            if m.len() - start < 2 {
                return Err(FormatError);
            }
            let target = (read_be_u16(m, start) % 16384) as usize;
            if target >= start {
                return Err(FormatError);
            }
            let labels_stop = match read_labels(m, target) {
                Ok((_, e)) => e,
                Err(e) => return Err(e),
            };
            rr_owner = copy_range(m, target, labels_stop);
            fields = start + 2;
        } else {
            let null_pos = match find_null_from(m, start) {
                Ok(p) => p,
                Err(e) => return Err(e),
            };
            proof {
                lemma_null_from(message@, start as int);
            }
            rr_owner = copy_range(m, start, null_pos + 1);
            fields = null_pos + 1;
        }
        assert(fields_start(message@, start as int) == Some(fields as int));
        if m.len() - fields < 10 {
            return Err(FormatError);
        }
        let rr_rdlength = read_be_u16(m, fields + 8);
        if m.len() - fields - 10 < rr_rdlength as usize {
            return Err(FormatError);
        }
        let end = fields + 10 + rr_rdlength as usize;
        let rr = ResourceRecord {
            rr_name: copy_range(m, start, fields),
            rr_owner,
            rr_type: read_be_u16(m, fields),
            rr_class: read_be_u16(m, fields + 2),
            rr_ttl: read_be_u32(m, fields + 4),
            rr_rdlength,
            rr_rdata: copy_range(m, fields + 10, end),
            rr_rdata_offset: fields + 10,
        };
        assert(rr@ == record_at(message@, start as int).unwrap().1);
        Ok((end, rr))
    }

    /// Whether this is a host-address record of the Internet class
    pub fn is_host_addr(&self) -> (r: bool)
        ensures
            r == is_host_record(self@),
    {
        self.rr_type == TYPE_A && self.rr_class == CLASS_IN
    }

    /// The IPv4 address of a host-address record whose data is four bytes
    pub fn host_addr(&self) -> (r: Option<[u8; 4]>)
        ensures
            r == host_addr_of(self@),
    {
        if self.is_host_addr() && self.rr_rdata.len() == 4 {
            let a = [self.rr_rdata[0], self.rr_rdata[1], self.rr_rdata[2], self.rr_rdata[3]];
            Some(a)
        } else {
            None
        }
    }
}

/// Writing back a record read from `s` gives the bytes it spans.
pub proof fn lemma_record_at_bytes(s: Seq<u8>, start: int)
    requires
        record_at(s, start) is Some,
    ensures
        record_bytes(record_at(s, start).unwrap().1) == s.subrange(
            start,
            record_at(s, start).unwrap().0,
        ),
{
    let f = fields_start(s, start).unwrap();
    let end = record_at(s, start).unwrap().0;
    if !is_pointer(s[start]) {
        lemma_null_from(s, start);
    }
    lemma_u16_bytes(s, f);
    lemma_u16_bytes(s, f + 2);
    lemma_u32_bytes(s, f + 4);
    lemma_u16_bytes(s, f + 8);
    assert(record_bytes(record_at(s, start).unwrap().1) =~= s.subrange(start, end));
}

} // verus!
