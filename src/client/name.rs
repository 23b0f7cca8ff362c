//! Domain names: dotted text and its length-prefixed label encoding.

use crate::client::utility::{be16, push_range, FormatError};
use vstd::prelude::*;
use vstd::utf8::{decode_utf8, encode_utf8, encode_utf8_decode_utf8, encode_utf8_valid_utf8, valid_utf8};

verus! {

/// The label delimiter `.`.
pub const DOT: u8 = 46;

/// Longest label the protocol allows.
pub const MAX_LABEL: usize = 63;

/// Splitting state after reading `s`: the finished non-empty labels and the
/// label being read.
pub open spec fn split_state(s: Seq<u8>) -> (Seq<Seq<u8>>, Seq<u8>)
    decreases s.len(),
{
    if s.len() == 0 {
        (seq![], seq![])
    } else {
        let (done, cur) = split_state(s.drop_last());
        if s.last() == DOT {
            (if cur.len() > 0 { done.push(cur) } else { done }, seq![])
        } else {
            (done, cur.push(s.last()))
        }
    }
}

/// The labels of a dotted name: its segments between delimiters, empty ones dropped.
pub open spec fn labels_of(s: Seq<u8>) -> Seq<Seq<u8>> {
    let (done, cur) = split_state(s);
    if cur.len() > 0 {
        done.push(cur)
    } else {
        done
    }
}

/// Each label prefixed by its length.
pub open spec fn wire_of(ls: Seq<Seq<u8>>) -> Seq<u8>
    decreases ls.len(),
{
    if ls.len() == 0 {
        seq![]
    } else {
        wire_of(ls.drop_last()) + seq![ls.last().len() as u8] + ls.last()
    }
}

/// Whether some label is longer than the protocol allows.
pub open spec fn has_long_label(ls: Seq<Seq<u8>>) -> bool {
    exists|k: int| 0 <= k < ls.len() && ls[k].len() > MAX_LABEL
}

/// The encoding of a dotted name: its labels, then the zero-length terminator.
pub open spec fn encoded_name(s: Seq<u8>) -> Seq<u8> {
    wire_of(labels_of(s)) + seq![0u8]
}

/// Labels joined with the delimiter.
pub open spec fn join(ls: Seq<Seq<u8>>) -> Seq<u8>
    decreases ls.len(),
{
    if ls.len() == 0 {
        seq![]
    } else if ls.len() == 1 {
        ls[0]
    } else {
        join(ls.drop_last()) + seq![DOT] + ls.last()
    }
}

/// `l` followed by the delimiter and `r`, or `l` alone when `r` is empty.
pub open spec fn join2(l: Seq<u8>, r: Seq<u8>) -> Seq<u8> {
    if r.len() == 0 {
        l
    } else {
        l + seq![DOT] + r
    }
}

/// The dotted text of the label sequence at `i` in `w`, read up to its zero
/// terminator; `None` when the sequence is cut short or holds a length byte
/// above the label limit (such as a compression pointer).
pub open spec fn name_text(w: Seq<u8>, i: int) -> Option<Seq<u8>>
    decreases w.len() - i,
{
    if i < 0 || i >= w.len() {
        None
    } else if w[i] == 0 {
        Some(seq![])
    } else if w[i] > MAX_LABEL || i + 1 + w[i] > w.len() {
        None
    } else {
        match name_text(w, i + 1 + w[i]) {
            Some(r) => Some(join2(w.subrange(i + 1, i + 1 + w[i]), r)),
            None => None,
        }
    }
}

/// A length byte whose top two bits are set starts a compression pointer.
pub open spec fn is_pointer(b: u8) -> bool {
    b >= 0xC0
}

/// The absolute offset held in the low 14 bits of the pointer at `i`.
pub open spec fn pointer_target(s: Seq<u8>, i: int) -> int {
    be16(s, i) % 16384
}

/// The dotted text of the name at `i` and the offset just past it in `w`.
/// Labels are read up to a zero terminator or a compression pointer; a pointer
/// must point before `origin`, where the name began, at a plain label
/// sequence, and ends the name after its two bytes.
pub open spec fn name_from(w: Seq<u8>, i: int, origin: int) -> Option<(Seq<u8>, int)>
    decreases w.len() - i,
{
    if i < 0 || i >= w.len() {
        None
    } else if w[i] == 0 {
        Some((seq![], i + 1))
    } else if is_pointer(w[i]) {
        if i + 2 > w.len() || pointer_target(w, i) >= origin {
            None
        } else {
            match name_text(w, pointer_target(w, i)) {
                Some(t) => Some((t, i + 2)),
                None => None,
            }
        }
    } else if w[i] > MAX_LABEL || i + 1 + w[i] > w.len() {
        None
    } else {
        match name_from(w, i + 1 + w[i], origin) {
            Some((r, e)) => Some((join2(w.subrange(i + 1, i + 1 + w[i]), r), e)),
            None => None,
        }
    }
}

/// The offset just past the terminator of the plain label sequence at `i`
/// (meaningful where `name_text(w, i)` is some text).
pub open spec fn labels_end(w: Seq<u8>, i: int) -> int
    decreases w.len() - i,
{
    if i < 0 || i >= w.len() || w[i] == 0 || w[i] > MAX_LABEL || i + 1 + w[i] > w.len() {
        i + 1
    } else {
        labels_end(w, i + 1 + w[i])
    }
}

/// Text read so far, followed by the rest of a name and where it ends.
pub open spec fn combine_at(a: Seq<u8>, o: Option<(Seq<u8>, int)>) -> Option<(Seq<u8>, int)> {
    match o {
        Some((r, e)) => Some(
            (
                if a.len() == 0 {
                    r
                } else {
                    join2(a, r)
                },
                e,
            ),
        ),
        None => None,
    }
}

/// Text read so far, followed by the text still to be read.
pub open spec fn combine(a: Seq<u8>, o: Option<Seq<u8>>) -> Option<Seq<u8>> {
    match o {
        Some(r) => Some(
            if a.len() == 0 {
                r
            } else {
                join2(a, r)
            },
        ),
        None => None,
    }
}

/// The dotted text of the plain label sequence at `start`, as bytes, and the
/// offset just past its terminator.
pub fn read_labels(w: &[u8], start: usize) -> (r: Result<(Vec<u8>, usize), FormatError>)
    ensures
        match r {
            Ok((t, e)) => name_text(w@, start as int) == Some(t@) && e as int == labels_end(
                w@,
                start as int,
            ) && start < e <= w@.len(),
            Err(_) => name_text(w@, start as int) is None,
        },
{
    let ghost origin = start as int;
    let mut out: Vec<u8> = Vec::new();
    let mut i: usize = start;
    let end: usize;
    loop
        invariant
            origin == start as int,
            origin <= i,
            name_text(w@, origin) == combine(out@, name_text(w@, i as int)),
            name_text(w@, i as int) is Some ==> labels_end(w@, origin) == labels_end(w@, i as int),
        ensures
            i < w@.len() && w@[i as int] == 0 && end == i + 1,
            name_text(w@, origin) == combine(out@, name_text(w@, i as int)),
        decreases w@.len() - i,
    {
        if i >= w.len() {
            return Err(FormatError);
        }
        let n = w[i] as usize;
        if n == 0 {
            end = i + 1;
            break;
        }
        if n > MAX_LABEL || w.len() - i - 1 < n {
            return Err(FormatError);
        }
        let ghost label = w@.subrange(i + 1, i + 1 + n);
        let ghost before = out@;
        if out.len() > 0 {
            out.push(DOT);
        }
        push_range(&mut out, w, i + 1, i + 1 + n);
        proof {
            if before.len() > 0 {
                assert(out@ =~= before + seq![DOT] + label);
                match name_text(w@, i + 1 + n) {
                    Some(rest) => {
                        if rest.len() > 0 {
                            assert(join2(before, join2(label, rest)) =~= join2(out@, rest));
                        }
                    },
                    None => {},
                }
            } else {
                assert(out@ =~= label);
            }
        }
        i = i + 1 + n;
    }
    assert(combine(out@, Some(seq![])) == Some(out@));
    Ok((out, end))
}

/// A dotted name in canonical form: non-empty, no delimiter at either end,
/// no two delimiters in a row, and no label over the limit.
pub open spec fn valid_dotted(s: Seq<u8>) -> bool {
    &&& s.len() > 0
    &&& s[0] != DOT
    &&& s.last() != DOT
    &&& forall|i: int| 0 <= i < s.len() - 1 ==> !(s[i] == DOT && #[trigger] s[i + 1] == DOT)
    &&& !has_long_label(labels_of(s))
}

/// Finished labels joined, then the label being read.
pub open spec fn join_all(done: Seq<Seq<u8>>, cur: Seq<u8>) -> Seq<u8> {
    if done.len() == 0 {
        cur
    } else {
        join(done) + seq![DOT] + cur
    }
}

/// Splitting a name with no doubled or leading delimiter loses nothing:
/// joining the pieces back gives the name.
proof fn lemma_split_join(b: Seq<u8>)
    requires
        b.len() == 0 || b[0] != DOT,
        forall|i: int| 0 <= i < b.len() - 1 ==> !(b[i] == DOT && #[trigger] b[i + 1] == DOT),
    ensures
        (split_state(b).1.len() == 0) <==> (b.len() == 0 || b.last() == DOT),
        forall|k: int| 0 <= k < split_state(b).0.len() ==> #[trigger] split_state(b).0[k].len() > 0,
        join_all(split_state(b).0, split_state(b).1) == b,
    decreases b.len(),
{
    if b.len() > 0 {
        let p = b.drop_last();
        assert forall|i: int| 0 <= i < p.len() - 1 implies !(p[i] == DOT && #[trigger] p[i + 1]
            == DOT) by {
            assert(p[i] == b[i] && p[i + 1] == b[i + 1]);
        }
        lemma_split_join(p);
        let (d, c) = split_state(p);
        if b.last() == DOT {
            assert(p.len() > 0);
            assert(b[p.len() - 1] == p.last());
            assert(c.len() > 0);
            let d2 = d.push(c);
            assert(d2.drop_last() =~= d);
            assert forall|k: int| 0 <= k < d2.len() implies #[trigger] d2[k].len() > 0 by {
                if k < d.len() {
                    assert(d2[k] == d[k]);
                }
            }
            assert(join(d2) == join_all(d, c));
            assert(join_all(d2, seq![]) =~= b);
        } else {
            if d.len() == 0 {
                assert(join_all(d, c.push(b.last())) =~= b);
            } else {
                assert(join_all(d, c.push(b.last())) =~= join_all(d, c).push(b.last()));
            }
        }
    }
}

/// Reading labels does not depend on bytes before the read position.
proof fn lemma_name_text_shift(p: Seq<u8>, q: Seq<u8>, i: int)
    requires
        0 <= i,
    ensures
        name_text(p + q, p.len() + i) == name_text(q, i),
    decreases q.len() - i,
{
    let w = p + q;
    let j = p.len() + i;
    if i < q.len() {
        assert(w[j] == q[i]);
        if q[i] != 0 && q[i] <= MAX_LABEL && i + 1 + q[i] <= q.len() {
            lemma_name_text_shift(p, q, i + 1 + q[i]);
            assert(w.subrange(j + 1, j + 1 + w[j]) =~= q.subrange(i + 1, i + 1 + q[i]));
        }
    }
}

/// Reading the encoding of labels, then whatever follows, gives the joined labels.
proof fn lemma_wire_text(ls: Seq<Seq<u8>>, tail: Seq<u8>)
    requires
        forall|k: int| 0 <= k < ls.len() ==> 0 < #[trigger] ls[k].len() <= MAX_LABEL,
    ensures
        name_text(wire_of(ls) + tail, 0) == combine(join(ls), name_text(tail, 0)),
        ls.len() > 0 ==> join(ls).len() > 0,
    decreases ls.len(),
{
    if ls.len() == 0 {
        assert(wire_of(ls) + tail =~= tail);
    } else {
        let p = ls.drop_last();
        let l = ls.last();
        assert(l == ls[ls.len() - 1]);
        assert forall|k: int| 0 <= k < p.len() implies 0 < #[trigger] p[k].len() <= MAX_LABEL by {
            assert(p[k] == ls[k]);
        }
        let n = l.len() as u8;
        let head = seq![n] + l;
        let t2 = head + tail;
        assert(wire_of(ls) + tail =~= wire_of(p) + t2);
        lemma_wire_text(p, t2);
        lemma_name_text_shift(head, tail, 0);
        assert(t2[0] == n);
        assert(t2.subrange(1, 1 + n) =~= l);
        assert(name_text(t2, 0) == combine(l, name_text(tail, 0)));
        if p.len() > 0 {
            assert(join(ls) == join(p) + seq![DOT] + l);
            match name_text(tail, 0) {
                Some(r) => {
                    if r.len() > 0 {
                        assert(join2(join(p), join2(l, r)) =~= join2(join(ls), r));
                    }
                },
                None => {},
            }
        }
    }
}

/// Decoding the encoding of a canonical dotted name gives the name back, both
/// as bytes and as text.
pub proof fn lemma_name_round_trip(name: Seq<char>)
    requires
        valid_dotted(encode_utf8(name)),
    ensures
        name_text(encoded_name(encode_utf8(name)), 0) == Some(encode_utf8(name)),
        valid_utf8(encode_utf8(name)),
        decode_utf8(encode_utf8(name)) == name,
{
    let b = encode_utf8(name);
    lemma_split_join(b);
    let (d, c) = split_state(b);
    let ls = labels_of(b);
    assert(ls == d.push(c));
    assert(ls.drop_last() =~= d);
    assert(join(ls) == join_all(d, c));
    assert forall|k: int| 0 <= k < ls.len() implies 0 < #[trigger] ls[k].len() <= MAX_LABEL by {
        if k < d.len() {
            assert(ls[k] == d[k]);
        }
        if ls[k].len() > MAX_LABEL {
            assert(has_long_label(ls));
        }
    }
    lemma_wire_text(ls, seq![0u8]);
    assert(name_text(seq![0u8], 0) == Some(Seq::<u8>::empty()));
    encode_utf8_valid_utf8(name);
    encode_utf8_decode_utf8(name);
}

} // verus!
