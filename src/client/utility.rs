//! Byte-level helpers shared by the codecs.

use byteorder::{BigEndian, ByteOrder};
use vstd::prelude::*;

verus! {

/// Malformed or truncated wire data.
#[derive(Debug, Clone, Copy, PartialEq, Eq, Structural)]
pub struct FormatError;

/// The big-endian 16-bit value stored at `s[i]`, `s[i + 1]`.
pub open spec fn be16(s: Seq<u8>, i: int) -> int {
    s[i] as int * 256 + s[i + 1] as int
}

/// The big-endian 32-bit value stored at `s[i..i + 4]`.
pub open spec fn be32(s: Seq<u8>, i: int) -> int {
    be16(s, i) * 65536 + be16(s, i + 2)
}

/// The two bytes of `x`, most significant first.
pub open spec fn u16_be(x: u16) -> Seq<u8> {
    seq![(x / 256) as u8, (x % 256) as u8]
}

/// The four bytes of `x`, most significant first.
pub open spec fn u32_be(x: u32) -> Seq<u8> {
    u16_be((x / 65536) as u16) + u16_be((x % 65536) as u16)
}

/// Index of the first zero byte at or after `i`, or `s.len()` when there is none.
pub open spec fn null_from(s: Seq<u8>, i: int) -> int
    decreases s.len() - i,
{
    if i < 0 || i >= s.len() {
        s.len() as int
    } else if s[i] == 0 {
        i
    } else {
        null_from(s, i + 1)
    }
}

/// The field of `number` that occupies bits `[start, end)`, counted from the
/// least significant bit.
pub open spec fn bits_range(number: u16, start: u32, end: u32) -> u16 {
    (((number as u32) >> start) & (((1u32 << (end - start)) - 1) as u32)) as u16
}

/// Relies on byteorder's `BigEndian::read_u16`: the first two bytes of its
/// argument as a big-endian integer (it panics on fewer than two).
#[verifier::external_body]
pub(crate) fn read_be_u16(buf: &[u8], at: usize) -> (r: u16)
    requires
        at + 2 <= buf@.len(),
    ensures
        r as int == be16(buf@, at as int),
{
    BigEndian::read_u16(&buf[at..])
}

/// Relies on byteorder's `BigEndian::read_u32`: the first four bytes of its
/// argument as a big-endian integer (it panics on fewer than four).
#[verifier::external_body]
pub(crate) fn read_be_u32(buf: &[u8], at: usize) -> (r: u32)
    requires
        at + 4 <= buf@.len(),
    ensures
        r as int == be32(buf@, at as int),
{
    BigEndian::read_u32(&buf[at..])
}

/// Reads a big-endian 16-bit integer from the first two bytes.
pub fn to_u16(bytes: &[u8]) -> (r: u16)
    requires
        bytes@.len() >= 2,
    ensures
        r as int == be16(bytes@, 0),
{
    read_be_u16(bytes, 0)
}

/// Reads a big-endian 32-bit integer from the first four bytes.
pub fn to_u32(bytes: &[u8]) -> (r: u32)
    requires
        bytes@.len() >= 4,
    ensures
        r as int == be32(bytes@, 0),
{
    read_be_u32(bytes, 0)
}

/// Appends the two big-endian bytes of `x`.
pub fn push_u16(out: &mut Vec<u8>, x: u16)
    ensures
        final(out)@ == old(out)@ + u16_be(x),
{
    out.push((x / 256) as u8);
    out.push((x % 256) as u8);
    assert(final(out)@ =~= old(out)@ + u16_be(x));
}

/// Appends the four big-endian bytes of `x`.
pub fn push_u32(out: &mut Vec<u8>, x: u32)
    ensures
        final(out)@ == old(out)@ + u32_be(x),
{
    push_u16(out, (x / 65536) as u16);
    push_u16(out, (x % 65536) as u16);
    assert(final(out)@ =~= old(out)@ + u32_be(x));
}

/// Appends every byte of `src`.
pub fn push_all(out: &mut Vec<u8>, src: &[u8])
    ensures
        final(out)@ == old(out)@ + src@,
{
    let ghost start = out@;
    let mut i: usize = 0;
    while i < src.len()
        invariant
            i <= src@.len(),
            out@ == start + src@.subrange(0, i as int),
        decreases src@.len() - i,
    {
        out.push(src[i]);
        i += 1;
        assert(out@ =~= start + src@.subrange(0, i as int));
    }
    assert(src@.subrange(0, i as int) =~= src@);
}

/// Appends the bytes `src[from..to]`.
pub fn push_range(out: &mut Vec<u8>, src: &[u8], from: usize, to: usize)
    requires
        from <= to <= src@.len(),
    ensures
        final(out)@ == old(out)@ + src@.subrange(from as int, to as int),
{
    let ghost start = out@;
    let mut i: usize = from;
    while i < to
        invariant
            from <= i <= to <= src@.len(),
            out@ == start + src@.subrange(from as int, i as int),
        decreases to - i,
    {
        out.push(src[i]);
        i += 1;
        assert(out@ =~= start + src@.subrange(from as int, i as int));
    }
}

/// The bytes `src[from..to]` as a new vector.
pub fn copy_range(src: &[u8], from: usize, to: usize) -> (r: Vec<u8>)
    requires
        from <= to <= src@.len(),
    ensures
        r@ == src@.subrange(from as int, to as int),
{
    let mut r: Vec<u8> = Vec::new();
    push_range(&mut r, src, from, to);
    assert(r@ =~= src@.subrange(from as int, to as int));
    r
}

/// Extracts the bit field `[start, end)` of `number`:
/// `(number >> start) & ((1 << (end - start)) - 1)`.
pub fn get_bits_range(number: u16, start: u32, end: u32) -> (r: u16)
    requires
        start < end <= 16,
    ensures
        r == bits_range(number, start, end),
{
    let range = end - start;
    assert(1u32 <= (1u32 << range) <= 65536u32) by (bit_vector)
        requires
            0u32 < range <= 16u32,
    ;
    let mask: u32 = (1u32 << range) - 1;
    (((number as u32) >> start) & mask) as u16
}

/// Position of the first zero byte at or after `start`.
pub fn find_null_from(bytes: &[u8], start: usize) -> (r: Result<usize, FormatError>)
    ensures
        match r {
            Ok(p) => p as int == null_from(bytes@, start as int) && p < bytes@.len(),
            Err(_) => null_from(bytes@, start as int) == bytes@.len(),
        },
{
    let mut i: usize = start;
    while i < bytes.len()
        invariant
            start <= i,
            null_from(bytes@, start as int) == null_from(bytes@, i as int),
        decreases bytes@.len() - i,
    {
        if bytes[i] == 0 {
            return Ok(i);
        }
        i += 1;
    }
    Err(FormatError)
}

/// Position of the first zero byte.
pub fn find_first_null(bytes: &[u8]) -> (r: Result<usize, FormatError>)
    ensures
        match r {
            Ok(p) => p as int == null_from(bytes@, 0) && p < bytes@.len(),
            Err(_) => null_from(bytes@, 0) == bytes@.len(),
        },
{
    find_null_from(bytes, 0)
}

/// `null_from` is the first zero byte: every byte before it is non-zero.
pub proof fn lemma_null_from(s: Seq<u8>, i: int)
    requires
        0 <= i,
    ensures
        i <= null_from(s, i) <= s.len() || (i > s.len() && null_from(s, i) == s.len()),
        null_from(s, i) < s.len() ==> s[null_from(s, i)] == 0,
        forall|j: int| i <= j < null_from(s, i) ==> s[j] != 0,
    decreases s.len() - i,
{
    if i < s.len() && s[i] != 0 {
        lemma_null_from(s, i + 1);
    }
}

/// Writing back a big-endian 16-bit value gives the bytes it was read from.
pub proof fn lemma_u16_bytes(s: Seq<u8>, i: int)
    requires
        0 <= i,
        i + 2 <= s.len(),
    ensures
        u16_be(be16(s, i) as u16) == s.subrange(i, i + 2),
{
    let a = s[i] as int;
    let b = s[i + 1] as int;
    let x = be16(s, i);
    assert(0 <= x < 65536) by (nonlinear_arith)
        requires
            x == a * 256 + b,
            0 <= a < 256,
            0 <= b < 256,
    ;
    assert(x / 256 == a && x % 256 == b) by (nonlinear_arith)
        requires
            x == a * 256 + b,
            0 <= a < 256,
            0 <= b < 256,
    ;
    assert(u16_be(x as u16) =~= s.subrange(i, i + 2));
}

/// Writing back a big-endian 32-bit value gives the bytes it was read from.
pub proof fn lemma_u32_bytes(s: Seq<u8>, i: int)
    requires
        0 <= i,
        i + 4 <= s.len(),
    ensures
        u32_be(be32(s, i) as u32) == s.subrange(i, i + 4),
{
    lemma_u16_bytes(s, i);
    lemma_u16_bytes(s, i + 2);
    let hi = be16(s, i);
    let lo = be16(s, i + 2);
    let x = be32(s, i);
    assert(0 <= hi < 65536 && 0 <= lo < 65536) by (nonlinear_arith)
        requires
            hi == s[i] as int * 256 + s[i + 1] as int,
            lo == s[i + 2] as int * 256 + s[i + 3] as int,
            0 <= s[i] < 256,
            0 <= s[i + 1] < 256,
            0 <= s[i + 2] < 256,
            0 <= s[i + 3] < 256,
    ;
    assert(0 <= x < 0x1_0000_0000 && x / 65536 == hi && x % 65536 == lo) by (nonlinear_arith)
        requires
            x == hi * 65536 + lo,
            0 <= hi < 65536,
            0 <= lo < 65536,
    ;
    assert(u32_be(x as u32) =~= s.subrange(i, i + 2) + s.subrange(i + 2, i + 4));
    assert(s.subrange(i, i + 2) + s.subrange(i + 2, i + 4) =~= s.subrange(i, i + 4));
}

} // verus!
