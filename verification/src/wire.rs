//! Big-endian integers and length-prefixed byte strings, the two building
//! blocks of every record in a table file.
//!
//! Reading and writing the integers is done by the `bytes` crate; the
//! functions that call it state what the crate documents and are taken on
//! trust.  Everything built on top of them is proved.

use vstd::prelude::*;
use vstd::slice::slice_subrange;

verus! {

/// The two bytes of `n`, most significant first.
#[verifier::opaque]
pub open spec fn u16_be(n: u16) -> Seq<u8> {
    seq![(n / 256) as u8, (n % 256) as u8]
}

/// The four bytes of `n`, most significant first.
#[verifier::opaque]
pub open spec fn u32_be(n: u32) -> Seq<u8> {
    seq![
        (n / 0x100_0000) as u8,
        ((n / 0x1_0000) % 256) as u8,
        ((n / 0x100) % 256) as u8,
        (n % 256) as u8,
    ]
}

/// The integer whose big-endian bytes are the first two bytes of `s`.
#[verifier::opaque]
pub open spec fn u16_from_be(s: Seq<u8>) -> u16
    recommends
        s.len() >= 2,
{
    (s[0] as int * 256 + s[1] as int) as u16
}

/// The integer whose big-endian bytes are the first four bytes of `s`.
#[verifier::opaque]
pub open spec fn u32_from_be(s: Seq<u8>) -> u32
    recommends
        s.len() >= 4,
{
    (s[0] as int * 0x100_0000 + s[1] as int * 0x1_0000 + s[2] as int * 0x100 + s[3] as int) as u32
}

/// A 16-bit integer is written as two bytes.
pub broadcast proof fn lemma_u16_be_len(n: u16)
    ensures
        #[trigger] u16_be(n).len() == 2,
{
    reveal(u16_be);
}

/// A 32-bit integer is written as four bytes.
pub broadcast proof fn lemma_u32_be_len(n: u32)
    ensures
        #[trigger] u32_be(n).len() == 4,
{
    reveal(u32_be);
}

/// Only the first two bytes matter when a 16-bit integer is read.
pub proof fn lemma_u16_from_be_prefix(s: Seq<u8>, t: Seq<u8>)
    requires
        s.len() >= 2,
        t.len() >= 2,
        s[0] == t[0],
        s[1] == t[1],
    ensures
        u16_from_be(s) == u16_from_be(t),
{
    reveal(u16_from_be);
}

/// Only the first four bytes matter when a 32-bit integer is read.
pub proof fn lemma_u32_from_be_prefix(s: Seq<u8>, t: Seq<u8>)
    requires
        s.len() >= 4,
        t.len() >= 4,
        s[0] == t[0],
        s[1] == t[1],
        s[2] == t[2],
        s[3] == t[3],
    ensures
        u32_from_be(s) == u32_from_be(t),
{
    reveal(u32_from_be);
}

/// Reading back the bytes of a 16-bit integer gives the integer.
pub proof fn lemma_u16_round_trip(n: u16)
    ensures
        u16_be(n).len() == 2,
        u16_from_be(u16_be(n)) == n,
{
    reveal(u16_be);
    reveal(u16_from_be);
    let hi = n as int / 256;
    let lo = n as int % 256;
    assert(n as int == hi * 256 + lo);
    assert(0 <= hi < 256 && 0 <= lo < 256);
    assert(u16_be(n)[0] as int == hi);
    assert(u16_be(n)[1] as int == lo);
}

/// Writing out the integer read from two bytes gives the two bytes.
pub proof fn lemma_u16_bytes_round_trip(s: Seq<u8>)
    requires
        s.len() == 2,
    ensures
        u16_be(u16_from_be(s)) == s,
{
    reveal(u16_be);
    reveal(u16_from_be);
    let x = s[0] as int * 256 + s[1] as int;
    assert(0 <= x <= u16::MAX);
    assert(x / 256 == s[0] as int);
    assert(x % 256 == s[1] as int);
    assert(u16_be(u16_from_be(s)) =~= s);
}

/// A number below 2^32 is rebuilt from its four base-256 digits.
proof fn lemma_digits_of_u32(x: int)
    requires
        0 <= x <= u32::MAX,
    ensures
        x == (x / 0x100_0000) * 0x100_0000 + ((x / 0x1_0000) % 256) * 0x1_0000 + ((x / 0x100)
            % 256) * 0x100 + x % 256,
        0 <= x / 0x100_0000 < 256,
{
    let q1 = x / 0x100;
    let q2 = q1 / 0x100;
    let q3 = q2 / 0x100;
    assert(x == q1 * 0x100 + x % 256);
    assert(q1 == q2 * 0x100 + q1 % 256);
    assert(q2 == q3 * 0x100 + q2 % 256);
    assert(q2 == x / 0x1_0000);
    assert(q3 == x / 0x100_0000);
}

/// Four base-256 digits are recovered from the number they make up.
proof fn lemma_u32_of_digits(a: int, b: int, c: int, d: int)
    requires
        0 <= a < 256,
        0 <= b < 256,
        0 <= c < 256,
        0 <= d < 256,
    ensures
        ({
            let x = a * 0x100_0000 + b * 0x1_0000 + c * 0x100 + d;
            &&& 0 <= x <= u32::MAX
            &&& x / 0x100_0000 == a
            &&& (x / 0x1_0000) % 256 == b
            &&& (x / 0x100) % 256 == c
            &&& x % 256 == d
        }),
{
    let x = a * 0x100_0000 + b * 0x1_0000 + c * 0x100 + d;
    let q1 = a * 0x1_0000 + b * 0x100 + c;
    let q2 = a * 0x100 + b;
    assert(x == q1 * 0x100 + d);
    assert(x / 0x100 == q1 && x % 256 == d);
    assert(q1 == q2 * 0x100 + c);
    assert(q1 / 0x100 == q2 && q1 % 256 == c);
    assert(x == q2 * 0x1_0000 + (c * 0x100 + d));
    assert(x / 0x1_0000 == q2);
    assert(q2 / 0x100 == a && q2 % 256 == b);
    assert(x == a * 0x100_0000 + (b * 0x1_0000 + c * 0x100 + d));
    assert(x / 0x100_0000 == a);
}

/// Reading back the bytes of a 32-bit integer gives the integer.
pub proof fn lemma_u32_round_trip(n: u32)
    ensures
        u32_be(n).len() == 4,
        u32_from_be(u32_be(n)) == n,
{
    reveal(u32_be);
    reveal(u32_from_be);
    lemma_digits_of_u32(n as int);
    let s = u32_be(n);
    assert(s[0] as int == n as int / 0x100_0000);
    assert(s[1] as int == (n as int / 0x1_0000) % 256);
    assert(s[2] as int == (n as int / 0x100) % 256);
    assert(s[3] as int == n as int % 256);
}

/// Writing out the integer read from four bytes gives the four bytes.
pub proof fn lemma_u32_bytes_round_trip(s: Seq<u8>)
    requires
        s.len() == 4,
    ensures
        u32_be(u32_from_be(s)) == s,
{
    reveal(u32_be);
    reveal(u32_from_be);
    lemma_u32_of_digits(s[0] as int, s[1] as int, s[2] as int, s[3] as int);
    let n = u32_from_be(s);
    let t = u32_be(n);
    assert(t[0] == s[0]);
    assert(t[1] == s[1]);
    assert(t[2] == s[2]);
    assert(t[3] == s[3]);
    assert(t =~= s);
}

/// `bytes::BufMut::put_u16` on a `Vec<u8>`: the crate appends the two
/// bytes of `n` in big-endian order and leaves what was there untouched.
#[verifier::external_body]
pub(crate) fn put_u16(buf: &mut Vec<u8>, n: u16)
    ensures
        final(buf)@ == old(buf)@ + u16_be(n),
{
    bytes::BufMut::put_u16(buf, n)
}

/// `bytes::BufMut::put_u32` on a `Vec<u8>`: the crate appends the four
/// bytes of `n` in big-endian order and leaves what was there untouched.
#[verifier::external_body]
pub(crate) fn put_u32(buf: &mut Vec<u8>, n: u32)
    ensures
        final(buf)@ == old(buf)@ + u32_be(n),
{
    bytes::BufMut::put_u32(buf, n)
}

/// `bytes::BufMut::put_slice` on a `Vec<u8>`: the crate appends a copy of
/// `src`.
#[verifier::external_body]
pub(crate) fn put_slice(buf: &mut Vec<u8>, src: &[u8])
    ensures
        final(buf)@ == old(buf)@ + src@,
{
    bytes::BufMut::put_slice(buf, src)
}

/// `bytes::Buf::has_remaining` on a byte slice: true exactly when the
/// slice is not empty.
#[verifier::external_body]
pub(crate) fn has_remaining(buf: &[u8]) -> (r: bool)
    ensures
        r == (buf@.len() > 0),
{
    bytes::Buf::has_remaining(&buf)
}

/// `bytes::Buf::get_u16` on a byte slice: the crate reads the first two
/// bytes as a big-endian integer.  It panics on a shorter slice, which the
/// precondition rules out.
#[verifier::external_body]
pub(crate) fn get_u16(buf: &[u8]) -> (n: u16)
    requires
        buf@.len() >= 2,
    ensures
        n == u16_from_be(buf@),
{
    let mut cursor = buf;
    bytes::Buf::get_u16(&mut cursor)
}

/// `bytes::Buf::get_u32` on a byte slice: the crate reads the first four
/// bytes as a big-endian integer.  It panics on a shorter slice, which the
/// precondition rules out.
#[verifier::external_body]
pub(crate) fn get_u32(buf: &[u8]) -> (n: u32)
    requires
        buf@.len() >= 4,
    ensures
        n == u32_from_be(buf@),
{
    let mut cursor = buf;
    bytes::Buf::get_u32(&mut cursor)
}

/// `bytes::Buf::copy_to_bytes` on a byte slice: the crate hands out a copy
/// of the first `len` bytes.  It panics when fewer are left, which the
/// precondition rules out.
#[verifier::external_body]
pub(crate) fn copy_to_bytes(buf: &[u8], len: usize) -> (out: Vec<u8>)
    requires
        len <= buf@.len(),
    ensures
        out@ == buf@.take(len as int),
{
    let mut cursor = buf;
    bytes::Buf::copy_to_bytes(&mut cursor, len).to_vec()
}

/// The longest byte string that a 16-bit length prefix can describe.
pub const MAX_FIELD_LEN: usize = 0xFFFF;

/// A byte string preceded by its length as a 16-bit big-endian integer.
pub open spec fn field_encoding(s: Seq<u8>) -> Seq<u8> {
    u16_be(s.len() as u16) + s
}

/// Reads one length-prefixed byte string from the front of `b`: the string
/// and the number of bytes it occupied, or `None` when `b` ends too early.
pub open spec fn parse_field(b: Seq<u8>) -> Option<(Seq<u8>, int)> {
    if b.len() < 2 {
        None
    } else {
        let n = u16_from_be(b) as int;
        if b.len() < 2 + n {
            None
        } else {
            Some((b.subrange(2, 2 + n), 2 + n))
        }
    }
}

/// A written field is two bytes longer than its contents.
pub proof fn lemma_field_encoding_len(s: Seq<u8>)
    ensures
        field_encoding(s).len() == 2 + s.len(),
{
    lemma_u16_be_len(s.len() as u16);
}

/// A field that was written is read back, whatever follows it.
pub proof fn lemma_parse_field_of_encoding(s: Seq<u8>, rest: Seq<u8>)
    requires
        s.len() <= MAX_FIELD_LEN,
    ensures
        parse_field(field_encoding(s) + rest) == Some((s, 2 + s.len() as int)),
{
    let b = field_encoding(s) + rest;
    let prefix = u16_be(s.len() as u16);
    lemma_u16_round_trip(s.len() as u16);
    assert(b[0] == prefix[0]);
    assert(b[1] == prefix[1]);
    lemma_u16_from_be_prefix(b, prefix);
    assert(b.subrange(2, 2 + s.len() as int) =~= s);
}

/// What was read from the front of `b` is what `b` starts with.
pub proof fn lemma_encoding_of_parse_field(b: Seq<u8>)
    requires
        parse_field(b) is Some,
    ensures
        ({
            let (s, n) = parse_field(b)->0;
            &&& s.len() <= MAX_FIELD_LEN
            &&& n == 2 + s.len()
            &&& n <= b.len()
            &&& b.take(n) == field_encoding(s)
        }),
{
    let (s, n) = parse_field(b)->0;
    lemma_u16_bytes_round_trip(b.take(2));
    lemma_u16_from_be_prefix(b.take(2), b);
    assert(s.len() == u16_from_be(b));
    assert(u16_be(s.len() as u16) == b.take(2));
    assert(b.take(n) =~= b.take(2) + s);
}

/// Appends `s`, preceded by its length, to `buf`.
pub fn write_field(buf: &mut Vec<u8>, s: &[u8])
    requires
        s@.len() <= MAX_FIELD_LEN,
    ensures
        final(buf)@ == old(buf)@ + field_encoding(s@),
{
    put_u16(buf, s.len() as u16);
    put_slice(buf, s);
    assert(buf@ =~= old(buf)@ + (u16_be(s@.len() as u16) + s@));
}

/// Reads the length-prefixed byte string that starts at `pos`, and says
/// where the next record starts; `None` when `buf` ends too early.
pub fn read_field(buf: &[u8], pos: usize) -> (r: Option<(Vec<u8>, usize)>)
    requires
        pos <= buf@.len(),
    ensures
        match r {
            Some((s, next)) => {
                &&& parse_field(buf@.skip(pos as int)) == Some((s@, next - pos))
                &&& pos < next <= buf@.len()
            },
            None => parse_field(buf@.skip(pos as int)) is None,
        },
{
    let rest = slice_subrange(buf, pos, buf.len());
    assert(rest@ =~= buf@.skip(pos as int));
    if rest.len() < 2 {
        return None;
    }
    let n = get_u16(rest) as usize;
    let body = slice_subrange(rest, 2, rest.len());
    if body.len() < n {
        return None;
    }
    let s = copy_to_bytes(body, n);
    assert(s@ =~= rest@.subrange(2, 2 + n));
    Some((s, pos + 2 + n))
}

} // verus!
