//! Fixed-width integer encodings and text conversions shared by the wire
//! codec and the block codec.

use vstd::prelude::*;
use vstd::string::StringSliceAdditionalSpecFns;
use vstd::utf8::{decode_utf8, valid_utf8};

verus! {

/// The unsigned value that the first two bytes of `b` spell, most significant first.
pub open spec fn be_u16(b: Seq<u8>) -> int {
    b[0] as int * 256 + b[1] as int
}

/// The unsigned value that the first four bytes of `b` spell, most significant first.
pub open spec fn be_u32(b: Seq<u8>) -> int {
    ((b[0] as int * 256 + b[1] as int) * 256 + b[2] as int) * 256 + b[3] as int
}

/// The unsigned value that the first eight bytes of `b` spell, most significant first.
pub open spec fn be_u64(b: Seq<u8>) -> int {
    be_u32(b) * 0x1_0000_0000 + be_u32(b.skip(4))
}

/// The unsigned value that the first eight bytes of `b` spell, least significant first.
pub open spec fn le_u64(b: Seq<u8>) -> int {
    be_u64(seq![b[7], b[6], b[5], b[4], b[3], b[2], b[1], b[0]])
}

/// Two's complement reading of a 64-bit pattern.
pub open spec fn signed64(u: int) -> int {
    if u >= 0x8000_0000_0000_0000 {
        u - 0x1_0000_0000_0000_0000
    } else {
        u
    }
}

/// The 64-bit pattern of a signed value in two's complement.
pub open spec fn unsigned64(i: int) -> int {
    if i < 0 {
        i + 0x1_0000_0000_0000_0000
    } else {
        i
    }
}

/// The two bytes of `x`, most significant first.
pub open spec fn u16_be(x: int) -> Seq<u8> {
    seq![(x / 256 % 256) as u8, (x % 256) as u8]
}

/// The four bytes of `x`, most significant first.
pub open spec fn u32_be(x: int) -> Seq<u8> {
    seq![
        (x / 0x100_0000 % 256) as u8,
        (x / 0x1_0000 % 256) as u8,
        (x / 256 % 256) as u8,
        (x % 256) as u8,
    ]
}

/// The eight bytes of `x`, most significant first.
pub open spec fn u64_be(x: int) -> Seq<u8> {
    u32_be(x / 0x1_0000_0000) + u32_be(x % 0x1_0000_0000)
}

/// The eight bytes of `x`, least significant first.
pub open spec fn u64_le(x: int) -> Seq<u8> {
    let b = u64_be(x);
    seq![b[7], b[6], b[5], b[4], b[3], b[2], b[1], b[0]]
}

/// Reading back what `u16_be` wrote gives the value.
pub proof fn lemma_u16_round_trip(x: int)
    requires
        0 <= x < 0x1_0000,
    ensures
        u16_be(x).len() == 2,
        be_u16(u16_be(x)) == x,
{
}

/// Reading back what `u32_be` wrote gives the value.
pub proof fn lemma_u32_round_trip(x: int)
    requires
        0 <= x < 0x1_0000_0000,
    ensures
        u32_be(x).len() == 4,
        be_u32(u32_be(x)) == x,
{
}

/// Reading back what `u64_be` wrote gives the value.
pub proof fn lemma_u64_round_trip(x: int)
    requires
        0 <= x < 0x1_0000_0000_0000_0000,
    ensures
        u64_be(x).len() == 8,
        be_u64(u64_be(x)) == x,
{
    let hi = x / 0x1_0000_0000;
    let lo = x % 0x1_0000_0000;
    lemma_u32_round_trip(hi);
    lemma_u32_round_trip(lo);
    assert(u64_be(x).skip(4) =~= u32_be(lo));
    assert(be_u32(u64_be(x)) == be_u32(u32_be(hi)));
}

/// Reading back what `u64_le` wrote gives the value.
pub proof fn lemma_u64_le_round_trip(x: int)
    requires
        0 <= x < 0x1_0000_0000_0000_0000,
    ensures
        u64_le(x).len() == 8,
        le_u64(u64_le(x)) == x,
{
    lemma_u64_round_trip(x);
    let b = u64_be(x);
    let l = u64_le(x);
    assert(seq![l[7], l[6], l[5], l[4], l[3], l[2], l[1], l[0]] =~= b);
}

/// A signed value survives the trip through its 64-bit pattern.
pub proof fn lemma_signed_round_trip(i: int)
    requires
        -0x8000_0000_0000_0000 <= i < 0x8000_0000_0000_0000,
    ensures
        0 <= unsigned64(i) < 0x1_0000_0000_0000_0000,
        signed64(unsigned64(i)) == i,
{
}

/// The 64-bit pattern of `t`.
pub fn bits_of_i64(t: i64) -> (r: u64)
    ensures
        r as int == unsigned64(t as int),
{
    if t >= 0 {
        t as u64
    } else {
        let lifted: i64 = t + i64::MAX + 1;
        lifted as u64 + 0x8000_0000_0000_0000u64
    }
}

/// The signed value of the 64-bit pattern `u`.
pub fn i64_of_bits(u: u64) -> (r: i64)
    ensures
        r as int == signed64(u as int),
{
    if u >= 0x8000_0000_0000_0000u64 {
        let low: u64 = u - 0x8000_0000_0000_0000u64;
        low as i64 - i64::MAX - 1
    } else {
        u as i64
    }
}

/// Appends the two bytes of `x`, most significant first.
pub fn push_u16_be(out: &mut Vec<u8>, x: u16)
    ensures
        final(out)@ == old(out)@ + u16_be(x as int),
{
    out.push((x / 256) as u8);
    out.push((x % 256) as u8);
    assert(out@ =~= old(out)@ + u16_be(x as int));
}

/// Appends the four bytes of `x`, most significant first.
pub fn push_u32_be(out: &mut Vec<u8>, x: u32)
    ensures
        final(out)@ == old(out)@ + u32_be(x as int),
{
    out.push((x / 0x100_0000) as u8);
    out.push((x / 0x1_0000 % 256) as u8);
    out.push((x / 256 % 256) as u8);
    out.push((x % 256) as u8);
    assert(out@ =~= old(out)@ + u32_be(x as int));
}

/// Appends the eight bytes of `x`, most significant first.
pub fn push_u64_be(out: &mut Vec<u8>, x: u64)
    ensures
        final(out)@ == old(out)@ + u64_be(x as int),
{
    push_u32_be(out, (x / 0x1_0000_0000) as u32);
    push_u32_be(out, (x % 0x1_0000_0000) as u32);
    assert(out@ =~= old(out)@ + u64_be(x as int));
}

/// Appends the eight bytes of `x`, least significant first.
pub fn push_u64_le(out: &mut Vec<u8>, x: u64)
    ensures
        final(out)@ == old(out)@ + u64_le(x as int),
{
    let hi: u64 = x / 0x1_0000_0000;
    let lo: u64 = x % 0x1_0000_0000;
    out.push((lo % 256) as u8);
    out.push((lo / 256 % 256) as u8);
    out.push((lo / 0x1_0000 % 256) as u8);
    out.push((lo / 0x100_0000 % 256) as u8);
    out.push((hi % 256) as u8);
    out.push((hi / 256 % 256) as u8);
    out.push((hi / 0x1_0000 % 256) as u8);
    out.push((hi / 0x100_0000 % 256) as u8);
    assert(out@ =~= old(out)@ + u64_le(x as int));
}

/// `byteorder::BigEndian::read_u16`: the big-endian value of the first two
/// bytes of `buf`. The outside function panics on a shorter slice.
#[verifier::external_body]
pub(crate) fn read_u16_be(buf: &[u8]) -> (r: u16)
    requires
        buf@.len() >= 2,
    ensures
        r as int == be_u16(buf@),
{
    <byteorder::BigEndian as byteorder::ByteOrder>::read_u16(buf)
}

/// `byteorder::BigEndian::read_u32`: the big-endian value of the first four
/// bytes of `buf`. The outside function panics on a shorter slice.
#[verifier::external_body]
pub(crate) fn read_u32_be(buf: &[u8]) -> (r: u32)
    requires
        buf@.len() >= 4,
    ensures
        r as int == be_u32(buf@),
{
    <byteorder::BigEndian as byteorder::ByteOrder>::read_u32(buf)
}

/// `byteorder::BigEndian::read_u64`: the big-endian value of the first eight
/// bytes of `buf`. The outside function panics on a shorter slice.
#[verifier::external_body]
pub(crate) fn read_u64_be(buf: &[u8]) -> (r: u64)
    requires
        buf@.len() >= 8,
    ensures
        r as int == be_u64(buf@),
{
    <byteorder::BigEndian as byteorder::ByteOrder>::read_u64(buf)
}

/// `byteorder::BigEndian::read_i64`: the first eight bytes of `buf` read as a
/// big-endian two's complement value. The outside function panics on a
/// shorter slice.
#[verifier::external_body]
pub(crate) fn read_i64_be(buf: &[u8]) -> (r: i64)
    requires
        buf@.len() >= 8,
    ensures
        r as int == signed64(be_u64(buf@)),
{
    <byteorder::BigEndian as byteorder::ByteOrder>::read_i64(buf)
}

/// `byteorder::LittleEndian::read_u64`: the little-endian value of the first
/// eight bytes of `buf`. The outside function panics on a shorter slice.
#[verifier::external_body]
pub(crate) fn read_u64_le(buf: &[u8]) -> (r: u64)
    requires
        buf@.len() >= 8,
    ensures
        r as int == le_u64(buf@),
{
    <byteorder::LittleEndian as byteorder::ByteOrder>::read_u64(buf)
}

/// `std::str::from_utf8`: accepts exactly the well-formed UTF-8 byte strings
/// and yields the text they encode.
#[verifier::external_body]
pub(crate) fn text_of_utf8(bytes: &[u8]) -> (r: Option<String>)
    ensures
        r is Some <==> valid_utf8(bytes@),
        r is Some ==> r->Some_0@ == decode_utf8(bytes@),
{
    match std::str::from_utf8(bytes) {
        Ok(text) => Some(text.to_owned()),
        Err(_) => None,
    }
}

/// Every byte is below 128.
pub open spec fn is_ascii_bytes(bytes: Seq<u8>) -> bool {
    forall|i: int| 0 <= i < bytes.len() ==> #[trigger] bytes[i] < 128
}

/// The text whose characters are the given ASCII bytes.
pub open spec fn ascii_text(bytes: Seq<u8>) -> Seq<char> {
    Seq::new(bytes.len(), |i: int| bytes[i] as char)
}

/// ASCII bytes are well-formed UTF-8, and they encode the text of the same characters.
pub proof fn lemma_ascii_text(bytes: Seq<u8>)
    requires
        is_ascii_bytes(bytes),
    ensures
        valid_utf8(bytes),
        decode_utf8(bytes) == ascii_text(bytes),
        vstd::utf8::encode_utf8(ascii_text(bytes)) == bytes,
{
    let chars = ascii_text(bytes);
    assert(vstd::utf8::is_ascii_chars(chars)) by {
        assert forall|i: int| 0 <= i < chars.len() implies '\0' <= #[trigger] chars[i]
            <= '\u{7f}' by {
            assert(bytes[i] < 128);
        }
    }
    vstd::utf8::is_ascii_chars_encode_utf8(chars);
    assert(vstd::utf8::encode_utf8(chars) =~= bytes) by {
        assert forall|i: int| 0 <= i < bytes.len() implies vstd::utf8::encode_utf8(chars)[i]
            == bytes[i] by {
            assert(bytes[i] < 128);
            assert(chars[i] as u8 == bytes[i]);
        }
    }
    vstd::utf8::encode_utf8_valid_utf8(chars);
    vstd::utf8::encode_utf8_decode_utf8(chars);
}

/// The text of ASCII bytes.
pub fn ascii_to_string(bytes: &[u8]) -> (text: String)
    requires
        is_ascii_bytes(bytes@),
    ensures
        text@ == ascii_text(bytes@),
{
    proof {
        lemma_ascii_text(bytes@);
    }
    match text_of_utf8(bytes) {
        Some(text) => text,
        None => String::new(),
    }
}

/// The little-endian value of a byte string depends on its first eight bytes alone.
pub proof fn lemma_le_u64_prefix(a: Seq<u8>, b: Seq<u8>)
    requires
        a.len() >= 8,
        b.len() >= 8,
        a.take(8) == b.take(8),
    ensures
        le_u64(a) == le_u64(b),
{
    assert forall|i: int| 0 <= i < 8 implies a[i] == b[i] by {
        assert(a.take(8)[i] == a[i]);
        assert(b.take(8)[i] == b[i]);
    }
    assert(seq![a[7], a[6], a[5], a[4], a[3], a[2], a[1], a[0]] =~= seq![
        b[7],
        b[6],
        b[5],
        b[4],
        b[3],
        b[2],
        b[1],
        b[0],
    ]);
}

/// Whether two texts are the same.
pub fn same_text(a: &str, b: &str) -> (r: bool)
    ensures
        r == (a@ == b@),
{
    let x = a.as_bytes();
    let y = b.as_bytes();
    proof {
        vstd::utf8::encode_utf8_decode_utf8(a@);
        vstd::utf8::encode_utf8_decode_utf8(b@);
    }
    if x.len() != y.len() {
        return false;
    }
    let mut i: usize = 0;
    while i < x.len()
        invariant
            i <= x@.len(),
            x@.len() == y@.len(),
            x@ == a.spec_bytes(),
            y@ == b.spec_bytes(),
            forall|j: int| 0 <= j < i ==> x@[j] == y@[j],
        decreases x.len() - i,
    {
        if x[i] != y[i] {
            return false;
        }
        i += 1;
    }
    assert(x@ =~= y@);
    true
}

} // verus!
