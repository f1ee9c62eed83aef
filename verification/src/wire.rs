//! Big-endian numbers and length-prefixed text, as Java's `DataOutputStream` writes them.

use byteorder::{BigEndian, ReadBytesExt, WriteBytesExt};
use std::io::Cursor;
use vstd::prelude::*;
use vstd::utf8::{decode_utf8, encode_utf8, valid_utf8};

verus! {

// ---------------------------------------------------------------------------
// Model
// ---------------------------------------------------------------------------

/// A 16-bit number, most significant byte first.
pub open spec fn be16(n: int) -> Seq<u8> {
    seq![(n / 0x100) as u8, (n % 0x100) as u8]
}

/// A 32-bit number, most significant byte first.
pub open spec fn be32(n: int) -> Seq<u8> {
    seq![
        (n / 0x100_0000) as u8,
        ((n / 0x1_0000) % 0x100) as u8,
        ((n / 0x100) % 0x100) as u8,
        (n % 0x100) as u8,
    ]
}

/// The 16-bit number at `pos`.
pub open spec fn word16(s: Seq<u8>, pos: int) -> int {
    s[pos] * 0x100 + s[pos + 1]
}

/// The 32-bit number at `pos`.
pub open spec fn word32(s: Seq<u8>, pos: int) -> int {
    s[pos] * 0x100_0000 + s[pos + 1] * 0x1_0000 + s[pos + 2] * 0x100 + s[pos + 3]
}

/// The two's complement reading of a 32-bit number.
pub open spec fn as_signed(n: int) -> int {
    if n >= 0x8000_0000 {
        n - 0x1_0000_0000
    } else {
        n
    }
}

/// The 32-bit number whose two's complement reading is `n`.
pub open spec fn as_unsigned(n: int) -> int {
    if n < 0 {
        n + 0x1_0000_0000
    } else {
        n
    }
}

/// A text as its UTF-8 bytes behind their number in 16 bits.
pub open spec fn java_utf(s: Seq<char>) -> Seq<u8> {
    be16(encode_utf8(s).len() as int) + encode_utf8(s)
}

/// Why no text can be read.
#[derive(Clone, Copy, PartialEq, Eq, Structural, Debug)]
pub enum TextError {
    /// The input ends before the text does.
    Truncated,
    /// The bytes are not valid UTF-8.
    InvalidUtf8,
}

/// The text that starts at `pos`, and the position after it.
pub open spec fn text_at(s: Seq<u8>, pos: int) -> Result<(Seq<char>, int), TextError> {
    if pos + 2 > s.len() || pos + 2 + word16(s, pos) > s.len() {
        Err(TextError::Truncated)
    } else {
        let end = pos + 2 + word16(s, pos);
        let bytes = s.subrange(pos + 2, end);
        if valid_utf8(bytes) {
            Ok((decode_utf8(bytes), end))
        } else {
            Err(TextError::InvalidUtf8)
        }
    }
}

// ---------------------------------------------------------------------------
// Numbers
// ---------------------------------------------------------------------------

/// `byteorder::WriteBytesExt::write_u16::<BigEndian>` on a vector: appends the two bytes
/// of the number, most significant first. Writing to a vector never fails.
#[verifier::external_body]
pub(crate) fn write_u16(buf: &mut Vec<u8>, n: u16)
    ensures
        final(buf)@ == old(buf)@ + be16(n as int),
{
    buf.write_u16::<BigEndian>(n).unwrap()
}

/// `byteorder::WriteBytesExt::write_i32::<BigEndian>` on a vector: appends the four bytes
/// of the number in two's complement, most significant first. Writing to a vector never
/// fails.
#[verifier::external_body]
pub(crate) fn write_i32(buf: &mut Vec<u8>, n: i32)
    ensures
        final(buf)@ == old(buf)@ + be32(as_unsigned(n as int)),
{
    buf.write_i32::<BigEndian>(n).unwrap()
}

/// `byteorder::WriteBytesExt::write_u32::<BigEndian>` on a vector: appends the four bytes
/// of the number, most significant first. Writing to a vector never fails.
#[verifier::external_body]
pub(crate) fn write_u32(buf: &mut Vec<u8>, n: u32)
    ensures
        final(buf)@ == old(buf)@ + be32(n as int),
{
    buf.write_u32::<BigEndian>(n).unwrap()
}

/// `byteorder::ReadBytesExt::read_u16::<BigEndian>` on a cursor at `pos`: the number in
/// the next two bytes, most significant first, or an error if they are not there.
#[verifier::external_body]
pub(crate) fn read_u16(data: &[u8], pos: usize) -> (r: Option<u16>)
    ensures
        match r {
            Some(n) => pos + 2 <= data@.len() && n == word16(data@, pos as int),
            None => pos + 2 > data@.len(),
        },
{
    let mut rdr: Cursor<&[u8]> = Cursor::new(data);
    rdr.set_position(pos as u64);
    rdr.read_u16::<BigEndian>().ok()
}

/// `byteorder::ReadBytesExt::read_i32::<BigEndian>` on a cursor at `pos`: the number in
/// the next four bytes in two's complement, most significant first, or an error if they
/// are not there.
#[verifier::external_body]
pub(crate) fn read_i32(data: &[u8], pos: usize) -> (r: Option<i32>)
    ensures
        match r {
            Some(n) => pos + 4 <= data@.len() && n == as_signed(word32(data@, pos as int)),
            None => pos + 4 > data@.len(),
        },
{
    let mut rdr: Cursor<&[u8]> = Cursor::new(data);
    rdr.set_position(pos as u64);
    rdr.read_i32::<BigEndian>().ok()
}

/// `byteorder::ReadBytesExt::read_u32::<BigEndian>` on a cursor at `pos`: the number in
/// the next four bytes, most significant first, or an error if they are not there.
#[verifier::external_body]
pub(crate) fn read_u32(data: &[u8], pos: usize) -> (r: Option<u32>)
    ensures
        match r {
            Some(n) => pos + 4 <= data@.len() && n == word32(data@, pos as int),
            None => pos + 4 > data@.len(),
        },
{
    let mut rdr: Cursor<&[u8]> = Cursor::new(data);
    rdr.set_position(pos as u64);
    rdr.read_u32::<BigEndian>().ok()
}

/// What a 16-bit number was written as, it is read as.
pub proof fn lemma_word16(s: Seq<u8>, pos: int, n: int)
    requires
        0 <= n < 0x1_0000,
        0 <= pos,
        pos + 2 <= s.len(),
        s.subrange(pos, pos + 2) == be16(n),
    ensures
        word16(s, pos) == n,
{
    let b = s.subrange(pos, pos + 2);
    assert(s[pos] == b[0] && s[pos + 1] == b[1]);
}

/// What a 32-bit number was written as, it is read as.
pub proof fn lemma_word32(s: Seq<u8>, pos: int, n: int)
    requires
        0 <= n < 0x1_0000_0000,
        0 <= pos,
        pos + 4 <= s.len(),
        s.subrange(pos, pos + 4) == be32(n),
    ensures
        word32(s, pos) == n,
{
    let b = s.subrange(pos, pos + 4);
    assert(s[pos] == b[0] && s[pos + 1] == b[1] && s[pos + 2] == b[2] && s[pos + 3] == b[3]);
}

/// What a text was written as, it is read as.
pub proof fn lemma_text_at(s: Seq<u8>, pos: int, t: Seq<char>)
    requires
        encode_utf8(t).len() < 0x1_0000,
        0 <= pos,
        pos + java_utf(t).len() <= s.len(),
        s.subrange(pos, pos + java_utf(t).len()) == java_utf(t),
    ensures
        text_at(s, pos) == Ok::<(Seq<char>, int), TextError>((t, pos + java_utf(t).len())),
{
    let bytes = encode_utf8(t);
    let whole = s.subrange(pos, pos + java_utf(t).len());
    assert(s.subrange(pos, pos + 2) =~= whole.subrange(0, 2));
    assert(whole.subrange(0, 2) =~= be16(bytes.len() as int));
    lemma_word16(s, pos, bytes.len() as int);
    assert(s.subrange(pos + 2, pos + 2 + bytes.len()) =~= whole.subrange(2, 2 + bytes.len() as int));
    assert(whole.subrange(2, 2 + bytes.len() as int) =~= bytes);
    vstd::utf8::encode_utf8_valid_utf8(t);
    vstd::utf8::encode_utf8_decode_utf8(t);
}

/// What is read as a 16-bit number would be written as it stands.
pub proof fn lemma_be16(s: Seq<u8>, pos: int)
    requires
        0 <= pos,
        pos + 2 <= s.len(),
    ensures
        s.subrange(pos, pos + 2) == be16(word16(s, pos)),
        0 <= word16(s, pos) < 0x1_0000,
{
    assert(s.subrange(pos, pos + 2) =~= be16(word16(s, pos)));
}

/// The four bytes of a 32-bit number.
proof fn lemma_four_bytes(a: int, b: int, c: int, d: int)
    requires
        0 <= a < 0x100,
        0 <= b < 0x100,
        0 <= c < 0x100,
        0 <= d < 0x100,
    ensures
        ({
            let n = a * 0x100_0000 + b * 0x1_0000 + c * 0x100 + d;
            &&& 0 <= n < 0x1_0000_0000
            &&& n / 0x100_0000 == a
            &&& (n / 0x1_0000) % 0x100 == b
            &&& (n / 0x100) % 0x100 == c
            &&& n % 0x100 == d
        }),
{
    let n = a * 0x100_0000 + b * 0x1_0000 + c * 0x100 + d;
    let m1 = a * 0x1_0000 + b * 0x100 + c;
    let m2 = a * 0x100 + b;
    assert(n == m1 * 0x100 + d);
    assert(n / 0x100 == m1 && n % 0x100 == d);
    assert(m1 == m2 * 0x100 + c);
    assert(m1 / 0x100 == m2 && m1 % 0x100 == c);
    assert(n == m2 * 0x1_0000 + (c * 0x100 + d));
    assert(n / 0x1_0000 == m2);
    assert(m2 % 0x100 == b);
    assert(n == a * 0x100_0000 + (b * 0x1_0000 + c * 0x100 + d));
    assert(n / 0x100_0000 == a);
}

/// What is read as a 32-bit number would be written as it stands.
pub proof fn lemma_be32(s: Seq<u8>, pos: int)
    requires
        0 <= pos,
        pos + 4 <= s.len(),
    ensures
        s.subrange(pos, pos + 4) == be32(word32(s, pos)),
        0 <= word32(s, pos) < 0x1_0000_0000,
{
    lemma_four_bytes(s[pos] as int, s[pos + 1] as int, s[pos + 2] as int, s[pos + 3] as int);
    assert(s.subrange(pos, pos + 4) =~= be32(word32(s, pos)));
}

/// What is read as a text would be written as it stands.
pub proof fn lemma_java_utf(s: Seq<u8>, pos: int)
    requires
        0 <= pos,
        text_at(s, pos) is Ok,
    ensures
        ({
            let (t, end) = text_at(s, pos)->Ok_0;
            &&& pos + 2 <= end <= s.len()
            &&& s.subrange(pos, end) == java_utf(t)
            &&& encode_utf8(t).len() <= 0xffff
        }),
{
    let (t, end) = text_at(s, pos)->Ok_0;
    let bytes = s.subrange(pos + 2, end);
    lemma_be16(s, pos);
    vstd::utf8::decode_utf8_encode_utf8(bytes);
    assert(s.subrange(pos, end) =~= s.subrange(pos, pos + 2) + bytes);
}

// ---------------------------------------------------------------------------
// Texts
// ---------------------------------------------------------------------------

/// `String::from_utf8`: the text that the bytes encode, or an error if they are not
/// valid UTF-8.
#[verifier::external_body]
pub(crate) fn text_of(bytes: Vec<u8>) -> (r: Option<String>)
    ensures
        match r {
            Some(s) => valid_utf8(bytes@) && s@ == decode_utf8(bytes@),
            None => !valid_utf8(bytes@),
        },
{
    String::from_utf8(bytes).ok()
}

/// The bytes `from..to`.
pub fn bytes_of(data: &[u8], from: usize, to: usize) -> (r: Vec<u8>)
    requires
        from <= to <= data@.len(),
    ensures
        r@ == data@.subrange(from as int, to as int),
{
    let mut r: Vec<u8> = Vec::new();
    let mut i: usize = from;
    while i < to
        invariant
            from <= i <= to <= data@.len(),
            r@ == data@.subrange(from as int, i as int),
        decreases to - i,
    {
        r.push(data[i]);
        i = i + 1;
    }
    r
}

/// Reads the length-prefixed text at `pos`; gives the text and the position after it.
pub fn read_java_utf(data: &[u8], pos: usize) -> (r: Result<(String, usize), TextError>)
    ensures
        match text_at(data@, pos as int) {
            Ok((t, end)) => r matches Ok((s, p)) && s@ == t && p == end && p <= data@.len(),
            Err(e) => r matches Err(x) && x == e,
        },
{
    let n: usize = match read_u16(data, pos) {
        Some(n) => n as usize,
        None => return Err(TextError::Truncated),
    };
    if data.len() - (pos + 2) < n {
        return Err(TextError::Truncated);
    }
    let end: usize = pos + 2 + n;
    match text_of(bytes_of(data, pos + 2, end)) {
        Some(s) => Ok((s, end)),
        None => Err(TextError::InvalidUtf8),
    }
}

/// Appends the length-prefixed text. A text of more than `0xffff` bytes is refused, with
/// its number of bytes.
pub fn write_java_utf(buf: &mut Vec<u8>, s: &str) -> (r: Result<(), usize>)
    ensures
        encode_utf8(s@).len() <= 0xffff ==> r is Ok && final(buf)@ == old(buf)@ + java_utf(s@),
        encode_utf8(s@).len() > 0xffff ==> final(buf)@ == old(buf)@ && (r matches Err(n) && n
            == encode_utf8(s@).len()),
{
    let bytes: &[u8] = s.as_bytes();
    let n: usize = bytes.len();
    if n > 0xffff {
        return Err(n);
    }
    write_u16(buf, n as u16);
    let mut i: usize = 0;
    let ghost head = buf@;
    while i < n
        invariant
            i <= n == bytes@.len(),
            buf@ == head + bytes@.take(i as int),
        decreases n - i,
    {
        buf.push(bytes[i]);
        i = i + 1;
        assert(buf@ =~= head + bytes@.take(i as int));
    }
    assert(bytes@.take(n as int) =~= bytes@);
    assert(buf@ =~= old(buf)@ + java_utf(s@));
    Ok(())
}

/// A text that is written behind other bytes is read back from the place where it starts, and
/// the other bytes stay as they are.
pub proof fn law_text_is_read_back(
    buf: &mut Vec<u8>,
    s: &str,
    data: &[u8],
    pos: usize,
    r: Result<(String, usize), TextError>,
)
    requires
        call_ensures(write_java_utf, (buf, s), Ok::<(), usize>(())),
        final(buf)@.is_prefix_of(data@),
        pos == old(buf)@.len(),
        call_ensures(read_java_utf, (data, pos), r),
    ensures
        old(buf)@.is_prefix_of(final(buf)@),
        final(buf)@.len() == old(buf)@.len() + 2 + encode_utf8(s@).len(),
        r is Ok,
        r->Ok_0.0@ == s@,
        r->Ok_0.1 == final(buf)@.len(),
{
    let before = old(buf)@;
    let after = final(buf)@;
    let text = java_utf(s@);
    assert(encode_utf8(s@).len() <= 0xffff);
    assert(before =~= after.subrange(0, before.len() as int));
    assert(data@.subrange(0, after.len() as int) == after);
    assert(data@.subrange(pos as int, pos + text.len()) =~= text) by {
        assert forall|k: int| 0 <= k < text.len() implies data@[pos + k] == text[k] by {
            assert(after[pos + k] == text[k]);
            assert(data@.subrange(0, after.len() as int)[pos + k] == after[pos + k]);
        }
    }
    lemma_text_at(data@, pos as int, s@);
}

/// A text is written just where it has at most 65535 bytes. Otherwise nothing is written, and
/// its number of bytes is told.
pub proof fn law_long_text_is_refused(buf: &mut Vec<u8>, s: &str, r: Result<(), usize>)
    requires
        call_ensures(write_java_utf, (buf, s), r),
    ensures
        r is Ok <==> encode_utf8(s@).len() <= 65535,
        r is Err ==> r->Err_0 == encode_utf8(s@).len() && final(buf)@ == old(buf)@,
{
}

} // verus!
