//! Integers of 16 and 32 bits as bytes, in either byte order.

use byteorder::{BigEndian, ByteOrder, LittleEndian};
use vstd::prelude::*;
use vstd::slice::slice_subrange;
use vstd::string::*;

verus! {

/// The order of the bytes of a number in a file.
#[derive(Clone, Copy, Debug, PartialEq, Eq, Structural)]
pub enum Endianness {
    Little,
    Big,
}

impl Endianness {
    /// The byte order in words: its sign in format strings and its name.
    pub fn describe(&self) -> (text: String)
        ensures
            text@ == match self {
                Endianness::Little => "< (Little)"@,
                Endianness::Big => "> (Big)"@,
            },
    {
        match self {
            Endianness::Little => "< (Little)".to_owned(),
            Endianness::Big => "> (Big)".to_owned(),
        }
    }
}

/// The number that the first two bytes of `b` hold, lowest byte first.
pub open spec fn le_u16(b: Seq<u8>) -> int {
    b[0] + 256 * b[1]
}

/// The number that the first two bytes of `b` hold, highest byte first.
pub open spec fn be_u16(b: Seq<u8>) -> int {
    256 * b[0] + b[1]
}

/// The number that the first four bytes of `b` hold, lowest byte first.
pub open spec fn le_u32(b: Seq<u8>) -> int {
    b[0] + 256 * b[1] + 65536 * b[2] + 16777216 * b[3]
}

/// The number that the first four bytes of `b` hold, highest byte first.
pub open spec fn be_u32(b: Seq<u8>) -> int {
    16777216 * b[0] + 65536 * b[1] + 256 * b[2] + b[3]
}

/// The two's-complement reading of a 16-bit pattern.
pub open spec fn signed16(u: int) -> int {
    if u >= 32768 {
        u - 65536
    } else {
        u
    }
}

/// The two's-complement reading of a 32-bit pattern.
pub open spec fn signed32(u: int) -> int {
    if u >= 2147483648 {
        u - 4294967296
    } else {
        u
    }
}

/// The 16-bit pattern of a signed number.
pub open spec fn unsigned16(v: int) -> int {
    if v < 0 {
        v + 65536
    } else {
        v
    }
}

/// The 32-bit pattern of a signed number.
pub open spec fn unsigned32(v: int) -> int {
    if v < 0 {
        v + 4294967296
    } else {
        v
    }
}

/// The two bytes of `v`, lowest first.
pub open spec fn le_bytes16(v: int) -> Seq<u8> {
    seq![(v % 256) as u8, (v / 256 % 256) as u8]
}

/// The four bytes of `v`, lowest first.
pub open spec fn le_bytes32(v: int) -> Seq<u8> {
    seq![
        (v % 256) as u8,
        (v / 256 % 256) as u8,
        (v / 65536 % 256) as u8,
        (v / 16777216 % 256) as u8,
    ]
}

/// The two bytes of `v`, highest first.
pub open spec fn be_bytes16(v: int) -> Seq<u8> {
    seq![(v / 256 % 256) as u8, (v % 256) as u8]
}

/// The four bytes of `v`, highest first.
pub open spec fn be_bytes32(v: int) -> Seq<u8> {
    seq![
        (v / 16777216 % 256) as u8,
        (v / 65536 % 256) as u8,
        (v / 256 % 256) as u8,
        (v % 256) as u8,
    ]
}

/// The two bytes of the 16-bit pattern `v` in byte order `e`.
pub open spec fn u16_bytes(v: int, e: Endianness) -> Seq<u8> {
    match e {
        Endianness::Little => le_bytes16(v),
        Endianness::Big => be_bytes16(v),
    }
}

/// The four bytes of the 32-bit pattern `v` in byte order `e`.
pub open spec fn u32_bytes(v: int, e: Endianness) -> Seq<u8> {
    match e {
        Endianness::Little => le_bytes32(v),
        Endianness::Big => be_bytes32(v),
    }
}

/// The 16-bit pattern that the first two bytes of `b` hold in byte order `e`.
pub open spec fn u16_of(b: Seq<u8>, e: Endianness) -> int {
    match e {
        Endianness::Little => le_u16(b),
        Endianness::Big => be_u16(b),
    }
}

/// The 32-bit pattern that the first four bytes of `b` hold in byte order `e`.
pub open spec fn u32_of(b: Seq<u8>, e: Endianness) -> int {
    match e {
        Endianness::Little => le_u32(b),
        Endianness::Big => be_u32(b),
    }
}

/// The bytes of each pattern of `words` in byte order `e`, one word after
/// the other.
pub open spec fn u32s_bytes(words: Seq<u32>, e: Endianness) -> Seq<u8> {
    Seq::new(4 * words.len(), |i: int| u32_bytes(words[i / 4] as int, e)[i % 4])
}

/// The bytes of each number of `values` in byte order `e`, one number after
/// the other.
pub open spec fn i16s_bytes(values: Seq<i16>, e: Endianness) -> Seq<u8> {
    Seq::new(2 * values.len(), |i: int| u16_bytes(unsigned16(values[i / 2] as int), e)[i % 2])
}

/// Reading back the bytes of a 16-bit pattern gives the pattern.
pub proof fn lemma_u16_of_bytes(v: int, e: Endianness)
    requires
        0 <= v < 65536,
    ensures
        u16_bytes(v, e).len() == 2,
        u16_of(u16_bytes(v, e), e) == v,
{
}

/// Reading back the bytes of a 32-bit pattern gives the pattern.
pub proof fn lemma_u32_of_bytes(v: int, e: Endianness)
    requires
        0 <= v < 4294967296,
    ensures
        u32_bytes(v, e).len() == 4,
        u32_of(u32_bytes(v, e), e) == v,
{
}

proof fn lemma_digits(b0: int, b1: int, b2: int, b3: int)
    requires
        0 <= b0 < 256,
        0 <= b1 < 256,
        0 <= b2 < 256,
        0 <= b3 < 256,
    ensures
        ({
            let v = b0 + 256 * b1 + 65536 * b2 + 16777216 * b3;
            &&& 0 <= v < 4294967296
            &&& v % 256 == b0
            &&& v / 256 % 256 == b1
            &&& v / 65536 % 256 == b2
            &&& v / 16777216 % 256 == b3
        }),
{
    let v = b0 + 256 * b1 + 65536 * b2 + 16777216 * b3;
    assert(v / 256 == b1 + 256 * b2 + 65536 * b3);
    assert(v / 65536 == b2 + 256 * b3);
    assert(v / 16777216 == b3);
}

/// Two bytes are the bytes of the pattern that they hold.
pub proof fn lemma_bytes_of_u16(b: Seq<u8>, e: Endianness)
    requires
        b.len() == 2,
    ensures
        0 <= u16_of(b, e) < 65536,
        u16_bytes(u16_of(b, e), e) == b,
{
    match e {
        Endianness::Little => {
            lemma_digits(b[0] as int, b[1] as int, 0, 0);
        },
        Endianness::Big => {
            lemma_digits(b[1] as int, b[0] as int, 0, 0);
        },
    }
    assert(u16_bytes(u16_of(b, e), e) =~= b);
}

/// Four bytes are the bytes of the pattern that they hold.
pub proof fn lemma_bytes_of_u32(b: Seq<u8>, e: Endianness)
    requires
        b.len() == 4,
    ensures
        0 <= u32_of(b, e) < 4294967296,
        u32_bytes(u32_of(b, e), e) == b,
{
    match e {
        Endianness::Little => {
            lemma_digits(b[0] as int, b[1] as int, b[2] as int, b[3] as int);
        },
        Endianness::Big => {
            lemma_digits(b[3] as int, b[2] as int, b[1] as int, b[0] as int);
        },
    }
    assert(u32_bytes(u32_of(b, e), e) =~= b);
}

/// Words with the same bytes are the same words.
pub proof fn lemma_u32s_bytes_injective(a: Seq<u32>, b: Seq<u32>, e: Endianness)
    requires
        a.len() == b.len(),
        u32s_bytes(a, e) == u32s_bytes(b, e),
    ensures
        a == b,
{
    assert forall|k: int| 0 <= k < a.len() implies a[k] == b[k] by {
        lemma_u32_of_bytes(a[k] as int, e);
        lemma_u32_of_bytes(b[k] as int, e);
        assert forall|m: int| 0 <= m < 4 implies u32_bytes(a[k] as int, e)[m] == u32_bytes(
            b[k] as int,
            e,
        )[m] by {
            assert(u32s_bytes(a, e)[4 * k + m] == u32_bytes(a[k] as int, e)[m]);
            assert(u32s_bytes(b, e)[4 * k + m] == u32_bytes(b[k] as int, e)[m]);
        }
        assert(u32_bytes(a[k] as int, e) =~= u32_bytes(b[k] as int, e));
    }
    assert(a =~= b);
}

/// Signed 16-bit numbers with the same bytes are the same numbers.
pub proof fn lemma_i16s_bytes_injective(a: Seq<i16>, b: Seq<i16>, e: Endianness)
    requires
        a.len() == b.len(),
        i16s_bytes(a, e) == i16s_bytes(b, e),
    ensures
        a == b,
{
    assert forall|k: int| 0 <= k < a.len() implies a[k] == b[k] by {
        lemma_u16_of_bytes(unsigned16(a[k] as int), e);
        lemma_u16_of_bytes(unsigned16(b[k] as int), e);
        assert forall|m: int| 0 <= m < 2 implies u16_bytes(unsigned16(a[k] as int), e)[m]
            == u16_bytes(unsigned16(b[k] as int), e)[m] by {
            assert(i16s_bytes(a, e)[2 * k + m] == u16_bytes(unsigned16(a[k] as int), e)[m]);
            assert(i16s_bytes(b, e)[2 * k + m] == u16_bytes(unsigned16(b[k] as int), e)[m]);
        }
        assert(u16_bytes(unsigned16(a[k] as int), e) =~= u16_bytes(unsigned16(b[k] as int), e));
    }
    assert(a =~= b);
}

/// Signed 32-bit numbers with the same bytes are the same number.
pub proof fn lemma_i32_bytes_injective(a: i32, b: i32, e: Endianness)
    requires
        u32_bytes(unsigned32(a as int), e) == u32_bytes(unsigned32(b as int), e),
    ensures
        a == b,
{
    lemma_u32_of_bytes(unsigned32(a as int), e);
    lemma_u32_of_bytes(unsigned32(b as int), e);
}

/// Signed 16-bit numbers with the same bytes are the same number.
pub proof fn lemma_i16_bytes_injective(a: i16, b: i16, e: Endianness)
    requires
        u16_bytes(unsigned16(a as int), e) == u16_bytes(unsigned16(b as int), e),
    ensures
        a == b,
{
    lemma_u16_of_bytes(unsigned16(a as int), e);
    lemma_u16_of_bytes(unsigned16(b as int), e);
}

/// `LittleEndian::read_u32` of byteorder: the pattern that the first four
/// bytes hold, lowest byte first.
#[verifier::external_body]
fn le_read_u32(buf: &[u8]) -> (v: u32)
    requires
        buf@.len() >= 4,
    ensures
        v == le_u32(buf@),
{
    LittleEndian::read_u32(buf)
}

/// `BigEndian::read_u32` of byteorder: the pattern that the first four
/// bytes hold, highest byte first.
#[verifier::external_body]
fn be_read_u32(buf: &[u8]) -> (v: u32)
    requires
        buf@.len() >= 4,
    ensures
        v == be_u32(buf@),
{
    BigEndian::read_u32(buf)
}

/// `LittleEndian::read_i32` of byteorder: the first four bytes, lowest
/// first, read as a two's-complement number.
#[verifier::external_body]
fn le_read_i32(buf: &[u8]) -> (v: i32)
    requires
        buf@.len() >= 4,
    ensures
        v == signed32(le_u32(buf@)),
{
    LittleEndian::read_i32(buf)
}

/// `BigEndian::read_i32` of byteorder: the first four bytes, highest
/// first, read as a two's-complement number.
#[verifier::external_body]
fn be_read_i32(buf: &[u8]) -> (v: i32)
    requires
        buf@.len() >= 4,
    ensures
        v == signed32(be_u32(buf@)),
{
    BigEndian::read_i32(buf)
}

/// `LittleEndian::read_i16` of byteorder: the first two bytes, lowest
/// first, read as a two's-complement number.
#[verifier::external_body]
fn le_read_i16(buf: &[u8]) -> (v: i16)
    requires
        buf@.len() >= 2,
    ensures
        v == signed16(le_u16(buf@)),
{
    LittleEndian::read_i16(buf)
}

/// `BigEndian::read_i16` of byteorder: the first two bytes, highest
/// first, read as a two's-complement number.
#[verifier::external_body]
fn be_read_i16(buf: &[u8]) -> (v: i16)
    requires
        buf@.len() >= 2,
    ensures
        v == signed16(be_u16(buf@)),
{
    BigEndian::read_i16(buf)
}

/// `LittleEndian::write_u32` of byteorder, on a buffer of four bytes: the
/// four bytes of `n`, lowest first.
#[verifier::external_body]
fn le_u32_to_bytes(n: u32) -> (b: [u8; 4])
    ensures
        b@ == le_bytes32(n as int),
{
    let mut b = [0u8; 4];
    LittleEndian::write_u32(&mut b, n);
    b
}

/// `LittleEndian::write_i32` of byteorder, on a buffer of four bytes: the
/// four bytes of the two's-complement pattern of `n`, lowest first.
#[verifier::external_body]
fn le_i32_to_bytes(n: i32) -> (b: [u8; 4])
    ensures
        b@ == le_bytes32(unsigned32(n as int)),
{
    let mut b = [0u8; 4];
    LittleEndian::write_i32(&mut b, n);
    b
}

/// `LittleEndian::write_i16` of byteorder, on a buffer of two bytes: the
/// two bytes of the two's-complement pattern of `n`, lowest first.
#[verifier::external_body]
fn le_i16_to_bytes(n: i16) -> (b: [u8; 2])
    ensures
        b@ == le_bytes16(unsigned16(n as int)),
{
    let mut b = [0u8; 2];
    LittleEndian::write_i16(&mut b, n);
    b
}

/// The 32-bit pattern at `at` in `buf`, in byte order `e`.
pub fn read_u32(buf: &[u8], at: usize, e: Endianness) -> (v: u32)
    requires
        at + 4 <= buf@.len(),
    ensures
        v == u32_of(buf@.subrange(at as int, at + 4), e),
        u32_bytes(v as int, e) == buf@.subrange(at as int, at + 4),
{
    let n = buf.len();
    let four = slice_subrange(buf, at, at + 4);
    proof {
        lemma_bytes_of_u32(four@, e);
    }
    match e {
        Endianness::Little => le_read_u32(four),
        Endianness::Big => be_read_u32(four),
    }
}

/// The signed 32-bit number at `at` in `buf`, in byte order `e`.
pub fn read_i32(buf: &[u8], at: usize, e: Endianness) -> (v: i32)
    requires
        at + 4 <= buf@.len(),
    ensures
        v == signed32(u32_of(buf@.subrange(at as int, at + 4), e)),
        u32_bytes(unsigned32(v as int), e) == buf@.subrange(at as int, at + 4),
{
    let n = buf.len();
    let four = slice_subrange(buf, at, at + 4);
    proof {
        lemma_bytes_of_u32(four@, e);
    }
    match e {
        Endianness::Little => le_read_i32(four),
        Endianness::Big => be_read_i32(four),
    }
}

/// The signed 16-bit number at `at` in `buf`, in byte order `e`.
pub fn read_i16(buf: &[u8], at: usize, e: Endianness) -> (v: i16)
    requires
        at + 2 <= buf@.len(),
    ensures
        v == signed16(u16_of(buf@.subrange(at as int, at + 2), e)),
        u16_bytes(unsigned16(v as int), e) == buf@.subrange(at as int, at + 2),
{
    let n = buf.len();
    let two = slice_subrange(buf, at, at + 2);
    proof {
        lemma_bytes_of_u16(two@, e);
    }
    match e {
        Endianness::Little => le_read_i16(two),
        Endianness::Big => be_read_i16(two),
    }
}

/// Appends the four bytes of `v`, lowest first.
pub fn put_u32(out: &mut Vec<u8>, v: u32)
    ensures
        final(out)@ == old(out)@ + u32_bytes(v as int, Endianness::Little),
{
    let b = le_u32_to_bytes(v);
    out.push(b[0]);
    out.push(b[1]);
    out.push(b[2]);
    out.push(b[3]);
    assert(out@ =~= old(out)@ + u32_bytes(v as int, Endianness::Little));
}

/// Appends the four bytes of the two's-complement pattern of `v`, lowest first.
pub fn put_i32(out: &mut Vec<u8>, v: i32)
    ensures
        final(out)@ == old(out)@ + u32_bytes(unsigned32(v as int), Endianness::Little),
{
    let b = le_i32_to_bytes(v);
    out.push(b[0]);
    out.push(b[1]);
    out.push(b[2]);
    out.push(b[3]);
    assert(out@ =~= old(out)@ + u32_bytes(unsigned32(v as int), Endianness::Little));
}

/// Appends the two bytes of the two's-complement pattern of `v`, lowest first.
pub fn put_i16(out: &mut Vec<u8>, v: i16)
    ensures
        final(out)@ == old(out)@ + u16_bytes(unsigned16(v as int), Endianness::Little),
{
    let b = le_i16_to_bytes(v);
    out.push(b[0]);
    out.push(b[1]);
    assert(out@ =~= old(out)@ + u16_bytes(unsigned16(v as int), Endianness::Little));
}

/// The four bytes of the two's-complement pattern of `v`, lowest first.
pub fn i32_le_bytes(v: i32) -> (b: [u8; 4])
    ensures
        b@ == u32_bytes(unsigned32(v as int), Endianness::Little),
{
    le_i32_to_bytes(v)
}

/// Appends all of `bytes`.
pub fn put_bytes(out: &mut Vec<u8>, bytes: &[u8])
    ensures
        final(out)@ == old(out)@ + bytes@,
{
    let n = bytes.len();
    let mut i: usize = 0;
    while i < n
        invariant
            n == bytes@.len(),
            0 <= i <= n,
            out@ == old(out)@ + bytes@.take(i as int),
        decreases n - i,
    {
        out.push(bytes[i]);
        proof {
            assert(out@ =~= old(out)@ + bytes@.take(i as int + 1));
        }
        i = i + 1;
    }
    proof {
        assert(bytes@.take(n as int) =~= bytes@);
    }
}

/// Appends the bytes of each pattern of `words`, lowest byte first.
pub fn put_u32s(out: &mut Vec<u8>, words: &[u32])
    ensures
        final(out)@ == old(out)@ + u32s_bytes(words@, Endianness::Little),
{
    let n = words.len();
    let mut i: usize = 0;
    proof {
        assert(out@ =~= old(out)@ + u32s_bytes(words@.take(0), Endianness::Little));
    }
    while i < n
        invariant
            n == words@.len(),
            0 <= i <= n,
            out@ == old(out)@ + u32s_bytes(words@.take(i as int), Endianness::Little),
        decreases n - i,
    {
        put_u32(out, words[i]);
        proof {
            assert(out@ =~= old(out)@ + u32s_bytes(
                words@.take(i as int + 1),
                Endianness::Little,
            ));
        }
        i = i + 1;
    }
    proof {
        assert(words@.take(n as int) =~= words@);
    }
}

} // verus!
