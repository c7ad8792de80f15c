//! Byte-level building blocks: big-endian `u32` fields and UTF-8 payloads.

use vstd::prelude::*;
use vstd::utf8::*;
use byteorder::{BigEndian, ByteOrder};

verus! {

/// The four bytes of `n`, most significant first.
pub open spec fn be_bytes(n: u32) -> Seq<u8> {
    seq![
        (n / 0x100_0000) as u8,
        (n / 0x1_0000 % 0x100) as u8,
        (n / 0x100 % 0x100) as u8,
        (n % 0x100) as u8,
    ]
}

/// The number whose big-endian bytes are the first four bytes of `b`.
pub open spec fn be_value(b: Seq<u8>) -> u32
    recommends
        b.len() >= 4,
{
    (b[0] as int * 0x100_0000 + b[1] as int * 0x1_0000 + b[2] as int * 0x100 + b[3] as int) as u32
}

/// Reading back the bytes of a number gives the number.
pub proof fn lemma_be_value_of_bytes(n: u32)
    ensures
        be_bytes(n).len() == 4,
        be_value(be_bytes(n)) == n,
{
    assert(be_value(be_bytes(n)) == n) by (nonlinear_arith)
        requires
            be_bytes(n) == seq![
                (n / 0x100_0000) as u8,
                (n / 0x1_0000 % 0x100) as u8,
                (n / 0x100 % 0x100) as u8,
                (n % 0x100) as u8,
            ],
    {
    }
}

/// Writing back the number read from four bytes gives those bytes.
pub proof fn lemma_be_bytes_of_value(b: Seq<u8>)
    requires
        b.len() >= 4,
    ensures
        be_bytes(be_value(b)) == b.take(4),
{
    let (b0, b1, b2, b3) = (b[0] as int, b[1] as int, b[2] as int, b[3] as int);
    let v = be_value(b);
    assert(v as int == b0 * 0x100_0000 + b1 * 0x1_0000 + b2 * 0x100 + b3) by (nonlinear_arith)
        requires
            0 <= b0 < 256, 0 <= b1 < 256, 0 <= b2 < 256, 0 <= b3 < 256,
            v == (b0 * 0x100_0000 + b1 * 0x1_0000 + b2 * 0x100 + b3) as u32,
    {
    }
    let x = v as int;
    assert(x / 0x100_0000 == b0 && x / 0x1_0000 % 0x100 == b1 && x / 0x100 % 0x100 == b2
        && x % 0x100 == b3) by (nonlinear_arith)
        requires
            0 <= b0 < 256, 0 <= b1 < 256, 0 <= b2 < 256, 0 <= b3 < 256,
            x == b0 * 0x100_0000 + b1 * 0x1_0000 + b2 * 0x100 + b3,
    {
    }
    assert(be_bytes(v) =~= b.take(4));
}

/// Reads the big-endian `u32` at the start of `buf` with `byteorder`.
///
/// `BigEndian::read_u32` reads `buf[..4]` most significant byte first, and
/// panics when `buf` is shorter than four bytes: that input is left out.
#[verifier::external_body]
pub(crate) fn read_u32_be(buf: &[u8]) -> (n: u32)
    requires
        buf@.len() >= 4,
    ensures
        n == be_value(buf@),
{
    BigEndian::read_u32(buf)
}

/// Writes `n` big-endian into a four-byte buffer with `byteorder`.
///
/// `BigEndian::write_u32` stores `n.to_be_bytes()` into `buf[..4]`; with a
/// buffer of exactly four bytes that is the whole buffer.
#[verifier::external_body]
pub(crate) fn write_u32_be(buf: &mut [u8; 4], n: u32)
    ensures
        final(buf)@ == be_bytes(n),
{
    BigEndian::write_u32(buf, n)
}

/// The big-endian bytes of `n`, produced through `byteorder`.
pub fn u32_to_be(n: u32) -> (bytes: [u8; 4])
    ensures
        bytes@ == be_bytes(n),
{
    let mut bytes: [u8; 4] = [0u8, 0u8, 0u8, 0u8];
    write_u32_be(&mut bytes, n);
    bytes
}

/// The big-endian `u32` held by the first four bytes of `buf`.
pub fn u32_from_be(buf: &[u8]) -> (n: u32)
    requires
        buf@.len() >= 4,
    ensures
        n == be_value(buf@),
{
    read_u32_be(buf)
}

/// Checks UTF-8 validity with `std::str::from_utf8`.
///
/// `from_utf8` succeeds exactly on valid UTF-8, and the `&str` it returns is
/// the input bytes themselves.
#[verifier::external_body]
pub(crate) fn str_from_utf8(bytes: &[u8]) -> (res: Option<&str>)
    ensures
        res is Some <==> valid_utf8(bytes@),
        res matches Some(s) ==> encode_utf8(s@) == bytes@,
{
    std::str::from_utf8(bytes).ok()
}

/// The text whose UTF-8 encoding is `bytes`, if `bytes` is valid UTF-8.
pub fn utf8_text(bytes: &[u8]) -> (res: Option<String>)
    ensures
        res is Some <==> valid_utf8(bytes@),
        res matches Some(s) ==> s@ == decode_utf8(bytes@) && encode_utf8(s@) == bytes@,
{
    match str_from_utf8(bytes) {
        Some(s) => {
            proof {
                decode_utf8_encode_utf8(bytes@);
                encode_utf8_decode_utf8(s@);
            }
            Some(s.to_owned())
        },
        None => None,
    }
}

} // verus!
