//! Integers as big-endian bytes: what the bytes of a number are, stated as
//! arithmetic, and the calls that compute them.

use byteorder::{BigEndian, ByteOrder};
use vstd::prelude::*;

verus! {

/// 256 to the power `width`: the number of values that `width` bytes hold.
pub open spec fn span(width: nat) -> nat
    decreases width,
{
    if width == 0 {
        1
    } else {
        256 * span((width - 1) as nat)
    }
}

/// The `width` digits of `value` to the base 256, the most significant first.
pub open spec fn be_bytes(value: nat, width: nat) -> Seq<u8>
    decreases width,
{
    if width == 0 {
        Seq::empty()
    } else {
        be_bytes(value / 256, (width - 1) as nat).push((value % 256) as u8)
    }
}

/// The number whose digits to the base 256 are `bytes`, the most significant
/// first.
pub open spec fn be_value(bytes: Seq<u8>) -> nat
    decreases bytes.len(),
{
    if bytes.len() == 0 {
        0
    } else {
        be_value(bytes.drop_last()) * 256 + bytes.last() as nat
    }
}

/// The number that stands for `n` in two's complement of `width` bytes.
pub open spec fn unsigned(n: int, width: nat) -> nat {
    if n < 0 {
        (n + span(width)) as nat
    } else {
        n as nat
    }
}

/// The number for which `u` stands in two's complement of `width` bytes.
pub open spec fn signed(u: nat, width: nat) -> int {
    if 2 * u >= span(width) {
        u - span(width)
    } else {
        u as int
    }
}

/// The byte of an `i8`.
pub open spec fn be_i8(n: i8) -> Seq<u8> {
    be_bytes(unsigned(n as int, 1), 1)
}

/// The two bytes of a `u16`.
pub open spec fn be_u16(n: u16) -> Seq<u8> {
    be_bytes(n as nat, 2)
}

/// The two bytes of an `i16`.
pub open spec fn be_i16(n: i16) -> Seq<u8> {
    be_bytes(unsigned(n as int, 2), 2)
}

/// The four bytes of a `u32`.
pub open spec fn be_u32(n: u32) -> Seq<u8> {
    be_bytes(n as nat, 4)
}

/// The four bytes of an `i32`.
pub open spec fn be_i32(n: i32) -> Seq<u8> {
    be_bytes(unsigned(n as int, 4), 4)
}

/// The eight bytes of a `u64`.
pub open spec fn be_u64(n: u64) -> Seq<u8> {
    be_bytes(n as nat, 8)
}

/// The eight bytes of an `i64`.
pub open spec fn be_i64(n: i64) -> Seq<u8> {
    be_bytes(unsigned(n as int, 8), 8)
}

/// The values of `span` at the widths in use.
pub proof fn span_values()
    ensures
        span(1) == 0x100,
        span(2) == 0x1_0000,
        span(4) == 0x1_0000_0000,
        span(8) == 0x1_0000_0000_0000_0000,
{
    reveal_with_fuel(span, 9);
}

/// `be_bytes` gives as many bytes as asked for.
pub proof fn be_bytes_len(value: nat, width: nat)
    ensures
        be_bytes(value, width).len() == width,
    decreases width,
{
    if width > 0 {
        be_bytes_len(value / 256, (width - 1) as nat);
    }
}

/// The bytes of a number that fits give the number back.
pub proof fn be_value_of_be_bytes(value: nat, width: nat)
    requires
        value < span(width),
    ensures
        be_value(be_bytes(value, width)) == value,
    decreases width,
{
    if width > 0 {
        let head = be_bytes(value / 256, (width - 1) as nat);
        be_value_of_be_bytes(value / 256, (width - 1) as nat);
        assert(head.push((value % 256) as u8).drop_last() =~= head);
    }
}

/// Bytes stand for a number that fits their count.
pub proof fn be_value_bound(bytes: Seq<u8>)
    ensures
        be_value(bytes) < span(bytes.len()),
    decreases bytes.len(),
{
    if bytes.len() > 0 {
        be_value_bound(bytes.drop_last());
    }
}

/// Two's complement loses nothing of a number in the signed range.
pub proof fn signed_of_unsigned(n: int, width: nat)
    requires
        width > 0,
        -(span(width) as int) <= 2 * n < span(width),
    ensures
        unsigned(n, width) < span(width),
        signed(unsigned(n, width), width) == n,
{
}

/// `byteorder::BigEndian::write_u16` on a buffer of two bytes: the buffer then
/// holds the two digits of `n` to the base 256, the most significant first.
#[verifier::external_body]
pub(crate) fn u16_bytes(n: u16) -> (out: [u8; 2])
    ensures
        out@ == be_u16(n),
{
    let mut out: [u8; 2] = [0; 2];
    BigEndian::write_u16(&mut out, n);
    out
}

/// `byteorder::BigEndian::write_i16` on a buffer of two bytes: the buffer then
/// holds `n` in two's complement, the most significant byte first.
#[verifier::external_body]
pub(crate) fn i16_bytes(n: i16) -> (out: [u8; 2])
    ensures
        out@ == be_i16(n),
{
    let mut out: [u8; 2] = [0; 2];
    BigEndian::write_i16(&mut out, n);
    out
}

/// `byteorder::BigEndian::write_u32` on a buffer of four bytes: the buffer then
/// holds the four digits of `n` to the base 256, the most significant first.
#[verifier::external_body]
pub(crate) fn u32_bytes(n: u32) -> (out: [u8; 4])
    ensures
        out@ == be_u32(n),
{
    let mut out: [u8; 4] = [0; 4];
    BigEndian::write_u32(&mut out, n);
    out
}

/// `byteorder::BigEndian::write_i32` on a buffer of four bytes: the buffer then
/// holds `n` in two's complement, the most significant byte first.
#[verifier::external_body]
pub(crate) fn i32_bytes(n: i32) -> (out: [u8; 4])
    ensures
        out@ == be_i32(n),
{
    let mut out: [u8; 4] = [0; 4];
    BigEndian::write_i32(&mut out, n);
    out
}

/// `byteorder::BigEndian::write_u64` on a buffer of eight bytes: the buffer
/// then holds the eight digits of `n` to the base 256, the most significant
/// first.
#[verifier::external_body]
pub(crate) fn u64_bytes(n: u64) -> (out: [u8; 8])
    ensures
        out@ == be_u64(n),
{
    let mut out: [u8; 8] = [0; 8];
    BigEndian::write_u64(&mut out, n);
    out
}

/// `byteorder::BigEndian::write_i64` on a buffer of eight bytes: the buffer
/// then holds `n` in two's complement, the most significant byte first.
#[verifier::external_body]
pub(crate) fn i64_bytes(n: i64) -> (out: [u8; 8])
    ensures
        out@ == be_i64(n),
{
    let mut out: [u8; 8] = [0; 8];
    BigEndian::write_i64(&mut out, n);
    out
}

/// `byteorder::BigEndian::read_u16`: the number whose digits to the base 256
/// are the first two bytes of `buf`. It panics on a shorter buffer.
#[verifier::external_body]
pub(crate) fn u16_at(buf: &[u8]) -> (n: u16)
    requires
        buf@.len() >= 2,
    ensures
        n == be_value(buf@.subrange(0, 2)),
{
    BigEndian::read_u16(buf)
}

/// `byteorder::BigEndian::read_i16`: the number for which the first two bytes
/// of `buf` stand in two's complement. It panics on a shorter buffer.
#[verifier::external_body]
pub(crate) fn i16_at(buf: &[u8]) -> (n: i16)
    requires
        buf@.len() >= 2,
    ensures
        n == signed(be_value(buf@.subrange(0, 2)), 2),
{
    BigEndian::read_i16(buf)
}

/// `byteorder::BigEndian::read_u32`: the number whose digits to the base 256
/// are the first four bytes of `buf`. It panics on a shorter buffer.
#[verifier::external_body]
pub(crate) fn u32_at(buf: &[u8]) -> (n: u32)
    requires
        buf@.len() >= 4,
    ensures
        n == be_value(buf@.subrange(0, 4)),
{
    BigEndian::read_u32(buf)
}

/// `byteorder::BigEndian::read_i32`: the number for which the first four bytes
/// of `buf` stand in two's complement. It panics on a shorter buffer.
#[verifier::external_body]
pub(crate) fn i32_at(buf: &[u8]) -> (n: i32)
    requires
        buf@.len() >= 4,
    ensures
        n == signed(be_value(buf@.subrange(0, 4)), 4),
{
    BigEndian::read_i32(buf)
}

/// `byteorder::BigEndian::read_u64`: the number whose digits to the base 256
/// are the first eight bytes of `buf`. It panics on a shorter buffer.
#[verifier::external_body]
pub(crate) fn u64_at(buf: &[u8]) -> (n: u64)
    requires
        buf@.len() >= 8,
    ensures
        n == be_value(buf@.subrange(0, 8)),
{
    BigEndian::read_u64(buf)
}

/// `byteorder::BigEndian::read_i64`: the number for which the first eight
/// bytes of `buf` stand in two's complement. It panics on a shorter buffer.
#[verifier::external_body]
pub(crate) fn i64_at(buf: &[u8]) -> (n: i64)
    requires
        buf@.len() >= 8,
    ensures
        n == signed(be_value(buf@.subrange(0, 8)), 8),
{
    BigEndian::read_i64(buf)
}

/// The byte that stands for `n` in two's complement.
pub fn i8_byte(n: i8) -> (b: u8)
    ensures
        seq![b] == be_i8(n),
{
    proof {
        reveal_with_fuel(span, 3);
        reveal_with_fuel(be_bytes, 3);
    }
    let b: u8 = if n < 0 {
        (n as i16 + 256) as u8
    } else {
        n as u8
    };
    assert(be_i8(n) =~= seq![b]);
    b
}

/// The number for which `b` stands in two's complement.
pub fn byte_i8(b: u8) -> (n: i8)
    ensures
        n == signed(be_value(seq![b]), 1),
{
    proof {
        reveal_with_fuel(span, 3);
        reveal_with_fuel(be_value, 3);
        assert(seq![b].drop_last() =~= Seq::<u8>::empty());
    }
    if b >= 128 {
        (b as i16 - 256) as i8
    } else {
        b as i8
    }
}

/// Puts `bytes` at the end of `buf`.
pub fn append(buf: &mut Vec<u8>, bytes: &[u8])
    ensures
        final(buf)@ == old(buf)@ + bytes@,
{
    let mut i: usize = 0;
    while i < bytes.len()
        invariant
            i <= bytes.len(),
            buf@ == old(buf)@ + bytes@.subrange(0, i as int),
        decreases bytes.len() - i,
    {
        buf.push(bytes[i]);
        assert(buf@ =~= old(buf)@ + bytes@.subrange(0, i + 1));
        i += 1;
    }
    assert(bytes@.subrange(0, i as int) =~= bytes@);
}

} // verus!
