//! Fixed-width integers as bytes, in either byte order, and the few text
//! fragments the segment files hold.

use vstd::prelude::*;
use byteorder::{BigEndian, LittleEndian, WriteBytesExt};

verus! {

/// Byte `k` of `n`, counted from the least significant one.
pub open spec fn byte_of(n: int, k: int) -> u8 {
    if k == 0 {
        (n % 0x100) as u8
    } else if k == 1 {
        (n / 0x100 % 0x100) as u8
    } else if k == 2 {
        (n / 0x1_0000 % 0x100) as u8
    } else if k == 3 {
        (n / 0x100_0000 % 0x100) as u8
    } else if k == 4 {
        (n / 0x1_0000_0000 % 0x100) as u8
    } else if k == 5 {
        (n / 0x100_0000_0000 % 0x100) as u8
    } else if k == 6 {
        (n / 0x1_0000_0000_0000 % 0x100) as u8
    } else {
        (n / 0x100_0000_0000_0000 % 0x100) as u8
    }
}

/// `n` as `width` bytes, most significant first.
pub open spec fn be_bytes(n: int, width: int) -> Seq<u8> {
    Seq::new(if width > 0 { width as nat } else { 0 }, |i: int| byte_of(n, width - 1 - i))
}

/// `n` as `width` bytes, least significant first.
pub open spec fn le_bytes(n: int, width: int) -> Seq<u8> {
    Seq::new(if width > 0 { width as nat } else { 0 }, |i: int| byte_of(n, i))
}

/// The unsigned number with the same 32 bits as `v`.
pub open spec fn bits32(v: i32) -> int {
    if v < 0 {
        v + 0x1_0000_0000
    } else {
        v as int
    }
}

/// The unsigned number with the same 64 bits as `v`.
pub open spec fn bits64(v: i64) -> int {
    if v < 0 {
        v + 0x1_0000_0000_0000_0000
    } else {
        v as int
    }
}

/// `n` in decimal digits, as ASCII.
pub open spec fn decimal(n: nat) -> Seq<u8>
    decreases n,
{
    if n < 10 {
        seq![(48 + n) as u8]
    } else {
        decimal(n / 10).push((48 + n % 10) as u8)
    }
}

/// Appends one byte through `WriteBytesExt::write_u8`, which hands the byte to
/// `write_all`; on a `Vec` that appends and cannot fail.
#[verifier::external_body]
pub(crate) fn put_u8(out: &mut Vec<u8>, v: u8)
    ensures
        final(out)@ == old(out)@.push(v),
{
    let _ = out.write_u8(v);
}

/// Appends `v` through `WriteBytesExt::write_u16::<BigEndian>`: two bytes, the
/// high one first.
#[verifier::external_body]
pub(crate) fn put_u16_be(out: &mut Vec<u8>, v: u16)
    ensures
        final(out)@ == old(out)@ + be_bytes(v as int, 2),
{
    let _ = out.write_u16::<BigEndian>(v);
}

/// Appends `v` through `WriteBytesExt::write_u16::<LittleEndian>`: two bytes,
/// the low one first.
#[verifier::external_body]
pub(crate) fn put_u16_le(out: &mut Vec<u8>, v: u16)
    ensures
        final(out)@ == old(out)@ + le_bytes(v as int, 2),
{
    let _ = out.write_u16::<LittleEndian>(v);
}

/// Appends `v` through `WriteBytesExt::write_u24::<BigEndian>`: three bytes,
/// the high one first. That function panics on a value of more than 24
/// bits, which `requires` keeps out.
#[verifier::external_body]
pub(crate) fn put_u24_be(out: &mut Vec<u8>, v: u32)
    requires
        v < 0x100_0000,
    ensures
        final(out)@ == old(out)@ + be_bytes(v as int, 3),
{
    let _ = out.write_u24::<BigEndian>(v);
}

/// Appends `v` through `WriteBytesExt::write_u24::<LittleEndian>`: three
/// bytes, the low one first. That function panics on a value of more than
/// 24 bits, which `requires` keeps out.
#[verifier::external_body]
pub(crate) fn put_u24_le(out: &mut Vec<u8>, v: u32)
    requires
        v < 0x100_0000,
    ensures
        final(out)@ == old(out)@ + le_bytes(v as int, 3),
{
    let _ = out.write_u24::<LittleEndian>(v);
}

/// Appends `v` through `WriteBytesExt::write_u32::<BigEndian>`: four bytes,
/// the high one first.
#[verifier::external_body]
pub(crate) fn put_u32_be(out: &mut Vec<u8>, v: u32)
    ensures
        final(out)@ == old(out)@ + be_bytes(v as int, 4),
{
    let _ = out.write_u32::<BigEndian>(v);
}

/// Appends `v` through `WriteBytesExt::write_u32::<LittleEndian>`: four bytes,
/// the low one first.
#[verifier::external_body]
pub(crate) fn put_u32_le(out: &mut Vec<u8>, v: u32)
    ensures
        final(out)@ == old(out)@ + le_bytes(v as int, 4),
{
    let _ = out.write_u32::<LittleEndian>(v);
}

/// Appends `v` through `WriteBytesExt::write_i32::<BigEndian>`: the four bytes
/// of its two's complement form, the high one first.
#[verifier::external_body]
pub(crate) fn put_i32_be(out: &mut Vec<u8>, v: i32)
    ensures
        final(out)@ == old(out)@ + be_bytes(bits32(v), 4),
{
    let _ = out.write_i32::<BigEndian>(v);
}

/// Appends `v` through `WriteBytesExt::write_i64::<BigEndian>`: the eight
/// bytes of its two's complement form, the high one first.
#[verifier::external_body]
pub(crate) fn put_i64_be(out: &mut Vec<u8>, v: i64)
    ensures
        final(out)@ == old(out)@ + be_bytes(bits64(v), 8),
{
    let _ = out.write_i64::<BigEndian>(v);
}

/// Appends `v` through `WriteBytesExt::write_i64::<LittleEndian>`: the eight
/// bytes of its two's complement form, the low one first.
#[verifier::external_body]
pub(crate) fn put_i64_le(out: &mut Vec<u8>, v: i64)
    ensures
        final(out)@ == old(out)@ + le_bytes(bits64(v), 8),
{
    let _ = out.write_i64::<LittleEndian>(v);
}

/// Appends `v` through `WriteBytesExt::write_u64::<LittleEndian>`: eight
/// bytes, the low one first.
#[verifier::external_body]
pub(crate) fn put_u64_le(out: &mut Vec<u8>, v: u64)
    ensures
        final(out)@ == old(out)@ + le_bytes(v as int, 8),
{
    let _ = out.write_u64::<LittleEndian>(v);
}

/// Appends a run of bytes.
pub fn put_bytes(out: &mut Vec<u8>, bytes: &[u8])
    ensures
        final(out)@ == old(out)@ + bytes@,
{
    out.extend_from_slice(bytes);
    assert(out@ =~= old(out)@ + bytes@);
}

/// Appends `n` in decimal digits.
pub fn put_decimal(out: &mut Vec<u8>, n: usize)
    ensures
        final(out)@ == old(out)@ + decimal(n as nat),
    decreases n,
{
    if n < 10 {
        let d: u8 = 48 + n as u8;
        out.push(d);
        assert(out@ =~= old(out)@ + decimal(n as nat));
    } else {
        put_decimal(out, n / 10);
        let d: u8 = 48 + (n % 10) as u8;
        out.push(d);
        assert(out@ =~= old(out)@ + decimal(n as nat));
    }
}

} // verus!
