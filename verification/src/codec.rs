//! Little-endian numbers in files.
use byteorder::{LittleEndian, ReadBytesExt, WriteBytesExt};
use vstd::prelude::*;

verus! {

/// The 32-bit number at `at`, lowest byte first.
pub open spec fn u32_at(bytes: Seq<u8>, at: int) -> u32 {
    (bytes[at] + 0x100 * bytes[at + 1] + 0x1_0000 * bytes[at + 2] + 0x100_0000 * bytes[at
        + 3]) as u32
}

/// The 64-bit number at `at`, lowest byte first.
pub open spec fn u64_at(bytes: Seq<u8>, at: int) -> u64 {
    (u32_at(bytes, at) + 0x1_0000_0000 * u32_at(bytes, at + 4)) as u64
}

/// The four bytes of a number, lowest first.
pub open spec fn u32_bytes(x: u32) -> Seq<u8> {
    seq![
        (x as int % 0x100) as u8,
        (x as int / 0x100 % 0x100) as u8,
        (x as int / 0x1_0000 % 0x100) as u8,
        (x as int / 0x100_0000) as u8,
    ]
}

/// The eight bytes of a number, lowest first.
pub open spec fn u64_bytes(x: u64) -> Seq<u8> {
    u32_bytes((x as int % 0x1_0000_0000) as u32) + u32_bytes((x as int / 0x1_0000_0000) as u32)
}

/// `byteorder::ReadBytesExt::read_u32` in little-endian order on the bytes from `at` on: the
/// number, or nothing where fewer than four bytes are left.
#[verifier::external_body]
pub(crate) fn read_u32(bytes: &Vec<u8>, at: usize) -> (r: Option<u32>)
    requires
        at <= bytes@.len(),
    ensures
        r == if at + 4 <= bytes@.len() {
            Some(u32_at(bytes@, at as int))
        } else {
            None
        },
{
    let mut rest: &[u8] = &bytes[at..];
    rest.read_u32::<LittleEndian>().ok()
}

/// `byteorder::ReadBytesExt::read_u64` in little-endian order on the bytes from `at` on: the
/// number, or nothing where fewer than eight bytes are left.
#[verifier::external_body]
pub(crate) fn read_u64(bytes: &Vec<u8>, at: usize) -> (r: Option<u64>)
    requires
        at <= bytes@.len(),
    ensures
        r == if at + 8 <= bytes@.len() {
            Some(u64_at(bytes@, at as int))
        } else {
            None
        },
{
    let mut rest: &[u8] = &bytes[at..];
    rest.read_u64::<LittleEndian>().ok()
}

/// `byteorder::WriteBytesExt::write_u32` in little-endian order on a growing buffer, which
/// never refuses bytes: the four bytes are appended.
#[verifier::external_body]
pub(crate) fn write_u32(out: &mut Vec<u8>, x: u32)
    ensures
        final(out)@ == old(out)@ + u32_bytes(x),
{
    out.write_u32::<LittleEndian>(x).unwrap();
}

/// `byteorder::WriteBytesExt::write_u64` in little-endian order on a growing buffer, which
/// never refuses bytes: the eight bytes are appended.
#[verifier::external_body]
pub(crate) fn write_u64(out: &mut Vec<u8>, x: u64)
    ensures
        final(out)@ == old(out)@ + u64_bytes(x),
{
    out.write_u64::<LittleEndian>(x).unwrap();
}

/// A written 32-bit number is read back.
pub proof fn written_u32_reads_back(bytes: Seq<u8>, at: int, x: u32)
    requires
        0 <= at,
        at + 4 <= bytes.len(),
        bytes.subrange(at, at + 4) == u32_bytes(x),
    ensures
        u32_at(bytes, at) == x,
{
    let s = bytes.subrange(at, at + 4);
    assert(s[0] == bytes[at] && s[1] == bytes[at + 1] && s[2] == bytes[at + 2] && s[3]
        == bytes[at + 3]);
    let v = x as int;
    assert(v % 0x100 + 0x100 * (v / 0x100 % 0x100) + 0x1_0000 * (v / 0x1_0000 % 0x100)
        + 0x100_0000 * (v / 0x100_0000) == v);
}

/// A written 64-bit number is read back.
pub proof fn written_u64_reads_back(bytes: Seq<u8>, at: int, x: u64)
    requires
        0 <= at,
        at + 8 <= bytes.len(),
        bytes.subrange(at, at + 8) == u64_bytes(x),
    ensures
        u64_at(bytes, at) == x,
{
    let low = (x as int % 0x1_0000_0000) as u32;
    let high = (x as int / 0x1_0000_0000) as u32;
    assert(bytes.subrange(at, at + 4) =~= bytes.subrange(at, at + 8).subrange(0, 4));
    assert(bytes.subrange(at + 4, at + 8) =~= bytes.subrange(at, at + 8).subrange(4, 8));
    assert(u64_bytes(x).subrange(0, 4) =~= u32_bytes(low));
    assert(u64_bytes(x).subrange(4, 8) =~= u32_bytes(high));
    written_u32_reads_back(bytes, at, low);
    written_u32_reads_back(bytes, at + 4, high);
}

} // verus!
