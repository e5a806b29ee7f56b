use byteorder::{ByteOrder, LittleEndian};
use vstd::arithmetic::power::pow;
use vstd::prelude::*;

verus! {

/// The unsigned value of `b` read as a little-endian integer.
pub open spec fn le_value(b: Seq<u8>) -> nat
    decreases b.len(),
{
    if b.len() == 0 {
        0
    } else {
        b[0] as nat + 256 * le_value(b.drop_first())
    }
}

/// The two's complement value of `b` read as a little-endian integer.
pub open spec fn le_signed(b: Seq<u8>) -> int {
    let full = pow(256, b.len());
    if 2 * le_value(b) >= full {
        le_value(b) - full
    } else {
        le_value(b) as int
    }
}

/// The `i`-th element of width `w` in a packed column.
pub open spec fn element(col: Seq<u8>, w: nat, i: int) -> Seq<u8> {
    col.subrange(w * i, w * i + w)
}

/// Relies on byteorder's `LittleEndian::read_u32`: the first four bytes as a
/// little-endian `u32`.
#[verifier::external_body]
pub(crate) fn read_u32_le(buf: &[u8]) -> (r: u32)
    requires
        buf@.len() == 4,
    ensures
        r as nat == le_value(buf@),
{
    LittleEndian::read_u32(buf)
}

/// Relies on byteorder's `LittleEndian::read_u16_into`: element `i` is the
/// little-endian value of bytes `2i .. 2i + 2`.
#[verifier::external_body]
pub(crate) fn read_u16s_le(src: &[u8], dst: &mut Vec<u16>)
    requires
        src@.len() == 2 * old(dst)@.len(),
    ensures
        final(dst)@.len() == old(dst)@.len(),
        forall|i: int|
            0 <= i < final(dst)@.len() ==> #[trigger] final(dst)@[i] as nat == le_value(
                element(src@, 2, i),
            ),
{
    LittleEndian::read_u16_into(src, dst.as_mut_slice())
}

/// Relies on byteorder's `LittleEndian::read_u32_into`: element `i` is the
/// little-endian value of bytes `4i .. 4i + 4`.
#[verifier::external_body]
pub(crate) fn read_u32s_le(src: &[u8], dst: &mut Vec<u32>)
    requires
        src@.len() == 4 * old(dst)@.len(),
    ensures
        final(dst)@.len() == old(dst)@.len(),
        forall|i: int|
            0 <= i < final(dst)@.len() ==> #[trigger] final(dst)@[i] as nat == le_value(
                element(src@, 4, i),
            ),
{
    LittleEndian::read_u32_into(src, dst.as_mut_slice())
}

/// Relies on byteorder's `LittleEndian::read_u64_into`: element `i` is the
/// little-endian value of bytes `8i .. 8i + 8`.
#[verifier::external_body]
pub(crate) fn read_u64s_le(src: &[u8], dst: &mut Vec<u64>)
    requires
        src@.len() == 8 * old(dst)@.len(),
    ensures
        final(dst)@.len() == old(dst)@.len(),
        forall|i: int|
            0 <= i < final(dst)@.len() ==> #[trigger] final(dst)@[i] as nat == le_value(
                element(src@, 8, i),
            ),
{
    LittleEndian::read_u64_into(src, dst.as_mut_slice())
}

/// Relies on byteorder's `LittleEndian::read_i16_into`: element `i` is the
/// two's complement little-endian value of bytes `2i .. 2i + 2`.
#[verifier::external_body]
pub(crate) fn read_i16s_le(src: &[u8], dst: &mut Vec<i16>)
    requires
        src@.len() == 2 * old(dst)@.len(),
    ensures
        final(dst)@.len() == old(dst)@.len(),
        forall|i: int|
            0 <= i < final(dst)@.len() ==> #[trigger] final(dst)@[i] as int == le_signed(
                element(src@, 2, i),
            ),
{
    LittleEndian::read_i16_into(src, dst.as_mut_slice())
}

/// Relies on byteorder's `LittleEndian::read_i32_into`: element `i` is the
/// two's complement little-endian value of bytes `4i .. 4i + 4`.
#[verifier::external_body]
pub(crate) fn read_i32s_le(src: &[u8], dst: &mut Vec<i32>)
    requires
        src@.len() == 4 * old(dst)@.len(),
    ensures
        final(dst)@.len() == old(dst)@.len(),
        forall|i: int|
            0 <= i < final(dst)@.len() ==> #[trigger] final(dst)@[i] as int == le_signed(
                element(src@, 4, i),
            ),
{
    LittleEndian::read_i32_into(src, dst.as_mut_slice())
}

/// Relies on byteorder's `LittleEndian::read_i64_into`: element `i` is the
/// two's complement little-endian value of bytes `8i .. 8i + 8`.
#[verifier::external_body]
pub(crate) fn read_i64s_le(src: &[u8], dst: &mut Vec<i64>)
    requires
        src@.len() == 8 * old(dst)@.len(),
    ensures
        final(dst)@.len() == old(dst)@.len(),
        forall|i: int|
            0 <= i < final(dst)@.len() ==> #[trigger] final(dst)@[i] as int == le_signed(
                element(src@, 8, i),
            ),
{
    LittleEndian::read_i64_into(src, dst.as_mut_slice())
}

} // verus!
