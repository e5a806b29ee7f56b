use crate::bytes::{le_value, read_u32_le};
use crate::error::PcdError;
use vstd::prelude::*;
use vstd::slice::slice_subrange;

verus! {

/// The error of `lzf::decompress`, carried only until it is mapped to a
/// [`PcdError`].
#[verifier::external_type_specification]
#[verifier::external_body]
pub struct ExLzfError(lzf::LzfError);

/// What LZF decompression of `data` yields when at most `capacity` output
/// bytes are allowed, or `None` where it reports an error.
pub uninterp spec fn lzf_expand(data: Seq<u8>, capacity: nat) -> Option<Seq<u8>>;

/// The largest output that `lzf::decompress` is asked for: it tracks the
/// output position as an `i32`, which must not overflow.
pub const MAX_EXPANDED_LEN: usize = 0x7fff_ffff;

/// Relies on `lzf::decompress`: it is deterministic, never writes more than
/// `capacity` bytes, and rejects an empty block.
#[verifier::external_body]
fn lzf_decompress(data: &[u8], capacity: usize) -> (r: Result<Vec<u8>, lzf::LzfError>)
    requires
        capacity <= MAX_EXPANDED_LEN,
    ensures
        r is Ok <==> lzf_expand(data@, capacity as nat) is Some,
        r is Ok ==> r->Ok_0@ == lzf_expand(data@, capacity as nat)->0,
        r is Ok ==> r->Ok_0@.len() <= capacity,
        data@.len() == 0 ==> r is Err,
{
    lzf::decompress(data, capacity)
}

/// What the binary section `b` (everything after the header) decodes to:
/// two little-endian `u32` lengths, then the compressed block, which must
/// expand to exactly the second length, at most `MAX_EXPANDED_LEN`.
pub open spec fn payload_spec(b: Seq<u8>) -> Result<Seq<u8>, PcdError> {
    if b.len() < 8 {
        Err(PcdError::IoFailure)
    } else {
        let packed_len = le_value(b.subrange(0, 4));
        let raw_len = le_value(b.subrange(4, 8));
        if b.len() < 8 + packed_len as int {
            Err(PcdError::IoFailure)
        } else if raw_len > MAX_EXPANDED_LEN {
            Err(PcdError::DecompressionFailure)
        } else {
            match lzf_expand(b.subrange(8, 8 + packed_len as int), raw_len) {
                Some(out) => if out.len() == raw_len {
                    Ok(out)
                } else {
                    Err(PcdError::DecompressionFailure)
                },
                None => Err(PcdError::DecompressionFailure),
            }
        }
    }
}

/// Reads the two length prefixes at the start of `b` and expands the
/// compressed block that follows them.
pub fn decompress_payload(b: &[u8]) -> (r: Result<Vec<u8>, PcdError>)
    ensures
        r is Ok <==> payload_spec(b@) is Ok,
        r is Ok ==> r->Ok_0@ == payload_spec(b@)->Ok_0,
        r is Err ==> r->Err_0 == payload_spec(b@)->Err_0,
{
    if b.len() < 8 {
        return Err(PcdError::IoFailure);
    }
    let packed_len = read_u32_le(slice_subrange(b, 0, 4)) as usize;
    let raw_len = read_u32_le(slice_subrange(b, 4, 8)) as usize;
    if b.len() - 8 < packed_len {
        return Err(PcdError::IoFailure);
    }
    if raw_len > MAX_EXPANDED_LEN {
        return Err(PcdError::DecompressionFailure);
    }
    let block = slice_subrange(b, 8, 8 + packed_len);
    match lzf_decompress(block, raw_len) {
        Ok(out) => {
            if out.len() == raw_len {
                Ok(out)
            } else {
                Err(PcdError::DecompressionFailure)
            }
        },
        Err(_) => Err(PcdError::DecompressionFailure),
    }
}

} // verus!
