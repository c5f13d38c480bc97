//! Raw big-endian array converters, shared with the codec: 32-bit values
//! and short length-prefixed lists of them.

use vstd::prelude::*;

use crate::codec::{parse_u32_list, u32_bytes, u32_seq_bytes, CodecError};

verus! {

/// Split a 32-bit value into its four big-endian bytes.
pub fn u32_to_u8_array(value: u32) -> (r: [u8; 4])
    ensures
        r@ == u32_bytes(value),
{
    crate::codec::u32_to_u8_array(value)
}

/// Read a 32-bit value back from its four big-endian bytes.
pub fn u8_array_to_u32(array: &[u8; 4]) -> (r: u32)
    ensures
        r == crate::codec::bytes_u32(array@),
{
    crate::codec::u8_array_to_u32(array)
}

/// Encode a list of up to 256 values as a one-byte count followed by the
/// big-endian values. A longer list is refused.
pub fn u32_list_to_u8_array(list: &[u32]) -> (r: Result<Vec<u8>, CodecError>)
    ensures
        match r {
            Ok(buf) => list@.len() <= 256 && buf@ == seq![list@.len() as u8] + u32_seq_bytes(
                list@,
            ),
            Err(e) => list@.len() > 256 && e == CodecError::TooManyValues,
        },
{
    crate::codec::u32_list_to_u8_array(list)
}

/// Decode a one-byte count followed by big-endian 32-bit values. The count
/// must agree exactly with the residue.
pub fn u8_array_to_u32_list(array: &[u8]) -> (r: Result<Vec<u32>, CodecError>)
    ensures
        match r {
            Ok(list) => parse_u32_list(array@) == Some(list@),
            Err(_) => parse_u32_list(array@) is None,
        },
{
    crate::codec::u8_array_to_u32_list(array)
}

} // verus!
