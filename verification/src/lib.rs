//! Consistent Overhead Byte Stuffing (COBS).
//!
//! COBS transforms a message into an encoding in which one byte value (the
//! "sentinel", usually zero) never occurs, so that the sentinel can mark frame
//! boundaries on a serial channel.
use vstd::prelude::*;

pub mod dec;
pub mod enc;
pub mod roundtrip;

pub use crate::dec::{
    decode, decode_in_place, decode_in_place_report, decode_in_place_with_sentinel,
    decode_vec, decode_vec_with_sentinel, decode_with_sentinel, CobsDecoder,
    CobsDecoderHeapless, CobsDecoderInner, CobsDecoderOwned, DecodeError, DecodeReport,
    DecodeResult, DecoderState, DecodingResult,
};
pub use crate::enc::{
    encode, encode_vec, encode_vec_with_sentinel, encode_with_sentinel, try_encode, CobsEncoder,
    EncoderState, PushResult,
};


verus! {

/// Number of bytes needed per started run of 254 source bytes: `ceil(n / 254)`.
pub open spec fn spec_max_encoding_overhead(source_len: nat) -> nat {
    (source_len + 253) / 254
}

/// Maximum size of the encoding of a message of `source_len` bytes. An empty
/// message still takes one code byte.
pub open spec fn spec_max_encoding_length(source_len: nat) -> nat {
    if source_len == 0 {
        1
    } else {
        source_len + spec_max_encoding_overhead(source_len)
    }
}

/// Calculates the maximum overhead when encoding a message with the given length.
/// The overhead is a maximum of [n/254] bytes (one in 254 bytes) rounded up.
pub fn max_encoding_overhead(source_len: usize) -> (overhead: usize)
    ensures
        overhead == spec_max_encoding_overhead(source_len as nat),
        overhead * 254 >= source_len,
        overhead * 254 < source_len + 254,
{
    let full: usize = source_len / 254;
    if source_len % 254 == 0 {
        full
    } else {
        full + 1
    }
}

/// Calculates the maximum possible size of an encoded message given the length
/// of the source message. This may be useful for calculating how large the
/// `dest` buffer needs to be in the encoding functions.
pub fn max_encoding_length(source_len: usize) -> (len: usize)
    requires
        spec_max_encoding_length(source_len as nat) <= usize::MAX,
    ensures
        len == spec_max_encoding_length(source_len as nat),
        source_len == 0 ==> len == 1,
        source_len > 0 ==> len > source_len && (len - source_len) * 254 >= source_len && (len
            - source_len - 1) * 254 < source_len,
{
    if source_len == 0 {
        1
    } else {
        source_len + max_encoding_overhead(source_len)
    }
}

} // verus!
