//! Length-prefixed message framing.
//!
//! One frame is a four-byte little-endian length prefix followed by exactly
//! that many payload bytes, the UTF-8 encoding of the payload text. Both
//! directions of the wire protocol use this framing. No maximum length is
//! enforced beyond the prefix itself; a peer that needs robustness against
//! corrupt senders must bound what it reads.

use vstd::bytes::{lemma_auto_spec_u32_to_from_le_bytes, spec_u32_from_le_bytes,
    spec_u32_to_le_bytes, u32_from_le_bytes, u32_to_le_bytes};
use vstd::prelude::*;
use vstd::slice::{slice_subrange, slice_to_vec};
use vstd::string::StrSliceExecFns;
use vstd::utf8::{decode_utf8, encode_utf8, encode_utf8_decode_utf8, encode_utf8_valid_utf8,
    valid_utf8};

verus! {

/// The frame carrying `payload`.
pub open spec fn frame_of(payload: Seq<char>) -> Seq<u8> {
    spec_u32_to_le_bytes(encode_utf8(payload).len() as u32) + encode_utf8(payload)
}

/// Why reading a frame failed. A short read is fatal to its connection
/// only; an undecodable payload still gets an error reply.
#[derive(Clone, Copy, PartialEq, Eq, Structural, Debug)]
pub enum RecvError {
    /// The bytes end before a whole frame has arrived.
    Framing,
    /// The payload bytes are not valid UTF-8.
    Decode,
}

/// What reading one frame from the start of `b` yields: the payload text and
/// the count of consumed bytes, or the failure.
pub open spec fn parse_frame(b: Seq<u8>) -> Result<(Seq<char>, int), RecvError> {
    if b.len() < 4 {
        Result::Err(RecvError::Framing)
    } else {
        let n = spec_u32_from_le_bytes(b.subrange(0, 4)) as int;
        if b.len() < 4 + n {
            Result::Err(RecvError::Framing)
        } else {
            let body = b.subrange(4, 4 + n);
            if valid_utf8(body) {
                Result::Ok((decode_utf8(body), 4 + n))
            } else {
                Result::Err(RecvError::Decode)
            }
        }
    }
}

/// Relies on `String::from_utf8`: yields the string whose UTF-8 encoding is
/// exactly the given bytes, or nothing when they are not valid UTF-8.
#[verifier::external_body]
fn bytes_to_string(bytes: Vec<u8>) -> (r: Option<String>)
    ensures
        match r {
            Some(s) => valid_utf8(bytes@) && s@ == decode_utf8(bytes@),
            None => !valid_utf8(bytes@),
        },
{
    match String::from_utf8(bytes) {
        Ok(s) => Some(s),
        Err(_) => None,
    }
}

/// The frame carrying `msg`, or `None` when the payload's UTF-8 form would
/// overrun the four-byte length prefix.
pub fn encode_frame(msg: &str) -> (r: Option<Vec<u8>>)
    ensures
        match r {
            Some(b) => encode_utf8(msg@).len() <= u32::MAX && b@ == frame_of(msg@),
            None => encode_utf8(msg@).len() > u32::MAX,
        },
{
    let bytes = msg.as_bytes_vec();
    if bytes.len() > u32::MAX as usize {
        return None;
    }
    let len32 = bytes.len() as u32;
    let mut out = u32_to_le_bytes(len32);
    let mut body = bytes;
    out.append(&mut body);
    proof {
        assert(out@ =~= frame_of(msg@));
    }
    Some(out)
}

/// Reads the frame at the start of `bytes`, as `parse_frame` describes.
pub fn decode_frame(bytes: &Vec<u8>) -> (r: Result<(String, usize), RecvError>)
    ensures
        match r {
            Result::Ok((s, j)) => parse_frame(bytes@) == Result::Ok::<(Seq<char>, int), RecvError>(
                (s@, j as int),
            ),
            Result::Err(e) => parse_frame(bytes@) == Result::Err::<(Seq<char>, int), RecvError>(e),
        },
{
    if bytes.len() < 4 {
        return Result::Err(RecvError::Framing);
    }
    let prefix = slice_subrange(bytes.as_slice(), 0, 4);
    let n32 = u32_from_le_bytes(prefix);
    let n = n32 as usize;
    if bytes.len() - 4 < n {
        return Result::Err(RecvError::Framing);
    }
    let body = slice_to_vec(slice_subrange(bytes.as_slice(), 4, 4 + n));
    match bytes_to_string(body) {
        Some(s) => Result::Ok((s, 4 + n)),
        None => Result::Err(RecvError::Decode),
    }
}

/// Round trip: the frame written for `payload` reads back as exactly
/// `payload`, whatever bytes follow it on the stream.
pub proof fn lemma_frame_round_trip(payload: Seq<char>, rest: Seq<u8>)
    requires
        encode_utf8(payload).len() <= u32::MAX,
    ensures
        parse_frame(frame_of(payload) + rest) == Result::Ok::<(Seq<char>, int), RecvError>(
            (payload, 4 + encode_utf8(payload).len() as int),
        ),
{
    let enc = encode_utf8(payload);
    let b = frame_of(payload) + rest;
    lemma_auto_spec_u32_to_from_le_bytes();
    assert(spec_u32_to_le_bytes(enc.len() as u32).len() == 4);
    assert(b.subrange(0, 4) =~= spec_u32_to_le_bytes(enc.len() as u32));
    assert(spec_u32_from_le_bytes(b.subrange(0, 4)) == enc.len() as u32);
    assert(b.subrange(4, 4 + enc.len() as int) =~= enc);
    encode_utf8_valid_utf8(payload);
    encode_utf8_decode_utf8(payload);
}

} // verus!
