//! Wire codec and handler of the raw bus server.
//!
//! The bus server exposes peek/poke over a minimal request/response
//! protocol: a request is an operation byte (`0` read, `1` write), a
//! big-endian 32-bit address, and — for a write — a big-endian 32-bit
//! value; a response is a status byte (`0` success, `1` failure) followed,
//! for a successful read, by the big-endian word. Encoding and decoding are
//! verified to be exact inverses.

use vstd::prelude::*;

use crate::bus::DebugBus;
use crate::riscv::spec_word_byte;
use crate::riscv::word_byte;

verus! {

/// Operation byte of a read request.
pub const OP_READ: u8 = 0;

/// Operation byte of a write request.
pub const OP_WRITE: u8 = 1;

/// One request of the bus server.
#[derive(Clone, Copy, Debug, PartialEq, Eq, Structural)]
pub enum WishboneRequest {
    Read { address: u32 },
    Write { address: u32, value: u32 },
}

/// One response of the bus server.
#[derive(Clone, Copy, Debug, PartialEq, Eq, Structural)]
pub enum WishboneResponse {
    /// A read completed with this word.
    ReadOk { value: u32 },
    /// A write completed.
    WriteOk,
    /// The bus transaction failed.
    Failed,
}

/// The four bytes of `w`, most significant first.
pub open spec fn spec_be_bytes(w: u32) -> Seq<u8> {
    seq![
        spec_word_byte(w, 3),
        spec_word_byte(w, 2),
        spec_word_byte(w, 1),
        spec_word_byte(w, 0),
    ]
}

/// The word written by four bytes, most significant first.
pub open spec fn spec_word_of_be(b3: u8, b2: u8, b1: u8, b0: u8) -> u32 {
    (b0 + 256 * (b1 as int) + 65536 * (b2 as int) + 16777216 * (b3 as int)) as u32
}

/// The wire form of a request.
pub open spec fn spec_encode_request(r: WishboneRequest) -> Seq<u8> {
    match r {
        WishboneRequest::Read { address } => seq![OP_READ] + spec_be_bytes(address),
        WishboneRequest::Write { address, value } => seq![OP_WRITE] + spec_be_bytes(address)
            + spec_be_bytes(value),
    }
}

/// The request a wire frame denotes, `None` on a malformed frame.
pub open spec fn spec_decode_request(b: Seq<u8>) -> Option<WishboneRequest> {
    if b.len() == 5 && b[0] == OP_READ {
        Some(WishboneRequest::Read { address: spec_word_of_be(b[1], b[2], b[3], b[4]) })
    } else if b.len() == 9 && b[0] == OP_WRITE {
        Some(
            WishboneRequest::Write {
                address: spec_word_of_be(b[1], b[2], b[3], b[4]),
                value: spec_word_of_be(b[5], b[6], b[7], b[8]),
            },
        )
    } else {
        None
    }
}

/// The wire form of a response.
pub open spec fn spec_encode_response(r: WishboneResponse) -> Seq<u8> {
    match r {
        WishboneResponse::ReadOk { value } => seq![0u8] + spec_be_bytes(value),
        WishboneResponse::WriteOk => seq![0u8],
        WishboneResponse::Failed => seq![1u8],
    }
}

/// The response a wire frame denotes, `None` on a malformed frame.
pub open spec fn spec_decode_response(b: Seq<u8>) -> Option<WishboneResponse> {
    if b.len() == 5 && b[0] == 0 {
        Some(WishboneResponse::ReadOk { value: spec_word_of_be(b[1], b[2], b[3], b[4]) })
    } else if b.len() == 1 && b[0] == 0 {
        Some(WishboneResponse::WriteOk)
    } else if b.len() == 1 && b[0] == 1 {
        Some(WishboneResponse::Failed)
    } else {
        None
    }
}

proof fn lemma_word_of_be_bytes(w: u32)
    ensures
        spec_word_of_be(
            spec_word_byte(w, 3),
            spec_word_byte(w, 2),
            spec_word_byte(w, 1),
            spec_word_byte(w, 0),
        ) == w,
{
}

fn push_be_word(out: &mut Vec<u8>, w: u32)
    ensures
        final(out)@ == old(out)@ + spec_be_bytes(w),
{
    out.push(word_byte(w, 3));
    out.push(word_byte(w, 2));
    out.push(word_byte(w, 1));
    out.push(word_byte(w, 0));
    proof {
        assert(out@ =~= old(out)@ + spec_be_bytes(w));
    }
}

fn read_be_word(b: &Vec<u8>, start: usize) -> (w: u32)
    requires
        start + 4 <= b@.len(),
    ensures
        w == spec_word_of_be(
            b@[start as int],
            b@[start + 1],
            b@[start + 2],
            b@[start + 3],
        ),
{
    let _len = b.len();
    b[start + 3] as u32 + 256 * (b[start + 2] as u32) + 65536 * (b[start + 1] as u32) + 16777216
        * (b[start] as u32)
}

/// Encode a request for the wire.
pub fn encode_request(r: &WishboneRequest) -> (v: Vec<u8>)
    ensures
        v@ == spec_encode_request(*r),
{
    let mut v: Vec<u8> = Vec::new();
    match r {
        WishboneRequest::Read { address } => {
            v.push(OP_READ);
            push_be_word(&mut v, *address);
            proof {
                assert(v@ =~= spec_encode_request(*r));
            }
        },
        WishboneRequest::Write { address, value } => {
            v.push(OP_WRITE);
            push_be_word(&mut v, *address);
            push_be_word(&mut v, *value);
            proof {
                assert(v@ =~= spec_encode_request(*r));
            }
        },
    }
    v
}

/// Decode a request from the wire.
pub fn decode_request(b: &Vec<u8>) -> (r: Option<WishboneRequest>)
    ensures
        r == spec_decode_request(b@),
{
    if b.len() == 5 && b[0] == OP_READ {
        Some(WishboneRequest::Read { address: read_be_word(b, 1) })
    } else if b.len() == 9 && b[0] == OP_WRITE {
        Some(
            WishboneRequest::Write { address: read_be_word(b, 1), value: read_be_word(b, 5) },
        )
    } else {
        None
    }
}

/// Encode a response for the wire.
pub fn encode_response(r: &WishboneResponse) -> (v: Vec<u8>)
    ensures
        v@ == spec_encode_response(*r),
{
    let mut v: Vec<u8> = Vec::new();
    match r {
        WishboneResponse::ReadOk { value } => {
            v.push(0);
            push_be_word(&mut v, *value);
            proof {
                assert(v@ =~= spec_encode_response(*r));
            }
        },
        WishboneResponse::WriteOk => {
            v.push(0);
            proof {
                assert(v@ =~= spec_encode_response(*r));
            }
        },
        WishboneResponse::Failed => {
            v.push(1);
            proof {
                assert(v@ =~= spec_encode_response(*r));
            }
        },
    }
    v
}

/// Decode a response from the wire.
pub fn decode_response(b: &Vec<u8>) -> (r: Option<WishboneResponse>)
    ensures
        r == spec_decode_response(b@),
{
    if b.len() == 5 && b[0] == 0 {
        Some(WishboneResponse::ReadOk { value: read_be_word(b, 1) })
    } else if b.len() == 1 && b[0] == 0 {
        Some(WishboneResponse::WriteOk)
    } else if b.len() == 1 && b[0] == 1 {
        Some(WishboneResponse::Failed)
    } else {
        None
    }
}

/// Law: decoding an encoded request yields the request back, for every
/// request.
pub proof fn lemma_request_round_trip(r: WishboneRequest)
    ensures
        spec_decode_request(spec_encode_request(r)) == Some(r),
{
    match r {
        WishboneRequest::Read { address } => {
            lemma_word_of_be_bytes(address);
        },
        WishboneRequest::Write { address, value } => {
            lemma_word_of_be_bytes(address);
            lemma_word_of_be_bytes(value);
            let b = spec_encode_request(r);
            assert(b[1] == spec_word_byte(address, 3) && b[2] == spec_word_byte(address, 2) && b[3]
                == spec_word_byte(address, 1) && b[4] == spec_word_byte(address, 0));
            assert(b[5] == spec_word_byte(value, 3) && b[6] == spec_word_byte(value, 2) && b[7]
                == spec_word_byte(value, 1) && b[8] == spec_word_byte(value, 0));
        },
    }
}

/// Law: decoding an encoded response yields the response back, for every
/// response.
pub proof fn lemma_response_round_trip(r: WishboneResponse)
    ensures
        spec_decode_response(spec_encode_response(r)) == Some(r),
{
    match r {
        WishboneResponse::ReadOk { value } => {
            lemma_word_of_be_bytes(value);
        },
        _ => {},
    }
}

/// Carry out one request on the bus and build the response: a failure of
/// the bus degrades to a failure response, never to a dropped connection.
pub fn handle_request<B: DebugBus>(bus: &mut B, r: &WishboneRequest) -> (resp: WishboneResponse)
    ensures
        *r is Read ==> resp is ReadOk || resp is Failed,
        *r is Write ==> resp is WriteOk || resp is Failed,
{
    match r {
        WishboneRequest::Read { address } => {
            match bus.read_word(*address) {
                Ok(w) => WishboneResponse::ReadOk { value: w },
                Err(_) => WishboneResponse::Failed,
            }
        },
        WishboneRequest::Write { address, value } => {
            match bus.write_word(*address, *value) {
                Ok(_) => WishboneResponse::WriteOk,
                Err(_) => WishboneResponse::Failed,
            }
        },
    }
}

} // verus!
