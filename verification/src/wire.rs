//! Requests and responses between a host and its workers.
//!
//! A request is a command byte, the first and the last layer, the number of positions that are
//! already cached, and a reserved number, in four bytes each, then the length of the payload in
//! eight bytes, then the payload. A response is the length of its payload in eight bytes, then
//! the payload. Numbers are written least significant byte first.
use vstd::prelude::*;

use crate::le::{
    byte_range_values, le_bytes, le_bytes_len, le_bytes_of_value, le_value, le_value_of_bytes,
    push_le, read_le,
};

verus! {

/// Run layers on the hidden states in the payload.
pub const CMD_COMPUTE: u8 = 0x00;

/// Forget what is cached of earlier positions.
pub const CMD_RESET: u8 = 0x01;

/// Bytes of a request before its payload.
pub const HEADER_LEN: usize = 25;

/// What a request says before its payload.
#[derive(Debug, Clone, Copy, PartialEq, Eq, Structural)]
pub struct RequestHeader {
    pub cmd: u8,
    pub layer_start: u32,
    pub layer_end: u32,
    pub past_kv: u32,
    pub payload_len: u64,
}

/// The layers and positions that a request names, in sixteen bytes.
pub open spec fn range_bytes(layer_start: u32, layer_end: u32, past_kv: u32) -> Seq<u8> {
    le_bytes(layer_start as nat, 4) + le_bytes(layer_end as nat, 4) + le_bytes(past_kv as nat, 4)
        + le_bytes(0, 4)
}

/// A header as bytes.
pub open spec fn header_bytes(h: RequestHeader) -> Seq<u8> {
    seq![h.cmd] + range_bytes(h.layer_start, h.layer_end, h.past_kv) + le_bytes(
        h.payload_len as nat,
        8,
    )
}

/// A request as bytes.
pub open spec fn request_bytes(
    cmd: u8,
    layer_start: u32,
    layer_end: u32,
    past_kv: u32,
    payload: Seq<u8>,
) -> Seq<u8> {
    header_bytes(
        RequestHeader {
            cmd,
            layer_start,
            layer_end,
            past_kv,
            payload_len: payload.len() as u64,
        },
    ) + payload
}

/// A response as bytes.
pub open spec fn response_bytes(payload: Seq<u8>) -> Seq<u8> {
    le_bytes(payload.len(), 8) + payload
}

/// The first and the last layer and the number of cached positions that sixteen bytes name.
pub open spec fn read_range(bytes: Seq<u8>) -> (u32, u32, u32) {
    (
        le_value(bytes.subrange(0, 4)) as u32,
        le_value(bytes.subrange(4, 8)) as u32,
        le_value(bytes.subrange(8, 12)) as u32,
    )
}

/// Writes a header as bytes.
pub fn encode_header(h: &RequestHeader) -> (r: Vec<u8>)
    ensures
        r@ == header_bytes(*h),
        r@.len() == HEADER_LEN,
{
    let mut buf: Vec<u8> = Vec::new();
    buf.push(h.cmd);
    push_le(&mut buf, h.layer_start as u64, 4);
    push_le(&mut buf, h.layer_end as u64, 4);
    push_le(&mut buf, h.past_kv as u64, 4);
    push_le(&mut buf, 0, 4);
    push_le(&mut buf, h.payload_len, 8);
    proof {
        assert(buf@ =~= header_bytes(*h));
        header_len(*h);
    }
    buf
}

/// Reads the layers and positions that a request names.
pub fn decode_range(bytes: &[u8]) -> (r: (u32, u32, u32))
    requires
        bytes@.len() == 16,
    ensures
        r == read_range(bytes@),
{
    let a: u64 = read_le(bytes, 0, 4);
    let b: u64 = read_le(bytes, 4, 4);
    let c: u64 = read_le(bytes, 8, 4);
    proof {
        byte_range_values();
        le_bytes_of_value(bytes@.subrange(0, 4));
        le_bytes_of_value(bytes@.subrange(4, 8));
        le_bytes_of_value(bytes@.subrange(8, 12));
    }
    (a as u32, b as u32, c as u32)
}

/// Writes a length as bytes.
pub fn encode_len(len: usize) -> (r: Vec<u8>)
    ensures
        r@ == le_bytes(len as nat, 8),
        r@.len() == 8,
{
    let mut buf: Vec<u8> = Vec::new();
    push_le(&mut buf, len as u64, 8);
    proof {
        assert(buf@ =~= le_bytes(len as nat, 8));
        le_bytes_len(len as nat, 8);
    }
    buf
}

/// Reads a length. What a `usize` cannot hold loses its high bits.
pub fn decode_len(bytes: &[u8]) -> (r: usize)
    requires
        bytes@.len() == 8,
    ensures
        r == le_value(bytes@) as u64 as usize,
{
    let x: u64 = read_le(bytes, 0, 8);
    assert(bytes@.subrange(0, 8) =~= bytes@);
    x as usize
}

/// A header takes its fixed number of bytes.
pub proof fn header_len(h: RequestHeader)
    ensures
        header_bytes(h).len() == HEADER_LEN,
{
    le_bytes_len(h.layer_start as nat, 4);
    le_bytes_len(h.layer_end as nat, 4);
    le_bytes_len(h.past_kv as nat, 4);
    le_bytes_len(0, 4);
    le_bytes_len(h.payload_len as nat, 8);
}

/// A worker that reads a command byte, sixteen bytes, eight bytes, and as many bytes as these
/// say, has read exactly the request that was written, whatever follows it.
pub proof fn written_request_is_read(
    cmd: u8,
    layer_start: u32,
    layer_end: u32,
    past_kv: u32,
    payload: Seq<u8>,
    rest: Seq<u8>,
)
    requires
        payload.len() <= usize::MAX,
    ensures
        ({
            let bytes = request_bytes(cmd, layer_start, layer_end, past_kv, payload) + rest;
            let len = le_value(bytes.subrange(17, 25)) as u64 as usize;
            &&& bytes[0] == cmd
            &&& read_range(bytes.subrange(1, 17)) == (layer_start, layer_end, past_kv)
            &&& len == payload.len()
            &&& bytes.subrange(25, 25 + len) == payload
            &&& bytes.skip(25 + len) == rest
        }),
{
    let h = RequestHeader {
        cmd,
        layer_start,
        layer_end,
        past_kv,
        payload_len: payload.len() as u64,
    };
    let bytes = request_bytes(cmd, layer_start, layer_end, past_kv, payload) + rest;
    header_len(h);
    le_bytes_len(layer_start as nat, 4);
    le_bytes_len(layer_end as nat, 4);
    le_bytes_len(past_kv as nat, 4);
    le_bytes_len(0, 4);
    le_bytes_len(payload.len(), 8);
    byte_range_values();
    let mid = bytes.subrange(1, 17);
    assert(mid =~= range_bytes(layer_start, layer_end, past_kv));
    assert(mid.subrange(0, 4) =~= le_bytes(layer_start as nat, 4));
    assert(mid.subrange(4, 8) =~= le_bytes(layer_end as nat, 4));
    assert(mid.subrange(8, 12) =~= le_bytes(past_kv as nat, 4));
    assert(bytes.subrange(17, 25) =~= le_bytes(payload.len(), 8));
    le_value_of_bytes(layer_start as nat, 4);
    le_value_of_bytes(layer_end as nat, 4);
    le_value_of_bytes(past_kv as nat, 4);
    le_value_of_bytes(payload.len(), 8);
    let n = payload.len() as int;
    assert(bytes.subrange(25, 25 + n) =~= payload);
    assert(bytes.skip(25 + n) =~= rest);
}

/// A host that reads eight bytes, and as many bytes as these say, has read exactly the response
/// that was written, whatever follows it.
pub proof fn written_response_is_read(payload: Seq<u8>, rest: Seq<u8>)
    requires
        payload.len() <= usize::MAX,
    ensures
        ({
            let bytes = response_bytes(payload) + rest;
            let len = le_value(bytes.subrange(0, 8)) as u64 as usize;
            &&& len == payload.len()
            &&& bytes.subrange(8, 8 + len) == payload
            &&& bytes.skip(8 + len) == rest
        }),
{
    let bytes = response_bytes(payload) + rest;
    le_bytes_len(payload.len(), 8);
    byte_range_values();
    le_value_of_bytes(payload.len(), 8);
    assert(bytes.subrange(0, 8) =~= le_bytes(payload.len(), 8));
    let n = payload.len() as int;
    assert(bytes.subrange(8, 8 + n) =~= payload);
    assert(bytes.skip(8 + n) =~= rest);
}

} // verus!
