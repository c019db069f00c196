//! Framing of messages on the socket: a four-byte big-endian length, then
//! the body.

use vstd::prelude::*;

verus! {

/// The four big-endian bytes of `n`.
pub open spec fn be_bytes(n: u32) -> Seq<u8> {
    seq![(n >> 24u32) as u8, ((n >> 16u32) & 0xffu32) as u8, ((n >> 8u32) & 0xffu32) as u8, (n & 0xffu32) as u8]
}

/// The number whose big-endian bytes are `b0 b1 b2 b3`.
pub open spec fn be_value(b0: u8, b1: u8, b2: u8, b3: u8) -> u32 {
    ((b0 as u32) << 24u32) | ((b1 as u32) << 16u32) | ((b2 as u32) << 8u32) | (b3 as u32)
}

/// The frame of `body`: its length, taken modulo 2^32 as the header's
/// 32 bits hold it, then the body itself.
pub open spec fn frame(body: Seq<u8>) -> Seq<u8> {
    be_bytes((body.len() % 0x1_0000_0000) as u32) + body
}

/// The frame that carries `body` on the socket.
pub fn encode_frame(body: &[u8]) -> (r: Vec<u8>)
    ensures
        r@ == frame(body@),
{
    let len: usize = body.len();
    let n: u32 = len as u32;
    assert((len as u64) % 0x1_0000_0000u64 == n as u64) by (bit_vector)
        requires
            n == len as u32,
    ;
    let mut r: Vec<u8> = Vec::new();
    r.push((n >> 24u32) as u8);
    r.push(((n >> 16u32) & 0xffu32) as u8);
    r.push(((n >> 8u32) & 0xffu32) as u8);
    r.push((n & 0xffu32) as u8);
    let mut i: usize = 0;
    while i < body.len()
        invariant
            i <= body.len(),
            r@ == be_bytes(n) + body@.take(i as int),
        decreases body.len() - i,
    {
        r.push(body[i]);
        assert(body@.take(i + 1) =~= body@.take(i as int).push(body@[i as int]));
        i = i + 1;
    }
    assert(body@.take(body.len() as int) =~= body@);
    r
}

/// The body length that a frame header announces.
pub fn body_length(header: [u8; 4]) -> (n: u32)
    ensures
        n == be_value(header@[0], header@[1], header@[2], header@[3]),
{
    ((header[0] as u32) << 24u32) | ((header[1] as u32) << 16u32) | ((header[2] as u32) << 8u32)
        | (header[3] as u32)
}

/// Reading a frame gives back what was framed: the header of the frame of
/// a body shorter than 2^32 bytes announces the body's length, and the
/// bytes after the header are the body.
pub proof fn lemma_frame_roundtrip(body: Seq<u8>)
    requires
        body.len() < 0x1_0000_0000,
    ensures
        frame(body).len() == body.len() + 4,
        be_value(frame(body)[0], frame(body)[1], frame(body)[2], frame(body)[3]) == body.len(),
        frame(body).skip(4) == body,
{
    let n = (body.len() % 0x1_0000_0000) as u32;
    assert(n == body.len());
    assert(be_value(
        (n >> 24u32) as u8,
        ((n >> 16u32) & 0xffu32) as u8,
        ((n >> 8u32) & 0xffu32) as u8,
        (n & 0xffu32) as u8,
    ) == n) by (bit_vector);
    assert(frame(body).skip(4) =~= body);
}

} // verus!
