//! Wire format for application messages.
//!
//! A message is framed as: origin peer identity (8 bytes big-endian), the
//! originator's sequence number (8 bytes big-endian), the topic length
//! (8 bytes big-endian), the topic bytes, then the payload bytes to the end
//! of the frame.

use vstd::prelude::*;

verus! {

/// An application-level chat message: a payload of bytes tagged with a topic,
/// together with its provenance (originating peer) and the deduplication key
/// component assigned by the originator (a monotonically increasing sequence
/// number).
pub struct Message {
    pub origin: u64,
    pub seq: u64,
    pub topic: Vec<u8>,
    pub data: Vec<u8>,
}

/// Mathematical model of a [`Message`].
pub ghost struct MsgView {
    pub origin: u64,
    pub seq: u64,
    pub topic: Seq<u8>,
    pub data: Seq<u8>,
}

impl View for Message {
    type V = MsgView;

    open spec fn view(&self) -> MsgView {
        MsgView { origin: self.origin, seq: self.seq, topic: self.topic@, data: self.data@ }
    }
}

/// The eight big-endian bytes of a 64-bit integer.
pub open spec fn u64_be(x: u64) -> Seq<u8> {
    seq![
        ((x >> 56) & 0xff) as u8,
        ((x >> 48) & 0xff) as u8,
        ((x >> 40) & 0xff) as u8,
        ((x >> 32) & 0xff) as u8,
        ((x >> 24) & 0xff) as u8,
        ((x >> 16) & 0xff) as u8,
        ((x >> 8) & 0xff) as u8,
        (x & 0xff) as u8,
    ]
}

/// The 64-bit integer read from eight big-endian bytes.
pub open spec fn u64_from_be(s: Seq<u8>) -> u64
    recommends
        s.len() == 8,
{
    ((s[0] as u64) << 56) | ((s[1] as u64) << 48) | ((s[2] as u64) << 40) | ((s[3] as u64) << 32)
        | ((s[4] as u64) << 24) | ((s[5] as u64) << 16) | ((s[6] as u64) << 8) | (s[7] as u64)
}

/// Reading back the eight big-endian bytes of an integer yields the integer.
pub proof fn lemma_u64_be_roundtrip(x: u64)
    ensures
        u64_from_be(u64_be(x)) == x,
{
    assert((((((x >> 56) & 0xff) as u8) as u64) << 56) | (((((x >> 48) & 0xff) as u8) as u64)
        << 48) | (((((x >> 40) & 0xff) as u8) as u64) << 40) | (((((x >> 32) & 0xff) as u8) as u64)
        << 32) | (((((x >> 24) & 0xff) as u8) as u64) << 24) | (((((x >> 16) & 0xff) as u8) as u64)
        << 16) | (((((x >> 8) & 0xff) as u8) as u64) << 8) | (((x & 0xff) as u8) as u64) == x)
        by (bit_vector);
}

/// The encoding of a message: both fixed-width header fields and the
/// variable-length topic and payload, in frame order.
pub open spec fn encode_spec(m: MsgView) -> Seq<u8> {
    u64_be(m.origin) + u64_be(m.seq) + u64_be(m.topic.len() as u64) + m.topic + m.data
}

/// The decoding of a frame: `None` exactly when the frame is malformed (too
/// short for the header, or a topic length running past the end).
pub open spec fn decode_spec(b: Seq<u8>) -> Option<MsgView> {
    if b.len() < 24 {
        None
    } else {
        let tlen = u64_from_be(b.subrange(16, 24)) as int;
        if b.len() - 24 < tlen {
            None
        } else {
            Some(
                MsgView {
                    origin: u64_from_be(b.subrange(0, 8)),
                    seq: u64_from_be(b.subrange(8, 16)),
                    topic: b.subrange(24, 24 + tlen),
                    data: b.subrange(24 + tlen, b.len() as int),
                },
            )
        }
    }
}

/// Round trip: decoding the encoding of any message whose topic length fits
/// the length field yields that message, byte-identical payload included.
pub proof fn lemma_encode_decode_roundtrip(m: MsgView)
    requires
        m.topic.len() <= u64::MAX,
    ensures
        decode_spec(encode_spec(m)) == Some(m),
{
    let b = encode_spec(m);
    let tlen = m.topic.len() as u64;
    assert(b.len() == 24 + m.topic.len() + m.data.len());
    assert(b.subrange(0, 8) =~= u64_be(m.origin));
    assert(b.subrange(8, 16) =~= u64_be(m.seq));
    assert(b.subrange(16, 24) =~= u64_be(tlen));
    lemma_u64_be_roundtrip(m.origin);
    lemma_u64_be_roundtrip(m.seq);
    lemma_u64_be_roundtrip(tlen);
    assert(b.subrange(24, 24 + tlen as int) =~= m.topic);
    assert(b.subrange(24 + tlen as int, b.len() as int) =~= m.data);
}

/// Appends the eight big-endian bytes of `x` to `out`.
fn push_u64_be(out: &mut Vec<u8>, x: u64)
    ensures
        final(out)@ == old(out)@ + u64_be(x),
{
    out.push(((x >> 56) & 0xff) as u8);
    out.push(((x >> 48) & 0xff) as u8);
    out.push(((x >> 40) & 0xff) as u8);
    out.push(((x >> 32) & 0xff) as u8);
    out.push(((x >> 24) & 0xff) as u8);
    out.push(((x >> 16) & 0xff) as u8);
    out.push(((x >> 8) & 0xff) as u8);
    out.push((x & 0xff) as u8);
    assert(out@ =~= old(out)@ + u64_be(x));
}

/// Appends every byte of `src` to `out`.
fn push_bytes(out: &mut Vec<u8>, src: &Vec<u8>)
    ensures
        final(out)@ == old(out)@ + src@,
{
    let mut i: usize = 0;
    while i < src.len()
        invariant
            i <= src.len(),
            out@ == old(out)@ + src@.take(i as int),
        decreases src.len() - i,
    {
        out.push(src[i]);
        assert(old(out)@ + src@.take(i as int + 1) =~= (old(out)@ + src@.take(i as int)).push(
            src@[i as int],
        ));
        i = i + 1;
    }
    assert(src@.take(src@.len() as int) =~= src@);
}

/// Reads the 64-bit big-endian integer at offset `off` of `b`.
fn read_u64_be(b: &Vec<u8>, off: usize) -> (r: u64)
    requires
        off + 8 <= b@.len(),
    ensures
        r == u64_from_be(b@.subrange(off as int, off as int + 8)),
{
    let n = b.len();
    assert(off + 8 <= n);
    let r = ((b[off] as u64) << 56) | ((b[off + 1] as u64) << 48) | ((b[off + 2] as u64) << 40) | (
    (b[off + 3] as u64) << 32) | ((b[off + 4] as u64) << 24) | ((b[off + 5] as u64) << 16) | ((b[off
        + 6] as u64) << 8) | (b[off + 7] as u64);
    proof {
        let s = b@.subrange(off as int, off as int + 8);
        assert(s[0] == b@[off as int]);
        assert(s[1] == b@[off as int + 1]);
        assert(s[2] == b@[off as int + 2]);
        assert(s[3] == b@[off as int + 3]);
        assert(s[4] == b@[off as int + 4]);
        assert(s[5] == b@[off as int + 5]);
        assert(s[6] == b@[off as int + 6]);
        assert(s[7] == b@[off as int + 7]);
    }
    r
}

/// Copies the bytes of `b` from `start` (inclusive) to `end` (exclusive) into
/// a fresh vector.
pub(crate) fn copy_range(b: &Vec<u8>, start: usize, end: usize) -> (r: Vec<u8>)
    requires
        start <= end <= b@.len(),
    ensures
        r@ == b@.subrange(start as int, end as int),
{
    let mut r: Vec<u8> = Vec::new();
    let mut i: usize = start;
    while i < end
        invariant
            start <= i <= end <= b@.len(),
            r@ == b@.subrange(start as int, i as int),
        decreases end - i,
    {
        r.push(b[i]);
        assert(b@.subrange(start as int, i as int + 1) =~= b@.subrange(start as int, i as int).push(
            b@[i as int],
        ));
        i = i + 1;
    }
    r
}

/// Encodes a message into one wire frame.
pub fn encode(m: &Message) -> (r: Vec<u8>)
    ensures
        r@ == encode_spec(m@),
{
    let mut out: Vec<u8> = Vec::new();
    push_u64_be(&mut out, m.origin);
    push_u64_be(&mut out, m.seq);
    push_u64_be(&mut out, m.topic.len() as u64);
    push_bytes(&mut out, &m.topic);
    push_bytes(&mut out, &m.data);
    assert(out@ =~= encode_spec(m@));
    out
}

/// Decodes one wire frame; `None` exactly on malformed input.
pub fn decode(b: &Vec<u8>) -> (r: Option<Message>)
    ensures
        match r {
            Some(m) => decode_spec(b@) == Some(m@),
            None => decode_spec(b@) is None,
        },
{
    if b.len() < 24 {
        return None;
    }
    let origin = read_u64_be(b, 0);
    let seq = read_u64_be(b, 8);
    let tlen = read_u64_be(b, 16);
    if tlen > (b.len() - 24) as u64 {
        return None;
    }
    let tlen_us = tlen as usize;
    let topic = copy_range(b, 24, 24 + tlen_us);
    let data = copy_range(b, 24 + tlen_us, b.len());
    Some(Message { origin, seq, topic, data })
}

} // verus!
