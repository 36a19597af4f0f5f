//! Frames of the control-plane protocol: a little-endian length and a body, for transports that are byte
//! streams.
use vstd::prelude::*;

use crate::tunnel::wire;
use crate::tunnel::wire::{get32_le, put, put32_le};

verus! {

/// The longest frame body. It bounds what a peer can make the other side allocate.
pub const MAX_FRAME_LEN: usize = 0x10_0000;

/// The length of a frame's header.
pub const FRAME_HEADER_LEN: usize = 4;

/// Errors of messages and frames.
#[derive(Debug, Clone, Copy, PartialEq, Eq, Structural)]
pub enum IpcError {
    /// A message body could not be written or read.
    Codec,
    /// The bytes are a prefix of a frame: read more and try again.
    Incomplete,
    /// The body is longer than a frame may be.
    FrameTooLarge {
        /// Its length.
        len: usize,
        /// The longest.
        max: usize,
    },
}

/// The frame of a body.
pub open spec fn frame_of(body: Seq<u8>) -> Seq<u8> {
    wire::le32(body.len() as u32) + body
}

/// The frame at the front of `buf`: the body and the length of the frame.
pub open spec fn framed(buf: Seq<u8>) -> Result<(Seq<u8>, int), IpcError> {
    if buf.len() < FRAME_HEADER_LEN {
        Err(IpcError::Incomplete)
    } else {
        let len = wire::le32_at(buf, 0) as int;
        if len > MAX_FRAME_LEN {
            Err(IpcError::FrameTooLarge { len: len as usize, max: MAX_FRAME_LEN })
        } else if FRAME_HEADER_LEN + len > buf.len() {
            Err(IpcError::Incomplete)
        } else {
            Ok((buf.subrange(4, 4 + len), 4 + len))
        }
    }
}

/// The body length that a frame header announces.
pub fn frame_len(header: &[u8; 4]) -> (r: Result<usize, IpcError>)
    ensures
        match r {
            Ok(n) => n == wire::le32_at(header@, 0) && n <= MAX_FRAME_LEN,
            Err(e) => e == (IpcError::FrameTooLarge {
                len: wire::le32_at(header@, 0) as usize,
                max: MAX_FRAME_LEN,
            }) && wire::le32_at(header@, 0) > MAX_FRAME_LEN,
        },
{
    let len: usize = get32_le(header.as_slice(), 0) as usize;
    if len > MAX_FRAME_LEN {
        Err(IpcError::FrameTooLarge { len, max: MAX_FRAME_LEN })
    } else {
        Ok(len)
    }
}

/// Frames a message body.
pub fn encode_frame(body: &[u8]) -> (r: Result<Vec<u8>, IpcError>)
    ensures
        match r {
            Ok(f) => f@ == frame_of(body@) && body@.len() <= MAX_FRAME_LEN,
            Err(e) => e == (IpcError::FrameTooLarge {
                len: body@.len() as usize,
                max: MAX_FRAME_LEN,
            }) && body@.len() > MAX_FRAME_LEN,
        },
{
    if body.len() > MAX_FRAME_LEN {
        return Err(IpcError::FrameTooLarge { len: body.len(), max: MAX_FRAME_LEN });
    }
    let mut out: Vec<u8> = Vec::new();
    put32_le(&mut out, body.len() as u32);
    put(&mut out, body);
    assert(out@ =~= frame_of(body@));
    Ok(out)
}

/// Takes the frame at the front of `buf`: its body, and how many bytes it takes, so that the next frame
/// can be found. Nothing is read of a body that is too long.
pub fn decode_frame<'a>(buf: &'a [u8]) -> (r: Result<(&'a [u8], usize), IpcError>)
    ensures
        match r {
            Ok((body, n)) => framed(buf@) == Ok::<(Seq<u8>, int), IpcError>((body@, n as int)),
            Err(e) => framed(buf@) == Err::<(Seq<u8>, int), IpcError>(e),
        },
{
    if buf.len() < FRAME_HEADER_LEN {
        return Err(IpcError::Incomplete);
    }
    let len: usize = get32_le(buf, 0) as usize;
    if len > MAX_FRAME_LEN {
        return Err(IpcError::FrameTooLarge { len, max: MAX_FRAME_LEN });
    }
    if len > buf.len() - FRAME_HEADER_LEN {
        return Err(IpcError::Incomplete);
    }
    let end: usize = FRAME_HEADER_LEN + len;
    Ok((vstd::slice::slice_subrange(buf, FRAME_HEADER_LEN, end), end))
}

/// A frame comes back as its body, whatever follows it, and the rest begins right behind it.
pub proof fn lemma_frame_round_trip(body: Seq<u8>, rest: Seq<u8>)
    requires
        body.len() <= MAX_FRAME_LEN,
    ensures
        framed(frame_of(body) + rest) == Ok::<(Seq<u8>, int), IpcError>(
            (body, frame_of(body).len() as int),
        ),
        (frame_of(body) + rest).skip(frame_of(body).len() as int) == rest,
{
    let buf = frame_of(body) + rest;
    let len = body.len() as u32;
    assert(buf.subrange(0, 4) =~= wire::le32(len));
    wire::lemma_le32_round_trip(buf, 0, len);
    assert(buf.subrange(4, 4 + body.len() as int) =~= body);
    assert(buf.skip(frame_of(body).len() as int) =~= rest);
}

/// Every proper prefix of a frame is incomplete.
pub proof fn lemma_prefix_is_incomplete(body: Seq<u8>, n: int)
    requires
        body.len() <= MAX_FRAME_LEN,
        0 <= n < frame_of(body).len(),
    ensures
        framed(frame_of(body).take(n)) == Err::<(Seq<u8>, int), IpcError>(IpcError::Incomplete),
{
    let buf = frame_of(body).take(n);
    let len = body.len() as u32;
    if n >= 4 {
        assert(buf.subrange(0, 4) =~= wire::le32(len));
        wire::lemma_le32_round_trip(buf, 0, len);
    }
}

/// A frame is the body behind its length, low byte first; a body of more than 1048576 bytes is refused
/// by its header alone, whatever follows.
pub proof fn lemma_frame_layout(body: Seq<u8>, header: Seq<u8>, rest: Seq<u8>)
    requires
        body.len() <= 0x10_0000,
        header.len() == 4,
    ensures
        frame_of(body).len() == 4 + body.len(),
        frame_of(body)[0] + frame_of(body)[1] * 256 + frame_of(body)[2] * 0x1_0000 + frame_of(
            body,
        )[3] * 0x100_0000 == body.len(),
        frame_of(body).skip(4) == body,
        ({
            let n = header[0] + header[1] * 256 + header[2] * 0x1_0000 + header[3] * 0x100_0000;
            &&& framed(header + rest) matches Err(IpcError::FrameTooLarge { len, max }) ==> n
                > 0x10_0000 && len == n && max == 0x10_0000
            &&& n > 0x10_0000 ==> framed(header + rest) is Err && !(framed(header + rest)
                == Err::<(Seq<u8>, int), IpcError>(IpcError::Incomplete))
            &&& n <= 0x10_0000 ==> (framed(header + rest) is Ok <==> rest.len() >= n)
        }),
{
    let f = frame_of(body);
    let len = body.len() as u32;
    assert(f.skip(4) =~= body);
    assert(f[0] == wire::le32(len)[0] && f[1] == wire::le32(len)[1] && f[2] == wire::le32(len)[2]
        && f[3] == wire::le32(len)[3]);
    let buf = header + rest;
    assert(buf[0] == header[0] && buf[1] == header[1] && buf[2] == header[2] && buf[3]
        == header[3]);
}

} // verus!
