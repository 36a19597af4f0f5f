//! The binary frame of the tunnel: the inner header and payload, and the packets on the wire.
//!
//! Three forms of packet are told apart by their first byte. Data is sealed; the two handshake packets
//! are in the clear, because no key is shared before the ephemeral keys meet.
//!
//! ```text
//! Data:    FORM_SHORT(1)  | connection id(8) | nonce(12) | sealed inner frame
//! Syn:     FORM_SYN(1)    | connection id(8) | client ephemeral key(32)
//! SynAck:  FORM_SYNACK(1) | connection id(8) | server ephemeral key(32) | Ed25519 signature(64)
//!
//! inner frame: version(1) kind(1) flags(1)
//!              [FLAG_STREAM] stream id(2) [FLAG_SEQ] sequence number(4)
//!              [FLAG_FRAGMENT] index(1) count(1) [FLAG_COMPRESSED] algorithm(1) payload
//! ```
use vstd::prelude::*;
use vstd::slice::slice_subrange;

use crate::tunnel::crypto::{
    array_of, Aead, Cipher, CryptoError, CONN_ID_LEN, ED25519_SIG_LEN, NONCE_LEN, TAG_LEN,
    X25519_PUB_LEN,
};
use crate::tunnel::wire::{get16, get32, put, put16, put32};

verus! {

broadcast use vstd::slice::group_slice_axioms;

/// Current protocol version.
pub const VERSION: u8 = 1;

/// Packet form: sealed data.
pub const FORM_SHORT: u8 = 0x00;

/// Packet form: the client's handshake.
pub const FORM_SYN: u8 = 0x01;

/// Packet form: the server's handshake.
pub const FORM_SYNACK: u8 = 0x02;

/// The stream id is present.
pub const FLAG_STREAM: u8 = 1;

/// The sequence number is present.
pub const FLAG_SEQ: u8 = 2;

/// The fragment index and count are present.
pub const FLAG_FRAGMENT: u8 = 4;

/// The compression algorithm is present.
pub const FLAG_COMPRESSED: u8 = 8;

/// Packet kind.
#[derive(Debug, Clone, Copy, PartialEq, Eq, Structural)]
pub enum Kind {
    /// Session open.
    Syn,
    /// Session open acknowledgement.
    SynAck,
    /// Stream data (carries a sequence number).
    Data,
    /// Cumulative acknowledgement (carries the next expected sequence number).
    Ack,
    /// Selective negative acknowledgement (carries the first missing sequence number).
    Nack,
    /// Stream half-close.
    Fin,
    /// Abrupt reset.
    Rst,
    /// Idle poll, which lets the server answer with pending data.
    KeepAlive,
    /// MTU probe (client to server): direction(1) and target(2).
    MtuProbe,
    /// MTU probe response (server to client): the probe's payload, padded.
    MtuProbeResp,
    /// Sets the server's downlink segment size (client to server): size(2).
    SetMtu,
}

/// The byte that stands for a kind.
pub open spec fn kind_byte(k: Kind) -> u8 {
    match k {
        Kind::Syn => 1,
        Kind::SynAck => 2,
        Kind::Data => 3,
        Kind::Ack => 4,
        Kind::Nack => 5,
        Kind::Fin => 6,
        Kind::Rst => 7,
        Kind::KeepAlive => 8,
        Kind::MtuProbe => 9,
        Kind::MtuProbeResp => 10,
        Kind::SetMtu => 11,
    }
}

/// The kind that a byte stands for.
pub open spec fn kind_of(v: u8) -> Option<Kind> {
    match v {
        1 => Some(Kind::Syn),
        2 => Some(Kind::SynAck),
        3 => Some(Kind::Data),
        4 => Some(Kind::Ack),
        5 => Some(Kind::Nack),
        6 => Some(Kind::Fin),
        7 => Some(Kind::Rst),
        8 => Some(Kind::KeepAlive),
        9 => Some(Kind::MtuProbe),
        10 => Some(Kind::MtuProbeResp),
        11 => Some(Kind::SetMtu),
        _ => None,
    }
}

impl Kind {
    /// The byte that stands for this kind.
    pub fn to_u8(self) -> (v: u8)
        ensures
            v == kind_byte(self),
            kind_of(v) == Some(self),
    {
        match self {
            Kind::Syn => 1,
            Kind::SynAck => 2,
            Kind::Data => 3,
            Kind::Ack => 4,
            Kind::Nack => 5,
            Kind::Fin => 6,
            Kind::Rst => 7,
            Kind::KeepAlive => 8,
            Kind::MtuProbe => 9,
            Kind::MtuProbeResp => 10,
            Kind::SetMtu => 11,
        }
    }

    /// The kind that a byte stands for.
    pub fn from_u8(v: u8) -> (k: Option<Kind>)
        ensures
            k == kind_of(v),
            k matches Some(kind) ==> kind_byte(kind) == v,
    {
        match v {
            1 => Some(Kind::Syn),
            2 => Some(Kind::SynAck),
            3 => Some(Kind::Data),
            4 => Some(Kind::Ack),
            5 => Some(Kind::Nack),
            6 => Some(Kind::Fin),
            7 => Some(Kind::Rst),
            8 => Some(Kind::KeepAlive),
            9 => Some(Kind::MtuProbe),
            10 => Some(Kind::MtuProbeResp),
            11 => Some(Kind::SetMtu),
            _ => None,
        }
    }
}

/// Errors from frame (de)serialization.
#[derive(Debug, Clone, Copy, PartialEq, Eq, Structural)]
pub enum FrameError {
    /// The buffer ended before a required field.
    Truncated,
    /// The inner header's version is not [`VERSION`].
    Version(u8),
    /// The kind byte is not known.
    UnknownKind(u8),
    /// An undefined flag bit was set.
    UnknownFlags(u8),
    /// The form byte is not known.
    BadForm(u8),
    /// Opening failed.
    Crypto(CryptoError),
}

/// The inner frame: the header fields and the payload.
#[derive(Debug, PartialEq, Eq)]
pub struct Frame {
    /// Packet kind.
    pub kind: Kind,
    /// Stream id, on frames of a stream.
    pub stream_id: Option<u16>,
    /// Sequence number, acknowledgement or negative acknowledgement.
    pub seq: Option<u32>,
    /// Fragment index and count.
    pub fragment: Option<(u8, u8)>,
    /// Compression algorithm, where the payload is compressed.
    pub comp_algo: Option<u8>,
    /// The payload.
    pub payload: Vec<u8>,
}

/// What a frame holds.
pub struct FrameModel {
    /// Packet kind.
    pub kind: Kind,
    /// Stream id.
    pub stream_id: Option<u16>,
    /// Sequence number.
    pub seq: Option<u32>,
    /// Fragment index and count.
    pub fragment: Option<(u8, u8)>,
    /// Compression algorithm.
    pub comp_algo: Option<u8>,
    /// The payload.
    pub payload: Seq<u8>,
}

impl View for Frame {
    type V = FrameModel;

    open spec fn view(&self) -> FrameModel {
        FrameModel {
            kind: self.kind,
            stream_id: self.stream_id,
            seq: self.seq,
            fragment: self.fragment,
            comp_algo: self.comp_algo,
            payload: self.payload@,
        }
    }
}

impl Clone for Frame {
    fn clone(&self) -> (f: Frame)
        ensures
            f@ == self@,
    {
        Frame {
            kind: self.kind,
            stream_id: self.stream_id,
            seq: self.seq,
            fragment: self.fragment,
            comp_algo: self.comp_algo,
            payload: vstd::slice::slice_to_vec(self.payload.as_slice()),
        }
    }
}

/// The flag byte of a frame.
pub open spec fn flags_of(f: FrameModel) -> u8 {
    ((if f.stream_id is Some { FLAG_STREAM as int } else { 0 }) + (if f.seq is Some {
        FLAG_SEQ as int
    } else {
        0
    }) + (if f.fragment is Some { FLAG_FRAGMENT as int } else { 0 }) + (if f.comp_algo is Some {
        FLAG_COMPRESSED as int
    } else {
        0
    })) as u8
}

/// The optional header fields.
pub open spec fn fields_of(f: FrameModel) -> Seq<u8> {
    (match f.stream_id {
        Some(s) => crate::tunnel::wire::be16(s),
        None => Seq::empty(),
    }) + (match f.seq {
        Some(q) => crate::tunnel::wire::be32(q),
        None => Seq::empty(),
    }) + (match f.fragment {
        Some((i, c)) => seq![i, c],
        None => Seq::empty(),
    }) + (match f.comp_algo {
        Some(a) => seq![a],
        None => Seq::empty(),
    })
}

/// The bytes of a frame.
pub open spec fn encoded(f: FrameModel) -> Seq<u8> {
    seq![VERSION, kind_byte(f.kind), flags_of(f)] + fields_of(f) + f.payload
}

/// Whether a flag byte has the bit of value `bit`.
pub open spec fn has_flag(flags: u8, bit: int) -> bool {
    (flags as int / bit) % 2 == 1
}

/// How many bytes the optional fields take that a flag byte announces.
pub open spec fn fields_len(flags: u8) -> int {
    (if has_flag(flags, 1) { 2int } else { 0 }) + (if has_flag(flags, 2) { 4int } else { 0 }) + (
    if has_flag(flags, 4) { 2int } else { 0 }) + (if has_flag(flags, 8) { 1int } else { 0 })
}

/// What decoding the bytes of a frame gives.
pub open spec fn decoded(buf: Seq<u8>) -> Result<FrameModel, FrameError> {
    if buf.len() < 1 {
        Err(FrameError::Truncated)
    } else if buf[0] != VERSION {
        Err(FrameError::Version(buf[0]))
    } else if buf.len() < 2 {
        Err(FrameError::Truncated)
    } else if kind_of(buf[1]) is None {
        Err(FrameError::UnknownKind(buf[1]))
    } else if buf.len() < 3 {
        Err(FrameError::Truncated)
    } else if buf[2] >= 16 {
        Err(FrameError::UnknownFlags(buf[2]))
    } else if buf.len() < 3 + fields_len(buf[2]) {
        Err(FrameError::Truncated)
    } else {
        let flags = buf[2];
        let at_seq = 3 + (if has_flag(flags, 1) { 2int } else { 0 });
        let at_fragment = at_seq + (if has_flag(flags, 2) { 4int } else { 0 });
        let at_algo = at_fragment + (if has_flag(flags, 4) { 2int } else { 0 });
        Ok(
            FrameModel {
                kind: kind_of(buf[1])->0,
                stream_id: if has_flag(flags, 1) {
                    Some(crate::tunnel::wire::be16_at(buf, 3))
                } else {
                    None
                },
                seq: if has_flag(flags, 2) {
                    Some(crate::tunnel::wire::be32_at(buf, at_seq))
                } else {
                    None
                },
                fragment: if has_flag(flags, 4) {
                    Some((buf[at_fragment], buf[at_fragment + 1]))
                } else {
                    None
                },
                comp_algo: if has_flag(flags, 8) {
                    Some(buf[at_algo])
                } else {
                    None
                },
                payload: buf.subrange(3 + fields_len(flags), buf.len() as int),
            },
        )
    }
}

impl Frame {
    /// A frame of `kind` with no optional fields and no payload.
    pub fn new(kind: Kind) -> (f: Frame)
        ensures
            f@ == (FrameModel {
                kind,
                stream_id: None,
                seq: None,
                fragment: None,
                comp_algo: None,
                payload: Seq::empty(),
            }),
    {
        Frame {
            kind,
            stream_id: None,
            seq: None,
            fragment: None,
            comp_algo: None,
            payload: Vec::new(),
        }
    }

    /// The flag byte of this frame.
    fn flags(&self) -> (flags: u8)
        ensures
            flags == flags_of(self@),
    {
        let mut flags: u8 = 0;
        if self.stream_id.is_some() {
            flags = flags + FLAG_STREAM;
        }
        if self.seq.is_some() {
            flags = flags + FLAG_SEQ;
        }
        if self.fragment.is_some() {
            flags = flags + FLAG_FRAGMENT;
        }
        if self.comp_algo.is_some() {
            flags = flags + FLAG_COMPRESSED;
        }
        flags
    }

    /// Appends the optional header fields.
    fn put_fields(&self, out: &mut Vec<u8>)
        ensures
            final(out)@ == old(out)@ + fields_of(self@),
    {
        let ghost head = out@;
        if let Some(s) = self.stream_id {
            put16(out, s);
        }
        let ghost part1 = match self.stream_id {
            Some(s) => crate::tunnel::wire::be16(s),
            None => Seq::empty(),
        };
        assert(out@ =~= head + part1);
        if let Some(q) = self.seq {
            put32(out, q);
        }
        let ghost part2 = match self.seq {
            Some(q) => crate::tunnel::wire::be32(q),
            None => Seq::empty(),
        };
        assert(out@ =~= head + part1 + part2);
        if let Some((i, c)) = self.fragment {
            out.push(i);
            out.push(c);
        }
        let ghost part3 = match self.fragment {
            Some((i, c)) => seq![i, c],
            None => Seq::empty(),
        };
        assert(out@ =~= head + part1 + part2 + part3);
        if let Some(a) = self.comp_algo {
            out.push(a);
        }
        let ghost part4 = match self.comp_algo {
            Some(a) => seq![a],
            None => Seq::empty(),
        };
        assert(out@ =~= head + part1 + part2 + part3 + part4);
        assert(out@ =~= head + (part1 + part2 + part3 + part4));
    }

    /// The bytes of this frame.
    pub fn encode(&self) -> (out: Vec<u8>)
        ensures
            out@ == encoded(self@),
    {
        let mut out: Vec<u8> = Vec::new();
        out.push(VERSION);
        out.push(self.kind.to_u8());
        out.push(self.flags());
        assert(out@ =~= seq![VERSION, kind_byte(self.kind), flags_of(self@)]);
        self.put_fields(&mut out);
        put(&mut out, self.payload.as_slice());
        out
    }

    /// Parses the bytes of a frame.
    pub fn decode(buf: &[u8]) -> (r: Result<Frame, FrameError>)
        ensures
            match r {
                Ok(f) => decoded(buf@) == Ok::<FrameModel, FrameError>(f@),
                Err(e) => decoded(buf@) == Err::<FrameModel, FrameError>(e),
            },
    {
        let mut cur: Cursor = Cursor::new(buf);
        let version: u8 = match cur.u8() {
            Ok(v) => v,
            Err(e) => {
                return Err(e);
            },
        };
        if version != VERSION {
            return Err(FrameError::Version(version));
        }
        let byte: u8 = match cur.u8() {
            Ok(v) => v,
            Err(e) => {
                return Err(e);
            },
        };
        let kind: Kind = match Kind::from_u8(byte) {
            Some(k) => k,
            None => {
                return Err(FrameError::UnknownKind(byte));
            },
        };
        let flags: u8 = match cur.u8() {
            Ok(v) => v,
            Err(e) => {
                return Err(e);
            },
        };
        if flags >= 16 {
            return Err(FrameError::UnknownFlags(flags));
        }
        let stream_id: Option<u16> = if flags % 2 == 1 {
            match cur.u16() {
                Ok(v) => Some(v),
                Err(e) => {
                    return Err(e);
                },
            }
        } else {
            None
        };
        let seq: Option<u32> = if flags / 2 % 2 == 1 {
            match cur.u32() {
                Ok(v) => Some(v),
                Err(e) => {
                    return Err(e);
                },
            }
        } else {
            None
        };
        let fragment: Option<(u8, u8)> = if flags / 4 % 2 == 1 {
            let i: u8 = match cur.u8() {
                Ok(v) => v,
                Err(e) => {
                    return Err(e);
                },
            };
            match cur.u8() {
                Ok(c) => Some((i, c)),
                Err(e) => {
                    return Err(e);
                },
            }
        } else {
            None
        };
        let comp_algo: Option<u8> = if flags / 8 % 2 == 1 {
            match cur.u8() {
                Ok(v) => Some(v),
                Err(e) => {
                    return Err(e);
                },
            }
        } else {
            None
        };
        let payload: Vec<u8> = vstd::slice::slice_to_vec(cur.rest());
        Ok(Frame { kind, stream_id, seq, fragment, comp_algo, payload })
    }
}

/// A frame decodes from its bytes.
pub proof fn lemma_frame_round_trip(f: FrameModel)
    ensures
        decoded(encoded(f)) == Ok::<FrameModel, FrameError>(f),
{
    let buf = encoded(f);
    let flags = flags_of(f);
    assert(buf[0] == VERSION && buf[1] == kind_byte(f.kind) && buf[2] == flags);
    assert(has_flag(flags, 1) == (f.stream_id is Some));
    assert(has_flag(flags, 2) == (f.seq is Some));
    assert(has_flag(flags, 4) == (f.fragment is Some));
    assert(has_flag(flags, 8) == (f.comp_algo is Some));
    assert(fields_of(f).len() == fields_len(flags));
    let at_seq = 3 + (if has_flag(flags, 1) { 2int } else { 0 });
    let at_fragment = at_seq + (if has_flag(flags, 2) { 4int } else { 0 });
    let at_algo = at_fragment + (if has_flag(flags, 4) { 2int } else { 0 });
    if f.stream_id is Some {
        assert(buf.subrange(3, 5) =~= crate::tunnel::wire::be16(f.stream_id->0));
        crate::tunnel::wire::lemma_be16_round_trip(buf, 3, f.stream_id->0);
    }
    if f.seq is Some {
        assert(buf.subrange(at_seq, at_seq + 4) =~= crate::tunnel::wire::be32(f.seq->0));
        crate::tunnel::wire::lemma_be32_round_trip(buf, at_seq, f.seq->0);
    }
    if f.fragment is Some {
        let (i, c) = f.fragment->0;
        assert(buf[at_fragment] == i && buf[at_fragment + 1] == c);
    }
    if f.comp_algo is Some {
        assert(buf[at_algo] == f.comp_algo->0);
    }
    assert(buf.subrange(3 + fields_len(flags), buf.len() as int) =~= f.payload);
}

/// Bytes that decode to a frame are the bytes of that frame.
pub proof fn lemma_decoded_frame_encodes_back(buf: Seq<u8>)
    requires
        decoded(buf) is Ok,
    ensures
        encoded(decoded(buf)->Ok_0) == buf,
{
    let f = decoded(buf)->Ok_0;
    let flags = buf[2];
    assert(flags_of(f) == flags);
    let at_seq = 3 + (if has_flag(flags, 1) { 2int } else { 0 });
    let at_fragment = at_seq + (if has_flag(flags, 2) { 4int } else { 0 });
    let at_algo = at_fragment + (if has_flag(flags, 4) { 2int } else { 0 });
    if has_flag(flags, 1) {
        crate::tunnel::wire::lemma_be16_of_bytes(buf, 3);
    }
    if has_flag(flags, 2) {
        crate::tunnel::wire::lemma_be32_of_bytes(buf, at_seq);
    }
    assert(seq![VERSION, kind_byte(f.kind), flags_of(f)] =~= buf.subrange(0, 3));
    assert(fields_of(f) =~= buf.subrange(3, 3 + fields_len(flags)));
    assert(encoded(f) =~= buf);
}

/// The length of a frame's bytes.
pub proof fn lemma_encoded_len(f: FrameModel)
    ensures
        encoded(f).len() == 3 + (if f.stream_id is Some { 2int } else { 0 }) + (if f.seq is Some {
            4int
        } else {
            0
        }) + (if f.fragment is Some { 2int } else { 0 }) + (if f.comp_algo is Some {
            1int
        } else {
            0
        }) + f.payload.len(),
{
}

/// A parsed packet: the connection id and what its form carries.
#[derive(Debug, Clone, PartialEq, Eq)]
pub enum Packet<'a> {
    /// The client's handshake.
    Syn {
        /// Connection id.
        conn_id: [u8; CONN_ID_LEN],
        /// The client's ephemeral key.
        client_eph: [u8; X25519_PUB_LEN],
    },
    /// The server's handshake.
    SynAck {
        /// Connection id.
        conn_id: [u8; CONN_ID_LEN],
        /// The server's ephemeral key.
        server_eph: [u8; X25519_PUB_LEN],
        /// Signature over the transcript.
        sig: [u8; ED25519_SIG_LEN],
    },
    /// Sealed data.
    Data {
        /// Connection id.
        conn_id: [u8; CONN_ID_LEN],
        /// Nonce.
        nonce: [u8; NONCE_LEN],
        /// The sealed inner frame: ciphertext and tag.
        ciphertext: &'a [u8],
    },
}

/// What a packet holds.
pub enum PacketModel {
    /// The client's handshake.
    Syn {
        /// Connection id.
        conn_id: Seq<u8>,
        /// The client's ephemeral key.
        client_eph: Seq<u8>,
    },
    /// The server's handshake.
    SynAck {
        /// Connection id.
        conn_id: Seq<u8>,
        /// The server's ephemeral key.
        server_eph: Seq<u8>,
        /// Signature over the transcript.
        sig: Seq<u8>,
    },
    /// Sealed data.
    Data {
        /// Connection id.
        conn_id: Seq<u8>,
        /// Nonce.
        nonce: Seq<u8>,
        /// The sealed inner frame.
        ciphertext: Seq<u8>,
    },
}

impl<'a> View for Packet<'a> {
    type V = PacketModel;

    open spec fn view(&self) -> PacketModel {
        match *self {
            Packet::Syn { conn_id, client_eph } => PacketModel::Syn {
                conn_id: conn_id@,
                client_eph: client_eph@,
            },
            Packet::SynAck { conn_id, server_eph, sig } => PacketModel::SynAck {
                conn_id: conn_id@,
                server_eph: server_eph@,
                sig: sig@,
            },
            Packet::Data { conn_id, nonce, ciphertext } => PacketModel::Data {
                conn_id: conn_id@,
                nonce: nonce@,
                ciphertext: ciphertext@,
            },
        }
    }
}

/// The connection id of a packet.
pub open spec fn packet_conn_id(p: PacketModel) -> Seq<u8> {
    match p {
        PacketModel::Syn { conn_id, .. } => conn_id,
        PacketModel::SynAck { conn_id, .. } => conn_id,
        PacketModel::Data { conn_id, .. } => conn_id,
    }
}

impl<'a> Packet<'a> {
    /// The connection id, whichever form this is.
    pub fn conn_id(&self) -> (id: [u8; CONN_ID_LEN])
        ensures
            id@ == packet_conn_id(self@),
    {
        match self {
            Packet::Syn { conn_id, .. } => *conn_id,
            Packet::SynAck { conn_id, .. } => *conn_id,
            Packet::Data { conn_id, .. } => *conn_id,
        }
    }
}

/// What parsing a packet gives.
pub open spec fn packet_of(buf: Seq<u8>) -> Result<PacketModel, FrameError> {
    let len = buf.len() as int;
    if len < 9 {
        Err(FrameError::Truncated)
    } else {
        let conn_id = buf.subrange(1, 9);
        if buf[0] == FORM_SYN {
            if len < 41 {
                Err(FrameError::Truncated)
            } else {
                Ok(PacketModel::Syn { conn_id, client_eph: buf.subrange(9, 41) })
            }
        } else if buf[0] == FORM_SYNACK {
            if len < 105 {
                Err(FrameError::Truncated)
            } else {
                Ok(
                    PacketModel::SynAck {
                        conn_id,
                        server_eph: buf.subrange(9, 41),
                        sig: buf.subrange(41, 105),
                    },
                )
            }
        } else if buf[0] == FORM_SHORT {
            if len < 21 + TAG_LEN {
                Err(FrameError::Truncated)
            } else {
                Ok(
                    PacketModel::Data {
                        conn_id,
                        nonce: buf.subrange(9, 21),
                        ciphertext: buf.subrange(21, len),
                    },
                )
            }
        } else {
            Err(FrameError::BadForm(buf[0]))
        }
    }
}

/// Parses a packet; no key is needed.
pub fn parse_packet<'a>(buf: &'a [u8]) -> (r: Result<Packet<'a>, FrameError>)
    ensures
        match r {
            Ok(p) => packet_of(buf@) == Ok::<PacketModel, FrameError>(p@),
            Err(e) => packet_of(buf@) == Err::<PacketModel, FrameError>(e),
        },
{
    let mut cur: Cursor = Cursor::new(buf);
    let form: u8 = match cur.u8() {
        Ok(v) => v,
        Err(e) => {
            return Err(e);
        },
    };
    let conn_id: [u8; CONN_ID_LEN] = match cur.array::<CONN_ID_LEN>() {
        Ok(v) => v,
        Err(e) => {
            return Err(e);
        },
    };
    if form == FORM_SYN {
        match cur.array::<X25519_PUB_LEN>() {
            Ok(client_eph) => Ok(Packet::Syn { conn_id, client_eph }),
            Err(e) => Err(e),
        }
    } else if form == FORM_SYNACK {
        let server_eph: [u8; X25519_PUB_LEN] = match cur.array::<X25519_PUB_LEN>() {
            Ok(v) => v,
            Err(e) => {
                return Err(e);
            },
        };
        match cur.array::<ED25519_SIG_LEN>() {
            Ok(sig) => Ok(Packet::SynAck { conn_id, server_eph, sig }),
            Err(e) => Err(e),
        }
    } else if form == FORM_SHORT {
        let nonce: [u8; NONCE_LEN] = match cur.array::<NONCE_LEN>() {
            Ok(v) => v,
            Err(e) => {
                return Err(e);
            },
        };
        let ciphertext: &'a [u8] = cur.rest();
        if ciphertext.len() < TAG_LEN {
            return Err(FrameError::Truncated);
        }
        Ok(Packet::Data { conn_id, nonce, ciphertext })
    } else {
        Err(FrameError::BadForm(form))
    }
}

/// The bytes of a client handshake.
pub open spec fn syn_bytes(conn_id: Seq<u8>, client_eph: Seq<u8>) -> Seq<u8> {
    seq![FORM_SYN] + conn_id + client_eph
}

/// The bytes of a server handshake.
pub open spec fn synack_bytes(conn_id: Seq<u8>, server_eph: Seq<u8>, sig: Seq<u8>) -> Seq<u8> {
    seq![FORM_SYNACK] + conn_id + server_eph + sig
}

/// The bytes of a data packet.
pub open spec fn data_bytes(conn_id: Seq<u8>, nonce: Seq<u8>, ciphertext: Seq<u8>) -> Seq<u8> {
    seq![FORM_SHORT] + conn_id + nonce + ciphertext
}

/// A client handshake parses back.
pub proof fn lemma_syn_round_trip(conn_id: Seq<u8>, client_eph: Seq<u8>)
    requires
        conn_id.len() == CONN_ID_LEN,
        client_eph.len() == X25519_PUB_LEN,
    ensures
        packet_of(syn_bytes(conn_id, client_eph)) == Ok::<PacketModel, FrameError>(
            (PacketModel::Syn { conn_id, client_eph }),
        ),
{
    let buf = syn_bytes(conn_id, client_eph);
    assert(buf.subrange(1, 9) =~= conn_id);
    assert(buf.subrange(9, 41) =~= client_eph);
}

/// A server handshake parses back.
pub proof fn lemma_synack_round_trip(conn_id: Seq<u8>, server_eph: Seq<u8>, sig: Seq<u8>)
    requires
        conn_id.len() == CONN_ID_LEN,
        server_eph.len() == X25519_PUB_LEN,
        sig.len() == ED25519_SIG_LEN,
    ensures
        packet_of(synack_bytes(conn_id, server_eph, sig)) == Ok::<PacketModel, FrameError>(
            (PacketModel::SynAck { conn_id, server_eph, sig }),
        ),
{
    let buf = synack_bytes(conn_id, server_eph, sig);
    assert(buf.subrange(1, 9) =~= conn_id);
    assert(buf.subrange(9, 41) =~= server_eph);
    assert(buf.subrange(41, 105) =~= sig);
}

/// A data packet parses back.
pub proof fn lemma_data_round_trip(conn_id: Seq<u8>, nonce: Seq<u8>, ciphertext: Seq<u8>)
    requires
        conn_id.len() == CONN_ID_LEN,
        nonce.len() == NONCE_LEN,
        ciphertext.len() >= TAG_LEN,
    ensures
        packet_of(data_bytes(conn_id, nonce, ciphertext)) == Ok::<PacketModel, FrameError>(
            (PacketModel::Data { conn_id, nonce, ciphertext }),
        ),
{
    let buf = data_bytes(conn_id, nonce, ciphertext);
    assert(buf.subrange(1, 9) =~= conn_id);
    assert(buf.subrange(9, 21) =~= nonce);
    assert(buf.subrange(21, buf.len() as int) =~= ciphertext);
}

/// Builds a client handshake.
pub fn build_syn(conn_id: &[u8; CONN_ID_LEN], client_eph: &[u8; X25519_PUB_LEN]) -> (w: Vec<u8>)
    ensures
        w@ == syn_bytes(conn_id@, client_eph@),
{
    let mut w: Vec<u8> = Vec::with_capacity(1 + CONN_ID_LEN + X25519_PUB_LEN);
    w.push(FORM_SYN);
    put(&mut w, conn_id.as_slice());
    put(&mut w, client_eph.as_slice());
    assert(w@ =~= syn_bytes(conn_id@, client_eph@));
    w
}

/// Builds a server handshake.
pub fn build_synack(
    conn_id: &[u8; CONN_ID_LEN],
    server_eph: &[u8; X25519_PUB_LEN],
    sig: &[u8; ED25519_SIG_LEN],
) -> (w: Vec<u8>)
    ensures
        w@ == synack_bytes(conn_id@, server_eph@, sig@),
{
    let mut w: Vec<u8> = Vec::with_capacity(1 + CONN_ID_LEN + X25519_PUB_LEN + ED25519_SIG_LEN);
    w.push(FORM_SYNACK);
    put(&mut w, conn_id.as_slice());
    put(&mut w, server_eph.as_slice());
    put(&mut w, sig.as_slice());
    assert(w@ =~= synack_bytes(conn_id@, server_eph@, sig@));
    w
}

/// Whether a cipher seals the bytes of a frame under one nonce.
pub open spec fn sealable(cipher: Cipher, f: FrameModel) -> bool {
    encoded(f).len() <= crate::tunnel::crypto::seal_limit(cipher == Cipher::Aes256Gcm)
}

/// Whether a cipher seals the bytes of a frame under one nonce.
pub(crate) fn fits_seal(aead: &Aead, f: &Frame) -> (fits: bool)
    ensures
        fits == sealable(aead.cipher_of(), f@),
{
    let fields: u64 = (if f.stream_id.is_some() { 2u64 } else { 0 }) + (if f.seq.is_some() {
        4u64
    } else {
        0
    }) + (if f.fragment.is_some() { 2u64 } else { 0 }) + (if f.comp_algo.is_some() {
        1u64
    } else {
        0
    });
    proof {
        lemma_encoded_len(f@);
    }
    f.payload.len() as u64 <= aead.max_plaintext() - 3 - fields
}

/// Seals a frame into a data packet, which is longer than the frame by the same number of bytes
/// whatever the frame. The packet parses back, and its sealed part opens to the frame.
pub fn seal_short(
    aead: &Aead,
    conn_id: &[u8; CONN_ID_LEN],
    nonce: &[u8; NONCE_LEN],
    frame: &Frame,
) -> (wire: Vec<u8>)
    requires
        sealable(aead.cipher_of(), frame@),
    ensures
        wire@ == data_bytes(conn_id@, nonce@, aead.sealed(nonce@, encoded(frame@))),
        wire@.len() == crate::tunnel::mtu::overhead() + encoded(frame@).len(),
        aead.opened(nonce@, aead.sealed(nonce@, encoded(frame@))) == Some(encoded(frame@)),
        packet_of(wire@) == Ok::<PacketModel, FrameError>(
            (PacketModel::Data {
                conn_id: conn_id@,
                nonce: nonce@,
                ciphertext: aead.sealed(nonce@, encoded(frame@)),
            }),
        ),
        opened_frame(*aead, nonce@, aead.sealed(nonce@, encoded(frame@))) == Ok::<
            FrameModel,
            FrameError,
        >(frame@),
{
    let mut ct: Vec<u8> = frame.encode();
    aead.seal(nonce, &mut ct);
    let mut wire: Vec<u8> = Vec::new();
    wire.push(FORM_SHORT);
    put(&mut wire, conn_id.as_slice());
    put(&mut wire, nonce.as_slice());
    put(&mut wire, ct.as_slice());
    assert(wire@ =~= data_bytes(conn_id@, nonce@, ct@));
    proof {
        lemma_data_round_trip(conn_id@, nonce@, ct@);
        lemma_frame_round_trip(frame@);
    }
    wire
}

/// What opening a sealed inner frame gives.
pub open spec fn opened_frame(aead: Aead, nonce: Seq<u8>, ciphertext: Seq<u8>) -> Result<
    FrameModel,
    FrameError,
> {
    match aead.opened(nonce, ciphertext) {
        None => Err(FrameError::Crypto(CryptoError::Auth)),
        Some(plain) => decoded(plain),
    }
}

/// Opens the sealed inner frame of a data packet.
pub fn open_frame(aead: &Aead, nonce: &[u8; NONCE_LEN], ciphertext: &[u8]) -> (r: Result<
    Frame,
    FrameError,
>)
    ensures
        match r {
            Ok(f) => opened_frame(*aead, nonce@, ciphertext@) == Ok::<FrameModel, FrameError>(f@),
            Err(e) => opened_frame(*aead, nonce@, ciphertext@) == Err::<FrameModel, FrameError>(e),
        },
{
    let mut ct: Vec<u8> = vstd::slice::slice_to_vec(ciphertext);
    match aead.open(nonce, ct.as_mut_slice()) {
        Ok(plain) => Frame::decode(plain),
        Err(e) => Err(FrameError::Crypto(e)),
    }
}

/// A bounds-checked big-endian reader.
struct Cursor<'a> {
    buf: &'a [u8],
    pos: usize,
}

impl<'a> Cursor<'a> {
    spec fn wf(&self) -> bool {
        self.pos <= self.buf@.len()
    }

    fn new(buf: &'a [u8]) -> (c: Self)
        ensures
            c.wf(),
            c.buf == buf,
            c.pos == 0,
    {
        Cursor { buf, pos: 0 }
    }

    fn take(&mut self, n: usize) -> (r: Result<&'a [u8], FrameError>)
        requires
            old(self).wf(),
        ensures
            final(self).wf(),
            final(self).buf == old(self).buf,
            match r {
                Ok(s) => {
                    &&& old(self).pos + n <= old(self).buf@.len()
                    &&& final(self).pos == old(self).pos + n
                    &&& s@ == old(self).buf@.subrange(old(self).pos as int, old(self).pos + n)
                },
                Err(e) => {
                    &&& e == FrameError::Truncated
                    &&& old(self).pos + n > old(self).buf@.len()
                },
            },
    {
        if n > self.buf.len() - self.pos {
            return Err(FrameError::Truncated);
        }
        let s: &'a [u8] = slice_subrange(self.buf, self.pos, self.pos + n);
        self.pos = self.pos + n;
        Ok(s)
    }

    fn u8(&mut self) -> (r: Result<u8, FrameError>)
        requires
            old(self).wf(),
        ensures
            final(self).wf(),
            final(self).buf == old(self).buf,
            match r {
                Ok(x) => {
                    &&& old(self).pos + 1 <= old(self).buf@.len()
                    &&& final(self).pos == old(self).pos + 1
                    &&& x == old(self).buf@[old(self).pos as int]
                },
                Err(e) => {
                    &&& e == FrameError::Truncated
                    &&& old(self).pos + 1 > old(self).buf@.len()
                },
            },
    {
        match self.take(1) {
            Ok(b) => Ok(b[0]),
            Err(e) => Err(e),
        }
    }

    fn u16(&mut self) -> (r: Result<u16, FrameError>)
        requires
            old(self).wf(),
        ensures
            final(self).wf(),
            final(self).buf == old(self).buf,
            match r {
                Ok(x) => {
                    &&& old(self).pos + 2 <= old(self).buf@.len()
                    &&& final(self).pos == old(self).pos + 2
                    &&& x == crate::tunnel::wire::be16_at(old(self).buf@, old(self).pos as int)
                },
                Err(e) => {
                    &&& e == FrameError::Truncated
                    &&& old(self).pos + 2 > old(self).buf@.len()
                },
            },
    {
        match self.take(2) {
            Ok(b) => Ok(get16(b, 0)),
            Err(e) => Err(e),
        }
    }

    fn u32(&mut self) -> (r: Result<u32, FrameError>)
        requires
            old(self).wf(),
        ensures
            final(self).wf(),
            final(self).buf == old(self).buf,
            match r {
                Ok(x) => {
                    &&& old(self).pos + 4 <= old(self).buf@.len()
                    &&& final(self).pos == old(self).pos + 4
                    &&& x == crate::tunnel::wire::be32_at(old(self).buf@, old(self).pos as int)
                },
                Err(e) => {
                    &&& e == FrameError::Truncated
                    &&& old(self).pos + 4 > old(self).buf@.len()
                },
            },
    {
        match self.take(4) {
            Ok(b) => Ok(get32(b, 0)),
            Err(e) => Err(e),
        }
    }

    fn array<const N: usize>(&mut self) -> (r: Result<[u8; N], FrameError>)
        requires
            old(self).wf(),
        ensures
            final(self).wf(),
            final(self).buf == old(self).buf,
            match r {
                Ok(a) => {
                    &&& old(self).pos + N <= old(self).buf@.len()
                    &&& final(self).pos == old(self).pos + N
                    &&& a@ == old(self).buf@.subrange(old(self).pos as int, old(self).pos + N)
                },
                Err(e) => {
                    &&& e == FrameError::Truncated
                    &&& old(self).pos + N > old(self).buf@.len()
                },
            },
    {
        match self.take(N) {
            Ok(s) => {
                let a: [u8; N] = array_of::<N>(s);
                assert(s@.subrange(0, N as int) =~= s@);
                Ok(a)
            },
            Err(e) => Err(e),
        }
    }

    fn rest(&self) -> (s: &'a [u8])
        requires
            self.wf(),
        ensures
            s@ == self.buf@.subrange(self.pos as int, self.buf@.len() as int),
    {
        slice_subrange(self.buf, self.pos, self.buf.len())
    }
}

// ---- what stands on the wire ----

/// The number of each kind on the wire, from 1 on in the order of the kinds.
pub open spec fn kind_number(k: Kind) -> int {
    match k {
        Kind::Syn => 1,
        Kind::SynAck => 2,
        Kind::Data => 3,
        Kind::Ack => 4,
        Kind::Nack => 5,
        Kind::Fin => 6,
        Kind::Rst => 7,
        Kind::KeepAlive => 8,
        Kind::MtuProbe => 9,
        Kind::MtuProbeResp => 10,
        Kind::SetMtu => 11,
    }
}

/// The bytes of a frame: version 1, the kind, a bit for each field that is there, those fields in order
/// with the high byte first, and the payload.
pub proof fn lemma_frame_layout(f: FrameModel)
    ensures
        ({
            let e = encoded(f);
            let at_seq = if f.stream_id is Some {
                5
            } else {
                3int
            };
            let at_fragment = if f.seq is Some {
                at_seq + 4
            } else {
                at_seq
            };
            let at_algo = if f.fragment is Some {
                at_fragment + 2
            } else {
                at_fragment
            };
            let at_payload = if f.comp_algo is Some {
                at_algo + 1
            } else {
                at_algo
            };
            &&& e.len() == at_payload + f.payload.len()
            &&& e[0] == 1
            &&& e[1] == kind_number(f.kind)
            &&& e[2] == (if f.stream_id is Some {
                1int
            } else {
                0
            }) + (if f.seq is Some {
                2int
            } else {
                0
            }) + (if f.fragment is Some {
                4int
            } else {
                0
            }) + (if f.comp_algo is Some {
                8int
            } else {
                0
            })
            &&& f.stream_id matches Some(s) ==> e[3] * 256 + e[4] == s
            &&& f.seq matches Some(q) ==> e[at_seq] * 0x100_0000 + e[at_seq + 1] * 0x1_0000
                + e[at_seq + 2] * 256 + e[at_seq + 3] == q
            &&& f.fragment matches Some((i, n)) ==> e[at_fragment] == i && e[at_fragment + 1] == n
            &&& f.comp_algo matches Some(a) ==> e[at_algo] == a
            &&& e.subrange(at_payload, e.len() as int) == f.payload
        }),
{
    let e = encoded(f);
    let fields = fields_of(f);
    let at = 3 + fields.len() as int;
    assert(e.subrange(at, e.len() as int) =~= f.payload);
    assert forall|i: int| 0 <= i < fields.len() implies e[3 + i] == #[trigger] fields[i] by {}
    let at_seq = if f.stream_id is Some {
        2
    } else {
        0int
    };
    if let Some(s) = f.stream_id {
        assert(fields[0] == crate::tunnel::wire::be16(s)[0]);
        assert(fields[1] == crate::tunnel::wire::be16(s)[1]);
    }
    if let Some(q) = f.seq {
        let b = crate::tunnel::wire::be32(q);
        assert(fields[at_seq] == b[0]);
        assert(fields[at_seq + 1] == b[1]);
        assert(fields[at_seq + 2] == b[2]);
        assert(fields[at_seq + 3] == b[3]);
    }
    let at_fragment = if f.seq is Some {
        at_seq + 4
    } else {
        at_seq
    };
    if let Some((i, n)) = f.fragment {
        assert(fields[at_fragment] == i);
        assert(fields[at_fragment + 1] == n);
    }
    let at_algo = if f.fragment is Some {
        at_fragment + 2
    } else {
        at_fragment
    };
    if let Some(a) = f.comp_algo {
        assert(fields[at_algo] == a);
    }
}

/// The packets: a form byte, the connection id, and then the client's ephemeral key, the server's with
/// its signature, or the nonce with the sealed frame.
pub proof fn lemma_packet_layout(
    c: Seq<u8>,
    eph: Seq<u8>,
    sig: Seq<u8>,
    nonce: Seq<u8>,
    sealed: Seq<u8>,
)
    requires
        c.len() == 8,
        eph.len() == 32,
        sig.len() == 64,
        nonce.len() == 12,
    ensures
        ({
            let syn = syn_bytes(c, eph);
            let synack = synack_bytes(c, eph, sig);
            let data = data_bytes(c, nonce, sealed);
            &&& syn.len() == 41 && syn[0] == 1
            &&& syn.subrange(1, 9) == c && syn.subrange(9, 41) == eph
            &&& synack.len() == 105 && synack[0] == 2
            &&& synack.subrange(1, 9) == c && synack.subrange(9, 41) == eph
            &&& synack.subrange(41, 105) == sig
            &&& data.len() == 21 + sealed.len() && data[0] == 0
            &&& data.subrange(1, 9) == c && data.subrange(9, 21) == nonce
            &&& data.subrange(21, data.len() as int) == sealed
        }),
{
    let syn = syn_bytes(c, eph);
    let synack = synack_bytes(c, eph, sig);
    let data = data_bytes(c, nonce, sealed);
    assert(syn.subrange(1, 9) =~= c && syn.subrange(9, 41) =~= eph);
    assert(synack.subrange(1, 9) =~= c && synack.subrange(9, 41) =~= eph);
    assert(synack.subrange(41, 105) =~= sig);
    assert(data.subrange(1, 9) =~= c && data.subrange(9, 21) =~= nonce);
    assert(data.subrange(21, data.len() as int) =~= sealed);
}

} // verus!
