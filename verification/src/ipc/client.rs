//! The client of the control plane: numbers its requests and finds the response to each among everything
//! that the service sends.
use vstd::prelude::*;

use crate::ipc::message::{
    ProtocolVersion, Push, ReqId, Request, RequestPayload, ResponsePayload, ServerMessage,
    PROTOCOL_VERSION,
};

verus! {

/// A client on a connection. The caller moves the bytes.
#[derive(Debug)]
pub struct Client<S> {
    stream: S,
    next_id: u64,
}

/// What a message from the service is to a request that waits.
#[derive(Debug)]
pub enum Reply {
    /// Its response.
    Done(ResponsePayload),
    /// Something else: wait on.
    Skip,
}

/// What a message from the service is to one who waits for pushes.
#[derive(Debug)]
pub enum PushReply {
    /// A push.
    Done(Push),
    /// Something else: wait on.
    Skip,
}

/// Why a handshake failed.
#[derive(Debug)]
pub enum HandshakeError {
    /// The service refused, with these words.
    Refused(String),
    /// The response is not one to a handshake.
    Unexpected,
}

impl<S> Client<S> {
    /// The last number that was used.
    pub closed spec fn last_id(&self) -> u64 {
        self.next_id
    }

    /// The connection.
    pub closed spec fn connection(&self) -> S {
        self.stream
    }

    /// A client on a connection. The handshake comes before any other request.
    pub fn new(stream: S) -> (c: Client<S>)
        ensures
            c.last_id() == 0,
            c.connection() == stream,
    {
        Client { stream, next_id: 0 }
    }

    /// The connection.
    pub fn stream_mut(&mut self) -> (s: &mut S)
        ensures
            *s == old(self).connection(),
            final(self).connection() == *final(s),
            final(self).last_id() == old(self).last_id(),
    {
        &mut self.stream
    }

    /// A request with the next number. Numbers go up by one.
    pub fn begin(&mut self, payload: RequestPayload) -> (r: Request)
        requires
            old(self).last_id() < u64::MAX,
        ensures
            r.req_id == old(self).last_id() + 1,
            r.payload == payload,
            final(self).last_id() == r.req_id,
            final(self).connection() == old(self).connection(),
    {
        self.next_id = self.next_id + 1;
        Request { req_id: self.next_id, payload }
    }

    /// The handshake request.
    pub fn begin_handshake(&mut self) -> (r: Request)
        requires
            old(self).last_id() < u64::MAX,
        ensures
            r.req_id == old(self).last_id() + 1,
            r.payload == (RequestPayload::Hello { client_version: PROTOCOL_VERSION }),
            final(self).last_id() == r.req_id,
            final(self).connection() == old(self).connection(),
    {
        self.begin(RequestPayload::Hello { client_version: PROTOCOL_VERSION })
    }
}

/// What a message is to the request of this number: its response, or something to be skipped.
pub fn reply_to(req_id: ReqId, msg: ServerMessage) -> (r: Reply)
    ensures
        r == match msg {
            ServerMessage::Response(resp) => if resp.req_id == req_id {
                Reply::Done(resp.payload)
            } else {
                Reply::Skip
            },
            ServerMessage::Push(_) => Reply::Skip,
        },
{
    match msg {
        ServerMessage::Response(resp) => {
            if resp.req_id == req_id {
                Reply::Done(resp.payload)
            } else {
                Reply::Skip
            }
        },
        ServerMessage::Push(_) => Reply::Skip,
    }
}

/// What a message is to one who waits for pushes.
pub fn push_in(msg: ServerMessage) -> (r: PushReply)
    ensures
        r == match msg {
            ServerMessage::Push(p) => PushReply::Done(p),
            ServerMessage::Response(_) => PushReply::Skip,
        },
{
    match msg {
        ServerMessage::Push(p) => PushReply::Done(p),
        ServerMessage::Response(_) => PushReply::Skip,
    }
}

/// The version that a handshake's response gives.
pub fn handshake_version(payload: ResponsePayload) -> (r: Result<ProtocolVersion, HandshakeError>)
    ensures
        r == match payload {
            ResponsePayload::Hello { negotiated, .. } => Ok::<ProtocolVersion, HandshakeError>(
                negotiated,
            ),
            ResponsePayload::Error { message, .. } => Err(HandshakeError::Refused(message)),
            _ => Err(HandshakeError::Unexpected),
        },
{
    match payload {
        ResponsePayload::Hello { negotiated, .. } => Ok(negotiated),
        ResponsePayload::Error { message, .. } => Err(HandshakeError::Refused(message)),
        _ => Err(HandshakeError::Unexpected),
    }
}

} // verus!
