//! The tunnel as the privileged service runs it.
use vstd::prelude::*;

use crate::ipc::message::{ErrorCode, ResponsePayload, TunnelState, TunnelStatus};
use crate::text;
use crate::ui::models::Status;

verus! {

/// Where the service listens: a named pipe on Windows, a socket elsewhere.
pub fn default_control_addr(windows: bool) -> (addr: &'static str)
    ensures
        addr@ == if windows {
            "\\\\.\\pipe\\spark"@
        } else {
            "/var/run/spark.sock"@
        },
{
    if windows {
        "\\\\.\\pipe\\spark"
    } else {
        "/var/run/spark.sock"
    }
}

/// What the window shows of a state.
pub open spec fn state_name(s: TunnelState) -> Seq<char> {
    match s {
        TunnelState::Disconnected => "disconnected"@,
        TunnelState::Connecting => "connecting"@,
        TunnelState::Connected => "connected"@,
        TunnelState::Disconnecting => "disconnecting"@,
        TunnelState::Failed => "failed"@,
    }
}

/// Whether the window shows a status of the service so. The service does not tell the protocol.
pub open spec fn shows(status: TunnelStatus, r: Status) -> bool {
    &&& r.state@ == state_name(status.state)
    &&& r.protocol@ == ""@
    &&& r.fail_open == status.direct_fallback
}

/// What the window shows of the service's status.
pub fn map_status(s: TunnelStatus) -> (r: Status)
    ensures
        shows(s, r),
{
    let state: &str = match s.state {
        TunnelState::Disconnected => "disconnected",
        TunnelState::Connecting => "connecting",
        TunnelState::Connected => "connected",
        TunnelState::Disconnecting => "disconnecting",
        TunnelState::Failed => "failed",
    };
    Status { state: state.to_owned(), protocol: "".to_owned(), fail_open: s.direct_fallback }
}

/// Why the service did not do what it was asked.
#[derive(Debug)]
pub enum ServiceError {
    /// What the service says.
    Said(String),
    /// It answered something else than was asked.
    Unexpected,
}

/// The answer to a request that has nothing to return: what the service says of a failure is passed on
/// word for word.
pub fn ack(reply: &ResponsePayload) -> (r: Result<(), ServiceError>)
    ensures
        match *reply {
            ResponsePayload::Ack => r is Ok,
            ResponsePayload::Error { message, .. } => r matches Err(ServiceError::Said(s)) && s@
                == message@,
            _ => r matches Err(ServiceError::Unexpected),
        },
{
    match reply {
        ResponsePayload::Ack => Ok(()),
        ResponsePayload::Error { code: _, message } => Err(
            ServiceError::Said(message.as_str().to_owned()),
        ),
        _ => Err(ServiceError::Unexpected),
    }
}

/// The answer to a configuration that was handed on: a tunnel that is down takes it from the cache when
/// it starts, so that is no failure.
pub fn push_reply(reply: &ResponsePayload) -> (r: Result<(), ServiceError>)
    ensures
        match *reply {
            ResponsePayload::Ack => r is Ok,
            ResponsePayload::Error { code, message } => if code == ErrorCode::NotConnected {
                r is Ok
            } else {
                r matches Err(ServiceError::Said(s)) && s@ == message@
            },
            _ => r matches Err(ServiceError::Unexpected),
        },
{
    match reply {
        ResponsePayload::Error { code: ErrorCode::NotConnected, message: _ } => Ok(()),
        _ => ack(reply),
    }
}

/// The answer to a request for the status.
pub fn status_reply(reply: &ResponsePayload) -> (r: Result<Status, ServiceError>)
    ensures
        match *reply {
            ResponsePayload::Status(s) => r matches Ok(status) && shows(s, status),
            ResponsePayload::Error { message, .. } => r matches Err(ServiceError::Said(s)) && s@
                == message@,
            _ => r matches Err(ServiceError::Unexpected),
        },
{
    match reply {
        ResponsePayload::Status(s) => Ok(map_status(*s)),
        ResponsePayload::Error { code: _, message } => Err(
            ServiceError::Said(message.as_str().to_owned()),
        ),
        _ => Err(ServiceError::Unexpected),
    }
}

/// A failure to reach the service, with what was asked of it.
pub fn request_error(op: &str, error: &str) -> (s: String)
    ensures
        s@ == op@ + ": "@ + error@,
{
    let mut s: String = op.to_owned();
    text::append(&mut s, ": ");
    text::append(&mut s, error);
    s
}

} // verus!
