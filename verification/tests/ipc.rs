//! The control plane between the app and the service.
use spark::ipc::client::{
    handshake_version, push_in, reply_to, Client, HandshakeError, PushReply, Reply,
};
use spark::ipc::codec::{decode_frame, encode_frame, frame_len, IpcError, MAX_FRAME_LEN};
use spark::ipc::message::{
    negotiate, ErrorCode, Push, Request, RequestPayload, Response, ResponsePayload, ServerMessage,
    TelemetryConfig, TunnelEvent, TunnelState, TunnelStatus, PROTOCOL_VERSION,
};

// ---- frames ----

/// The body of request 42, a subscription to events without logs.
fn sample_body() -> Vec<u8> {
    postcard::to_stdvec(&(42u64, 4u32, true, false)).unwrap()
}

#[test]
fn frame_round_trips_and_reports_consumed_length() {
    let body = sample_body();
    let mut frame = encode_frame(&body).unwrap();
    let frame_len = frame.len();
    // A second frame's bytes after the first prove `decode_frame` stops at the boundary.
    frame.extend_from_slice(b"TRAILER");

    let (decoded, consumed) = decode_frame(&frame).unwrap();
    assert_eq!(decoded, &body[..]);
    assert_eq!(consumed, frame_len);
    assert_eq!(&frame[consumed..], b"TRAILER");
}

#[test]
fn truncated_frame_is_incomplete() {
    let frame = encode_frame(&sample_body()).unwrap();
    for n in 0..frame.len() {
        assert!(
            matches!(decode_frame(&frame[..n]), Err(IpcError::Incomplete)),
            "prefix of length {n} should be Incomplete"
        );
    }
    // The full frame decodes.
    assert!(decode_frame(&frame).is_ok());
}

#[test]
fn oversized_length_prefix_is_rejected_without_allocating() {
    // A forged header claiming a body far larger than MAX_FRAME_LEN must be refused
    // before any attempt to read/allocate the body.
    let mut buf = ((MAX_FRAME_LEN + 1) as u32).to_le_bytes().to_vec();
    buf.extend_from_slice(b"only a few bytes follow");
    assert!(matches!(
        decode_frame(&buf),
        Err(IpcError::FrameTooLarge { .. })
    ));
}

#[test]
fn a_body_that_is_too_long_is_not_framed() {
    let body = vec![0u8; MAX_FRAME_LEN + 1];
    assert!(matches!(
        encode_frame(&body),
        Err(IpcError::FrameTooLarge { len, max }) if len == MAX_FRAME_LEN + 1 && max == MAX_FRAME_LEN
    ));
    assert!(encode_frame(&body[..MAX_FRAME_LEN]).is_ok());
}

#[test]
fn the_header_tells_the_length() {
    assert_eq!(frame_len(&[3, 1, 0, 0]).unwrap(), 259);
    assert!(frame_len(&[0, 0, 0, 1]).is_err());
}

// ---- messages ----

#[test]
fn negotiate_picks_lower_compatible_version() {
    assert_eq!(negotiate(1, 1), Some(1));
    // Each side caps at its own max, so the lower wins.
    assert_eq!(negotiate(1, 5), Some(1));
    assert_eq!(negotiate(5, 1), Some(1));
    assert_eq!(negotiate(3, 3), Some(3));
}

#[test]
fn negotiate_rejects_below_minimum() {
    assert_eq!(negotiate(0, 1), None);
    assert_eq!(negotiate(1, 0), None);
}

fn telemetry(ppm: u32) -> TelemetryConfig {
    TelemetryConfig {
        endpoint: "ingest.example:443".into(),
        headers: vec![("signoz-ingestion-key".into(), "s3cr3t-key-value".into())],
        sample_rate_ppm: ppm,
        logs_enabled: true,
        traces_enabled: true,
        device_id: "d".into(),
        country: "US".into(),
    }
}

#[test]
fn debug_never_prints_a_config_body() {
    let raw = r#"{"options":{"outbounds":[{"password":"s3cr3t-proxy-password"}]}}"#.to_owned();
    let len = raw.len();
    let req = Request {
        req_id: 1,
        payload: RequestPayload::ApplyConfig { raw },
    };
    let rendered = req.redacted();
    assert!(
        !rendered.contains("s3cr3t-proxy-password"),
        "config body leaked into Debug: {rendered}"
    );
    assert!(rendered.contains("[redacted"), "{rendered}");
    assert!(
        rendered.contains(&format!("{len} bytes")),
        "the length must survive: {rendered}"
    );
}

#[test]
fn debug_never_prints_a_profile_document() {
    let req = Request {
        req_id: 2,
        payload: RequestPayload::SetProfile {
            name: "home".to_owned(),
            toml: "[transport.anytls]\npassword = \"s3cr3t-profile-pw\"\n".to_owned(),
        },
    };
    let rendered = req.redacted();
    assert!(
        !rendered.contains("s3cr3t-profile-pw"),
        "profile secret leaked into Debug: {rendered}"
    );
    // The profile NAME stays: which profile is being written is diagnostic, not secret.
    assert!(rendered.contains("home"), "{rendered}");
}

#[test]
fn debug_never_prints_a_header_value() {
    let req = Request {
        req_id: 1,
        payload: RequestPayload::SetTelemetry(telemetry(1_000_000)),
    };
    let rendered = req.redacted();
    assert!(
        !rendered.contains("s3cr3t-key-value"),
        "header value leaked into Debug: {rendered}"
    );
    // The header NAME stays: knowing which headers are set is diagnostic signal, not a secret.
    assert!(rendered.contains("signoz-ingestion-key"), "{rendered}");
    assert!(rendered.contains("[redacted]"), "{rendered}");
}

#[test]
fn a_shown_name_is_quoted_and_escaped() {
    let req = Request {
        req_id: 3,
        payload: RequestPayload::GetProfile { name: "a\"b\n".to_owned() },
    };
    assert!(req.redacted().contains(r#""a\"b\n""#), "{}", req.redacted());
}

// ---- the client ----

fn status() -> ResponsePayload {
    ResponsePayload::Status(TunnelStatus {
        state: TunnelState::Connected,
        direct_fallback: false,
    })
}

#[test]
fn requests_are_numbered_and_matched() {
    let mut client = Client::new(());
    let hello = client.begin_handshake();
    assert_eq!(hello.req_id, 1);
    assert!(matches!(
        hello.payload,
        RequestPayload::Hello { client_version } if client_version == PROTOCOL_VERSION
    ));
    let next = client.begin(RequestPayload::GetStatus);
    assert_eq!(next.req_id, 2);

    let other = ServerMessage::Response(Response { req_id: 1, payload: ResponsePayload::Ack });
    assert!(matches!(reply_to(next.req_id, other), Reply::Skip));
    let mine = ServerMessage::Response(Response { req_id: 2, payload: status() });
    assert!(matches!(
        reply_to(next.req_id, mine),
        Reply::Done(ResponsePayload::Status(_))
    ));
    let push = ServerMessage::Push(Push::Event(TunnelEvent::FellOpenToDirect));
    assert!(matches!(reply_to(next.req_id, push), Reply::Skip));
}

#[test]
fn pushes_are_told_from_responses() {
    let push = ServerMessage::Push(Push::Event(TunnelEvent::FellOpenToDirect));
    assert!(matches!(
        push_in(push),
        PushReply::Done(Push::Event(TunnelEvent::FellOpenToDirect))
    ));
    let response = ServerMessage::Response(Response { req_id: 9, payload: status() });
    assert!(matches!(push_in(response), PushReply::Skip));
}

#[test]
fn a_handshake_ends_in_a_version_or_an_error() {
    let hello = ResponsePayload::Hello { service_version: 4, negotiated: 3 };
    assert_eq!(handshake_version(hello).ok(), Some(3));
    let refused = ResponsePayload::Error {
        code: ErrorCode::Unauthorized,
        message: "no".into(),
    };
    assert!(matches!(
        handshake_version(refused),
        Err(HandshakeError::Refused(m)) if m == "no"
    ));
    assert!(matches!(
        handshake_version(ResponsePayload::Ack),
        Err(HandshakeError::Unexpected)
    ));
}
