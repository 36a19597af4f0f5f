//! The tunnel as the extension and as the service run it, and sharing.
use spark::ipc::message::{ErrorCode, ResponsePayload, TunnelState, TunnelStatus};
use spark::json::{to_text, Leaf};
use spark::ui::control::Error;
use spark::ui::models::ServerInfo;
use spark::ui::provider::{
    activation_result, change_message, choose_servers, connect_settings, disconnect_result,
    identity_json, identity_of, live_push, load_first_status, provider_configuration,
    select_message, select_reply, select_result, status, status_name, ui_state, Activation, Change,
    ConnectEvent, ConnectFlow, ConnectStep, Loaded, SelectError, SendEvent, SendFlow, SendStep,
    ServersCache,
};
use spark::ui::service::{ack, default_control_addr, map_status, push_reply, request_error, status_reply, ServiceError};
use spark::ui::unbounded::{
    build_sharing_config, delay_before, on_delta, region_of, resume_at_startup, settings_json,
    settings_writes, Begin, Finish, Geo, PeerView, Place, Resume, Setting, SharingDelta, SharingStatus, StartError,
    Unbounded, UnboundedConfig, UnboundedSettingsPatch,
};
use spark::ui::unbounded_diag::{
    diag_for_event, error_kind, snapshot_due, DiagAction, DiagEvent, EventView, PoolDiag,
};

// ---- the service ----

#[test]
fn map_status_translates_state_and_fallback() {
    let s = map_status(TunnelStatus {
        state: TunnelState::Connected,
        direct_fallback: true,
    });
    assert_eq!(s.state, "connected");
    assert!(s.fail_open);
}

#[test]
fn every_state_of_the_service_has_its_name() {
    let name = |state| map_status(TunnelStatus { state, direct_fallback: false }).state;
    assert_eq!(name(TunnelState::Disconnected), "disconnected");
    assert_eq!(name(TunnelState::Connecting), "connecting");
    assert_eq!(name(TunnelState::Disconnecting), "disconnecting");
    assert_eq!(name(TunnelState::Failed), "failed");
    assert_eq!(default_control_addr(false), "/var/run/spark.sock");
    assert_eq!(default_control_addr(true), r"\\.\pipe\spark");
}

#[test]
fn what_the_service_says_is_passed_on() {
    assert!(ack(&ResponsePayload::Ack).is_ok());
    let refused = ResponsePayload::Error {
        code: ErrorCode::Unauthorized,
        message: "not allowed".into(),
    };
    assert!(matches!(ack(&refused), Err(ServiceError::Said(s)) if s == "not allowed"));
    assert!(matches!(status_reply(&refused), Err(ServiceError::Said(_))));
    assert!(matches!(status_reply(&ResponsePayload::Ack), Err(ServiceError::Unexpected)));
    let up = ResponsePayload::Status(TunnelStatus {
        state: TunnelState::Connected,
        direct_fallback: false,
    });
    assert!(matches!(ack(&up), Err(ServiceError::Unexpected)));
    assert_eq!(status_reply(&up).unwrap().state, "connected");
    assert!(matches!(push_reply(&refused), Err(ServiceError::Said(_))));
    assert!(push_reply(&ResponsePayload::Error {
        code: ErrorCode::NotConnected,
        message: String::new(),
    })
    .is_ok());
    assert!(push_reply(&ResponsePayload::Ack).is_ok());
    assert_eq!(request_error("connect", "no pipe"), "connect: no pipe");
}

#[test]
fn errors_say_what_went_wrong() {
    assert_eq!(Error::Consent.text(), "VPN consent was not granted");
    assert_eq!(Error::Platform("x".into()).text(), "x");
    assert!(Error::NoTunnel.text().starts_with("no active tunnel router"));
}

// ---- the extension ----

#[test]
fn raw_status_has_names() {
    assert_eq!(status_name(0), "invalid");
    assert_eq!(status_name(4), "reasserting");
    assert_eq!(status_name(9), "unknown");
    assert_eq!(ui_state(3), "connected");
    assert_eq!(ui_state(2), "connecting");
    assert_eq!(ui_state(4), "connecting");
    assert_eq!(ui_state(5), "disconnected");
    assert_eq!(ui_state(-1), "disconnected");
    assert_eq!(ui_state(-2), "failed");
    assert_eq!(ui_state(-3), "failed");
}

#[test]
fn the_first_tunnel_gives_the_status() {
    assert_eq!(load_first_status(&Loaded::Failed("x".into())), (0, -3));
    assert_eq!(load_first_status(&Loaded::Saved { count: 0, first: 3 }), (0, -1));
    assert_eq!(load_first_status(&Loaded::Saved { count: 2, first: 3 }), (2, 3));
    assert_eq!(load_first_status(&Loaded::TimedOut), (0, -2));
    let s = status(&Loaded::Saved { count: 1, first: 3 });
    assert_eq!((s.state.as_str(), s.protocol.as_str(), s.fail_open), ("connected", "AnyTLS", false));
}

#[test]
fn a_connect_goes_through_its_steps() {
    let mut f = ConnectFlow::new(true);
    assert!(matches!(
        f.on_event(ConnectEvent::Activated(Activation::Finished)),
        ConnectStep::Load
    ));
    assert!(matches!(
        f.on_event(ConnectEvent::Loaded(Ok(1))),
        ConnectStep::Save { reuse: true }
    ));
    assert!(matches!(f.on_event(ConnectEvent::Started(None)), ConnectStep::Nothing));
    assert!(matches!(f.on_event(ConnectEvent::Saved(None)), ConnectStep::Reload));
    assert!(matches!(f.on_event(ConnectEvent::Reloaded(None)), ConnectStep::Start));
    assert!(matches!(f.on_event(ConnectEvent::Started(None)), ConnectStep::Done(Ok(()))));
    assert!(matches!(f.on_event(ConnectEvent::TimedOut), ConnectStep::Nothing));
}

#[test]
fn the_first_error_ends_a_connect() {
    let failed = |events: Vec<ConnectEvent>| {
        let mut f = ConnectFlow::new(false);
        let mut last = None;
        for e in events {
            if let ConnectStep::Done(Err(why)) = f.on_event(e) {
                last = Some(why);
            }
        }
        last.expect("the connect fails")
    };
    assert_eq!(
        failed(vec![ConnectEvent::Loaded(Err("denied".into()))]),
        "loadAllFromPreferences failed: denied"
    );
    assert_eq!(
        failed(vec![ConnectEvent::Loaded(Ok(0)), ConnectEvent::Saved(Some("a".into()))]),
        "save failed: a"
    );
    assert_eq!(
        failed(vec![
            ConnectEvent::Loaded(Ok(0)),
            ConnectEvent::Saved(None),
            ConnectEvent::Reloaded(Some("b".into()))
        ]),
        "reload failed: b"
    );
    assert_eq!(
        failed(vec![
            ConnectEvent::Loaded(Ok(0)),
            ConnectEvent::Saved(None),
            ConnectEvent::Reloaded(None),
            ConnectEvent::Started(Some("c".into()))
        ]),
        "start failed: c"
    );
    assert_eq!(failed(vec![ConnectEvent::TimedOut]), "connect timed out");
}

#[test]
fn an_activation_after_a_restart_is_an_error() {
    assert!(activation_result(Activation::Finished).is_ok());
    assert!(activation_result(Activation::AfterReboot).unwrap_err().contains("needs a restart"));
    assert_eq!(
        activation_result(Activation::Failed("x".into())).unwrap_err(),
        "activation failed: x"
    );
    assert!(activation_result(Activation::TimedOut).unwrap_err().contains("approval timed out"));
}

#[test]
fn the_extension_is_handed_every_setting() {
    let s = connect_settings(None, " {} ", "full", "  ", true, false, Some("id".into()));
    let v = provider_configuration(s);
    let pairs: Vec<(&str, &str)> = v.iter().map(|(k, s)| (*k, s.as_str())).collect();
    assert_eq!(
        pairs,
        [
            ("splitTunnel", "{}"),
            ("routingMode", "full"),
            ("appBypass", ""),
            ("adBlock", "true"),
            ("diagnostics", "false"),
            ("identity", "id"),
        ]
    );
    let with = connect_settings(Some("c".into()), "", "", "", false, true, None);
    assert_eq!(provider_configuration(with)[0], ("config", "c".to_string()));
}

#[test]
fn an_identity_is_whole_or_not_there() {
    let account = r#"{"user_id":"7","pro_token":"t"}"#;
    assert_eq!(
        identity_json(Some(" dev\n"), Some(account)).as_deref(),
        Some(r#"{"device_id":"dev","pro_token":"t","user_id":"7"}"#)
    );
    assert_eq!(identity_json(Some("dev"), Some(r#"{"user_id":"0","pro_token":"t"}"#)), None);
    assert_eq!(identity_json(Some("dev"), Some(r#"{"user_id":7,"pro_token":"t"}"#)), None);
    assert_eq!(identity_json(Some("  "), Some(account)), None);
    assert_eq!(identity_json(None, Some(account)), None);
    assert_eq!(identity_of("dev", Some("7"), None), None);
}

#[test]
fn a_message_has_one_outcome() {
    let mut f = SendFlow::new();
    assert!(matches!(f.on_event(SendEvent::Loaded(Ok((1, true)))), SendStep::Send));
    assert!(matches!(f.on_event(SendEvent::Sent(true, String::new())), SendStep::Wait));
    assert!(matches!(
        f.on_event(SendEvent::Answer(Some(b"[]".to_vec()))),
        SendStep::Done(Ok(s)) if s == "[]"
    ));
    assert!(matches!(f.on_event(SendEvent::TimedOut), SendStep::Nothing));
}

#[test]
fn a_message_fails_with_its_reason() {
    let failed = |events: Vec<SendEvent>| {
        let mut f = SendFlow::new();
        let mut last = None;
        for e in events {
            if let SendStep::Done(Err(why)) = f.on_event(e) {
                last = Some(why);
            }
        }
        last.expect("the message fails")
    };
    assert_eq!(
        failed(vec![SendEvent::Loaded(Ok((0, false)))]),
        "no active tunnel manager — connect first"
    );
    assert_eq!(
        failed(vec![SendEvent::Loaded(Ok((1, false)))]),
        "tunnel connection is not a provider session"
    );
    assert_eq!(
        failed(vec![SendEvent::Loaded(Err("e".into()))]),
        "loadAllFromPreferences failed: e"
    );
    let sent = |said: &str| {
        vec![SendEvent::Loaded(Ok((1, true))), SendEvent::Sent(false, said.into())]
    };
    assert_eq!(failed(sent("")), "sendProviderMessage failed");
    assert_eq!(failed(sent("busy")), "busy");
    assert_eq!(
        failed(vec![
            SendEvent::Loaded(Ok((1, true))),
            SendEvent::Sent(true, String::new()),
            SendEvent::Answer(None)
        ]),
        "provider sent no response"
    );
    assert_eq!(failed(vec![SendEvent::TimedOut]), "provider message timed out");
}

#[test]
fn malformed_bytes_in_an_answer_are_replaced() {
    let mut f = SendFlow::new();
    f.on_event(SendEvent::Loaded(Ok((1, true))));
    f.on_event(SendEvent::Sent(true, String::new()));
    assert!(matches!(
        f.on_event(SendEvent::Answer(Some(vec![b'a', 0xff]))),
        SendStep::Done(Ok(s)) if s == "a\u{fffd}"
    ));
}

#[test]
fn changes_go_to_a_tunnel_that_is_up() {
    let up = Loaded::Saved { count: 1, first: 3 };
    let down = Loaded::Saved { count: 1, first: 1 };
    assert_eq!(
        live_push(&up, &Change::AdBlock(true)).as_deref(),
        Some(r#"{"cmd":"adBlock","enabled":true}"#)
    );
    assert_eq!(live_push(&down, &Change::AdBlock(true)), None);
    assert_eq!(
        change_message(&Change::RoutingMode("full")),
        r#"{"cmd":"routingMode","mode":"full"}"#
    );
    assert_eq!(
        change_message(&Change::AppBypass(r#"["a"]"#)),
        r#"{"cmd":"appBypass","list":"[\"a\"]"}"#
    );
    assert_eq!(
        change_message(&Change::SplitTunnel("{}")),
        r#"{"cmd":"splitTunnel","list":"{}"}"#
    );
}

#[test]
fn a_selection_is_answered() {
    assert_eq!(select_message(-1), r#"{"cmd":"select","index":-1}"#);
    assert_eq!(select_message(12), r#"{"cmd":"select","index":12}"#);
    assert_eq!(select_message(i32::MIN), r#"{"cmd":"select","index":-2147483648}"#);
    assert!(select_reply(r#"{"ok":true}"#).is_ok());
    assert!(matches!(select_reply(r#"{"ok":false}"#), Err(SelectError::NotApplied)));
    assert!(matches!(select_reply("{}"), Err(SelectError::NotApplied)));
    assert!(matches!(select_reply("nope"), Err(SelectError::Unreadable(_))));
    assert!(matches!(
        select_result(Ok(Some(Leaf::Text("true".into())))),
        Err(SelectError::NotApplied)
    ));
}

#[test]
fn a_disconnect_stops_the_first_tunnel() {
    assert!(disconnect_result(&Loaded::Saved { count: 1, first: 3 }).is_ok());
    assert_eq!(
        disconnect_result(&Loaded::Saved { count: 0, first: 0 }).unwrap_err(),
        "no tunnel configured"
    );
    assert_eq!(disconnect_result(&Loaded::TimedOut).unwrap_err(), "disconnect timed out");
    assert_eq!(
        disconnect_result(&Loaded::Failed("x".into())).unwrap_err(),
        "loadAllFromPreferences failed: x"
    );
}

fn server(index: usize) -> ServerInfo {
    ServerInfo {
        index,
        name: None,
        country: None,
        country_code: None,
        city: None,
        protocol: None,
        latency_ms: None,
        healthy: false,
        is_current: false,
        is_pinned: false,
    }
}

#[test]
fn the_running_pool_is_shown_before_the_kept_one() {
    let pick = |connected, live: Option<Vec<ServerInfo>>, config: Vec<ServerInfo>| {
        choose_servers(connected, live, config, vec![server(9)])[0].index
    };
    assert_eq!(pick(true, Some(vec![server(1)]), vec![server(5)]), 1);
    assert_eq!(pick(false, Some(vec![server(1)]), vec![server(5)]), 5);
    assert_eq!(pick(true, Some(Vec::new()), Vec::new()), 9);
    assert_eq!(pick(true, None, Vec::new()), 9);
}

#[test]
fn servers_are_memoised_until_the_config_file_changes() {
    let mut cache = ServersCache::new();
    assert!(cache.lookup(Some(10)).is_none());
    cache.store(Some(10), vec![server(0)]);
    assert_eq!(
        cache.lookup(Some(10)).map(|v| v.len()),
        Some(1),
        "unchanged mtime must serve the memo, not re-parse (the whole point)"
    );
    assert!(
        cache.lookup(Some(12)).is_none(),
        "a changed mtime must re-parse; config_fetch rewrites this file expecting exactly that"
    );
    cache.store(Some(12), Vec::new());
    assert_eq!(cache.lookup(Some(12)).map(|v| v.len()), Some(0));
    assert!(cache.lookup(None).is_none());
}

// ---- sharing ----

fn joined(id: &str) -> SharingDelta<()> {
    SharingDelta::Joined(PeerView {
        session_id: id.into(),
        geo: None,
    })
}

#[test]
fn total_increments_only_on_join() {
    let mut total = 0u64;
    on_delta(&mut total, &joined("a"));
    on_delta(&mut total, &joined("b"));
    on_delta(&mut total, &SharingDelta::<()>::Left("a".into()));
    assert_eq!(total, 2);
}

fn geo(code: &str, lat: f64, lon: f64) -> Geo<Place> {
    Geo {
        country_code: code.into(),
        at: Place {
            lat: serde_json::to_string(&lat).unwrap(),
            lon: serde_json::to_string(&lon).unwrap(),
        },
    }
}

fn payload(
    enabled: bool,
    status: &SharingStatus<Place>,
    total: u64,
    origin: Option<Geo<Place>>,
) -> serde_json::Value {
    let mut s: Unbounded<Place> = Unbounded::new();
    if let Some(g) = origin {
        let ticket = s.origin_ticket();
        s.set_origin(ticket, g);
    }
    let text = to_text(&s.payload(enabled, Some(status), total).to_json());
    serde_json::from_str(&text).unwrap()
}

#[test]
fn snapshot_payload_uses_camel_case_contract() {
    let status = SharingStatus {
        helping_now: 1,
        peers: vec![PeerView {
            session_id: "abc".into(),
            geo: Some(geo("IR", 35.7, 51.4)),
        }],
    };
    let origin = geo("US", 39.74, -104.98);
    let value = payload(true, &status, 219, Some(origin));
    assert_eq!(value["enabled"], true);
    assert_eq!(value["helpingNow"], 1);
    assert_eq!(value["totalHelped"], 219);
    assert_eq!(value["peers"][0]["sessionId"], "abc");
    assert_eq!(value["peers"][0]["geo"]["countryCode"], "IR");
    // The volunteer's own position, which is the far end of every arc on the globe.
    assert_eq!(value["origin"]["countryCode"], "US");
    assert_eq!(value["origin"]["lat"], 39.74);
    assert_eq!(value["origin"]["lon"], -104.98);
}

#[test]
fn snapshot_payload_null_geo_when_absent() {
    let status = SharingStatus {
        helping_now: 1,
        peers: vec![PeerView {
            session_id: "abc".into(),
            geo: None,
        }],
    };
    let value = payload(true, &status, 0, None);
    assert!(value["peers"][0]["geo"].is_null());
    // Null until the self lookup lands, which the globe reads as "do not draw us yet" rather
    // than pinning the volunteer at (0, 0) in the Gulf of Guinea.
    assert!(value["origin"].is_null());
}

#[test]
fn a_stopped_pool_is_an_empty_list() {
    let s: Unbounded<Place> = Unbounded::new();
    assert_eq!(
        to_text(&s.status(3).to_json()),
        r#"{"enabled":false,"helpingNow":0,"totalHelped":3,"peers":[],"origin":null}"#
    );
    assert_eq!(
        to_text(&settings_json(true, false, true)),
        r#"{"autoEnable":true,"hidden":false,"welcomeSeen":true}"#
    );
}

#[test]
fn sharing_needs_consent_first() {
    let s: Unbounded<()> = Unbounded::new();
    assert_eq!(s.begin_start(false), Begin::Refused(StartError::NoConsent));
    assert_eq!(
        StartError::NoConsent.text(),
        "unbounded consent not given (disclosure not yet acknowledged)"
    );
}

#[test]
fn a_stop_wins_over_a_start_that_is_being_prepared() {
    let mut s: Unbounded<()> = Unbounded::new();
    let Begin::Prepare(ticket) = s.begin_start(true) else {
        panic!("a start is prepared");
    };
    assert_eq!(s.stop(), (false, false));
    assert_eq!(s.finish_start(ticket), Finish::Refused(StartError::Superseded));
    assert_eq!(s.live_view(), (false, 0));
}

#[test]
fn a_second_start_changes_nothing() {
    let mut s: Unbounded<()> = Unbounded::new();
    assert_eq!(s.finish_start(0), Finish::Spawn(1));
    assert_eq!(s.finish_start(0), Finish::Running);
    assert_eq!(s.begin_start(true), Begin::Running);
    s.record_start(true);
    assert_eq!(s.live_view(), (true, 0));
}

#[test]
fn a_start_that_is_not_written_down_is_undone() {
    let mut s: Unbounded<()> = Unbounded::new();
    s.finish_start(0);
    s.record_start(false);
    assert_eq!(s.live_view(), (false, 0));
}

#[test]
fn an_old_pool_cannot_end_a_new_one() {
    let mut s: Unbounded<()> = Unbounded::new();
    assert_eq!(s.finish_start(0), Finish::Spawn(1));
    s.stop();
    assert_eq!(s.finish_start(1), Finish::Spawn(2));
    assert!(!s.end_pool(1));
    assert_eq!(s.live_view(), (true, 0));
    assert!(s.end_pool(2));
    assert_eq!(s.live_view(), (false, 0));
}

#[test]
fn a_search_that_a_stop_ended_does_not_place_us() {
    let mut s: Unbounded<()> = Unbounded::new();
    let ticket = s.origin_ticket();
    s.stop();
    assert!(!s.still_this_session(ticket));
    s.set_origin(ticket, Geo { country_code: "US".into(), at: () });
    assert!(s.status(0).origin.is_none());
}

#[test]
fn the_status_of_a_pool_that_is_not_running_shows_nobody() {
    let mut s: Unbounded<()> = Unbounded::new();
    s.set_status(SharingStatus { helping_now: 4, peers: Vec::new() });
    let snap = s.status(7);
    assert!(!snap.enabled);
    assert_eq!((snap.helping_now, snap.total_helped), (0, 7));
    s.finish_start(0);
    assert_eq!(s.status(7).helping_now, 4);
}

#[test]
fn sharing_runs_as_the_server_says() {
    let uc = |available, sessions| UnboundedConfig {
        available,
        egress_url: "wss://e".into(),
        signaling_url: "https://s".into(),
        concurrent_sessions: sessions,
    };
    assert!(matches!(build_sharing_config(uc(false, 3)), Err(StartError::Unavailable)));
    let (cfg, signaling) = build_sharing_config(uc(true, 0)).unwrap();
    assert_eq!(signaling, "https://s");
    assert_eq!(cfg.egress_url, "wss://e");
    assert_eq!(cfg.concurrent_sessions, 1);
    assert_eq!((cfg.nat_timeout_secs, cfg.max_backoff_secs), (10, 30));
    assert!(cfg.randomize_dtls && !cfg.enable_ipv6);
}

#[test]
fn small_rules_of_sharing() {
    assert_eq!(delay_before(0), Some(0));
    assert_eq!(delay_before(4), Some(180));
    assert_eq!(delay_before(5), None);
    assert_eq!(resume_at_startup(true, true), Resume::Start);
    assert_eq!(resume_at_startup(true, false), Resume::Clear);
    assert_eq!(resume_at_startup(false, true), Resume::Nothing);
    let patch = UnboundedSettingsPatch {
        auto_enable: Some(true),
        hidden: None,
        welcome_seen: Some(false),
    };
    assert_eq!(
        settings_writes(patch),
        [(Setting::AutoEnable, true), (Setting::WelcomeSeen, false)]
    );
    let come = Some(SharingDelta::Joined(PeerView {
        session_id: "a".into(),
        geo: Some(geo("IR", 0.0, 0.0)),
    }));
    assert_eq!(region_of(&come), Some("IR"));
    assert_eq!(region_of(&Some(joined("a"))), None);
    let mut s: Unbounded<()> = Unbounded::new();
    assert!(!s.unbounded_available_sync());
    s.set_available(true);
    assert!(s.unbounded_available_sync());
}

// ---- the timeline ----

fn started(slot: usize) -> EventView {
    EventView::AttemptStarted { slot }
}

fn come(slot: usize, id: &str) -> EventView {
    EventView::PeerConnected { slot, session_id: id.into() }
}

fn gone(slot: usize, id: &str) -> EventView {
    EventView::PeerDisconnected { slot, session_id: id.into() }
}

fn failed(slot: usize, error: &str) -> EventView {
    EventView::AttemptFailed { slot, error: error.into() }
}

/// Events emitted (either level) by a slice of actions, in order.
fn emitted(actions: &[DiagAction]) -> Vec<&DiagEvent> {
    actions
        .iter()
        .filter_map(|a| match a {
            DiagAction::Emit(ev) | DiagAction::EmitError(ev) => Some(ev),
            _ => None,
        })
        .collect()
}

#[test]
fn timeline_for_connect_disconnect() {
    let mut st = PoolDiag::new();
    let a1 = diag_for_event(&started(0), None, &mut st, 100);
    let a2 = diag_for_event(&come(0, "s1"), Some("IR"), &mut st, 130);
    assert_eq!(st.slots_filled(), 1);
    let a3 = diag_for_event(&gone(0, "s1"), None, &mut st, 1_130);
    assert_eq!(st.slots_filled(), 0);

    // Timeline kind sequence.
    let all: Vec<&DiagEvent> = [&a1, &a2, &a3].into_iter().flat_map(|a| emitted(a)).collect();
    let kinds: Vec<&str> = all.iter().map(|e| e.kind()).collect();
    assert_eq!(
        kinds,
        vec![
            "unbounded.attempt_started",
            "unbounded.peer_connected",
            "unbounded.peer_disconnected",
        ]
    );

    // Session correlation on the connect/disconnect pair, and the times.
    assert!(matches!(
        all[1],
        DiagEvent::PeerConnected { session, nat_traversal_ms: 30, region: Some(r), .. }
            if session == "s1" && r == "IR"
    ));
    assert!(matches!(
        all[2],
        DiagEvent::PeerDisconnected { session, duration_ms: 1_000, reason: "disconnected", .. }
            if session == "s1"
    ));

    // SetCtx (at connect) strictly before RemoveCtx (at disconnect).
    assert!(a2.iter().any(|a| matches!(a, DiagAction::SetCtx { session } if session == "s1")));
    assert!(a3.iter().any(|a| matches!(a, DiagAction::RemoveCtx { session } if session == "s1")));
    // The session's spans go out without error.
    assert!(a3
        .iter()
        .any(|a| matches!(a, DiagAction::PushSpans { session, error: None } if session == "s1")));
}

#[test]
fn attempt_failed_is_error_kind_only() {
    let mut st = PoolDiag::new();
    let payload = "egress tunnel failed: timed out after 10.5s connecting to the egress WebSocket";
    let actions = diag_for_event(&failed(1, payload), None, &mut st, 0);
    let evs = emitted(&actions);
    assert_eq!(evs.len(), 1);
    assert!(
        matches!(actions[0], DiagAction::EmitError(_)),
        "attempt_failed must ride the error fast-path"
    );
    assert_eq!(evs[0].kind(), "unbounded.attempt_failed");
    assert!(matches!(
        evs[0],
        DiagEvent::AttemptFailed { slot: 1, error_kind: "EgressError::ConnectTimeout" }
    ));
    // Variant path only — no payload text anywhere in the event.
    let line = format!("{:?}", evs[0]);
    assert!(!line.contains("10.5"), "payload leaked into event: {line}");
    assert!(!line.contains("connecting to"), "payload leaked into event: {line}");
}

#[test]
fn stopped_finishes_live_traces() {
    let mut st = PoolDiag::new();
    diag_for_event(&started(0), None, &mut st, 0);
    diag_for_event(&come(0, "s1"), Some("DE"), &mut st, 1);
    let actions = diag_for_event(&EventView::Stopped { slot: 0 }, None, &mut st, 2);
    assert!(
        actions
            .iter()
            .any(|a| matches!(a, DiagAction::PushSpans { session, .. } if session == "s1")),
        "stop must push the live session's spans"
    );
    assert!(
        actions
            .iter()
            .any(|a| matches!(a, DiagAction::RemoveCtx { session } if session == "s1")),
        "stop must remove the live session's trace ctx"
    );
    assert_eq!(st.slots_filled(), 0);
}

#[test]
fn no_geo_emits_geo_failed() {
    let mut st = PoolDiag::new();
    diag_for_event(&started(0), None, &mut st, 0);
    let actions = diag_for_event(&come(0, "s1"), None, &mut st, 1);
    let evs = emitted(&actions);
    let connected = evs
        .iter()
        .find(|e| e.kind() == "unbounded.peer_connected")
        .expect("peer_connected emitted");
    assert!(
        matches!(connected, DiagEvent::PeerConnected { region: None, .. }),
        "unresolved geo must omit peer_region"
    );
    let geo_failed = evs
        .iter()
        .find(|e| e.kind() == "unbounded.geo_failed")
        .expect("unresolved geo must emit geo_failed");
    assert!(matches!(geo_failed, DiagEvent::GeoFailed { reason: "resolver_none" }));
}

#[test]
fn duplicate_connect_is_deduped() {
    let mut st = PoolDiag::new();
    diag_for_event(&started(0), None, &mut st, 0);
    let first = diag_for_event(&come(0, "s1"), Some("IR"), &mut st, 1);
    assert!(!emitted(&first).is_empty());
    let dup = diag_for_event(&come(0, "s1"), None, &mut st, 2);
    assert!(dup.is_empty(), "duplicate connect must produce no actions");
    assert_eq!(st.slots_filled(), 1);
}

#[test]
fn session_ended_after_disconnect_is_noop() {
    let mut st = PoolDiag::new();
    diag_for_event(&started(0), None, &mut st, 0);
    diag_for_event(&come(0, "s1"), Some("IR"), &mut st, 1);
    let disc = diag_for_event(&gone(0, "s1"), None, &mut st, 2);
    assert!(!disc.is_empty());
    let ended = diag_for_event(
        &EventView::SessionEnded { slot: 0, session_id: "s1".into() },
        None,
        &mut st,
        3,
    );
    assert!(ended.is_empty(), "second close must produce no actions");
}

#[test]
fn attempt_failed_with_live_trace_finishes_it_with_error() {
    let mut st = PoolDiag::new();
    diag_for_event(&started(0), None, &mut st, 0);
    diag_for_event(&come(0, "s1"), Some("IR"), &mut st, 1);
    let actions = diag_for_event(
        &failed(0, "packet relay failed after 5s: peer transport failed: closed"),
        None,
        &mut st,
        2,
    );
    assert!(
        actions.iter().any(|a| matches!(
            a,
            DiagAction::PushSpans { error: Some("RelayError::Peer"), .. }
        )),
        "live trace must be finished on failure"
    );
    assert!(actions
        .iter()
        .any(|a| matches!(a, DiagAction::RemoveCtx { session } if session == "s1")));
    assert_eq!(st.slots_filled(), 0);
}

#[test]
fn a_session_that_was_missed_is_closed_out() {
    let mut st = PoolDiag::new();
    diag_for_event(&come(3, "s1"), Some("IR"), &mut st, 1);
    let actions = diag_for_event(&come(3, "s2"), Some("IR"), &mut st, 2);
    assert!(matches!(&actions[0], DiagAction::PushSpans { session, .. } if session == "s1"));
    assert!(matches!(&actions[1], DiagAction::RemoveCtx { session } if session == "s1"));
    assert!(matches!(&actions[2], DiagAction::SetCtx { session } if session == "s2"));
    assert_eq!(st.slots_filled(), 1);
}

#[test]
fn error_kind_classifies_variant_paths() {
    for (raw, kind) in [
        (
            "Freddie signaling failed: Freddie returned HTTP 503",
            "SignalingError::Http",
        ),
        (
            "Freddie signaling failed: Freddie request failed: connect refused",
            "SignalingError::Transport",
        ),
        (
            "egress tunnel failed: egress WebSocket failed: broken pipe",
            "EgressError::WebSocket",
        ),
        (
            "timed out waiting for the consumer WebRTC DataChannel",
            "PeerProxyError::NatTimeout",
        ),
        (
            "packet relay failed after 30s: egress transport failed: reset",
            "RelayError::Egress",
        ),
        (
            "Freddie returned no offer signaling response",
            "PeerProxyError::MissingResponse",
        ),
        (
            "Freddie returned Answer while Offer was required",
            "PeerProxyError::UnexpectedSignal",
        ),
        ("WebRTC failed: ice gathering", "PeerProxyError::WebRtc"),
        ("peer proxy session cancelled", "PeerProxyError::Cancelled"),
        ("something novel entirely", "unknown"),
    ] {
        assert_eq!(error_kind(raw), kind, "for {raw:?}");
    }
}

#[test]
fn the_pool_is_reported_once_a_minute() {
    assert!(!snapshot_due(0, 59_999));
    assert!(snapshot_due(0, 60_000));
    assert!(!snapshot_due(5, 0));
}
