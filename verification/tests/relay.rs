//! The server: its counters, their export, and the relaying of streams.
use serde_json::Value;
use spark::relay::egress::{Push, Queue, Relay, ServerConfig, MAX_STREAM_BACKLOG};
use spark::relay::export::{
    env_num, env_opt, export_accepted, parse_status, request_head, resolve_export, status_of,
    ExportConfig, ExportEnv, ExportError, ExportFlags,
};
use spark::relay::metrics::{kind_label, ErrorKind, Metrics, Snapshot};
use spark::relay::otlp::{encode_metrics, ResourceAttrs};
use spark::tunnel::addr::{encode, IpAddress, Target};
use spark::tunnel::crypto::{server_public_from_pkcs8, CryptoError, ServerStatic, CONN_ID_LEN};
use spark::tunnel::dns::DnsError;
use spark::tunnel::session::{ClientSession, Config, SessionError, PRIMARY_STREAM_ID};

fn count_of(s: &Snapshot, label: &str) -> Option<u64> {
    s.failures().iter().find(|(l, _)| *l == label).map(|(_, n)| *n)
}

// ---- counters ----

#[test]
fn counters_accumulate() {
    let mut m = Metrics::new();
    m.query_received();
    m.query_received();
    m.answer_sent();
    m.uplink(100);
    m.downlink(250);
    m.sessions_swept(3);

    let s = m.snapshot();
    assert_eq!(s.queries, 2);
    assert_eq!(s.answers, 1);
    assert_eq!(s.bytes_uplink, 100);
    assert_eq!(s.bytes_downlink, 250);
    assert_eq!(s.sessions_swept, 3);
}

#[test]
fn the_other_counters_count_too() {
    let mut m = Metrics::new();
    m.stream_opened();
    m.undecodable_target();
    m.undecodable_target();
    m.backlog_drop();
    m.connect_timeout();
    let s = m.snapshot();
    assert_eq!(s.streams_opened, 1);
    assert_eq!(s.undecodable_targets, 2);
    assert_eq!(s.backlog_drops, 1);
    assert_eq!(s.connect_timeouts, 1);
}

#[test]
fn connect_failures_key_by_kind() {
    let mut m = Metrics::new();
    m.egress_connect_failed(ErrorKind::ConnectionRefused);
    m.egress_connect_failed(ErrorKind::ConnectionRefused);
    m.egress_connect_failed(ErrorKind::TimedOut);

    let s = m.snapshot();
    assert_eq!(count_of(&s, "connection_refused"), Some(2));
    assert_eq!(count_of(&s, "timed_out"), Some(1));
    assert_eq!(s.failures().len(), 2);
    assert_eq!(s.failures_of(ErrorKind::ConnectionRefused), 2);
    assert_eq!(s.failures_of(ErrorKind::HostUnreachable), 0);
}

#[test]
fn unmapped_kinds_collapse_into_other() {
    let mut m = Metrics::new();
    m.egress_connect_failed(ErrorKind::UnexpectedEof);
    m.egress_connect_failed(ErrorKind::WouldBlock);

    let s = m.snapshot();
    assert_eq!(count_of(&s, "other"), Some(2));
    assert_eq!(s.failures().len(), 1);
}

#[test]
fn every_label_comes_from_the_closed_kind_set() {
    let mut m = Metrics::new();
    for kind in [
        ErrorKind::ConnectionRefused,
        ErrorKind::TimedOut,
        ErrorKind::UnexpectedEof,
        ErrorKind::HostUnreachable,
    ] {
        m.egress_connect_failed(kind);
    }
    let known = [
        "connection_refused",
        "connection_reset",
        "connection_aborted",
        "timed_out",
        "not_connected",
        "addr_not_available",
        "network_unreachable",
        "host_unreachable",
        "permission_denied",
        "invalid_input",
        "other",
    ];
    for (label, _) in m.snapshot().failures() {
        assert!(known.contains(&label), "unexpected metric label: {label}");
    }
}

#[test]
fn kinds_have_their_labels() {
    assert_eq!(kind_label(ErrorKind::NetworkUnreachable), "network_unreachable");
    assert_eq!(kind_label(ErrorKind::PermissionDenied), "permission_denied");
    assert_eq!(kind_label(ErrorKind::BrokenPipe), "other");
}

// ---- encoding ----

fn res() -> ResourceAttrs {
    ResourceAttrs {
        service_name: "spark-dns-tunnel-server".into(),
        service_version: "0.1.0".into(),
        instance: "dns-1".into(),
    }
}

fn parse(bytes: &[u8]) -> Value {
    serde_json::from_slice(bytes).expect("encoder must emit valid JSON")
}

#[test]
fn envelope_shape_matches_otlp() {
    let body = encode_metrics(&res(), &Snapshot::default(), 1_000, 2_000);
    let v = parse(&body);
    let scope = &v["resourceMetrics"][0]["scopeMetrics"][0];
    assert_eq!(scope["scope"]["name"], "spark-dns-tunnel-server");
    assert!(scope["metrics"].as_array().is_some_and(|m| !m.is_empty()));
}

#[test]
fn integers_are_strings() {
    let snap = Snapshot {
        queries: 42,
        ..Default::default()
    };
    let body = encode_metrics(&res(), &snap, 1_000, 2_000);
    let v = parse(&body);
    let point = &v["resourceMetrics"][0]["scopeMetrics"][0]["metrics"][0]["sum"]["dataPoints"][0];
    assert_eq!(point["asInt"], "42");
    assert_eq!(point["timeUnixNano"], "2000");
    assert_eq!(point["startTimeUnixNano"], "1000");
}

#[test]
fn sums_are_cumulative_and_monotonic() {
    let body = encode_metrics(&res(), &Snapshot::default(), 1_000, 2_000);
    let v = parse(&body);
    for m in v["resourceMetrics"][0]["scopeMetrics"][0]["metrics"]
        .as_array()
        .expect("metrics array")
    {
        assert_eq!(m["sum"]["aggregationTemporality"], 2, "{}", m["name"]);
        assert_eq!(m["sum"]["isMonotonic"], true, "{}", m["name"]);
    }
}

#[test]
fn connect_failures_carry_their_kind() {
    let mut metrics = Metrics::new();
    for _ in 0..7 {
        metrics.egress_connect_failed(ErrorKind::ConnectionRefused);
    }
    let body = encode_metrics(&res(), &metrics.snapshot(), 1_000, 2_000);
    let v = parse(&body);
    let m = v["resourceMetrics"][0]["scopeMetrics"][0]["metrics"]
        .as_array()
        .expect("metrics array")
        .iter()
        .find(|m| m["name"] == "dnstunnel.server.egress_connect_failures")
        .expect("failures metric present when non-empty");
    let point = &m["sum"]["dataPoints"][0];
    assert_eq!(point["asInt"], "7");
    assert_eq!(point["attributes"][0]["key"], "kind");
    assert_eq!(
        point["attributes"][0]["value"]["stringValue"],
        "connection_refused"
    );
}

#[test]
fn every_emitted_attribute_value_is_from_a_closed_set() {
    let mut metrics = Metrics::new();
    metrics.egress_connect_failed(ErrorKind::HostUnreachable);
    metrics.egress_connect_failed(ErrorKind::ConnectionRefused);
    metrics.egress_connect_failed(ErrorKind::ConnectionRefused);
    let mut snap = metrics.snapshot();
    snap.queries = 5;
    let v = parse(&encode_metrics(&res(), &snap, 1_000, 2_000));

    let allowed = [
        // resource identity, all operator-chosen or compile-time
        "spark-dns-tunnel-server",
        "0.1.0",
        "dns-1",
        // the only keyed attribute: `metrics::kind_label`'s closed set
        "connection_refused",
        "connection_reset",
        "connection_aborted",
        "timed_out",
        "not_connected",
        "addr_not_available",
        "network_unreachable",
        "host_unreachable",
        "permission_denied",
        "invalid_input",
        "other",
    ];

    let mut found = Vec::new();
    collect_string_values(&v, &mut found);
    assert!(!found.is_empty(), "the walk must actually find values");
    for value in found {
        assert!(
            allowed.contains(&value.as_str()),
            "encoded metrics carry an attribute value outside the closed set: {value:?}"
        );
    }
}

/// Every `{"stringValue": ...}` anywhere in the payload, at any depth.
fn collect_string_values(v: &Value, out: &mut Vec<String>) {
    match v {
        Value::Object(map) => {
            for (k, child) in map {
                if k == "stringValue" {
                    if let Some(s) = child.as_str() {
                        out.push(s.to_string());
                    }
                } else {
                    collect_string_values(child, out);
                }
            }
        }
        Value::Array(items) => items.iter().for_each(|i| collect_string_values(i, out)),
        _ => {}
    }
}

#[test]
fn no_failure_series_when_there_are_no_failures() {
    let body = encode_metrics(&res(), &Snapshot::default(), 1_000, 2_000);
    let v = parse(&body);
    let has = v["resourceMetrics"][0]["scopeMetrics"][0]["metrics"]
        .as_array()
        .expect("metrics array")
        .iter()
        .any(|m| m["name"] == "dnstunnel.server.egress_connect_failures");
    assert!(!has);
}

#[test]
fn an_operators_label_is_escaped() {
    let odd = ResourceAttrs { instance: "a\"b\\c\n".into(), ..res() };
    let v = parse(&encode_metrics(&odd, &Snapshot::default(), 1, 2));
    let mut found = Vec::new();
    collect_string_values(&v, &mut found);
    assert!(found.contains(&"a\"b\\c\n".to_string()));
}

// ---- export ----

#[test]
fn parses_status_codes() {
    assert_eq!(parse_status(b"HTTP/1.1 200 OK\r\n").ok(), Some(200));
    assert_eq!(
        parse_status(b"HTTP/1.1 401 Unauthorized\r\n").ok(),
        Some(401)
    );
    assert_eq!(parse_status(b"HTTP/1.1 503 \r\n").ok(), Some(503));
}

#[test]
fn malformed_status_is_an_error() {
    assert!(parse_status(b"").is_err());
    assert!(parse_status(b"garbage\r\n").is_err());
    assert!(parse_status(b"HTTP/1.1 notanumber OK\r\n").is_err());
    assert!(matches!(parse_status(b""), Err(ExportError::MalformedStatus)));
}

#[test]
fn a_status_is_read_past_bytes_that_are_no_text() {
    assert_eq!(parse_status(b"HTTP/1.1 200 \xff\xfe\r\n").ok(), Some(200));
    assert_eq!(status_of("HTTP/1.1 204 No Content\r\n"), Some(204));
    assert_eq!(status_of("204"), None);
}

#[test]
fn only_success_is_accepted() {
    assert!(export_accepted(200));
    assert!(export_accepted(299));
    assert!(!export_accepted(199));
    assert!(!export_accepted(300));
}

fn flags() -> ExportFlags {
    ExportFlags {
        host: None,
        port: 443,
        key: None,
        instance: "dns-1".into(),
        interval_secs: 60,
    }
}

fn env() -> ExportEnv {
    ExportEnv {
        host: None,
        port: None,
        key: None,
        instance: None,
        interval_secs: None,
    }
}

#[test]
fn export_is_off_without_a_collector() {
    assert!(resolve_export(flags(), env()).is_none());
    let blank = ExportEnv { host: Some("".into()), ..env() };
    assert!(resolve_export(flags(), blank).is_none());
}

#[test]
fn the_environment_fills_what_the_flags_leave() {
    let e = ExportEnv {
        host: Some("collector.example".into()),
        port: Some("4318".into()),
        key: Some("k".into()),
        ..env()
    };
    let c = resolve_export(flags(), e).expect("a collector is named");
    assert_eq!(c.host, "collector.example");
    assert_eq!(c.port, 4318);
    assert_eq!(c.key.as_deref(), Some("k"));
    assert_eq!(c.instance, "dns-1");
    assert_eq!(c.interval_secs, 60);
}

#[test]
fn settings_that_are_no_numbers_do_not_count() {
    assert_eq!(env_num(Some("7".into()), 1, 100), 7);
    assert_eq!(env_num(Some("x".into()), 1, 100), 1);
    assert_eq!(env_num(Some("101".into()), 1, 100), 1);
    assert_eq!(env_num(None, 1, 100), 1);
    assert_eq!(env_opt(Some("".into())), None);
    assert_eq!(env_opt(Some("a".into())), Some("a".to_string()));
}

#[test]
fn the_request_names_the_length_and_the_key() {
    let cfg = ExportConfig {
        host: "collector.example".into(),
        port: 443,
        key: Some("secret".into()),
        instance: "dns-1".into(),
        interval_secs: 60,
    };
    let head = request_head(&cfg, 12);
    assert!(head.starts_with("POST /v1/metrics HTTP/1.1\r\n"), "{head}");
    assert!(head.contains("Host: collector.example\r\n"), "{head}");
    assert!(head.contains("Content-Length: 12\r\n"), "{head}");
    assert!(head.contains("signoz-ingestion-key: secret\r\n"), "{head}");
    assert!(head.ends_with("Connection: close\r\n\r\n"), "{head}");
    let without = request_head(&ExportConfig { key: None, ..cfg }, 12);
    assert!(!without.contains("signoz-ingestion-key"), "{without}");
}

// ---- relaying ----

struct Ends {
    client: ClientSession,
    relay: Relay,
    conn: [u8; CONN_ID_LEN],
    now: u64,
}

fn connected(target: &[u8]) -> Ends {
    let pkcs8 = ServerStatic::generate().unwrap();
    let public = server_public_from_pkcs8(&pkcs8).unwrap();
    let zone = "t.example.com";
    let client = ClientSession::new(&public, zone, target, Config::default()).unwrap();
    let relay = Relay::new(&ServerConfig {
        zone: zone.into(),
        privkey: pkcs8,
        session: Config::default(),
        idle_timeout_ms: 5_000,
    })
    .unwrap();
    let conn = client.conn_id();
    let mut ends = Ends { client, relay, conn, now: 0 };
    step(&mut ends);
    step(&mut ends);
    ends
}

fn step(e: &mut Ends) {
    let mut answers = Vec::new();
    while let Some(q) = e.client.poll_query(e.now) {
        if let Some(a) = e.relay.on_query(&q, e.now) {
            e.relay.answer_sent();
            answers.push(a);
        }
    }
    for a in answers {
        e.client.on_answer(&a, e.now);
    }
    e.now += 1;
}

fn target() -> Vec<u8> {
    encode(&Target::Ip(IpAddress::V4([127, 0, 0, 1]), 80)).unwrap()
}

#[test]
fn a_stream_is_dialed_once_and_carries_bytes_both_ways() {
    let mut e = connected(&target());
    assert!(e.client.is_established());
    assert_eq!(e.relay.session_ids(), vec![e.conn]);
    let dials = e.relay.dial(&e.conn);
    assert_eq!(
        dials,
        vec![(PRIMARY_STREAM_ID, Target::Ip(IpAddress::V4([127, 0, 0, 1]), 80))]
    );
    assert!(e.relay.dial(&e.conn).is_empty(), "a target is handed out once");

    e.client.write(b"ping");
    for _ in 0..4 {
        step(&mut e);
    }
    match e.relay.push(&e.conn, PRIMARY_STREAM_ID, Queue::Room) {
        Push::Send(bytes) => assert_eq!(bytes, b"ping"),
        other => panic!("expected bytes, got {other:?}"),
    }
    e.relay.on_data(&e.conn, PRIMARY_STREAM_ID, b"pong");
    for _ in 0..4 {
        step(&mut e);
    }
    assert_eq!(e.client.read(), b"pong");
    let s = e.relay.metrics().snapshot();
    assert_eq!(s.streams_opened, 1);
    assert_eq!(s.bytes_uplink, 4);
    assert_eq!(s.bytes_downlink, 4);
    assert_eq!(s.queries, s.answers);
}

#[test]
fn a_full_queue_loses_nothing_up_to_the_limit() {
    let mut e = connected(&target());
    e.relay.dial(&e.conn);
    e.client.write(b"wait");
    for _ in 0..4 {
        step(&mut e);
    }
    assert!(matches!(
        e.relay.push(&e.conn, PRIMARY_STREAM_ID, Queue::Full),
        Push::Nothing
    ));
    match e.relay.push(&e.conn, PRIMARY_STREAM_ID, Queue::Room) {
        Push::Send(bytes) => assert_eq!(bytes, b"wait"),
        other => panic!("expected bytes, got {other:?}"),
    }
    assert!(MAX_STREAM_BACKLOG > 4);
}

#[test]
fn a_gone_connection_gives_the_stream_up() {
    let mut e = connected(&target());
    e.relay.dial(&e.conn);
    e.client.write(b"x");
    for _ in 0..4 {
        step(&mut e);
    }
    assert!(matches!(
        e.relay.push(&e.conn, PRIMARY_STREAM_ID, Queue::Closed),
        Push::Drop
    ));
}

#[test]
fn an_undecodable_target_is_counted_and_not_dialed() {
    let mut e = connected(b"not a target");
    assert!(e.relay.dial(&e.conn).is_empty());
    assert_eq!(e.relay.metrics().snapshot().undecodable_targets, 1);
}

#[test]
fn the_end_of_a_connection_ends_the_stream() {
    let mut e = connected(&target());
    e.relay.dial(&e.conn);
    e.relay.on_eof(&e.conn, PRIMARY_STREAM_ID);
    for _ in 0..6 {
        step(&mut e);
    }
    assert!(e.client.remote_finished());
}

#[test]
fn idle_sessions_are_swept_and_counted() {
    let mut e = connected(&target());
    assert!(e.relay.sweep(1_000).is_empty());
    assert_eq!(e.relay.sweep(60_000), vec![e.conn]);
    assert_eq!(e.relay.metrics().snapshot().sessions_swept, 1);
    assert!(e.relay.session_ids().is_empty());
}

#[test]
fn connect_errors_are_counted() {
    let mut e = connected(&target());
    e.relay.connect_failed(ErrorKind::ConnectionRefused);
    e.relay.connect_timed_out();
    let s = e.relay.metrics().snapshot();
    assert_eq!(s.failures_of(ErrorKind::ConnectionRefused), 1);
    assert_eq!(s.connect_timeouts, 1);
}

#[test]
fn counters_never_fall() {
    let mut m = Metrics::new();
    m.uplink(u64::MAX - 1);
    m.uplink(1);
    assert_eq!(m.snapshot().bytes_uplink, u64::MAX);
    m.query_received();
    m.egress_connect_failed(ErrorKind::TimedOut);
    let s = m.snapshot();
    assert_eq!((s.queries, s.bytes_uplink), (1, u64::MAX));
    assert_eq!(s.failures_of(ErrorKind::TimedOut), 1);
    assert_eq!(s.failures_of(ErrorKind::NotFound), 0);
}

#[test]
fn a_relay_is_refused_a_bad_key_and_a_bad_zone() {
    let pkcs8 = ServerStatic::generate().unwrap();
    let with = |zone: &str, privkey: Vec<u8>| {
        Relay::new(&ServerConfig {
            zone: zone.into(),
            privkey,
            session: Config::default(),
            idle_timeout_ms: 5_000,
        })
        .err()
    };
    assert!(matches!(
        with("t.example.com", b"no key".to_vec()),
        Some(SessionError::Crypto(CryptoError::BadKey))
    ));
    assert!(matches!(
        with("t..example.com", pkcs8.clone()),
        Some(SessionError::Dns(DnsError::NameTooLong))
    ));
    assert!(with("t.example.com.", pkcs8).is_none());
}
