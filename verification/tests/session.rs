//! Sessions, end to end.
use spark::tunnel::arq;
use spark::tunnel::crypto::{server_public_from_pkcs8, ServerStatic, CONN_ID_LEN, ED25519_PUB_LEN};
use spark::tunnel::dns;
use spark::tunnel::dns::Name;
use spark::tunnel::server::Server;
use spark::tunnel::session::{AnswerOutcome, ClientSession, Config, PRIMARY_STREAM_ID};

/// A deterministic query/answer sim: carries DNS *bytes* between client and server with loss +
/// reorder + latency. (Duplication is exercised by the ARQ tests; here we focus on the poll loop.)
struct Net {
    latency: u64,
    drop_pct: u32,
    reorder_pct: u32,
    rng: u64,
    counter: u64,
    // (deliver_at, tiebreak, bytes)
    queries: Vec<(u64, u64, Vec<u8>)>,
    answers: Vec<(u64, u64, Vec<u8>)>,
}

impl Net {
    fn new(latency: u64, drop_pct: u32, reorder_pct: u32, seed: u64) -> Self {
        Net {
            latency,
            drop_pct,
            reorder_pct,
            rng: seed | 1,
            counter: 0,
            queries: Vec::new(),
            answers: Vec::new(),
        }
    }
    fn rand(&mut self) -> u32 {
        let mut x = self.rng;
        x ^= x >> 12;
        x ^= x << 25;
        x ^= x >> 27;
        self.rng = x;
        (x.wrapping_mul(0x2545F491_4F6CDD1D) >> 33) as u32
    }
    fn chance(&mut self, pct: u32) -> bool {
        self.rand() % 100 < pct
    }
    fn push(&mut self, to_server: bool, bytes: Vec<u8>, now: u64) {
        if self.chance(self.drop_pct) {
            return;
        }
        let extra = if self.chance(self.reorder_pct) {
            self.latency + (self.rand() as u64 % 40)
        } else {
            0
        };
        let at = now + self.latency + extra;
        let c = self.counter;
        self.counter += 1;
        if to_server {
            self.queries.push((at, c, bytes));
        } else {
            self.answers.push((at, c, bytes));
        }
    }
    fn due(&mut self, from_server_side: bool, now: u64) -> Vec<Vec<u8>> {
        let q = if from_server_side {
            &mut self.queries
        } else {
            &mut self.answers
        };
        let mut due: Vec<(u64, u64, Vec<u8>)> =
            q.iter().filter(|(at, _, _)| *at <= now).cloned().collect();
        q.retain(|(at, _, _)| *at > now);
        due.sort_by_key(|(at, c, _)| (*at, *c));
        due.into_iter().map(|(_, _, b)| b).collect()
    }
}

fn payload_of(len: usize) -> Vec<u8> {
    (0..len)
        .map(|i| (i as u8).wrapping_mul(53).wrapping_add(17))
        .collect()
}

/// A fresh server identity + its public key, for tests.
fn keypair() -> (Vec<u8>, [u8; ED25519_PUB_LEN]) {
    let pkcs8 = ServerStatic::generate().unwrap();
    let pubkey = server_public_from_pkcs8(&pkcs8).unwrap();
    (pkcs8, pubkey)
}

/// Drive a full echo session: client sends `payload`; the server echoes every byte back; assert the
/// client receives the echo intact. Exercises handshake + stream open + bidirectional data.
fn run_echo(net: &mut Net, payload: &[u8], max_steps: u64) -> Vec<u8> {
    let (pkcs8, pubkey) = keypair();
    let zone = "t.example.com";
    let cfg = Config {
        arq: arq::Config {
            initial_rto_ms: 80,
            min_rto_ms: 20,
            ..arq::Config::default()
        },
        query_timeout_ms: 500,
        max_query_inflight: 8,
        ..Config::default()
    };
    let mut client = ClientSession::new(&pubkey, zone, b"1.2.3.4:443", cfg.clone()).unwrap();
    let mut server = Server::new(&pkcs8, zone, cfg).unwrap();
    client.write(payload);
    client.close(); // half-close after the payload so the echo terminates

    let conn = client.conn_id();
    let mut echoed = Vec::new();
    for now in 0..max_steps {
        while let Some(q) = client.poll_query(now) {
            net.push(true, q, now);
        }
        for q in net.due(true, now) {
            if let Some(ans) = server.on_query(&q, now) {
                net.push(false, ans, now);
            }
        }
        // Server egress = echo: whatever the client sent on a stream, write back on that stream.
        if server.has_session(&conn) {
            for sid in server.streams_of(&conn) {
                let got = server.take_from_client(&conn, sid);
                if !got.is_empty() {
                    server.deliver_to_client(&conn, sid, &got);
                }
            }
        }
        for ans in net.due(false, now) {
            client.on_answer(&ans, now);
        }
        echoed.extend_from_slice(&client.read());
        if echoed.len() >= payload.len() {
            break;
        }
    }
    echoed
}

/// Drive client↔server one query/answer at a time until `done`, echoing per-stream. A tiny helper
/// for tests that need the session established without a full `Net`.
fn pump_until(
    client: &mut ClientSession,
    server: &mut Server,
    conn: &[u8; CONN_ID_LEN],
    max_steps: u64,
    done: impl Fn(&ClientSession, &Server) -> bool,
) {
    for now in 0..max_steps {
        // Drain queries into answers FIRST (so the in-flight budget fills and the drain ends),
        // then feed the answers back — processing them inline would free a slot each iteration and
        // spin forever on keepalives.
        let mut answers = Vec::new();
        while let Some(q) = client.poll_query(now) {
            if let Some(a) = server.on_query(&q, now) {
                answers.push(a);
            }
        }
        for a in answers {
            client.on_answer(&a, now);
        }
        if server.has_session(conn) {
            for sid in server.streams_of(conn) {
                let d = server.take_from_client(conn, sid);
                if !d.is_empty() {
                    server.deliver_to_client(conn, sid, &d);
                }
            }
        }
        if done(client, server) {
            return;
        }
    }
}

#[test]
fn forward_secret_handshake_then_echo() {
    // A hand-stepped handshake + one stream open + a small echo, to pin each stage.
    let (pkcs8, pubkey) = keypair();
    let zone = "t.example.com";
    let cfg = Config::default();
    let mut client = ClientSession::new(&pubkey, zone, b"1.2.3.4:443", cfg.clone()).unwrap();
    let mut server = Server::new(&pkcs8, zone, cfg).unwrap();
    client.write(b"hello world");
    let conn = client.conn_id();

    // Cleartext Syn → SynAck completes the forward-secret handshake.
    let syn = client.poll_query(0).expect("Syn query");
    let synack = server.on_query(&syn, 0).expect("SynAck answer");
    client.on_answer(&synack, 0);
    assert!(
        client.is_established(),
        "handshake completes from the server pubkey"
    );

    // Then drive: stream-1 open + the uplink echo. Drain queries into answers before feeding them
    // back (inline processing frees a slot each loop and spins on keepalives).
    let mut got = Vec::new();
    for now in 1..2000u64 {
        let mut answers = Vec::new();
        while let Some(q) = client.poll_query(now) {
            if let Some(a) = server.on_query(&q, now) {
                answers.push(a);
            }
        }
        for a in answers {
            client.on_answer(&a, now);
        }
        for sid in server.streams_of(&conn) {
            let d = server.take_from_client(&conn, sid);
            if !d.is_empty() {
                server.deliver_to_client(&conn, sid, &d);
            }
        }
        got.extend_from_slice(&client.read());
        if got.len() >= b"hello world".len() {
            break;
        }
    }
    assert_eq!(
        &got[..],
        b"hello world",
        "client receives the echo over the FS session"
    );
}

#[test]
fn wrong_server_key_never_establishes() {
    // A client holding a *different* server's public key must reject the SynAck (bad signature).
    let (pkcs8, _real_pub) = keypair();
    let (_other_pkcs8, other_pub) = keypair();
    let zone = "t.example.com";
    let cfg = Config::default();
    let mut client = ClientSession::new(&other_pub, zone, b"1.2.3.4:443", cfg.clone()).unwrap();
    let mut server = Server::new(&pkcs8, zone, cfg).unwrap();
    let syn = client.poll_query(0).unwrap();
    let synack = server.on_query(&syn, 0).unwrap();
    client.on_answer(&synack, 0);
    assert!(
        !client.is_established(),
        "a mismatched server key must not complete the handshake"
    );
}

#[test]
fn mtu_probe_round_trips() {
    let (pkcs8, pubkey) = keypair();
    let zone = "t.example.com";
    let cfg = Config::default();
    let mut client = ClientSession::new(&pubkey, zone, b"1.2.3.4:443", cfg.clone()).unwrap();
    let mut server = Server::new(&pkcs8, zone, cfg).unwrap();
    // Handshake.
    let syn = client.poll_query(0).unwrap();
    let synack = server.on_query(&syn, 0).unwrap();
    client.on_answer(&synack, 0);
    assert!(client.is_established());
    // Probe downlink at 300 bytes; the padded response round-trips and reports the target.
    let pq = client.build_mtu_probe(300).unwrap();
    let pa = server.on_query(&pq, 1).expect("probe answer");
    assert_eq!(
        client.on_answer(&pa, 1),
        AnswerOutcome::ProbeResp { target: 300 }
    );
}

#[test]
fn set_mtu_resizes_server_downlink() {
    let (pkcs8, pubkey) = keypair();
    let zone = "t.example.com";
    let cfg = Config::default();
    let mut client = ClientSession::new(&pubkey, zone, b"1.2.3.4:443", cfg.clone()).unwrap();
    let mut server = Server::new(&pkcs8, zone, cfg).unwrap();
    let conn = client.conn_id();
    // Establish + open stream 1 (so there's a stream whose segment SetMtu can resize).
    pump_until(&mut client, &mut server, &conn, 200, |c, s| {
        c.is_established() && !s.streams_of(&conn).is_empty()
    });
    let before = server.downlink_segment(&conn).expect("stream 1 open");
    assert_ne!(before, 200);
    // SetMtu caps the server's downlink segment.
    let sq = client.build_set_mtu(200).unwrap();
    server.on_query(&sq, 1_000).unwrap();
    assert_eq!(server.downlink_segment(&conn), Some(200));
}

#[test]
fn two_streams_multiplex_independently() {
    // One session, two streams to different targets, distinct payloads. A routing bug (wrong
    // StreamID on a frame, or shared ARQ state) would cross or corrupt the byte streams.
    let (pkcs8, pubkey) = keypair();
    let zone = "t.example.com";
    let cfg = Config {
        arq: arq::Config {
            initial_rto_ms: 80,
            min_rto_ms: 20,
            ..arq::Config::default()
        },
        query_timeout_ms: 500,
        max_query_inflight: 8,
        ..Config::default()
    };
    let mut client = ClientSession::new(&pubkey, zone, b"1.1.1.1:443", cfg.clone()).unwrap();
    let mut server = Server::new(&pkcs8, zone, cfg).unwrap();
    let conn = client.conn_id();

    // Distinct payloads: stream 2's bytes are stream 1's + 128, so any cross-talk shows up.
    let p1 = payload_of(3_000);
    let p2: Vec<u8> = p1.iter().map(|b| b.wrapping_add(128)).collect();

    client.write_stream(PRIMARY_STREAM_ID, &p1);
    let mut sid2: Option<u16> = None;

    let mut net = Net::new(3, 0, 0, 0x2222);
    let (mut got1, mut got2) = (Vec::new(), Vec::new());
    for now in 0..2_000_000u64 {
        if sid2.is_none() && client.is_established() {
            let s = client.open_stream(b"2.2.2.2:443");
            client.write_stream(s, &p2);
            sid2 = Some(s);
        }
        while let Some(q) = client.poll_query(now) {
            net.push(true, q, now);
        }
        for q in net.due(true, now) {
            if let Some(ans) = server.on_query(&q, now) {
                net.push(false, ans, now);
            }
        }
        for sid in server.streams_of(&conn) {
            let d = server.take_from_client(&conn, sid);
            if !d.is_empty() {
                server.deliver_to_client(&conn, sid, &d);
            }
        }
        for ans in net.due(false, now) {
            client.on_answer(&ans, now);
        }
        got1.extend_from_slice(&client.read_stream(PRIMARY_STREAM_ID));
        if let Some(s) = sid2 {
            got2.extend_from_slice(&client.read_stream(s));
        }
        if got1.len() >= p1.len() && got2.len() >= p2.len() {
            break;
        }
    }
    assert_eq!(sid2, Some(2), "second stream got the next id");
    assert_eq!(got1, p1, "stream 1 echo intact");
    assert_eq!(
        got2, p2,
        "stream 2 echo intact and not crossed with stream 1"
    );
    assert_eq!(
        server.streams_of(&conn).len(),
        2,
        "server tracks both streams"
    );
}

#[test]
fn handshake_and_echo_over_perfect_net() {
    let mut net = Net::new(5, 0, 0, 0xC0FFEE);
    let payload = payload_of(8_192);
    let echoed = run_echo(&mut net, &payload, 2_000_000);
    assert_eq!(echoed, payload);
}

#[test]
fn handshake_and_echo_over_lossy_reordering_net() {
    let mut net = Net::new(5, 20, 30, 0xBADF00D);
    let payload = payload_of(4_096);
    let echoed = run_echo(&mut net, &payload, 5_000_000);
    assert_eq!(echoed, payload);
}

#[test]
fn server_answers_nodata_for_qname_min_probe() {
    // A QNAME-minimizing resolver probes the apex (no tunnel labels) before forwarding tunnel
    // data; the server must answer NOERROR/NODATA, not drop, or the resolver SERVFAILs.
    let (pkcs8, _pub) = keypair();
    let mut server = Server::new(&pkcs8, "t.example.com", Config::default()).unwrap();
    let zone = Name::parse("t.example.com").unwrap();
    let probe = dns::build_query(0x1234, b"", &zone, 1232).unwrap();
    let ans = server
        .on_query(&probe, 0)
        .expect("benign NODATA, not a drop");
    assert_eq!(ans[2] & 0x80, 0x80, "QR set");
    assert_eq!(ans[3] & 0x0f, 0, "RCODE NOERROR");
    assert_eq!(
        u16::from_be_bytes([ans[8], ans[9]]),
        1,
        "SOA in the authority section"
    );
    // A query outside our zone is still not ours → dropped.
    let other = Name::parse("t.evil.example").unwrap();
    let q = dns::build_query(1, &[0u8; 8], &other, 1232).unwrap();
    assert!(server.on_query(&q, 0).is_none());
}

#[test]
fn server_sweeps_idle_sessions() {
    let (pkcs8, pubkey) = keypair();
    let zone = "t.example.com";
    let cfg = Config::default();
    let mut client = ClientSession::new(&pubkey, zone, b"1.2.3.4:443", cfg.clone()).unwrap();
    let mut server = Server::new(&pkcs8, zone, cfg).unwrap();
    // Handshake establishes the session at t=0.
    let syn = client.poll_query(0).unwrap();
    server.on_query(&syn, 0).unwrap();
    assert!(server.has_session(&client.conn_id()));
    // Within the idle window → kept.
    assert!(server.sweep_idle(1_000, 5_000).is_empty());
    assert!(server.has_session(&client.conn_id()));
    // Past the idle window → swept.
    let removed = server.sweep_idle(10_000, 5_000);
    assert_eq!(removed.len(), 1);
    assert!(!server.has_session(&client.conn_id()));
}

#[test]
fn server_ignores_garbage_and_wrong_zone() {
    let (pkcs8, _pub) = keypair();
    let mut server = Server::new(&pkcs8, "t.example.com", Config::default()).unwrap();
    // Random garbage is not a tunnel query.
    assert!(server.on_query(b"\x00\x01\x02not-dns", 0).is_none());
    // A well-formed query under the wrong zone is refused.
    let other = Name::parse("t.evil.example").unwrap();
    let q = dns::build_query(1, &[0u8; 40], &other, 1232).unwrap();
    assert!(server.on_query(&q, 0).is_none());
}

#[test]
fn streams_have_ids_and_go_when_they_are_over() {
    let (pkcs8, pubkey) = keypair();
    let cfg = Config::default();
    let mut client = ClientSession::new(&pubkey, "t.example.com", b"a", cfg).unwrap();
    let mut server = Server::new(&pkcs8, "t.example.com", cfg).unwrap();
    let conn = client.conn_id();
    let second = client.open_stream(b"b");
    assert_eq!(client.stream_ids(), [PRIMARY_STREAM_ID, second]);
    assert!(client.reap_closed().is_empty());
    client.close_stream(second);
    pump_until(&mut client, &mut server, &conn, 5_000, |_, s| {
        s.has_session(&conn) && s.streams_of(&conn).contains(&second)
    });
    server.close_stream(&conn, second);
    pump_until(&mut client, &mut server, &conn, 20_000, |c, _| c.is_stream_closed(second));
    assert_eq!(client.reap_closed(), [second]);
    assert_eq!(client.stream_ids(), [PRIMARY_STREAM_ID]);
}

#[test]
fn a_smaller_uplink_segment_still_carries_everything() {
    let (pkcs8, pubkey) = keypair();
    let cfg = Config::default();
    let mut client = ClientSession::new(&pubkey, "t.example.com", b"a", cfg).unwrap();
    let mut server = Server::new(&pkcs8, "t.example.com", cfg).unwrap();
    let conn = client.conn_id();
    client.set_uplink_segment(7);
    client.write(&payload_of(200));
    let mut got = Vec::new();
    for now in 0..5_000u64 {
        let mut answers = Vec::new();
        while let Some(q) = client.poll_query(now) {
            answers.extend(server.on_query(&q, now));
        }
        for a in answers {
            client.on_answer(&a, now);
        }
        if server.has_session(&conn) {
            got.extend(server.take_from_client(&conn, PRIMARY_STREAM_ID));
        }
        if got.len() == 200 {
            break;
        }
    }
    assert_eq!(got, payload_of(200));
}

#[test]
fn a_removed_session_is_gone() {
    let (pkcs8, pubkey) = keypair();
    let cfg = Config::default();
    let mut client = ClientSession::new(&pubkey, "t.example.com", b"a", cfg).unwrap();
    let mut server = Server::new(&pkcs8, "t.example.com", cfg).unwrap();
    let conn = client.conn_id();
    let syn = client.poll_query(0).unwrap();
    let first = server.on_query(&syn, 0).unwrap();
    // Asked again, the server answers as before.
    assert_eq!(server.on_query(&syn, 1).unwrap(), first);
    assert!(server.has_session(&conn));
    server.remove_session(&conn);
    assert!(!server.has_session(&conn));
    assert!(server.session_ids().is_empty());
}

#[test]
fn queries_in_flight_stay_within_the_budget() {
    let (pkcs8, pubkey) = keypair();
    let cfg = Config { max_query_inflight: 3, ..Config::default() };
    let mut client = ClientSession::new(&pubkey, "t.example.com", b"a", cfg).unwrap();
    let mut server = Server::new(&pkcs8, "t.example.com", cfg).unwrap();
    client.write(&payload_of(4_000));
    let syn = client.poll_query(0).unwrap();
    assert!(client.poll_query(0).is_none(), "one query until the handshake is complete");
    client.on_answer(&server.on_query(&syn, 0).unwrap(), 1);
    let mut sent = 0;
    while client.poll_query(2).is_some() {
        sent += 1;
    }
    assert_eq!(sent, 3);
}

#[test]
fn a_repeated_handshake_keeps_an_idle_session() {
    let (pkcs8, pubkey) = keypair();
    let cfg = Config::default();
    let mut client = ClientSession::new(&pubkey, "t.example.com", b"a", cfg).unwrap();
    let mut server = Server::new(&pkcs8, "t.example.com", cfg).unwrap();
    let conn = client.conn_id();
    let syn = client.poll_query(0).unwrap();
    let first = server.on_query(&syn, 0).unwrap();
    assert_eq!(server.on_query(&syn, 9_000).unwrap(), first);
    assert!(server.sweep_idle(10_000, 5_000).is_empty());
    assert!(server.has_session(&conn));
    // Nothing more is heard of it.
    assert_eq!(server.sweep_idle(14_000, 5_000), [conn]);
    assert!(!server.has_session(&conn));
}

#[test]
fn a_handshake_is_answered_alike_after_data() {
    let (pkcs8, pubkey) = keypair();
    let cfg = Config::default();
    let mut client = ClientSession::new(&pubkey, "t.example.com", b"a", cfg).unwrap();
    let mut server = Server::new(&pkcs8, "t.example.com", cfg).unwrap();
    let conn = client.conn_id();
    let syn = client.poll_query(0).unwrap();
    let first = server.on_query(&syn, 0).unwrap();
    client.on_answer(&first, 1);
    client.write(&payload_of(2_000));
    let mut now = 2;
    while let Some(q) = client.poll_query(now) {
        if let Some(a) = server.on_query(&q, now) {
            client.on_answer(&a, now);
        }
        now += 1;
        if now > 200 {
            break;
        }
    }
    let streams = server.streams_of(&conn);
    assert_eq!(server.on_query(&syn, now).unwrap(), first);
    assert_eq!(server.streams_of(&conn), streams);
}
