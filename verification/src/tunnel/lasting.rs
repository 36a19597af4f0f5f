//! What a session keeps while it lasts: its keys and the handshake that it answered, whatever comes
//! between; and that it lasts as long as queries come.
use vstd::prelude::*;

use crate::table;
use crate::tunnel::dns;
use crate::tunnel::frame;
use crate::tunnel::frame::{FrameError, FrameModel, PacketModel};
use crate::tunnel::lanes;
use crate::tunnel::server;
use crate::tunnel::server::{ServerModel, SessionModel};
use crate::tunnel::session::Config;

verus! {

/// Something that happens to a server.
pub enum Event {
    /// A query comes in at a time. The exchange and the nonce are what is drawn for its answer.
    Query {
        /// The query.
        query: Seq<u8>,
        /// The time.
        now: u64,
        /// The server's ephemeral key and the shared secret, if the exchange succeeds.
        exchange: Option<(Seq<u8>, Seq<u8>)>,
        /// The nonce for the answer, if the generator gives one.
        fresh: Option<Seq<u8>>,
    },
    /// The new streams of a session are handed out.
    Targets(Seq<u8>),
    /// Bytes from a target are queued on a stream.
    Deliver(Seq<u8>, u16, Seq<u8>),
    /// The bytes that a stream received are taken.
    Take(Seq<u8>, u16),
    /// A stream is to be closed.
    Close(Seq<u8>, u16),
    /// A session is removed.
    Remove(Seq<u8>),
    /// Idle sessions are dropped.
    Sweep {
        /// The time.
        now: u64,
        /// How long a session may be idle.
        idle_ms: u64,
    },
}

/// The server with other streams in a session, if it exists.
pub open spec fn lanes_set(
    m: ServerModel,
    c: Seq<u8>,
    change: spec_fn(Seq<(u64, lanes::LaneModel)>) -> Seq<(u64, lanes::LaneModel)>,
) -> ServerModel {
    if server::has_session_of(m, c) {
        let s = server::session_of(m, c);
        server::session_set(m, c, SessionModel { lanes: change(s.lanes), ..s })
    } else {
        m
    }
}

/// The server after an event.
pub open spec fn after(m: ServerModel, e: Event) -> ServerModel {
    match e {
        Event::Query { query, now, exchange, fresh } => server::query_answered(
            m,
            query,
            now,
            exchange,
            fresh,
        ).0,
        Event::Targets(c) => lanes_set(m, c, |l| server::all_dialed(l)),
        Event::Deliver(c, sid, data) => lanes_set(m, c, |l| lanes::lane_written(l, sid, data)),
        Event::Take(c, sid) => lanes_set(m, c, |l| lanes::lane_read(l, sid)),
        Event::Close(c, sid) => lanes_set(m, c, |l| lanes::lane_closing(l, sid)),
        Event::Remove(c) => ServerModel {
            sessions: table::without(m.sessions, server::id_key(c)),
            ..m
        },
        Event::Sweep { now, idle_ms } => ServerModel {
            sessions: server::swept(m.sessions, now, idle_ms),
            ..m
        },
    }
}

/// The server after a run.
pub open spec fn run(m: ServerModel, events: Seq<Event>) -> ServerModel
    decreases events.len(),
{
    if events.len() == 0 {
        m
    } else {
        after(run(m, events.drop_last()), events.last())
    }
}

/// The session of connection id `c` is there before a run and after each of its events.
pub open spec fn lasts(m: ServerModel, events: Seq<Event>, c: Seq<u8>) -> bool {
    forall|i: int|
        0 <= i <= events.len() ==> server::has_session_of(run(m, #[trigger] events.take(i)), c)
}

/// Two states of one session: the connection id, the keys and the answered handshake are the same.
pub open spec fn same_handshake(a: SessionModel, b: SessionModel) -> bool {
    a.conn_id == b.conn_id && a.up == b.up && a.down == b.down && a.synack == b.synack
}

/// Two servers with one key pair, one zone and one configuration.
pub open spec fn same_server(a: ServerModel, b: ServerModel) -> bool {
    a.key_pair == b.key_pair && a.zone == b.zone && a.cfg == b.cfg
}

proof fn lemma_set_keeps(m: ServerModel, d: Seq<u8>, s: SessionModel, c: Seq<u8>)
    requires
        table::keyed(m.sessions),
        server::has_session_of(m, c),
        server::has_session_of(m, d) ==> same_handshake(s, server::session_of(m, d)),
    ensures
        table::keyed(server::session_set(m, d, s).sessions),
        server::has_session_of(server::session_set(m, d, s), c),
        same_handshake(
            server::session_of(server::session_set(m, d, s), c),
            server::session_of(m, c),
        ),
{
    let k = server::id_key(d);
    let o = server::id_key(c);
    table::lemma_with(m.sessions, k, s);
    if o != k {
        table::lemma_with_other(m.sessions, k, s, o);
    }
}

proof fn lemma_responded_keeps(s: SessionModel, cfg: Config, f: Option<FrameModel>, now: u64)
    ensures
        same_handshake(server::responded(s, cfg, f, now).0, s),
        server::responded(s, cfg, f, now).0.last_seen == s.last_seen,
{
}

proof fn lemma_query_keeps(
    m: ServerModel,
    query: Seq<u8>,
    now: u64,
    exchange: Option<(Seq<u8>, Seq<u8>)>,
    fresh: Option<Seq<u8>>,
    c: Seq<u8>,
)
    requires
        table::keyed(m.sessions),
        server::has_session_of(m, c),
    ensures
        ({
            let n = server::query_answered(m, query, now, exchange, fresh).0;
            &&& table::keyed(n.sessions)
            &&& server::has_session_of(n, c)
            &&& same_handshake(server::session_of(n, c), server::session_of(m, c))
            &&& same_server(n, m)
        }),
{
    if let Ok((_, data)) = dns::query_of(query, m.zone) {
        match frame::packet_of(data) {
            Ok(PacketModel::Syn { conn_id, client_eph }) => {
                if server::has_session_of(m, conn_id) {
                    lemma_set_keeps(
                        m,
                        conn_id,
                        SessionModel { last_seen: now, ..server::session_of(m, conn_id) },
                        c,
                    );
                } else if let Some((server_eph, secret)) = exchange {
                    lemma_set_keeps(
                        m,
                        conn_id,
                        server::new_session(m, conn_id, client_eph, server_eph, secret, now),
                        c,
                    );
                }
            },
            Ok(PacketModel::Data { conn_id, nonce, ciphertext }) => {
                if server::has_session_of(m, conn_id) {
                    let s = SessionModel { last_seen: now, ..server::session_of(m, conn_id) };
                    let f = crate::tunnel::session::inner_frame(
                        m.cfg.cipher,
                        s.up,
                        nonce,
                        ciphertext,
                    );
                    lemma_responded_keeps(s, m.cfg, f, now);
                    lemma_set_keeps(m, conn_id, server::responded(s, m.cfg, f, now).0, c);
                }
            },
            _ => {},
        }
    }
}

#[verifier::spinoff_prover]
#[verifier::rlimit(60)]
proof fn lemma_event_keeps(m: ServerModel, e: Event, c: Seq<u8>)
    requires
        table::keyed(m.sessions),
        server::has_session_of(m, c),
        server::has_session_of(after(m, e), c),
    ensures
        table::keyed(after(m, e).sessions),
        same_handshake(server::session_of(after(m, e), c), server::session_of(m, c)),
        same_server(after(m, e), m),
{
    let k = server::id_key(c);
    match e {
        Event::Query { query, now, exchange, fresh } => {
            lemma_query_keeps(m, query, now, exchange, fresh, c);
        },
        Event::Targets(d) => {
            if server::has_session_of(m, d) {
                let s = server::session_of(m, d);
                lemma_set_keeps(m, d, SessionModel { lanes: server::all_dialed(s.lanes), ..s }, c);
            }
        },
        Event::Deliver(d, sid, data) => {
            if server::has_session_of(m, d) {
                let s = server::session_of(m, d);
                lemma_set_keeps(
                    m,
                    d,
                    SessionModel { lanes: lanes::lane_written(s.lanes, sid, data), ..s },
                    c,
                );
            }
        },
        Event::Take(d, sid) => {
            if server::has_session_of(m, d) {
                let s = server::session_of(m, d);
                lemma_set_keeps(
                    m,
                    d,
                    SessionModel { lanes: lanes::lane_read(s.lanes, sid), ..s },
                    c,
                );
            }
        },
        Event::Close(d, sid) => {
            if server::has_session_of(m, d) {
                let s = server::session_of(m, d);
                lemma_set_keeps(
                    m,
                    d,
                    SessionModel { lanes: lanes::lane_closing(s.lanes, sid), ..s },
                    c,
                );
            }
        },
        Event::Remove(d) => {
            let gone = server::id_key(d);
            let t = table::without(m.sessions, gone);
            table::lemma_without(m.sessions, gone);
            table::lemma_rank(m.sessions, gone);
            assert forall|i: int| 0 <= i < t.len() implies m.sessions.contains(#[trigger] t[i]) by {
                let h = if table::holds(m.sessions, gone) && i >= table::rank(m.sessions, gone) {
                    i + 1
                } else {
                    i
                };
                assert(m.sessions[h] == t[i]);
            }
            table::lemma_among(m.sessions, t, k);
        },
        Event::Sweep { now, idle_ms } => {
            table::lemma_filtered(
                m.sessions,
                |e: (u64, SessionModel)| !server::stale(e.1, now, idle_ms),
            );
            table::lemma_among(m.sessions, server::swept(m.sessions, now, idle_ms), k);
        },
    }
}

/// A session keeps its keys and the handshake that it answered as long as it lasts.
pub proof fn lemma_session_keeps_its_handshake(m: ServerModel, events: Seq<Event>, c: Seq<u8>)
    requires
        table::keyed(m.sessions),
        lasts(m, events, c),
    ensures
        table::keyed(run(m, events).sessions),
        server::has_session_of(run(m, events), c),
        same_handshake(server::session_of(run(m, events), c), server::session_of(m, c)),
        same_server(run(m, events), m),
    decreases events.len(),
{
    assert(events.take(events.len() as int) =~= events);
    assert(events.take(0) =~= Seq::<Event>::empty());
    if events.len() > 0 {
        let rest = events.drop_last();
        assert forall|i: int| 0 <= i <= rest.len() implies server::has_session_of(
            run(m, #[trigger] rest.take(i)),
            c,
        ) by {
            assert(rest.take(i) =~= events.take(i));
        }
        lemma_session_keeps_its_handshake(m, rest, c);
        lemma_event_keeps(run(m, rest), events.last(), c);
    }
}

/// The query carries a handshake of connection id `c`.
pub open spec fn opens(query: Seq<u8>, zone: Seq<Seq<u8>>, c: Seq<u8>, client_eph: Seq<u8>) -> bool {
    dns::query_of(query, zone) matches Ok((_, data)) && frame::packet_of(data) == Ok::<
        PacketModel,
        FrameError,
    >(PacketModel::Syn { conn_id: c, client_eph })
}

/// A handshake that is repeated is answered as it was first, whatever came between while the session
/// lasts, so that both ends keep the same keys. It notes the time and changes nothing else: not the
/// sessions that there are, nor the session's streams.
pub proof fn lemma_repeated_handshake_is_answered_alike(
    m: ServerModel,
    query: Seq<u8>,
    c: Seq<u8>,
    client_eph: Seq<u8>,
    now: u64,
    exchange: Option<(Seq<u8>, Seq<u8>)>,
    between: Seq<Event>,
    later: u64,
    again: Option<(Seq<u8>, Seq<u8>)>,
    fresh: Option<Seq<u8>>,
)
    requires
        table::keyed(m.sessions),
        opens(query, m.zone, c, client_eph),
        server::query_answered(m, query, now, exchange, fresh).1 is Some,
        lasts(server::query_answered(m, query, now, exchange, fresh).0, between, c),
    ensures
        ({
            let (first, answer) = server::query_answered(m, query, now, exchange, fresh);
            let before = run(first, between);
            let (n, repeated) = server::query_answered(before, query, later, again, fresh);
            &&& repeated == answer
            &&& same_handshake(server::session_of(n, c), server::session_of(first, c))
            &&& server::session_of(n, c) == (SessionModel {
                last_seen: later,
                ..server::session_of(before, c)
            })
            &&& n == server::session_set(before, c, server::session_of(n, c))
            &&& table::keys(n.sessions) == table::keys(before.sessions)
        }),
{
    let first = server::query_answered(m, query, now, exchange, fresh).0;
    let k = server::id_key(c);
    let s = if server::has_session_of(m, c) {
        SessionModel { last_seen: now, ..server::session_of(m, c) }
    } else {
        let (server_eph, secret) = exchange->0;
        server::new_session(m, c, client_eph, server_eph, secret, now)
    };
    assert(first == server::session_set(m, c, s));
    table::lemma_with(m.sessions, k, s);
    lemma_session_keeps_its_handshake(first, between, c);
    let before = run(first, between);
    let t = SessionModel { last_seen: later, ..server::session_of(before, c) };
    table::lemma_with(before.sessions, k, t);
    let n = server::query_answered(before, query, later, again, fresh).0;
    assert(table::keys(n.sessions) =~= table::keys(before.sessions));
}

/// A session lasts while queries come: one that had a query, a handshake that came again among them,
/// less than `idle_ms` ago is not dropped as idle.
pub proof fn lemma_query_keeps_the_session(
    m: ServerModel,
    query: Seq<u8>,
    c: Seq<u8>,
    now: u64,
    exchange: Option<(Seq<u8>, Seq<u8>)>,
    fresh: Option<Seq<u8>>,
    later: u64,
    idle_ms: u64,
)
    requires
        table::keyed(m.sessions),
        server::has_session_of(m, c),
        dns::query_of(query, m.zone) matches Ok((_, data)) && (match frame::packet_of(data) {
            Ok(PacketModel::Syn { conn_id, .. }) => conn_id == c,
            Ok(PacketModel::Data { conn_id, .. }) => conn_id == c,
            _ => false,
        }),
        later < now + idle_ms,
        idle_ms > 0,
    ensures
        ({
            let n = server::query_answered(m, query, now, exchange, fresh).0;
            let left = after(n, Event::Sweep { now: later, idle_ms });
            &&& server::session_of(n, c).last_seen == now
            &&& server::has_session_of(left, c)
            &&& server::session_of(left, c) == server::session_of(n, c)
        }),
{
    let n = server::query_answered(m, query, now, exchange, fresh).0;
    let k = server::id_key(c);
    let (_, data) = dns::query_of(query, m.zone)->Ok_0;
    lemma_query_keeps(m, query, now, exchange, fresh, c);
    if let Ok(PacketModel::Data { nonce, ciphertext, .. }) = frame::packet_of(data) {
        let s = SessionModel { last_seen: now, ..server::session_of(m, c) };
        let f = crate::tunnel::session::inner_frame(m.cfg.cipher, s.up, nonce, ciphertext);
        lemma_responded_keeps(s, m.cfg, f, now);
        table::lemma_with(m.sessions, k, server::responded(s, m.cfg, f, now).0);
    } else {
        table::lemma_with(
            m.sessions,
            k,
            SessionModel { last_seen: now, ..server::session_of(m, c) },
        );
    }
    let t = server::swept(n.sessions, later, idle_ms);
    table::lemma_filtered(
        n.sessions,
        |e: (u64, SessionModel)| !server::stale(e.1, later, idle_ms),
    );
    let r = table::rank(n.sessions, k) as int;
    assert(t.contains(n.sessions[r]));
    let i = choose|i: int| 0 <= i < t.len() && t[i] == n.sessions[r];
    table::lemma_found(t, i);
}

} // verus!
