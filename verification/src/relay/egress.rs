//! What the server does with the streams of its sessions: which targets are dialed, which bytes are
//! handed to a connection, and which streams are given up.
//!
//! Sockets, queues and tasks are the caller's; this part decides. Targets, zones and addresses are never
//! kept beyond the session that they belong to.
use vstd::prelude::*;

use crate::relay::metrics;
use crate::relay::metrics::{Counts, ErrorKind, Metrics};
use crate::tunnel::addr;
use crate::tunnel::addr::{Target, TargetModel};
use crate::tunnel::crypto::{CryptoError, CONN_ID_LEN, NONCE_LEN, X25519_PUB_LEN};
use crate::tunnel::dns;
use crate::tunnel::dns::DnsError;
use crate::tunnel::lanes;
use crate::tunnel::server;
use crate::tunnel::server::{Server, ServerModel, SessionModel};
use crate::tunnel::session;
use crate::tunnel::session::{Config, SessionError};

verus! {

/// The most bytes of a stream that may wait while its connection takes none. Leaving bytes unread does
/// not hold the client back, so a stream beyond this is given up.
pub const MAX_STREAM_BACKLOG: usize = 0x4_0000;

/// Server settings.
#[derive(Debug)]
pub struct ServerConfig {
    /// The delegated zone.
    pub zone: String,
    /// The server's static key pair (PKCS#8).
    pub privkey: Vec<u8>,
    /// Session settings.
    pub session: Config,
    /// A session without a query for this long is dropped (ms).
    pub idle_timeout_ms: u64,
}

/// Whether a connection's queue takes bytes.
#[derive(Debug, Clone, Copy, PartialEq, Eq, Structural)]
pub enum Queue {
    /// There is room.
    Room,
    /// It is full.
    Full,
    /// The connection is gone.
    Closed,
}

/// What to do with the bytes that a stream has for its connection.
#[derive(Debug)]
pub enum Push {
    /// Nothing now.
    Nothing,
    /// Hand these bytes over.
    Send(Vec<u8>),
    /// Give the stream up: its connection is to be closed.
    Drop,
}

/// What to do with the bytes that a stream has for its connection.
pub enum PushModel {
    /// Nothing now.
    Nothing,
    /// Hand these bytes over.
    Send(Seq<u8>),
    /// Give the stream up.
    Drop,
}

impl View for Push {
    type V = PushModel;

    open spec fn view(&self) -> PushModel {
        match self {
            Push::Nothing => PushModel::Nothing,
            Push::Send(v) => PushModel::Send(v@),
            Push::Drop => PushModel::Drop,
        }
    }
}

/// What is known of a server and its connections.
#[verifier::ext_equal]
pub struct RelayModel {
    /// The sessions.
    pub server: ServerModel,
    /// The streams that have a connection: the number of the connection id, and the stream id.
    pub egress: Seq<(u64, u16)>,
    /// The counters.
    pub counts: Counts,
    /// When a session counts as idle (ms).
    pub idle_timeout_ms: u64,
}

/// A server and its connections.
pub struct Relay {
    server: Server,
    egress: Vec<(u64, u16)>,
    metrics: Metrics,
    idle_timeout_ms: u64,
}

impl View for Relay {
    type V = RelayModel;

    closed spec fn view(&self) -> RelayModel {
        RelayModel {
            server: self.server@,
            egress: self.egress@,
            counts: self.metrics@,
            idle_timeout_ms: self.idle_timeout_ms,
        }
    }
}

/// The streams without one of them.
pub open spec fn left_out(s: Seq<(u64, u16)>, k: u64, sid: u16) -> Seq<(u64, u16)> {
    s.filter(|e: (u64, u16)| e != (k, sid))
}

/// The streams without those of one connection id.
pub open spec fn session_left_out(s: Seq<(u64, u16)>, k: u64) -> Seq<(u64, u16)> {
    s.filter(|e: (u64, u16)| e.0 != k)
}

/// The streams without those of the first `n` connection ids.
pub open spec fn sessions_left_out(s: Seq<(u64, u16)>, ids: Seq<Seq<u8>>, n: nat) -> Seq<(u64, u16)>
    decreases n,
{
    if n == 0 || n > ids.len() {
        s
    } else {
        session_left_out(
            sessions_left_out(s, ids, (n - 1) as nat),
            server::id_key(ids[n - 1]),
        )
    }
}

/// The server after a half-close of a stream was asked for.
pub open spec fn stream_closing(m: ServerModel, c: Seq<u8>, sid: u16) -> ServerModel {
    if server::has_session_of(m, c) {
        let s = server::session_of(m, c);
        server::session_set(m, c, SessionModel { lanes: lanes::lane_closing(s.lanes, sid), ..s })
    } else {
        m
    }
}

/// The state after a stream was given up: the client sees its end, and its connection is forgotten.
pub open spec fn given_up(m: RelayModel, c: Seq<u8>, sid: u16) -> RelayModel {
    RelayModel {
        server: stream_closing(m.server, c, sid),
        egress: left_out(m.egress, server::id_key(c), sid),
        ..m
    }
}

/// The state after the first `n` of these streams were looked at, and the targets to dial: a stream whose
/// target cannot be decoded is closed.
pub open spec fn dialed(m: RelayModel, c: Seq<u8>, list: Seq<(u16, Seq<u8>)>, n: nat) -> (
    RelayModel,
    Seq<(u16, TargetModel)>,
)
    decreases n,
{
    if n == 0 || n > list.len() {
        (m, Seq::empty())
    } else {
        let (p, out) = dialed(m, c, list, (n - 1) as nat);
        let (sid, target) = list[n - 1];
        match addr::parsed(target) {
            Ok(t) => (
                RelayModel {
                    egress: left_out(p.egress, server::id_key(c), sid).push(
                        (server::id_key(c), sid),
                    ),
                    counts: Counts {
                        streams_opened: metrics::counted(p.counts.streams_opened, 1),
                        ..p.counts
                    },
                    ..p
                },
                out.push((sid, t)),
            ),
            Err(_) => (
                RelayModel {
                    server: stream_closing(p.server, c, sid),
                    counts: Counts {
                        undecodable_targets: metrics::counted(p.counts.undecodable_targets, 1),
                        ..p.counts
                    },
                    ..p
                },
                out,
            ),
        }
    }
}

/// The streams of a session that are to be dialed, and the state after they were handed out.
pub open spec fn dialed_new(m: RelayModel, c: Seq<u8>) -> (RelayModel, Seq<(u16, TargetModel)>) {
    if server::has_session_of(m.server, c) {
        let list = server::undialed(server::session_of(m.server, c).lanes);
        dialed(
            RelayModel { server: server::targets_taken(m.server, c), ..m },
            c,
            list,
            list.len(),
        )
    } else {
        (m, Seq::empty())
    }
}

/// The models of targets to dial.
pub open spec fn dial_view(v: Seq<(u16, Target)>) -> Seq<(u16, TargetModel)> {
    Seq::new(v.len(), |i: int| (v[i].0, v[i].1@))
}

/// The bytes that a stream has for its connection.
pub open spec fn waiting(m: RelayModel, c: Seq<u8>, sid: u16) -> Seq<u8> {
    if server::has_session_of(m.server, c) {
        lanes::lane_delivered(server::session_of(m.server, c).lanes, sid)
    } else {
        Seq::empty()
    }
}

/// What becomes of the bytes that a stream has for its connection. They are taken only where the queue
/// has room; a stream is given up where its connection is gone, or where the queue is full and more than
/// the most bytes wait.
pub open spec fn pushed(m: RelayModel, c: Seq<u8>, sid: u16, queue: Queue) -> (
    RelayModel,
    PushModel,
) {
    let bytes = waiting(m, c, sid);
    if bytes.len() == 0 || !m.egress.contains((server::id_key(c), sid)) {
        (m, PushModel::Nothing)
    } else {
        match queue {
            Queue::Room => {
                let s = server::session_of(m.server, c);
                (
                    RelayModel {
                        server: server::session_set(
                            m.server,
                            c,
                            SessionModel { lanes: lanes::lane_read(s.lanes, sid), ..s },
                        ),
                        counts: Counts {
                            bytes_uplink: metrics::counted(
                                m.counts.bytes_uplink,
                                bytes.len() as u64,
                            ),
                            ..m.counts
                        },
                        ..m
                    },
                    PushModel::Send(bytes),
                )
            },
            Queue::Full => if bytes.len() > MAX_STREAM_BACKLOG {
                (
                    given_up(
                        RelayModel {
                            counts: Counts {
                                backlog_drops: metrics::counted(m.counts.backlog_drops, 1),
                                ..m.counts
                            },
                            ..m
                        },
                        c,
                        sid,
                    ),
                    PushModel::Drop,
                )
            } else {
                (m, PushModel::Nothing)
            },
            Queue::Closed => (given_up(m, c, sid), PushModel::Drop),
        }
    }
}

/// The state after a query came, whose effect on the sessions is known.
pub open spec fn query_taken(m: RelayModel, after: ServerModel) -> RelayModel {
    RelayModel {
        server: after,
        counts: Counts { queries: metrics::counted(m.counts.queries, 1), ..m.counts },
        ..m
    }
}

/// The state after an answer went out.
pub open spec fn answer_noted(m: RelayModel) -> RelayModel {
    RelayModel {
        counts: Counts { answers: metrics::counted(m.counts.answers, 1), ..m.counts },
        ..m
    }
}

/// The state after a connection gave bytes for its stream.
pub open spec fn data_given(m: RelayModel, c: Seq<u8>, sid: u16, data: Seq<u8>) -> RelayModel {
    RelayModel {
        server: if server::has_session_of(m.server, c) {
            let s = server::session_of(m.server, c);
            server::session_set(
                m.server,
                c,
                SessionModel { lanes: lanes::lane_written(s.lanes, sid, data), ..s },
            )
        } else {
            m.server
        },
        counts: Counts {
            bytes_downlink: metrics::counted(m.counts.bytes_downlink, data.len() as u64),
            ..m.counts
        },
        ..m
    }
}

/// The state after a connect error.
pub open spec fn failure_noted(m: RelayModel, kind: ErrorKind) -> RelayModel {
    RelayModel {
        counts: Counts {
            connect_failures: metrics::failed_once_more(
                m.counts.connect_failures,
                metrics::label_of(kind),
            ),
            ..m.counts
        },
        ..m
    }
}

/// The state after a connect that took too long.
pub open spec fn timeout_noted(m: RelayModel) -> RelayModel {
    RelayModel {
        counts: Counts {
            connect_timeouts: metrics::counted(m.counts.connect_timeouts, 1),
            ..m.counts
        },
        ..m
    }
}

/// The state after the sessions that are idle were dropped.
pub open spec fn idle_dropped(m: RelayModel, now: u64) -> RelayModel {
    let ids = server::stale_ids(m.server.sessions, now, m.idle_timeout_ms);
    RelayModel {
        server: ServerModel {
            sessions: server::swept(m.server.sessions, now, m.idle_timeout_ms),
            ..m.server
        },
        egress: sessions_left_out(m.egress, ids, ids.len()),
        counts: Counts {
            sessions_swept: metrics::counted(m.counts.sessions_swept, ids.len() as u64),
            ..m.counts
        },
        ..m
    }
}

/// Takes a stream out.
fn leave_out(v: &mut Vec<(u64, u16)>, k: u64, sid: u16)
    ensures
        final(v)@ == left_out(old(v)@, k, sid),
{
    let ghost all = v@;
    let ghost mut seen: int = 0;
    let mut i: usize = 0;
    proof {
        reveal(Seq::filter);
        assert(all.take(0) =~= Seq::empty());
        assert(all.skip(0) =~= all);
        assert(left_out(all.take(0), k, sid) =~= Seq::empty());
    }
    while i < v.len()
        invariant
            0 <= seen <= all.len(),
            i == left_out(all.take(seen), k, sid).len(),
            v@ == left_out(all.take(seen), k, sid) + all.skip(seen),
        decreases all.len() - seen,
    {
        let ghost kept = left_out(all.take(seen), k, sid);
        proof {
            reveal(Seq::filter);
            assert(v@[i as int] == all[seen]);
            assert(all.take(seen + 1).drop_last() =~= all.take(seen));
            assert(all.take(seen + 1).last() == all[seen]);
        }
        let (a, b) = v[i];
        if a == k && b == sid {
            let _gone: (u64, u16) = v.remove(i);
            assert(v@ =~= kept + all.skip(seen + 1));
        } else {
            i = i + 1;
            assert(v@ =~= kept.push(all[seen]) + all.skip(seen + 1));
        }
        proof {
            seen = seen + 1;
        }
    }
    proof {
        assert(all.take(seen) =~= all);
        assert(v@ =~= left_out(all, k, sid));
    }
}

/// Takes the streams of a connection id out.
fn leave_session_out(v: &mut Vec<(u64, u16)>, k: u64)
    ensures
        final(v)@ == session_left_out(old(v)@, k),
{
    let ghost all = v@;
    let ghost mut seen: int = 0;
    let mut i: usize = 0;
    proof {
        reveal(Seq::filter);
        assert(all.take(0) =~= Seq::empty());
        assert(all.skip(0) =~= all);
        assert(session_left_out(all.take(0), k) =~= Seq::empty());
    }
    while i < v.len()
        invariant
            0 <= seen <= all.len(),
            i == session_left_out(all.take(seen), k).len(),
            v@ == session_left_out(all.take(seen), k) + all.skip(seen),
        decreases all.len() - seen,
    {
        let ghost kept = session_left_out(all.take(seen), k);
        proof {
            reveal(Seq::filter);
            assert(v@[i as int] == all[seen]);
            assert(all.take(seen + 1).drop_last() =~= all.take(seen));
            assert(all.take(seen + 1).last() == all[seen]);
        }
        if v[i].0 == k {
            let _gone: (u64, u16) = v.remove(i);
            assert(v@ =~= kept + all.skip(seen + 1));
        } else {
            i = i + 1;
            assert(v@ =~= kept.push(all[seen]) + all.skip(seen + 1));
        }
        proof {
            seen = seen + 1;
        }
    }
    proof {
        assert(all.take(seen) =~= all);
        assert(v@ =~= session_left_out(all, k));
    }
}

impl Relay {
    /// What every operation keeps.
    pub closed spec fn wf(&self) -> bool {
        self.server.wf() && self.metrics.wf()
    }

    /// What the laws of sessions and of counters ask of a relay holds of every one that is well formed.
    pub proof fn lemma_wf(&self)
        requires
            self.wf(),
        ensures
            server::server_ok(self@.server),
            metrics::failures_ok(self@.counts.connect_failures),
    {
        self.server.lemma_wf();
    }

    /// A server with its settings.
    pub fn new(cfg: &ServerConfig) -> (r: Result<Relay, SessionError>)
        requires
            cfg.session.arq.min_rto_ms <= cfg.session.arq.max_rto_ms,
        ensures
            ({
                let labels = dns::dotted_labels(vstd::utf8::encode_utf8(cfg.zone@));
                let accepted = crate::tunnel::crypto::ed25519_public_of(cfg.privkey@) is Some;
                match r {
                    Ok(m) => {
                        &&& accepted && dns::labels_ok(labels)
                        &&& m.wf()
                        &&& m@ == (RelayModel {
                            server: ServerModel {
                                key_pair: cfg.privkey@,
                                zone: labels,
                                cfg: cfg.session,
                                sessions: Seq::empty(),
                            },
                            egress: Seq::empty(),
                            counts: metrics::no_counts(),
                            idle_timeout_ms: cfg.idle_timeout_ms,
                        })
                    },
                    Err(SessionError::Crypto(e)) => !accepted && e == CryptoError::BadKey,
                    Err(SessionError::Dns(e)) => accepted && !dns::labels_ok(labels) && e
                        == DnsError::NameTooLong,
                }
            }),
    {
        match Server::new(cfg.privkey.as_slice(), cfg.zone.as_str(), cfg.session) {
            Ok(server) => Ok(
                Relay {
                    server,
                    egress: Vec::new(),
                    metrics: Metrics::new(),
                    idle_timeout_ms: cfg.idle_timeout_ms,
                },
            ),
            Err(e) => Err(e),
        }
    }

    /// The counters.
    pub fn metrics(&self) -> (m: &Metrics)
        requires
            self.wf(),
        ensures
            m@ == self@.counts,
            m.wf(),
    {
        &self.metrics
    }

    /// Takes a query and gives its answer, if it has one.
    pub fn on_query(&mut self, query: &[u8], now: u64) -> (r: Option<Vec<u8>>)
        requires
            old(self).wf(),
        ensures
            final(self).wf(),
            exists|
                exchange: Option<([u8; X25519_PUB_LEN], [u8; 32])>,
                fresh: Option<[u8; NONCE_LEN]>,
            |
                {
                    let (s, answer) = #[trigger] server::query_answered(
                        old(self)@.server,
                        query@,
                        now,
                        server::exchange_view(exchange),
                        session::nonce_view(fresh),
                    );
                    &&& server::exchange_fits(
                        old(self)@.server,
                        query@,
                        server::exchange_view(exchange),
                    )
                    &&& session::message_view(r) == answer
                    &&& final(self)@ == query_taken(old(self)@, s)
                },
    {
        self.metrics.query_received();
        self.server.on_query(query, now)
    }

    /// Notes that an answer went out.
    pub fn answer_sent(&mut self)
        requires
            old(self).wf(),
        ensures
            final(self).wf(),
            final(self)@ == answer_noted(old(self)@),
    {
        self.metrics.answer_sent();
    }

    /// The connection ids of all sessions.
    pub fn session_ids(&self) -> (out: Vec<[u8; CONN_ID_LEN]>)
        requires
            self.wf(),
        ensures
            out@.len() == self@.server.sessions.len(),
            forall|i: int|
                0 <= i < out@.len() ==> (#[trigger] out@[i])@
                    == self@.server.sessions[i].1.conn_id,
    {
        self.server.session_ids()
    }

    /// The stream ids of a session.
    pub fn streams_of(&self, conn_id: &[u8; CONN_ID_LEN]) -> (out: Vec<u16>)
        requires
            self.wf(),
        ensures
            out@ == if server::has_session_of(self@.server, conn_id@) {
                lanes::ids(server::session_of(self@.server, conn_id@).lanes)
            } else {
                Seq::empty()
            },
    {
        self.server.streams_of(conn_id)
    }

    /// The new streams of a session, to be dialed; each comes out once. A stream whose target cannot be
    /// decoded is closed.
    pub fn dial(&mut self, conn_id: &[u8; CONN_ID_LEN]) -> (out: Vec<(u16, Target)>)
        requires
            old(self).wf(),
        ensures
            final(self).wf(),
            (final(self)@, dial_view(out@)) == dialed_new(old(self)@, conn_id@),
    {
        let known: bool = self.server.has_session(conn_id);
        let list: Vec<(u16, Vec<u8>)> = self.server.open_targets(conn_id);
        let ghost m = self@;
        let ghost l = server::targets_view(list@);
        let mut out: Vec<(u16, Target)> = Vec::new();
        let mut i: usize = 0;
        proof {
            assert(dial_view(out@) =~= Seq::empty());
            if !known {
                assert(l =~= Seq::empty());
                assert(self@ =~= old(self)@);
            } else {
                assert(m =~= (RelayModel {
                    server: server::targets_taken(old(self)@.server, conn_id@),
                    ..old(self)@
                }));
            }
        }
        while i < list.len()
            invariant
                i <= list@.len(),
                self.wf(),
                l == server::targets_view(list@),
                (self@, dial_view(out@)) == dialed(m, conn_id@, l, i as nat),
            decreases list@.len() - i,
        {
            let sid: u16 = list[i].0;
            let ghost was = out@;
            assert(l[i as int] == (sid, list@[i as int].1@));
            match addr::parse(list[i].1.as_slice()) {
                Ok(t) => {
                    let k: u64 = server::key_of(conn_id);
                    leave_out(&mut self.egress, k, sid);
                    self.egress.push((k, sid));
                    self.metrics.stream_opened();
                    out.push((sid, t));
                    assert(dial_view(out@) =~= dial_view(was).push((sid, t@)));
                },
                Err(_) => {
                    self.server.close_stream(conn_id, sid);
                    self.metrics.undecodable_target();
                },
            }
            i = i + 1;
        }
        out
    }

    /// Whether a stream has a connection.
    fn has_egress(&self, k: u64, sid: u16) -> (r: bool)
        ensures
            r == self@.egress.contains((k, sid)),
    {
        let mut i: usize = 0;
        while i < self.egress.len()
            invariant
                i <= self.egress@.len(),
                forall|j: int| 0 <= j < i ==> self.egress@[j] != (k, sid),
            decreases self.egress@.len() - i,
        {
            let (a, b) = self.egress[i];
            if a == k && b == sid {
                assert(self@.egress[i as int] == (k, sid));
                return true;
            }
            i = i + 1;
        }
        false
    }

    /// Gives a stream up.
    fn give_up(&mut self, conn_id: &[u8; CONN_ID_LEN], sid: u16)
        requires
            old(self).wf(),
        ensures
            final(self).wf(),
            final(self)@ == given_up(old(self)@, conn_id@, sid),
    {
        self.server.close_stream(conn_id, sid);
        leave_out(&mut self.egress, server::key_of(conn_id), sid);
    }

    /// What becomes of the bytes that a stream has for its connection, whose queue is in a known state.
    pub fn push(&mut self, conn_id: &[u8; CONN_ID_LEN], sid: u16, queue: Queue) -> (r: Push)
        requires
            old(self).wf(),
        ensures
            final(self).wf(),
            (final(self)@, r@) == pushed(old(self)@, conn_id@, sid, queue),
    {
        let pending: usize = self.server.readable_from_client(conn_id, sid);
        if pending == 0 || !self.has_egress(server::key_of(conn_id), sid) {
            return Push::Nothing;
        }
        match queue {
            Queue::Room => {
                let bytes: Vec<u8> = self.server.take_from_client(conn_id, sid);
                self.metrics.uplink(bytes.len() as u64);
                Push::Send(bytes)
            },
            Queue::Full => {
                if pending > MAX_STREAM_BACKLOG {
                    self.metrics.backlog_drop();
                    self.give_up(conn_id, sid);
                    Push::Drop
                } else {
                    Push::Nothing
                }
            },
            Queue::Closed => {
                self.give_up(conn_id, sid);
                Push::Drop
            },
        }
    }

    /// Takes bytes that a connection gave for its stream.
    pub fn on_data(&mut self, conn_id: &[u8; CONN_ID_LEN], sid: u16, data: &[u8])
        requires
            old(self).wf(),
        ensures
            final(self).wf(),
            final(self)@ == data_given(old(self)@, conn_id@, sid, data@),
    {
        self.metrics.downlink(data.len() as u64);
        self.server.deliver_to_client(conn_id, sid, data);
    }

    /// Notes that a connection ended: the client sees the end of the stream.
    pub fn on_eof(&mut self, conn_id: &[u8; CONN_ID_LEN], sid: u16)
        requires
            old(self).wf(),
        ensures
            final(self).wf(),
            final(self)@ == given_up(old(self)@, conn_id@, sid),
    {
        self.give_up(conn_id, sid)
    }

    /// Notes a connect error.
    pub fn connect_failed(&mut self, kind: ErrorKind)
        requires
            old(self).wf(),
        ensures
            final(self).wf(),
            final(self)@ == failure_noted(old(self)@, kind),
    {
        self.metrics.egress_connect_failed(kind)
    }

    /// Notes a connect that took too long.
    pub fn connect_timed_out(&mut self)
        requires
            old(self).wf(),
        ensures
            final(self).wf(),
            final(self)@ == timeout_noted(old(self)@),
    {
        self.metrics.connect_timeout()
    }

    /// Drops the sessions that are idle, and gives their connection ids: the connections of their streams
    /// are to be closed.
    pub fn sweep(&mut self, now: u64) -> (out: Vec<[u8; CONN_ID_LEN]>)
        requires
            old(self).wf(),
        ensures
            final(self).wf(),
            ({
                let m = old(self)@;
                let ids = server::stale_ids(m.server.sessions, now, m.idle_timeout_ms);
                &&& server::ids_view(out@) == ids
                &&& final(self)@ == idle_dropped(m, now)
            }),
    {
        let out: Vec<[u8; CONN_ID_LEN]> = self.server.sweep_idle(now, self.idle_timeout_ms);
        let ghost ids = server::ids_view(out@);
        self.metrics.sessions_swept(out.len() as u64);
        let mut i: usize = 0;
        let ghost mid = self@;
        while i < out.len()
            invariant
                i <= out@.len(),
                ids == server::ids_view(out@),
                self.wf(),
                mid.egress == old(self)@.egress,
                self@ == (RelayModel {
                    egress: sessions_left_out(mid.egress, ids, i as nat),
                    ..mid
                }),
            decreases out@.len() - i,
        {
            assert(ids[i as int] == out@[i as int]@);
            leave_session_out(&mut self.egress, server::key_of(&out[i]));
            i = i + 1;
        }
        out
    }
}

/// A full queue loses no bytes: unless the stream is given up, bytes stay where they are until there is
/// room, and then all of them are handed over.
pub proof fn lemma_full_queue_loses_nothing(m: RelayModel, c: Seq<u8>, sid: u16)
    requires
        waiting(m, c, sid).len() <= MAX_STREAM_BACKLOG,
    ensures
        pushed(m, c, sid, Queue::Full) == (m, PushModel::Nothing),
        waiting(m, c, sid).len() > 0 && m.egress.contains((server::id_key(c), sid)) ==> pushed(
            m,
            c,
            sid,
            Queue::Room,
        ).1 == PushModel::Send(waiting(m, c, sid)),
{
}

} // verus!
