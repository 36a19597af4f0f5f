//! The session layer, server side: routes queries to sessions by connection id, each of which carries
//! many streams, and makes the answers. It does no I/O and keeps no clock.
use vstd::prelude::*;

use crate::table;
use crate::table::Table;
use crate::tunnel::arq;
use crate::tunnel::arq::Stream;
use crate::tunnel::crypto;
use crate::tunnel::crypto::{
    Aead, Cipher, CryptoError, Ephemeral, ServerStatic, CONN_ID_LEN, ED25519_PUB_LEN,
    ED25519_SIG_LEN, NONCE_LEN, X25519_PUB_LEN,
};
use crate::tunnel::dns;
use crate::tunnel::dns::{DnsError, Name};
use crate::tunnel::frame;
use crate::tunnel::frame::{Frame, FrameModel, Kind, Packet, PacketModel};
use crate::tunnel::lanes;
use crate::tunnel::lanes::{Lane, LaneModel};
use crate::tunnel::session;
use crate::tunnel::session::{Config, SessionError};

verus! {

/// The largest answer that an MTU probe is padded to.
pub const MAX_PROBE_PAYLOAD: usize = 4096;

/// A connection id as a big-endian number.
pub open spec fn id_key(c: Seq<u8>) -> u64 {
    (c[0] * 0x100_0000_0000_0000 + c[1] * 0x1_0000_0000_0000 + c[2] * 0x100_0000_0000 + c[3]
        * 0x1_0000_0000 + c[4] * 0x100_0000 + c[5] * 0x1_0000 + c[6] * 0x100 + c[7]) as u64
}

/// Connection ids with the same number are the same.
pub proof fn lemma_id_key_tells_apart(a: Seq<u8>, b: Seq<u8>)
    requires
        a.len() == CONN_ID_LEN,
        b.len() == CONN_ID_LEN,
        id_key(a) == id_key(b),
    ensures
        a == b,
{
    let a1 = a[0] * 0x100 + a[1];
    let a2 = a1 * 0x100 + a[2];
    let a3 = a2 * 0x100 + a[3];
    let a4 = a3 * 0x100 + a[4];
    let a5 = a4 * 0x100 + a[5];
    let a6 = a5 * 0x100 + a[6];
    let b1 = b[0] * 0x100 + b[1];
    let b2 = b1 * 0x100 + b[2];
    let b3 = b2 * 0x100 + b[3];
    let b4 = b3 * 0x100 + b[4];
    let b5 = b4 * 0x100 + b[5];
    let b6 = b5 * 0x100 + b[6];
    assert(id_key(a) == a6 * 0x100 + a[7]);
    assert(id_key(b) == b6 * 0x100 + b[7]);
    lemma_last_byte(a6, a[7], b6, b[7]);
    lemma_last_byte(a5, a[6], b5, b[6]);
    lemma_last_byte(a4, a[5], b4, b[5]);
    lemma_last_byte(a3, a[4], b3, b[4]);
    lemma_last_byte(a2, a[3], b2, b[3]);
    lemma_last_byte(a1, a[2], b1, b[2]);
    lemma_last_byte(a[0] as int, a[1], b[0] as int, b[1]);
    assert(a =~= b);
}

proof fn lemma_last_byte(a: int, x: u8, b: int, y: u8)
    requires
        a * 0x100 + x == b * 0x100 + y,
    ensures
        a == b,
        x == y,
{
}

/// The number of a connection id.
pub(crate) fn key_of(c: &[u8; CONN_ID_LEN]) -> (k: u64)
    ensures
        k == id_key(c@),
{
    c[0] as u64 * 0x100_0000_0000_0000 + c[1] as u64 * 0x1_0000_0000_0000 + c[2] as u64
        * 0x100_0000_0000 + c[3] as u64 * 0x1_0000_0000 + c[4] as u64 * 0x100_0000 + c[5] as u64
        * 0x1_0000 + c[6] as u64 * 0x100 + c[7] as u64
}

/// What is known of a session.
pub struct SessionModel {
    /// Connection id.
    pub conn_id: Seq<u8>,
    /// Uplink key.
    pub up: Seq<u8>,
    /// Downlink key.
    pub down: Seq<u8>,
    /// The handshake that was answered, sent again as it is where the client repeats its own.
    pub synack: Seq<u8>,
    /// The streams.
    pub lanes: Seq<(u64, LaneModel)>,
    /// The stream that was served last.
    pub rr_last: u16,
    /// When the last query came.
    pub last_seen: u64,
}

/// One session.
pub(crate) struct ServerSession {
    conn_id: [u8; CONN_ID_LEN],
    up: Aead,
    down: Aead,
    synack: Vec<u8>,
    lanes: Table<Lane>,
    rr_last: u16,
    last_seen: u64,
}

spec fn session_model(s: ServerSession) -> SessionModel {
    SessionModel {
        conn_id: s.conn_id@,
        up: s.up.key_of(),
        down: s.down.key_of(),
        synack: s.synack@,
        lanes: lanes::lanes_model(s.lanes@),
        rr_last: s.rr_last,
        last_seen: s.last_seen,
    }
}

spec fn sessions_model(s: Seq<(u64, ServerSession)>) -> Seq<(u64, SessionModel)> {
    table::mapped(s, |x: ServerSession| session_model(x))
}

/// A session stands under the number of its connection id, and its streams are well formed.
pub open spec fn session_ok(e: (u64, SessionModel)) -> bool {
    &&& e.1.conn_id.len() == CONN_ID_LEN
    &&& e.0 == id_key(e.1.conn_id)
    &&& lanes::lanes_ok(e.1.lanes)
    &&& lanes::all_small(e.1.lanes)
}

/// What is known of a server.
#[verifier::ext_equal]
pub struct ServerModel {
    /// The server's key pair.
    pub key_pair: Seq<u8>,
    /// The zone's labels.
    pub zone: Seq<Seq<u8>>,
    /// Configuration.
    pub cfg: Config,
    /// The sessions, by the number of their connection id.
    pub sessions: Seq<(u64, SessionModel)>,
}

/// What every operation of a server keeps.
pub open spec fn server_ok(m: ServerModel) -> bool {
    &&& table::keyed(m.sessions)
    &&& forall|i: int| 0 <= i < m.sessions.len() ==> session_ok(#[trigger] m.sessions[i])
    &&& m.cfg.arq.min_rto_ms <= m.cfg.arq.max_rto_ms
}

/// The server end of all sessions under one zone.
pub struct Server {
    static_key: ServerStatic,
    zone: Name,
    cfg: Config,
    sessions: Table<ServerSession>,
}

impl View for Server {
    type V = ServerModel;

    closed spec fn view(&self) -> ServerModel {
        ServerModel {
            key_pair: self.static_key.key_pair(),
            zone: self.zone@,
            cfg: self.cfg,
            sessions: sessions_model(self.sessions@),
        }
    }
}

/// There is a session of connection id `c`.
pub open spec fn has_session_of(m: ServerModel, c: Seq<u8>) -> bool {
    table::holds(m.sessions, id_key(c))
}

/// The session of connection id `c`.
pub open spec fn session_of(m: ServerModel, c: Seq<u8>) -> SessionModel {
    table::at(m.sessions, id_key(c))
}

/// There is a stream `sid` in the session of connection id `c`.
pub open spec fn has_stream_of(m: ServerModel, c: Seq<u8>, sid: u16) -> bool {
    has_session_of(m, c) && table::holds(session_of(m, c).lanes, sid as u64)
}

/// The stream `sid` of the session of connection id `c`.
pub open spec fn stream_of(m: ServerModel, c: Seq<u8>, sid: u16) -> LaneModel {
    table::at(session_of(m, c).lanes, sid as u64)
}

/// The server with a changed session.
pub open spec fn session_set(m: ServerModel, c: Seq<u8>, s: SessionModel) -> ServerModel {
    ServerModel { sessions: table::with(m.sessions, id_key(c), s), ..m }
}

/// The session is in the right place and both its keys are for the server's cipher.
spec fn ciphers_ok(s: Seq<(u64, ServerSession)>, cipher: Cipher) -> bool {
    forall|i: int|
        0 <= i < s.len() ==> (#[trigger] s[i]).1.up.cipher_of() == cipher && s[i].1.down.cipher_of()
            == cipher
}

proof fn lemma_sessions(s: Seq<(u64, ServerSession)>)
    ensures
        sessions_model(s).len() == s.len(),
        table::keyed(sessions_model(s)) == table::keyed(s),
        forall|i: int|
            0 <= i < s.len() ==> #[trigger] sessions_model(s)[i] == (s[i].0, session_model(s[i].1)),
{
    let m = sessions_model(s);
    if table::keyed(m) {
        table::lemma_same_keys(m, s, 0);
    }
    if table::keyed(s) {
        table::lemma_same_keys(s, m, 0);
    }
}

proof fn lemma_session_get(s: Seq<(u64, ServerSession)>, k: u64)
    requires
        table::keyed(sessions_model(s)),
    ensures
        table::keyed(s),
        table::holds(sessions_model(s), k) == table::holds(s, k),
        table::rank(sessions_model(s), k) == table::rank(s, k),
        table::holds(s, k) ==> table::at(sessions_model(s), k) == session_model(table::at(s, k)),
{
    let m = sessions_model(s);
    lemma_sessions(s);
    table::lemma_same_keys(s, m, k);
    if table::holds(s, k) {
        let i = table::rank(s, k) as int;
        assert(m[i] == (s[i].0, session_model(s[i].1)));
    }
}

/// Changing the entry of key `k` is putting the changed session in.
proof fn lemma_session_set(
    s: Seq<(u64, ServerSession)>,
    t: Seq<(u64, ServerSession)>,
    i: int,
    k: u64,
    cfg: Config,
)
    requires
        table::keyed(sessions_model(s)),
        forall|j: int| 0 <= j < s.len() ==> session_ok(#[trigger] sessions_model(s)[j]),
        ciphers_ok(s, cfg.cipher),
        table::holds(s, k),
        i == table::rank(s, k),
        t.len() == s.len(),
        t == s.update(i, (s[i].0, t[i].1)),
        session_ok((k, session_model(t[i].1))),
        t[i].1.up.cipher_of() == cfg.cipher,
        t[i].1.down.cipher_of() == cfg.cipher,
    ensures
        sessions_model(t) == table::with(sessions_model(s), k, session_model(t[i].1)),
        table::keyed(sessions_model(t)),
        forall|j: int| 0 <= j < t.len() ==> session_ok(#[trigger] sessions_model(t)[j]),
        ciphers_ok(t, cfg.cipher),
{
    let m = sessions_model(s);
    lemma_sessions(s);
    lemma_sessions(t);
    table::lemma_same_keys(s, m, k);
    assert(m[i] == (s[i].0, session_model(s[i].1)));
    assert(sessions_model(t) =~= m.update(i, (k, session_model(t[i].1))));
    table::lemma_same_keys(m, sessions_model(t), k);
    assert forall|j: int| 0 <= j < t.len() implies session_ok(#[trigger] sessions_model(t)[j]) by {
        if j != i {
            assert(sessions_model(t)[j] == m[j]);
        }
    }
    assert forall|j: int| 0 <= j < t.len() implies (#[trigger] t[j]).1.up.cipher_of() == cfg.cipher
        && t[j].1.down.cipher_of() == cfg.cipher by {
        if j != i {
            assert(t[j] == s[j]);
        }
    }
}

impl Server {
    /// What every operation keeps.
    pub closed spec fn wf(&self) -> bool {
        &&& server_ok(self@)
        &&& self.static_key.wf()
        &&& ciphers_ok(self.sessions@, self.cfg.cipher)
    }

    /// What the laws of sessions ask of a server holds of every one that is well formed.
    pub proof fn lemma_wf(&self)
        requires
            self.wf(),
        ensures
            server_ok(self@),
            crypto::ed25519_public_of(self@.key_pair) is Some,
    {
        self.static_key.lemma_wf();
    }

    /// A server for a zone with its static key pair in PKCS#8 form. The key pair is looked at first.
    pub fn new(server_privkey_pkcs8: &[u8], zone: &str, cfg: Config) -> (r: Result<
        Server,
        SessionError,
    >)
        requires
            cfg.arq.min_rto_ms <= cfg.arq.max_rto_ms,
        ensures
            ({
                let labels = dns::dotted_labels(vstd::utf8::encode_utf8(zone@));
                let accepted = crypto::ed25519_public_of(server_privkey_pkcs8@) is Some;
                match r {
                    Ok(s) => {
                        &&& accepted
                        &&& dns::labels_ok(labels)
                        &&& s.wf()
                        &&& s@ == (ServerModel {
                            key_pair: server_privkey_pkcs8@,
                            zone: labels,
                            cfg,
                            sessions: Seq::empty(),
                        })
                    },
                    Err(SessionError::Crypto(e)) => !accepted && e == CryptoError::BadKey,
                    Err(SessionError::Dns(e)) => accepted && !dns::labels_ok(labels) && e
                        == DnsError::NameTooLong,
                }
            }),
    {
        let static_key: ServerStatic = match ServerStatic::from_pkcs8(server_privkey_pkcs8) {
            Ok(k) => k,
            Err(e) => {
                return Err(SessionError::Crypto(e));
            },
        };
        let zone: Name = match Name::parse(zone) {
            Ok(z) => z,
            Err(e) => {
                return Err(SessionError::Dns(e));
            },
        };
        let s: Server = Server { static_key, zone, cfg, sessions: Table::new() };
        assert(s@.sessions =~= Seq::empty());
        Ok(s)
    }

    /// The server's public key.
    pub fn public_key(&self) -> (key: [u8; ED25519_PUB_LEN])
        requires
            self.wf(),
        ensures
            crypto::ed25519_public_of(self@.key_pair) == Some(key@),
    {
        self.static_key.public_key()
    }

    /// Whether there is a session of this connection id.
    pub fn has_session(&self, conn_id: &[u8; CONN_ID_LEN]) -> (r: bool)
        requires
            self.wf(),
        ensures
            r == has_session_of(self@, conn_id@),
    {
        proof {
            lemma_session_get(self.sessions@, id_key(conn_id@));
        }
        self.sessions.find(key_of(conn_id)).is_some()
    }

    /// The connection ids of all sessions, by rising number.
    pub fn session_ids(&self) -> (out: Vec<[u8; CONN_ID_LEN]>)
        requires
            self.wf(),
        ensures
            out@.len() == self@.sessions.len(),
            forall|i: int|
                0 <= i < out@.len() ==> (#[trigger] out@[i])@ == self@.sessions[i].1.conn_id,
    {
        let mut out: Vec<[u8; CONN_ID_LEN]> = Vec::new();
        let mut i: usize = 0;
        proof {
            lemma_sessions(self.sessions@);
        }
        while i < self.sessions.len()
            invariant
                i <= self.sessions@.len(),
                self@.sessions.len() == self.sessions@.len(),
                out@.len() == i,
                forall|j: int| 0 <= j < i ==> (#[trigger] out@[j])@ == self@.sessions[j].1.conn_id,
            decreases self.sessions@.len() - i,
        {
            proof {
                lemma_sessions(self.sessions@);
                assert(self@.sessions[i as int] == (
                    self.sessions@[i as int].0,
                    session_model(self.sessions@[i as int].1),
                ));
            }
            out.push(self.sessions.value(i).conn_id);
            i = i + 1;
        }
        out
    }

    /// The stream ids of a session, in order; none where there is no such session.
    pub fn streams_of(&self, conn_id: &[u8; CONN_ID_LEN]) -> (out: Vec<u16>)
        requires
            self.wf(),
        ensures
            out@ == if has_session_of(self@, conn_id@) {
                lanes::ids(session_of(self@, conn_id@).lanes)
            } else {
                Seq::empty()
            },
    {
        proof {
            lemma_session_get(self.sessions@, id_key(conn_id@));
        }
        match self.sessions.find(key_of(conn_id)) {
            Some(i) => {
                assert(session_ok(self@.sessions[i as int]));
                lanes::lane_ids(&self.sessions.value(i).lanes)
            },
            None => Vec::new(),
        }
    }
}

/// The streams that were not handed out, with their targets.
pub open spec fn undialed(s: Seq<(u64, LaneModel)>) -> Seq<(u16, Seq<u8>)>
    decreases s.len(),
{
    if s.len() == 0 {
        Seq::empty()
    } else if !s.last().1.dialed {
        undialed(s.drop_last()).push((s.last().0 as u16, s.last().1.target))
    } else {
        undialed(s.drop_last())
    }
}

/// The streams after all were handed out.
pub open spec fn all_dialed(s: Seq<(u64, LaneModel)>) -> Seq<(u64, LaneModel)> {
    table::mapped(s, |l: LaneModel| LaneModel { dialed: true, ..l })
}

/// The server after the new streams of a session were handed out.
pub open spec fn targets_taken(m: ServerModel, c: Seq<u8>) -> ServerModel {
    let s = session_of(m, c);
    session_set(m, c, SessionModel { lanes: all_dialed(s.lanes), ..s })
}

/// The models of targets.
pub open spec fn targets_view(v: Seq<(u16, Vec<u8>)>) -> Seq<(u16, Seq<u8>)> {
    Seq::new(v.len(), |i: int| (v[i].0, v[i].1@))
}

/// Hands out the streams that were not handed out, and marks them.
fn dial_all(lanes: &mut Table<Lane>) -> (out: Vec<(u16, Vec<u8>)>)
    requires
        lanes::lanes_ok(lanes::lanes_model(old(lanes)@)),
        lanes::all_small(lanes::lanes_model(old(lanes)@)),
    ensures
        lanes::lanes_ok(lanes::lanes_model(final(lanes)@)),
        lanes::all_small(lanes::lanes_model(final(lanes)@)),
        lanes::lanes_model(final(lanes)@) == all_dialed(lanes::lanes_model(old(lanes)@)),
        targets_view(out@) == undialed(lanes::lanes_model(old(lanes)@)),
{
    let ghost m = lanes::lanes_model(lanes@);
    let n: usize = lanes.len();
    let mut out: Vec<(u16, Vec<u8>)> = Vec::new();
    let mut i: usize = 0;
    proof {
        lanes::lemma_lanes(lanes@);
        assert(m.take(0) =~= Seq::empty());
        assert(targets_view(out@) =~= Seq::empty());
    }
    while i < n
        invariant
            i <= n,
            n == lanes@.len(),
            n == m.len(),
            m == lanes::lanes_model(old(lanes)@),
            lanes::lanes_ok(m),
            targets_view(out@) == undialed(m.take(i as int)),
            forall|j: int|
                0 <= j < n ==> #[trigger] lanes::lanes_model(lanes@)[j] == if j < i {
                    all_dialed(m)[j]
                } else {
                    m[j]
                },
        decreases n - i,
    {
        let ghost t = lanes::lanes_model(lanes@);
        proof {
            lanes::lemma_lanes(lanes@);
            assert(t[i as int] == (lanes@[i as int].0, lanes::lane_model(lanes@[i as int].1)));
            assert(m.take(i + 1).drop_last() =~= m.take(i as int));
            assert(m.take(i + 1).last() == m[i as int]);
            assert(m[i as int].0 <= 0xffff);
        }
        if !lanes.value(i).dialed {
            let id: u16 = lanes.key(i) as u16;
            let target: Vec<u8> = vstd::slice::slice_to_vec(lanes.value(i).target.as_slice());
            let ghost was = out@;
            out.push((id, target));
            assert(targets_view(out@) =~= targets_view(was).push((id, target@)));
            lanes.value_mut(i).dialed = true;
            proof {
                lanes::lemma_lanes(lanes@);
                assert(lanes::lanes_model(lanes@) =~= t.update(
                    i as int,
                    (m[i as int].0, LaneModel { dialed: true, ..m[i as int].1 }),
                ));
            }
        }
        i = i + 1;
    }
    proof {
        lanes::lemma_lanes(lanes@);
        assert(lanes::lanes_model(lanes@) =~= all_dialed(m));
        assert(m.take(i as int) =~= m);
        lemma_dialed_ok(m);
    }
    out
}

proof fn lemma_dialed_ok(m: Seq<(u64, LaneModel)>)
    requires
        lanes::lanes_ok(m),
        lanes::all_small(m),
    ensures
        lanes::lanes_ok(all_dialed(m)),
        lanes::all_small(all_dialed(m)),
{
    let t = all_dialed(m);
    table::lemma_same_keys(m, t, 0);
    assert forall|i: int| 0 <= i < t.len() implies (#[trigger] t[i]).0 <= 0xffff
        && arq::stream_ok(t[i].1.stream) by {
        assert(m[i].0 <= 0xffff);
    }
    assert forall|i: int| 0 <= i < t.len() implies lanes::small((#[trigger] t[i]).1.stream) by {
        assert(lanes::small(m[i].1.stream));
    }
}

impl Server {
    /// The streams of a session that were not handed out, with their targets, each handed out once.
    pub fn open_targets(&mut self, conn_id: &[u8; CONN_ID_LEN]) -> (out: Vec<(u16, Vec<u8>)>)
        requires
            old(self).wf(),
        ensures
            final(self).wf(),
            if has_session_of(old(self)@, conn_id@) {
                &&& targets_view(out@) == undialed(session_of(old(self)@, conn_id@).lanes)
                &&& final(self)@ == targets_taken(old(self)@, conn_id@)
            } else {
                out@.len() == 0 && final(self)@ == old(self)@
            },
    {
        proof {
            lemma_session_get(self.sessions@, id_key(conn_id@));
        }
        match self.sessions.find(key_of(conn_id)) {
            Some(i) => {
                assert(session_ok(self@.sessions[i as int]));
                let out: Vec<(u16, Vec<u8>)> = dial_all(&mut self.sessions.value_mut(i).lanes);
                proof {
                    lemma_session_set(
                        old(self).sessions@,
                        self.sessions@,
                        i as int,
                        id_key(conn_id@),
                        self.cfg,
                    );
                }
                out
            },
            None => Vec::new(),
        }
    }

    /// Queues bytes from a target on its stream, if it exists.
    pub fn deliver_to_client(&mut self, conn_id: &[u8; CONN_ID_LEN], sid: u16, data: &[u8])
        requires
            old(self).wf(),
        ensures
            final(self).wf(),
            final(self)@ == if has_session_of(old(self)@, conn_id@) {
                let s = session_of(old(self)@, conn_id@);
                session_set(
                    old(self)@,
                    conn_id@,
                    SessionModel { lanes: lanes::lane_written(s.lanes, sid, data@), ..s },
                )
            } else {
                old(self)@
            },
    {
        proof {
            lemma_session_get(self.sessions@, id_key(conn_id@));
        }
        match self.sessions.find(key_of(conn_id)) {
            Some(i) => {
                assert(session_ok(self@.sessions[i as int]));
                lanes::write_to(&mut self.sessions.value_mut(i).lanes, sid, data);
                proof {
                    lemma_session_set(
                        old(self).sessions@,
                        self.sessions@,
                        i as int,
                        id_key(conn_id@),
                        self.cfg,
                    );
                }
            },
            None => {},
        }
    }

    /// Takes the bytes that a stream has received from the client; none where it does not exist.
    pub fn take_from_client(&mut self, conn_id: &[u8; CONN_ID_LEN], sid: u16) -> (data: Vec<u8>)
        requires
            old(self).wf(),
        ensures
            final(self).wf(),
            data@ == if has_session_of(old(self)@, conn_id@) {
                lanes::lane_delivered(session_of(old(self)@, conn_id@).lanes, sid)
            } else {
                Seq::empty()
            },
            final(self)@ == if has_session_of(old(self)@, conn_id@) {
                let s = session_of(old(self)@, conn_id@);
                session_set(
                    old(self)@,
                    conn_id@,
                    SessionModel { lanes: lanes::lane_read(s.lanes, sid), ..s },
                )
            } else {
                old(self)@
            },
    {
        proof {
            lemma_session_get(self.sessions@, id_key(conn_id@));
        }
        match self.sessions.find(key_of(conn_id)) {
            Some(i) => {
                assert(session_ok(self@.sessions[i as int]));
                let data: Vec<u8> = lanes::read_from(&mut self.sessions.value_mut(i).lanes, sid);
                proof {
                    lemma_session_set(
                        old(self).sessions@,
                        self.sessions@,
                        i as int,
                        id_key(conn_id@),
                        self.cfg,
                    );
                }
                data
            },
            None => Vec::new(),
        }
    }

    /// Asks for a half-close of a stream, if it exists: what is queued goes out first.
    pub fn close_stream(&mut self, conn_id: &[u8; CONN_ID_LEN], sid: u16)
        requires
            old(self).wf(),
        ensures
            final(self).wf(),
            final(self)@ == if has_session_of(old(self)@, conn_id@) {
                let s = session_of(old(self)@, conn_id@);
                session_set(
                    old(self)@,
                    conn_id@,
                    SessionModel { lanes: lanes::lane_closing(s.lanes, sid), ..s },
                )
            } else {
                old(self)@
            },
    {
        proof {
            lemma_session_get(self.sessions@, id_key(conn_id@));
        }
        match self.sessions.find(key_of(conn_id)) {
            Some(i) => {
                assert(session_ok(self@.sessions[i as int]));
                lanes::close_one(&mut self.sessions.value_mut(i).lanes, sid);
                proof {
                    lemma_session_set(
                        old(self).sessions@,
                        self.sessions@,
                        i as int,
                        id_key(conn_id@),
                        self.cfg,
                    );
                }
            },
            None => {},
        }
    }

    /// How many bytes a stream has received that were not taken.
    pub fn readable_from_client(&self, conn_id: &[u8; CONN_ID_LEN], sid: u16) -> (n: usize)
        requires
            self.wf(),
        ensures
            n == if has_stream_of(self@, conn_id@, sid) {
                stream_of(self@, conn_id@, sid).stream.delivered.len()
            } else {
                0
            },
    {
        proof {
            lemma_session_get(self.sessions@, id_key(conn_id@));
        }
        if let Some(i) = self.sessions.find(key_of(conn_id)) {
            assert(session_ok(self@.sessions[i as int]));
            proof {
                lanes::lemma_lane_get(self.sessions@[i as int].1.lanes@, sid as u64);
            }
            if let Some(j) = self.sessions.value(i).lanes.find(sid as u64) {
                return self.sessions.value(i).lanes.value(j).stream.readable();
            }
        }
        0
    }

    /// Whether the client has ended its half of a stream.
    pub fn stream_remote_finished(&self, conn_id: &[u8; CONN_ID_LEN], sid: u16) -> (r: bool)
        requires
            self.wf(),
        ensures
            r == (has_stream_of(self@, conn_id@, sid) && stream_of(
                self@,
                conn_id@,
                sid,
            ).stream.remote_fin_recvd),
    {
        proof {
            lemma_session_get(self.sessions@, id_key(conn_id@));
        }
        if let Some(i) = self.sessions.find(key_of(conn_id)) {
            assert(session_ok(self@.sessions[i as int]));
            proof {
                lanes::lemma_lane_get(self.sessions@[i as int].1.lanes@, sid as u64);
            }
            if let Some(j) = self.sessions.value(i).lanes.find(sid as u64) {
                return self.sessions.value(i).lanes.value(j).stream.remote_finished();
            }
        }
        false
    }

    /// The segment size of a session's first stream, if there is one.
    pub fn downlink_segment(&self, conn_id: &[u8; CONN_ID_LEN]) -> (r: Option<usize>)
        requires
            self.wf(),
        ensures
            r == if has_session_of(self@, conn_id@) && session_of(
                self@,
                conn_id@,
            ).lanes.len() > 0 {
                Some(session_of(self@, conn_id@).lanes[0].1.stream.cfg.max_segment)
            } else {
                None
            },
    {
        proof {
            lemma_session_get(self.sessions@, id_key(conn_id@));
        }
        if let Some(i) = self.sessions.find(key_of(conn_id)) {
            proof {
                let s = self.sessions@[i as int].1.lanes@;
                lanes::lemma_lanes(s);
                if s.len() > 0 {
                    assert(lanes::lanes_model(s)[0] == (s[0].0, lanes::lane_model(s[0].1)));
                }
            }
            let sess: &ServerSession = self.sessions.value(i);
            if sess.lanes.len() > 0 {
                return Some(sess.lanes.value(0).stream.max_segment());
            }
        }
        None
    }
}

// ---- idle sessions ----

/// No query came for the session for at least `idle_ms`.
pub open spec fn stale(s: SessionModel, now: u64, idle_ms: u64) -> bool {
    arq::elapsed(now, s.last_seen) >= idle_ms
}

/// The connection ids of the sessions that are stale.
pub open spec fn stale_ids(s: Seq<(u64, SessionModel)>, now: u64, idle_ms: u64) -> Seq<Seq<u8>>
    decreases s.len(),
{
    if s.len() == 0 {
        Seq::empty()
    } else if stale(s.last().1, now, idle_ms) {
        stale_ids(s.drop_last(), now, idle_ms).push(s.last().1.conn_id)
    } else {
        stale_ids(s.drop_last(), now, idle_ms)
    }
}

/// The sessions that are not stale.
pub open spec fn swept(s: Seq<(u64, SessionModel)>, now: u64, idle_ms: u64) -> Seq<
    (u64, SessionModel),
> {
    s.filter(|e: (u64, SessionModel)| !stale(e.1, now, idle_ms))
}

/// The models of connection ids.
pub open spec fn ids_view(v: Seq<[u8; CONN_ID_LEN]>) -> Seq<Seq<u8>> {
    Seq::new(v.len(), |i: int| v[i]@)
}

/// A sweep keeps the sessions that are not stale, and no others.
pub proof fn lemma_sweep_keeps_the_live(s: Seq<(u64, SessionModel)>, now: u64, idle_ms: u64)
    requires
        table::keyed(s),
        forall|i: int| 0 <= i < s.len() ==> session_ok(#[trigger] s[i]),
    ensures
        table::keyed(swept(s, now, idle_ms)),
        forall|i: int|
            0 <= i < swept(s, now, idle_ms).len() ==> session_ok(
                #[trigger] swept(s, now, idle_ms)[i],
            ),
        forall|e: (u64, SessionModel)| #[trigger]
            swept(s, now, idle_ms).contains(e) <==> s.contains(e) && !stale(e.1, now, idle_ms),
    decreases s.len(),
{
    reveal(Seq::filter);
    let r = swept(s, now, idle_ms);
    if s.len() > 0 {
        let t = s.drop_last();
        assert forall|i: int| 0 <= i < t.len() implies session_ok(#[trigger] t[i]) by {
            assert(t[i] == s[i]);
        }
        assert(table::keyed(t)) by {
            assert forall|i: int, j: int| 0 <= i < j < t.len() implies (#[trigger] t[i]).0 < (
            #[trigger] t[j]).0 by {
                assert(s[i].0 < s[j].0);
            }
        }
        lemma_sweep_keeps_the_live(t, now, idle_ms);
        let u = swept(t, now, idle_ms);
        assert forall|x: (u64, SessionModel)| #[trigger] r.contains(x) implies s.contains(x)
            && !stale(x.1, now, idle_ms) by {
            let k = choose|k: int| 0 <= k < r.len() && r[k] == x;
            if k < u.len() {
                assert(u[k] == x);
                assert(u.contains(x));
                let n = choose|n: int| 0 <= n < t.len() && t[n] == x;
                assert(s[n] == x);
            } else {
                assert(s[s.len() - 1] == x);
            }
        }
        assert forall|x: (u64, SessionModel)|
            s.contains(x) && !stale(x.1, now, idle_ms) implies #[trigger] r.contains(x) by {
            let n = choose|n: int| 0 <= n < s.len() && s[n] == x;
            if n < t.len() {
                assert(t[n] == x);
                assert(t.contains(x));
                assert(u.contains(x));
                let k = choose|k: int| 0 <= k < u.len() && u[k] == x;
                assert(r[k] == x);
            } else {
                assert(r[r.len() - 1] == x);
            }
        }
        assert forall|i: int| 0 <= i < r.len() implies session_ok(#[trigger] r[i]) by {
            assert(r.contains(r[i]));
            let n = choose|n: int| 0 <= n < s.len() && s[n] == r[i];
            assert(session_ok(s[n]));
        }
        assert forall|i: int, j: int| 0 <= i < j < r.len() implies (#[trigger] r[i]).0 < (
        #[trigger] r[j]).0 by {
            if j < u.len() {
                assert(u[i] == r[i] && u[j] == r[j]);
            } else {
                assert(u[i] == r[i]);
                assert(u.contains(u[i]));
                let n = choose|n: int| 0 <= n < t.len() && t[n] == u[i];
                assert(s[n] == u[i]);
                assert(s[n].0 < s[s.len() - 1].0);
            }
        }
    }
}

impl Server {
    /// Removes a session, if it exists.
    pub fn remove_session(&mut self, conn_id: &[u8; CONN_ID_LEN])
        requires
            old(self).wf(),
        ensures
            final(self).wf(),
            final(self)@ == (ServerModel {
                sessions: table::without(old(self)@.sessions, id_key(conn_id@)),
                ..old(self)@
            }),
    {
        let ghost k = id_key(conn_id@);
        let ghost s = self.sessions@;
        proof {
            lemma_session_get(s, k);
            table::lemma_mapped(s, |x: ServerSession| session_model(x), k);
            table::lemma_without(sessions_model(s), k);
            table::lemma_rank(s, k);
        }
        let _gone: Option<ServerSession> = self.sessions.remove(key_of(conn_id));
        proof {
            let t = self.sessions@;
            let r = table::rank(s, k) as int;
            lemma_sessions(s);
            lemma_sessions(t);
            assert(sessions_model(t) == table::without(sessions_model(s), k));
            assert forall|i: int| 0 <= i < t.len() implies session_ok(
                #[trigger] sessions_model(t)[i],
            ) && t[i].1.up.cipher_of() == self.cfg.cipher && t[i].1.down.cipher_of()
                == self.cfg.cipher by {
                let h = if table::holds(s, k) && i >= r {
                    i + 1
                } else {
                    i
                };
                assert(t[i] == s[h]);
                assert(session_ok(sessions_model(s)[h]));
            }
        }
    }

    /// Drops the sessions for which no query came for at least `idle_ms`, and gives their connection
    /// ids.
    pub fn sweep_idle(&mut self, now: u64, idle_ms: u64) -> (out: Vec<[u8; CONN_ID_LEN]>)
        requires
            old(self).wf(),
        ensures
            final(self).wf(),
            ids_view(out@) == stale_ids(old(self)@.sessions, now, idle_ms),
            final(self)@ == (ServerModel {
                sessions: swept(old(self)@.sessions, now, idle_ms),
                ..old(self)@
            }),
    {
        let ghost all = self@.sessions;
        let ghost mut seen: int = 0;
        let mut out: Vec<[u8; CONN_ID_LEN]> = Vec::new();
        let mut i: usize = 0;
        proof {
            reveal(Seq::filter);
            lemma_sessions(self.sessions@);
            assert(all.take(0) =~= Seq::empty());
            assert(all.skip(0) =~= all);
            assert(swept(all.take(0), now, idle_ms) =~= Seq::empty());
            assert(ids_view(out@) =~= Seq::empty());
            assert(self@.sessions =~= swept(all.take(0), now, idle_ms) + all.skip(0));
        }
        while i < self.sessions.len()
            invariant
                0 <= seen <= all.len(),
                all == old(self)@.sessions,
                self.cfg == old(self).cfg,
                self.static_key == old(self).static_key,
                self.zone == old(self).zone,
                ciphers_ok(self.sessions@, self.cfg.cipher),
                i == swept(all.take(seen), now, idle_ms).len(),
                self@.sessions == swept(all.take(seen), now, idle_ms) + all.skip(seen),
                ids_view(out@) == stale_ids(all.take(seen), now, idle_ms),
            decreases all.len() - seen,
        {
            let ghost kept = swept(all.take(seen), now, idle_ms);
            let ghost held = self.sessions@;
            proof {
                reveal(Seq::filter);
                lemma_sessions(held);
                assert(self@.sessions[i as int] == all[seen]);
                assert(self@.sessions[i as int] == (
                    held[i as int].0,
                    session_model(held[i as int].1),
                ));
                assert(all.take(seen + 1).drop_last() =~= all.take(seen));
                assert(all.take(seen + 1).last() == all[seen]);
            }
            if now.saturating_sub(self.sessions.value(i).last_seen) >= idle_ms {
                let ghost was = out@;
                out.push(self.sessions.value(i).conn_id);
                assert(ids_view(out@) =~= ids_view(was).push(all[seen].1.conn_id));
                let _gone: (u64, ServerSession) = self.sessions.take(i);
                proof {
                    lemma_sessions(self.sessions@);
                    assert forall|k: int| 0 <= k < self.sessions@.len() implies #[trigger]
                        self@.sessions[k] == (kept + all.skip(seen + 1))[k] by {
                        let h = if k < i {
                            k
                        } else {
                            k + 1
                        };
                        assert(sessions_model(held)[h] == (held[h].0, session_model(held[h].1)));
                        assert(self.sessions@[k] == held[h]);
                    }
                    assert(self@.sessions =~= kept + all.skip(seen + 1));
                    assert forall|k: int| 0 <= k < self.sessions@.len() implies (
                    #[trigger] self.sessions@[k]).1.up.cipher_of() == self.cfg.cipher
                        && self.sessions@[k].1.down.cipher_of() == self.cfg.cipher by {
                        let h = if k < i {
                            k
                        } else {
                            k + 1
                        };
                        assert(self.sessions@[k] == held[h]);
                    }
                }
            } else {
                i = i + 1;
                assert(self@.sessions =~= kept.push(all[seen]) + all.skip(seen + 1));
            }
            proof {
                seen = seen + 1;
            }
        }
        proof {
            lemma_sessions(self.sessions@);
            assert(seen == all.len());
            assert(all.take(seen) =~= all);
            assert(swept(all, now, idle_ms) + all.skip(seen) =~= swept(all, now, idle_ms));
            lemma_sweep_keeps_the_live(all, now, idle_ms);
        }
        out
    }
}

// ---- queries ----

/// The answer to a query that carries `packet`, where the query holds a question.
pub open spec fn answer_with(query: Seq<u8>, packet: Seq<u8>, edns_udp: u16) -> Option<Seq<u8>> {
    match dns::question_end_of(query) {
        Ok(end) => Some(dns::answer_message(query, end, packet, edns_udp)),
        Err(_) => None,
    }
}

/// The answer without data to a query under the zone, where the query holds a question.
pub open spec fn nodata_for(m: ServerModel, query: Seq<u8>) -> Option<Seq<u8>> {
    match dns::question_end_of(query) {
        Ok(end) => Some(dns::nodata_message(query, end, m.zone, m.cfg.edns_udp)),
        Err(_) => None,
    }
}

/// The size that an MTU probe is answered with.
pub open spec fn probe_size(payload: Seq<u8>) -> u16 {
    match session::u16_of(payload) {
        Some(t) => if t < 2 {
            2
        } else if t > MAX_PROBE_PAYLOAD {
            MAX_PROBE_PAYLOAD as u16
        } else {
            t
        },
        None => 2,
    }
}

/// The answer to an MTU probe: its size, padded to that size.
pub open spec fn probe_reply(payload: Seq<u8>) -> FrameModel {
    let size = probe_size(payload);
    session::control_frame(
        Kind::MtuProbeResp,
        None,
        crate::tunnel::wire::be16(size) + Seq::new((size - 2) as nat, |i: int| 0u8),
    )
}

/// The tuning of new streams.
pub open spec fn down_arq(cfg: Config) -> arq::Config {
    arq::Config { max_segment: session::downlink_size(cfg.edns_udp) as usize, ..cfg.arq }
}

/// The next frame of the session's streams in turn.
pub open spec fn polled_down(s: SessionModel, now: u64) -> (SessionModel, Option<FrameModel>) {
    let (t, sent) = lanes::next_turn(s.lanes, s.rr_last, now);
    match sent {
        Some((id, f)) => (SessionModel { lanes: t, rr_last: id, ..s }, Some(f)),
        None => (SessionModel { lanes: t, ..s }, None),
    }
}

/// What a frame from the client does to its session, and the frame that answers it. A probe and an
/// opening have answers of their own; anything else is answered with the next frame of the streams. A
/// frame that did not open or parse does nothing.
pub open spec fn responded(s: SessionModel, cfg: Config, f: Option<FrameModel>, now: u64) -> (
    SessionModel,
    Option<FrameModel>,
) {
    match f {
        None => polled_down(s, now),
        Some(f) => match f.kind {
            Kind::MtuProbe => (s, Some(probe_reply(f.payload))),
            Kind::SetMtu => polled_down(
                match session::u16_of(f.payload) {
                    Some(size) => SessionModel {
                        lanes: lanes::all_resized(s.lanes, size as usize),
                        ..s
                    },
                    None => s,
                },
                now,
            ),
            Kind::Syn => match f.stream_id {
                Some(sid) => (
                    SessionModel {
                        lanes: if table::holds(s.lanes, sid as u64) {
                            s.lanes
                        } else {
                            table::with(
                                s.lanes,
                                sid as u64,
                                lanes::fresh_lane(sid, down_arq(cfg), f.payload, true),
                            )
                        },
                        ..s
                    },
                    Some(session::control_frame(Kind::SynAck, Some(sid), Seq::empty())),
                ),
                None => polled_down(s, now),
            },
            Kind::KeepAlive => polled_down(s, now),
            _ => polled_down(
                match f.stream_id {
                    Some(sid) => SessionModel {
                        lanes: lanes::routed(s.lanes, sid, f, now),
                        ..s
                    },
                    None => s,
                },
                now,
            ),
        },
    }
}

/// What a data packet does, and its answer. `fresh` is the nonce for the answer, if the generator gave
/// one.
pub open spec fn data_answered(
    m: ServerModel,
    query: Seq<u8>,
    c: Seq<u8>,
    nonce: Seq<u8>,
    ciphertext: Seq<u8>,
    now: u64,
    fresh: Option<Seq<u8>>,
) -> (ServerModel, Option<Seq<u8>>) {
    if !has_session_of(m, c) {
        (m, nodata_for(m, query))
    } else {
        let s = SessionModel { last_seen: now, ..session_of(m, c) };
        let f = session::inner_frame(m.cfg.cipher, s.up, nonce, ciphertext);
        let (t, reply) = responded(s, m.cfg, f, now);
        (
            session_set(m, c, t),
            match reply {
                None => answer_with(query, Seq::empty(), m.cfg.edns_udp),
                Some(r) => match fresh {
                    Some(n) => answer_with(
                        query,
                        session::sealed_packet(m.cfg.cipher, s.down, c, n, r),
                        m.cfg.edns_udp,
                    ),
                    None => None,
                },
            },
        )
    }
}

/// The session that a handshake sets up, from the server's ephemeral key and the shared secret.
pub open spec fn new_session(
    m: ServerModel,
    c: Seq<u8>,
    client_eph: Seq<u8>,
    server_eph: Seq<u8>,
    secret: Seq<u8>,
    now: u64,
) -> SessionModel {
    let t = session::transcript_of(client_eph, server_eph, c);
    let (up, down) = session::session_keys(t, secret);
    SessionModel {
        conn_id: c,
        up,
        down,
        synack: frame::synack_bytes(
            c,
            server_eph,
            crypto::ed25519_sign_of(m.key_pair, session::signed_of(t)),
        ),
        lanes: Seq::empty(),
        rr_last: 0,
        last_seen: now,
    }
}

/// What a handshake does, and its answer. `exchange` is the server's ephemeral key and the shared
/// secret, if the exchange succeeded. A session that exists answers as it did first, and notes the time.
pub open spec fn syn_answered(
    m: ServerModel,
    query: Seq<u8>,
    c: Seq<u8>,
    client_eph: Seq<u8>,
    now: u64,
    exchange: Option<(Seq<u8>, Seq<u8>)>,
) -> (ServerModel, Option<Seq<u8>>) {
    if has_session_of(m, c) {
        (
            session_set(m, c, SessionModel { last_seen: now, ..session_of(m, c) }),
            answer_with(query, session_of(m, c).synack, m.cfg.edns_udp),
        )
    } else {
        match exchange {
            Some((server_eph, secret)) => {
                let s = new_session(m, c, client_eph, server_eph, secret, now);
                (session_set(m, c, s), answer_with(query, s.synack, m.cfg.edns_udp))
            },
            None => (m, None),
        }
    }
}

/// The exchange of a handshake was made with the client's ephemeral key, so that the client gets its
/// secret too.
pub open spec fn exchange_fits(
    m: ServerModel,
    query: Seq<u8>,
    exchange: Option<(Seq<u8>, Seq<u8>)>,
) -> bool {
    match (dns::query_of(query, m.zone), exchange) {
        (Ok((_, data)), Some((server_eph, secret))) => match frame::packet_of(data) {
            Ok(PacketModel::Syn { client_eph, .. }) => crypto::exchanged(
                client_eph,
                server_eph,
                secret,
            ),
            _ => true,
        },
        _ => true,
    }
}

/// What a query does, and its answer: none where it is not under the zone; one without data where it
/// carries no packet that a server takes.
pub open spec fn query_answered(
    m: ServerModel,
    query: Seq<u8>,
    now: u64,
    exchange: Option<(Seq<u8>, Seq<u8>)>,
    fresh: Option<Seq<u8>>,
) -> (ServerModel, Option<Seq<u8>>) {
    match dns::query_of(query, m.zone) {
        Err(DnsError::WrongZone) => (m, None),
        Err(_) => (m, nodata_for(m, query)),
        Ok((_, data)) => match frame::packet_of(data) {
            Ok(PacketModel::Syn { conn_id, client_eph }) => syn_answered(
                m,
                query,
                conn_id,
                client_eph,
                now,
                exchange,
            ),
            Ok(PacketModel::Data { conn_id, nonce, ciphertext }) => data_answered(
                m,
                query,
                conn_id,
                nonce,
                ciphertext,
                now,
                fresh,
            ),
            _ => (m, nodata_for(m, query)),
        },
    }
}

proof fn lemma_resized_ok(m: Seq<(u64, LaneModel)>, size: u16)
    requires
        lanes::all_small(m),
    ensures
        lanes::all_small(lanes::all_resized(m, size as usize)),
{
    let t = lanes::all_resized(m, size as usize);
    assert forall|i: int| 0 <= i < t.len() implies lanes::small((#[trigger] t[i]).1.stream) by {
        assert(lanes::small(m[i].1.stream));
        assert forall|k: int| 0 <= k < t[i].1.stream.inflight.len() implies (
        #[trigger] t[i].1.stream.inflight[k]).data.len() <= 0xffff by {
            assert(m[i].1.stream.inflight[k].data.len() <= 0xffff);
        }
    }
}

proof fn lemma_routed_ok(m: Seq<(u64, LaneModel)>, sid: u16, f: FrameModel, now: u64)
    requires
        lanes::lanes_ok(m),
        lanes::all_small(m),
    ensures
        lanes::all_small(lanes::routed(m, sid, f, now)),
{
    if table::holds(m, sid as u64) {
        let i = table::rank(m, sid as u64) as int;
        let l = table::at(m, sid as u64);
        assert(lanes::small(m[i].1.stream) && arq::stream_ok(m[i].1.stream));
        lanes::lemma_frame_keeps_small(l.stream, f, now);
        lemma_with_small(
            m,
            sid as u64,
            LaneModel { stream: arq::frame_taken(l.stream, f, now), ..l },
        );
    }
}

proof fn lemma_with_small(m: Seq<(u64, LaneModel)>, k: u64, l: LaneModel)
    requires
        lanes::lanes_ok(m),
        lanes::all_small(m),
        lanes::small(l.stream),
    ensures
        lanes::all_small(table::with(m, k, l)),
{
    table::lemma_rank(m, k);
    let t = table::with(m, k, l);
    let r = table::rank(m, k) as int;
    assert forall|i: int| 0 <= i < t.len() implies lanes::small((#[trigger] t[i]).1.stream) by {
        if i == r {
        } else if table::holds(m, k) || i < r {
            assert(t[i] == m[i]);
        } else {
            assert(t[i] == m[i - 1]);
        }
    }
}

/// The session's streams are well formed.
spec fn lanes_wf(s: ServerSession) -> bool {
    &&& lanes::lanes_ok(lanes::lanes_model(s.lanes@))
    &&& lanes::all_small(lanes::lanes_model(s.lanes@))
}

/// The part of a session that its frames leave alone.
spec fn same_keys(a: ServerSession, b: ServerSession) -> bool {
    a.conn_id == b.conn_id && a.up == b.up && a.down == b.down && a.synack == b.synack
}

/// The answer to an MTU probe.
fn make_probe_reply(payload: &[u8]) -> (f: Frame)
    ensures
        f@ == probe_reply(payload@),
        f.payload@.len() <= MAX_PROBE_PAYLOAD,
{
    let size: u16 = match session::read_u16(payload) {
        Some(t) => if t < 2 {
            2
        } else if t as usize > MAX_PROBE_PAYLOAD {
            MAX_PROBE_PAYLOAD as u16
        } else {
            t
        },
        None => 2,
    };
    let mut out: Vec<u8> = Vec::new();
    crate::tunnel::wire::put16(&mut out, size);
    let ghost head = crate::tunnel::wire::be16(size);
    assert(out@ =~= head);
    while out.len() < size as usize
        invariant
            2 <= out@.len() <= size,
            head.len() == 2,
            out@ == head + Seq::new((out@.len() - 2) as nat, |i: int| 0u8),
        decreases size - out@.len(),
    {
        let ghost was = out@;
        out.push(0);
        assert(out@ =~= head + Seq::new((out@.len() - 2) as nat, |i: int| 0u8));
    }
    session::make_control(Kind::MtuProbeResp, None, out)
}

impl ServerSession {
    /// The next frame of the streams in turn.
    fn poll_downlink(&mut self, now: u64) -> (r: Option<Frame>)
        requires
            lanes_wf(*old(self)),
        ensures
            lanes_wf(*final(self)),
            same_keys(*final(self), *old(self)),
            (session_model(*final(self)), arq::frame_view(r)) == polled_down(
                session_model(*old(self)),
                now,
            ),
            r matches Some(f) ==> f.payload@.len() <= 0xffff,
    {
        let ghost m = lanes::lanes_model(self.lanes@);
        proof {
            lanes::lemma_turn_keeps_small(m, lanes::start_after(m, self.rr_last), 0, now);
        }
        match lanes::next_frame(&mut self.lanes, self.rr_last, now) {
            Some((id, f)) => {
                self.rr_last = id;
                Some(f)
            },
            None => None,
        }
    }

    /// Takes a frame from the client and gives the frame that answers it.
    fn respond(&mut self, cfg: &Config, f: Option<Frame>, now: u64) -> (r: Option<Frame>)
        requires
            lanes_wf(*old(self)),
            cfg.arq.min_rto_ms <= cfg.arq.max_rto_ms,
        ensures
            lanes_wf(*final(self)),
            same_keys(*final(self), *old(self)),
            (session_model(*final(self)), arq::frame_view(r)) == responded(
                session_model(*old(self)),
                *cfg,
                arq::frame_view(f),
                now,
            ),
            r matches Some(x) ==> x.payload@.len() <= 0xffff,
    {
        let f: Frame = match f {
            Some(f) => f,
            None => {
                return self.poll_downlink(now);
            },
        };
        match f.kind {
            Kind::MtuProbe => {
                return Some(make_probe_reply(f.payload.as_slice()));
            },
            Kind::SetMtu => {
                if let Some(size) = session::read_u16(f.payload.as_slice()) {
                    proof {
                        lemma_resized_ok(lanes::lanes_model(self.lanes@), size);
                    }
                    lanes::resize_all(&mut self.lanes, size as usize);
                }
            },
            Kind::Syn => {
                if let Some(sid) = f.stream_id {
                    self.open_lane(cfg, sid, f.payload);
                    return Some(session::make_control(Kind::SynAck, Some(sid), Vec::new()));
                }
            },
            Kind::KeepAlive => {},
            _ => {
                if let Some(sid) = f.stream_id {
                    proof {
                        lemma_routed_ok(lanes::lanes_model(self.lanes@), sid, f@, now);
                    }
                    lanes::route(&mut self.lanes, sid, &f, now);
                }
            },
        }
        self.poll_downlink(now)
    }

    /// Opens stream `sid` towards `target` where it does not exist.
    fn open_lane(&mut self, cfg: &Config, sid: u16, target: Vec<u8>)
        requires
            lanes_wf(*old(self)),
            cfg.arq.min_rto_ms <= cfg.arq.max_rto_ms,
        ensures
            lanes_wf(*final(self)),
            same_keys(*final(self), *old(self)),
            session_model(*final(self)) == (SessionModel {
                lanes: if table::holds(session_model(*old(self)).lanes, sid as u64) {
                    session_model(*old(self)).lanes
                } else {
                    table::with(
                        session_model(*old(self)).lanes,
                        sid as u64,
                        lanes::fresh_lane(sid, down_arq(*cfg), target@, true),
                    )
                },
                ..session_model(*old(self))
            }),
    {
        proof {
            lanes::lemma_lane_get(self.lanes@, sid as u64);
        }
        if self.lanes.find(sid as u64).is_none() {
            let tuning: arq::Config = arq::Config {
                max_segment: session::downlink_segment(cfg.edns_udp),
                ..cfg.arq
            };
            let lane: Lane = Lane {
                stream: Stream::new(sid, tuning, 0),
                target,
                open: true,
                dialed: false,
                last_open_ms: None,
            };
            proof {
                lanes::lemma_lane_put(self.lanes@, sid as u64, lane);
                lemma_with_small(
                    lanes::lanes_model(self.lanes@),
                    sid as u64,
                    lanes::lane_model(lane),
                );
            }
            self.lanes.put(sid as u64, lane);
        }
    }
}

/// An exchange with a given ephemeral key: its public key and the shared secret, which the client gets
/// too; nothing where the client's key gives no secret.
pub fn exchange_with(eph: Ephemeral, client_eph: &[u8; X25519_PUB_LEN]) -> (r: Option<
    ([u8; X25519_PUB_LEN], [u8; 32]),
>)
    ensures
        exchange_view(r) == match crypto::x25519_secret_of(eph.key(), client_eph@) {
            Some(secret) => Some((crypto::x25519_public_of(eph.key()), secret)),
            None => None,
        },
        r matches Some((public, secret)) ==> crypto::exchanged(client_eph@, public@, secret@),
{
    let public: [u8; X25519_PUB_LEN] = eph.public();
    match eph.agree(client_eph) {
        Ok(secret) => Some((public, secret)),
        Err(_) => None,
    }
}

/// An exchange with a fresh ephemeral key. The key is random, so nothing is said of which one it is; what
/// is returned for each key is [`exchange_with`].
fn exchange_keys(client_eph: &[u8; X25519_PUB_LEN]) -> (r: Option<
    ([u8; X25519_PUB_LEN], [u8; 32]),
>)
    ensures
        r matches Some((public, secret)) ==> crypto::exchanged(client_eph@, public@, secret@),
{
    match Ephemeral::generate() {
        Ok(eph) => exchange_with(eph, client_eph),
        Err(_) => None,
    }
}

/// The model of an exchange.
pub open spec fn exchange_view(x: Option<([u8; X25519_PUB_LEN], [u8; 32])>) -> Option<
    (Seq<u8>, Seq<u8>),
> {
    match x {
        Some((a, b)) => Some((a@, b@)),
        None => None,
    }
}

impl Server {
    /// The answer that carries `packet`.
    fn answer(&self, query: &[u8], packet: &[u8]) -> (r: Option<Vec<u8>>)
        ensures
            session::message_view(r) == answer_with(query@, packet@, self@.cfg.edns_udp),
    {
        match dns::build_answer(query, packet, self.cfg.edns_udp) {
            Ok(a) => Some(a),
            Err(_) => None,
        }
    }

    /// The answer without data.
    fn nodata(&self, query: &[u8]) -> (r: Option<Vec<u8>>)
        ensures
            session::message_view(r) == nodata_for(self@, query@),
    {
        match dns::build_nodata(query, &self.zone, self.cfg.edns_udp) {
            Ok(a) => Some(a),
            Err(_) => None,
        }
    }

    /// Answers a handshake with a given exchange of keys: a new session is set up and its keys are
    /// bound to the transcript, which the server signs. A session that exists answers as it did first,
    /// and notes the time.
    pub fn on_syn_with(
        &mut self,
        query: &[u8],
        conn_id: &[u8; CONN_ID_LEN],
        client_eph: &[u8; X25519_PUB_LEN],
        now: u64,
        exchange: Option<([u8; X25519_PUB_LEN], [u8; 32])>,
    ) -> (r: Option<Vec<u8>>)
        requires
            old(self).wf(),
        ensures
            final(self).wf(),
            (final(self)@, session::message_view(r)) == syn_answered(
                old(self)@,
                query@,
                conn_id@,
                client_eph@,
                now,
                exchange_view(exchange),
            ),
            !has_session_of(old(self)@, conn_id@) ==> (exchange matches Some((eph, _)) ==> ({
                let msg = session::signed_of(
                    session::transcript_of(client_eph@, eph@, conn_id@),
                );
                crypto::ed25519_verify_of(
                    crypto::ed25519_public_of(final(self)@.key_pair)->0,
                    msg,
                    crypto::ed25519_sign_of(final(self)@.key_pair, msg),
                )
            })),
    {
        let ghost k = id_key(conn_id@);
        proof {
            lemma_session_get(self.sessions@, k);
        }
        if let Some(i) = self.sessions.find(key_of(conn_id)) {
            let answer: Option<Vec<u8>> = self.answer(
                query,
                self.sessions.value(i).synack.as_slice(),
            );
            let ghost s = self.sessions@;
            self.sessions.value_mut(i).last_seen = now;
            proof {
                assert(sessions_model(s)[i as int] == (s[i as int].0, session_model(s[i as int].1)));
                lemma_session_set(s, self.sessions@, i as int, k, self.cfg);
            }
            return answer;
        }
        match exchange {
            None => None,
            Some((server_eph, secret)) => {
                let t: Vec<u8> = session::transcript(client_eph, &server_eph, conn_id);
                let msg: Vec<u8> = session::signed_msg(t.as_slice());
                let sig: [u8; ED25519_SIG_LEN] = self.static_key.sign(msg.as_slice());
                let keys: crypto::SessionKeys = crypto::derive_session_keys_ecdh(
                    secret.as_slice(),
                    t.as_slice(),
                );
                let up: Aead = match Aead::new(self.cfg.cipher, &keys.up) {
                    Ok(a) => a,
                    Err(_) => {
                        return None;
                    },
                };
                let down: Aead = match Aead::new(self.cfg.cipher, &keys.down) {
                    Ok(a) => a,
                    Err(_) => {
                        return None;
                    },
                };
                let synack: Vec<u8> = frame::build_synack(conn_id, &server_eph, &sig);
                let answer: Option<Vec<u8>> = self.answer(query, synack.as_slice());
                let sess: ServerSession = ServerSession {
                    conn_id: *conn_id,
                    up,
                    down,
                    synack,
                    lanes: Table::new(),
                    rr_last: 0,
                    last_seen: now,
                };
                let ghost s = self.sessions@;
                self.sessions.put(key_of(conn_id), sess);
                proof {
                    let n = new_session(
                        old(self)@,
                        conn_id@,
                        client_eph@,
                        server_eph@,
                        secret@,
                        now,
                    );
                    assert(lanes::lanes_model(sess.lanes@) =~= Seq::empty());
                    assert(session_model(sess) == n);
                    lemma_session_put(s, k, sess, self.cfg);
                }
                answer
            },
        }
    }

    /// Answers a data packet with a given nonce for the answer.
    pub fn on_data_with(
        &mut self,
        query: &[u8],
        conn_id: &[u8; CONN_ID_LEN],
        nonce: &[u8; NONCE_LEN],
        ciphertext: &[u8],
        now: u64,
        fresh: Option<[u8; NONCE_LEN]>,
    ) -> (r: Option<Vec<u8>>)
        requires
            old(self).wf(),
        ensures
            final(self).wf(),
            (final(self)@, session::message_view(r)) == data_answered(
                old(self)@,
                query@,
                conn_id@,
                nonce@,
                ciphertext@,
                now,
                session::nonce_view(fresh),
            ),
    {
        let ghost k = id_key(conn_id@);
        proof {
            lemma_session_get(self.sessions@, k);
        }
        let i: usize = match self.sessions.find(key_of(conn_id)) {
            Some(i) => i,
            None => {
                return self.nodata(query);
            },
        };
        assert(session_ok(self@.sessions[i as int]));
        assert(self.sessions@[i as int].1.up.cipher_of() == self.cfg.cipher);
        let f: Option<Frame> = match frame::open_frame(
            &self.sessions.value(i).up,
            nonce,
            ciphertext,
        ) {
            Ok(f) => Some(f),
            Err(_) => None,
        };
        let reply: Option<Frame> = step_session(
            self.sessions.value_mut(i),
            &self.cfg,
            f,
            now,
        );
        proof {
            lemma_session_set(old(self).sessions@, self.sessions@, i as int, k, self.cfg);
        }
        match reply {
            None => {
                let none: Vec<u8> = Vec::new();
                assert(none@ =~= Seq::<u8>::empty());
                self.answer(query, none.as_slice())
            },
            Some(reply) => match fresh {
                Some(n) => {
                    let packet: Vec<u8> = frame::seal_short(
                        &self.sessions.value(i).down,
                        conn_id,
                        &n,
                        &reply,
                    );
                    self.answer(query, packet.as_slice())
                },
                None => None,
            },
        }
    }

    /// Answers a query: none where it is not under the zone, one without data where it carries nothing
    /// that a server takes. Keys and nonces are random.
    pub fn on_query(&mut self, query: &[u8], now: u64) -> (r: Option<Vec<u8>>)
        requires
            old(self).wf(),
        ensures
            final(self).wf(),
            exists|
                exchange: Option<([u8; X25519_PUB_LEN], [u8; 32])>,
                fresh: Option<[u8; NONCE_LEN]>,
            |
                exchange_fits(old(self)@, query@, exchange_view(exchange)) && (
                final(self)@,
                session::message_view(r),
                ) == #[trigger] query_answered(
                    old(self)@,
                    query@,
                    now,
                    exchange_view(exchange),
                    session::nonce_view(fresh),
                ),
    {
        let ghost no_exchange: Option<([u8; X25519_PUB_LEN], [u8; 32])> = None;
        let ghost no_nonce: Option<[u8; NONCE_LEN]> = None;
        let parsed: dns::Query = match dns::parse_query(query, &self.zone) {
            Ok(q) => q,
            Err(e) => {
                let r: Option<Vec<u8>> = match e {
                    DnsError::WrongZone => None,
                    _ => self.nodata(query),
                };
                assert((self@, session::message_view(r)) == query_answered(
                    old(self)@,
                    query@,
                    now,
                    exchange_view(no_exchange),
                    session::nonce_view(no_nonce),
                ));
                return r;
            },
        };
        match frame::parse_packet(parsed.data.as_slice()) {
            Ok(Packet::Syn { conn_id, client_eph }) => {
                let exchange: Option<([u8; X25519_PUB_LEN], [u8; 32])> = if self.has_session(
                    &conn_id,
                ) {
                    None
                } else {
                    exchange_keys(&client_eph)
                };
                let r: Option<Vec<u8>> = self.on_syn_with(
                    query,
                    &conn_id,
                    &client_eph,
                    now,
                    exchange,
                );
                assert(exchange_fits(old(self)@, query@, exchange_view(exchange)));
                assert((self@, session::message_view(r)) == query_answered(
                    old(self)@,
                    query@,
                    now,
                    exchange_view(exchange),
                    session::nonce_view(no_nonce),
                ));
                r
            },
            Ok(Packet::Data { conn_id, nonce, ciphertext }) => {
                let fresh: Option<[u8; NONCE_LEN]> = session::draw_nonce();
                let r: Option<Vec<u8>> = self.on_data_with(
                    query,
                    &conn_id,
                    &nonce,
                    ciphertext,
                    now,
                    fresh,
                );
                assert((self@, session::message_view(r)) == query_answered(
                    old(self)@,
                    query@,
                    now,
                    exchange_view(no_exchange),
                    session::nonce_view(fresh),
                ));
                r
            },
            _ => {
                let r: Option<Vec<u8>> = self.nodata(query);
                assert((self@, session::message_view(r)) == query_answered(
                    old(self)@,
                    query@,
                    now,
                    exchange_view(no_exchange),
                    session::nonce_view(no_nonce),
                ));
                r
            },
        }
    }
}

/// Notes the time of a query and takes its frame.
fn step_session(s: &mut ServerSession, cfg: &Config, f: Option<Frame>, now: u64) -> (r: Option<
    Frame,
>)
    requires
        lanes_wf(*old(s)),
        cfg.arq.min_rto_ms <= cfg.arq.max_rto_ms,
    ensures
        lanes_wf(*final(s)),
        same_keys(*final(s), *old(s)),
        (session_model(*final(s)), arq::frame_view(r)) == responded(
            SessionModel { last_seen: now, ..session_model(*old(s)) },
            *cfg,
            arq::frame_view(f),
            now,
        ),
        r matches Some(x) ==> x.payload@.len() <= 0xffff,
{
    s.last_seen = now;
    s.respond(cfg, f, now)
}

proof fn lemma_session_put(
    s: Seq<(u64, ServerSession)>,
    k: u64,
    x: ServerSession,
    cfg: Config,
)
    requires
        table::keyed(sessions_model(s)),
        forall|j: int| 0 <= j < s.len() ==> session_ok(#[trigger] sessions_model(s)[j]),
        ciphers_ok(s, cfg.cipher),
        session_ok((k, session_model(x))),
        x.up.cipher_of() == cfg.cipher,
        x.down.cipher_of() == cfg.cipher,
    ensures
        sessions_model(table::with(s, k, x)) == table::with(
            sessions_model(s),
            k,
            session_model(x),
        ),
        table::keyed(sessions_model(table::with(s, k, x))),
        forall|j: int|
            0 <= j < table::with(s, k, x).len() ==> session_ok(
                #[trigger] sessions_model(table::with(s, k, x))[j],
            ),
        ciphers_ok(table::with(s, k, x), cfg.cipher),
{
    let f = |x: ServerSession| session_model(x);
    let t = table::with(s, k, x);
    lemma_sessions(s);
    lemma_sessions(t);
    table::lemma_mapped(s, f, k);
    table::lemma_with(s, k, x);
    table::lemma_rank(s, k);
    assert(table::mapped(t, f) == table::with(table::mapped(s, f), k, f(x)));
    let r = table::rank(s, k) as int;
    assert forall|j: int| 0 <= j < t.len() implies session_ok(#[trigger] sessions_model(t)[j]) && t[j].1.up.cipher_of() == cfg.cipher && t[j].1.down.cipher_of() == cfg.cipher by {
        if j == r {
            assert(t[j] == (k, x));
        } else if table::holds(s, k) || j < r {
            assert(t[j] == s[j]);
            assert(session_ok(sessions_model(s)[j]));
        } else {
            assert(t[j] == s[j - 1]);
            assert(session_ok(sessions_model(s)[j - 1]));
        }
    }
    assert forall|j: int| 0 <= j < t.len() implies (#[trigger] t[j]).1.up.cipher_of() == cfg.cipher
        && t[j].1.down.cipher_of() == cfg.cipher by {
        assert(session_ok(sessions_model(t)[j]));
    }
}

} // verus!
