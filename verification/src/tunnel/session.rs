//! The session layer, client side: composes the handshake, sealed frames, DNS messages and reliable
//! streams into one session. It does no I/O and keeps no clock.
//!
//! DNS is strictly request and response, so the client polls: each query carries one frame up, or an
//! idle poll, and each answer carries at most one frame down. A lost query does no harm, since the
//! streams send again what was lost.
//!
//! A session is set up by an exchange of ephemeral X25519 keys in the clear. The server signs the
//! transcript with its static Ed25519 key, whose public half the client holds; the session keys come
//! from the ephemeral secret alone. Streams open afterwards, each with a sealed opening that is sent
//! again until the server acknowledges it.
use vstd::prelude::*;

use crate::table;
use crate::table::Table;
use crate::tunnel::arq;
use crate::tunnel::arq::Stream;
use crate::tunnel::crypto;
use crate::tunnel::crypto::{
    Aead, Cipher, CryptoError, Ephemeral, CONN_ID_LEN, ED25519_PUB_LEN, ED25519_SIG_LEN, NONCE_LEN,
    X25519_PUB_LEN,
};
use crate::tunnel::dns;
use crate::tunnel::dns::{DnsError, Name};
use crate::tunnel::frame;
use crate::tunnel::frame::{Frame, FrameModel, Kind, Packet, PacketModel};
use crate::tunnel::lanes;
use crate::tunnel::lanes::{Lane, LaneModel};
use crate::tunnel::mtu;

verus! {

/// The id of the first stream, on which the single-stream calls work.
pub const PRIMARY_STREAM_ID: u16 = 1;

/// An upper bound on the inner frame's header, which sizes segments.
pub const FRAME_HEADER_MAX: usize = 16;

/// The longest echoed question: a full name, its type and its class.
pub const WORST_QUESTION: usize = 259;

/// `n`, at least one.
pub open spec fn at_least_one(n: int) -> int {
    if n < 1 {
        1
    } else {
        n
    }
}

/// The segment size for queries under a zone, whose name takes `zone_len` bytes on the wire.
pub open spec fn uplink_size(zone_len: int) -> int {
    at_least_one(mtu::minus(mtu::uplink_wire_bytes(zone_len), mtu::overhead() + FRAME_HEADER_MAX))
}

/// The segment size for answers of up to `edns_udp` bytes.
pub open spec fn downlink_size(edns_udp: u16) -> int {
    at_least_one(
        mtu::minus(
            mtu::downlink_wire_bytes(edns_udp as int, WORST_QUESTION as int),
            mtu::overhead() + FRAME_HEADER_MAX,
        ),
    )
}

/// The length of a name on the wire, at most the largest length.
pub open spec fn name_len(zone: Seq<Seq<u8>>) -> int {
    if dns::labels_wire_len(zone) + 1 <= usize::MAX {
        dns::labels_wire_len(zone) as int + 1
    } else {
        usize::MAX as int
    }
}

/// The largest segment whose frame fits a query name under the zone.
pub fn uplink_segment(zone: &Name) -> (n: usize)
    ensures
        n == uplink_size(name_len(zone@)),
{
    let n: usize = mtu::max_uplink_payload(zone.wire_len(), FRAME_HEADER_MAX);
    if n < 1 {
        1
    } else {
        n
    }
}

/// The largest segment whose frame fits an answer, with the longest question echoed.
pub fn downlink_segment(edns_udp: u16) -> (n: usize)
    ensures
        n == downlink_size(edns_udp),
        n <= 0xffff,
{
    let n: usize = mtu::max_downlink_payload(edns_udp as usize, WORST_QUESTION, FRAME_HEADER_MAX);
    if n < 1 {
        1
    } else {
        n
    }
}

/// The transcript of a handshake.
pub open spec fn transcript_of(client_eph: Seq<u8>, server_eph: Seq<u8>, conn_id: Seq<u8>) -> Seq<
    u8,
> {
    client_eph + server_eph + conn_id
}

/// The words `spark-dns-tunnel v1 synack`, which set handshake signatures apart.
pub open spec fn sig_context() -> Seq<u8> {
    seq![
        0x73u8, 0x70, 0x61, 0x72, 0x6b, 0x2d, 0x64, 0x6e, 0x73, 0x2d, 0x74, 0x75, 0x6e, 0x6e, 0x65,
        0x6c, 0x20, 0x76, 0x31, 0x20, 0x73, 0x79, 0x6e, 0x61, 0x63, 0x6b,
    ]
}

/// What the server signs for a transcript.
pub open spec fn signed_of(transcript: Seq<u8>) -> Seq<u8> {
    sig_context() + transcript
}

/// The transcript that is bound into the keys and the signature.
pub fn transcript(
    client_eph: &[u8; X25519_PUB_LEN],
    server_eph: &[u8; X25519_PUB_LEN],
    conn_id: &[u8; CONN_ID_LEN],
) -> (t: Vec<u8>)
    ensures
        t@ == transcript_of(client_eph@, server_eph@, conn_id@),
        t@.len() == 72,
{
    let mut t: Vec<u8> = Vec::new();
    t.extend_from_slice(client_eph.as_slice());
    t.extend_from_slice(server_eph.as_slice());
    t.extend_from_slice(conn_id.as_slice());
    assert(t@ =~= transcript_of(client_eph@, server_eph@, conn_id@));
    t
}

/// The bytes that the server signs and the client verifies.
pub fn signed_msg(transcript: &[u8]) -> (m: Vec<u8>)
    ensures
        m@ == signed_of(transcript@),
{
    let context: [u8; 26] = [
        0x73u8, 0x70, 0x61, 0x72, 0x6b, 0x2d, 0x64, 0x6e, 0x73, 0x2d, 0x74, 0x75, 0x6e, 0x6e, 0x65,
        0x6c, 0x20, 0x76, 0x31, 0x20, 0x73, 0x79, 0x6e, 0x61, 0x63, 0x6b,
    ];
    let mut m: Vec<u8> = Vec::new();
    m.extend_from_slice(context.as_slice());
    m.extend_from_slice(transcript);
    assert(context@ =~= sig_context());
    assert(m@ =~= signed_of(transcript@));
    m
}

/// The uplink and the downlink key that a transcript and a shared secret give.
pub open spec fn session_keys(transcript: Seq<u8>, secret: Seq<u8>) -> (Seq<u8>, Seq<u8>) {
    (
        crypto::hkdf_sha256_of(
            transcript,
            secret,
            crypto::hkdf_base() + crypto::role_up() + Seq::<u8>::empty(),
        ),
        crypto::hkdf_sha256_of(
            transcript,
            secret,
            crypto::hkdf_base() + crypto::role_down() + Seq::<u8>::empty(),
        ),
    )
}

/// Session configuration, the same on both sides.
#[derive(Debug, Clone, Copy, PartialEq, Eq, Structural)]
pub struct Config {
    /// Cipher of the session.
    pub cipher: Cipher,
    /// Stream tuning.
    pub arq: arq::Config,
    /// UDP payload size that queries and answers advertise.
    pub edns_udp: u16,
    /// Most queries in flight at once. Throughput rises with it: what comes down per round trip is
    /// this many answers.
    pub max_query_inflight: usize,
    /// How long to wait for an answer before the query's slot is free again (ms).
    pub query_timeout_ms: u64,
}

/// The default configuration. The windows are at least as deep as the query budget.
pub open spec fn default_config() -> Config {
    Config {
        cipher: Cipher::ChaCha20Poly1305,
        arq: arq::Config { send_window: 256, recv_window: 1024, ..arq::default_config() },
        edns_udp: 1232,
        max_query_inflight: 64,
        query_timeout_ms: 3_000,
    }
}

impl Default for Config {
    fn default() -> (c: Config)
        ensures
            c == default_config(),
    {
        let tuning: arq::Config = arq::Config::default();
        Config {
            cipher: Cipher::ChaCha20Poly1305,
            arq: arq::Config { send_window: 256, recv_window: 1024, ..tuning },
            edns_udp: 1232,
            max_query_inflight: 64,
            query_timeout_ms: 3_000,
        }
    }
}

/// Session errors.
#[derive(Debug, Clone, Copy, PartialEq, Eq, Structural)]
pub enum SessionError {
    /// Key setup, agreement or the random generator failed.
    Crypto(CryptoError),
    /// The zone is not a valid name.
    Dns(DnsError),
}

/// What an answer did.
#[derive(Debug, Clone, Copy, PartialEq, Eq, Structural)]
pub enum AnswerOutcome {
    /// The session took an ordinary answer.
    Consumed,
    /// An MTU probe came back whole: answers of this size survive the path.
    ProbeResp {
        /// The size that was probed.
        target: u16,
    },
}

/// The first two bytes as a big-endian number, if there are two.
pub open spec fn u16_of(b: Seq<u8>) -> Option<u16> {
    if b.len() < 2 {
        None
    } else {
        Some(crate::tunnel::wire::be16_at(b, 0))
    }
}

/// Reads a big-endian number from the front.
pub fn read_u16(b: &[u8]) -> (r: Option<u16>)
    ensures
        r == u16_of(b@),
{
    if b.len() < 2 {
        None
    } else {
        Some(crate::tunnel::wire::get16(b, 0))
    }
}

/// A frame of the session layer.
pub open spec fn control_frame(kind: Kind, stream_id: Option<u16>, payload: Seq<u8>) -> FrameModel {
    FrameModel { kind, stream_id, seq: None, fragment: None, comp_algo: None, payload }
}

/// A frame of the session layer.
pub(crate) fn make_control(kind: Kind, stream_id: Option<u16>, payload: Vec<u8>) -> (f: Frame)
    ensures
        f@ == control_frame(kind, stream_id, payload@),
{
    Frame { kind, stream_id, seq: None, fragment: None, comp_algo: None, payload }
}

/// The packet that carries a sealed frame.
pub open spec fn sealed_packet(
    cipher: Cipher,
    key: Seq<u8>,
    conn_id: Seq<u8>,
    nonce: Seq<u8>,
    f: FrameModel,
) -> Seq<u8> {
    frame::data_bytes(
        conn_id,
        nonce,
        crypto::sealed_under(cipher, key, nonce, frame::encoded(f)),
    )
}

/// The frame inside a sealed packet, if it opens and parses.
pub open spec fn inner_frame(
    cipher: Cipher,
    key: Seq<u8>,
    nonce: Seq<u8>,
    ciphertext: Seq<u8>,
) -> Option<FrameModel> {
    match crypto::opened_under(cipher, key, nonce, ciphertext) {
        None => None,
        Some(plain) => match frame::decoded(plain) {
            Ok(f) => Some(f),
            Err(_) => None,
        },
    }
}

/// A nonce that was drawn, if the generator gave one.
pub open spec fn nonce_view(n: Option<[u8; NONCE_LEN]>) -> Option<Seq<u8>> {
    match n {
        Some(n) => Some(n@),
        None => None,
    }
}

/// A shared secret that was agreed on, if the agreement gave one.
pub open spec fn secret_view(n: Option<[u8; 32]>) -> Option<Seq<u8>> {
    match n {
        Some(n) => Some(n@),
        None => None,
    }
}

/// A message that was built, if one was.
pub open spec fn message_view(v: Option<Vec<u8>>) -> Option<Seq<u8>> {
    match v {
        Some(v) => Some(v@),
        None => None,
    }
}

/// What is known of a client session.
#[verifier::ext_equal]
pub struct ClientModel {
    /// Configuration.
    pub cfg: Config,
    /// The zone's labels.
    pub zone: Seq<Seq<u8>>,
    /// Connection id.
    pub conn_id: Seq<u8>,
    /// The server's public key.
    pub server_pub: Seq<u8>,
    /// The client's ephemeral public key.
    pub eph_pub: Seq<u8>,
    /// The ephemeral private key, until it is used.
    pub eph: Option<ring::agreement::EphemeralPrivateKey>,
    /// The uplink and the downlink key, once the handshake is complete.
    pub keys: Option<(Seq<u8>, Seq<u8>)>,
    /// Tuning of new streams.
    pub up_arq: arq::Config,
    /// The streams.
    pub lanes: Seq<(u64, LaneModel)>,
    /// The id to try first for the next stream.
    pub next_stream_id: u16,
    /// The stream that was served last.
    pub rr_last: u16,
    /// The transaction id that was used last.
    pub txn: u16,
    /// Queries in flight: transaction id and deadline.
    pub outstanding: Seq<(u16, u64)>,
}

/// What every operation of a client session keeps.
pub open spec fn client_ok(m: ClientModel) -> bool {
    &&& lanes::lanes_ok(m.lanes)
    &&& m.up_arq.min_rto_ms <= m.up_arq.max_rto_ms
    &&& m.conn_id.len() == CONN_ID_LEN
    &&& m.eph_pub.len() == X25519_PUB_LEN
    &&& m.eph matches Some(key) ==> crypto::x25519_public_of(key) == m.eph_pub
}

/// A new client session.
pub open spec fn new_client(
    server_pub: Seq<u8>,
    zone: Seq<Seq<u8>>,
    target: Seq<u8>,
    cfg: Config,
    conn_id: Seq<u8>,
    key: ring::agreement::EphemeralPrivateKey,
) -> ClientModel {
    let up_arq = arq::Config { max_segment: uplink_size(name_len(zone)) as usize, ..cfg.arq };
    ClientModel {
        cfg,
        zone,
        conn_id,
        server_pub,
        eph_pub: crypto::x25519_public_of(key),
        eph: Some(key),
        keys: None,
        up_arq,
        lanes: seq![
            (
                PRIMARY_STREAM_ID as u64,
                lanes::fresh_lane(PRIMARY_STREAM_ID, up_arq, target, false),
            ),
        ],
        next_stream_id: 2,
        rr_last: 0,
        txn: 0,
        outstanding: Seq::empty(),
    }
}

/// The client end of a session.
pub struct ClientSession {
    cfg: Config,
    zone: Name,
    conn_id: [u8; CONN_ID_LEN],
    server_pub: [u8; ED25519_PUB_LEN],
    client_eph: Option<Ephemeral>,
    client_eph_pub: [u8; X25519_PUB_LEN],
    keys: Option<(Aead, Aead)>,
    up_arq_cfg: arq::Config,
    lanes: Table<Lane>,
    next_stream_id: u16,
    rr_last: u16,
    txn: u16,
    outstanding: Vec<(u16, u64)>,
}

impl View for ClientSession {
    type V = ClientModel;

    closed spec fn view(&self) -> ClientModel {
        ClientModel {
            cfg: self.cfg,
            zone: self.zone@,
            conn_id: self.conn_id@,
            server_pub: self.server_pub@,
            eph_pub: self.client_eph_pub@,
            eph: match self.client_eph {
                Some(e) => Some(e.key()),
                None => None,
            },
            keys: match self.keys {
                Some((up, down)) => Some((up.key_of(), down.key_of())),
                None => None,
            },
            up_arq: self.up_arq_cfg,
            lanes: lanes::lanes_model(self.lanes@),
            next_stream_id: self.next_stream_id,
            rr_last: self.rr_last,
            txn: self.txn,
            outstanding: self.outstanding@,
        }
    }
}

impl ClientSession {
    /// What every operation keeps.
    pub closed spec fn wf(&self) -> bool {
        &&& client_ok(self@)
        &&& self.keys matches Some((up, down)) ==> up.cipher_of() == self.cfg.cipher
            && down.cipher_of() == self.cfg.cipher
    }

    /// What the laws of sessions ask of a client holds of every one that is well formed.
    pub proof fn lemma_wf(&self)
        requires
            self.wf(),
        ensures
            client_ok(self@),
    {
    }

    /// A client session to the server of a public key, with a first stream to `target`, the connection
    /// id and the ephemeral key being given.
    pub fn start(
        server_pub: &[u8; ED25519_PUB_LEN],
        zone: Name,
        target: &[u8],
        cfg: Config,
        conn_id: [u8; CONN_ID_LEN],
        client_eph: Ephemeral,
    ) -> (s: ClientSession)
        requires
            cfg.arq.min_rto_ms <= cfg.arq.max_rto_ms,
        ensures
            s.wf(),
            s@ == new_client(
                server_pub@,
                zone@,
                target@,
                cfg,
                conn_id@,
                client_eph.key(),
            ),
    {
        let client_eph_pub: [u8; X25519_PUB_LEN] = client_eph.public();
        let segment: usize = uplink_segment(&zone);
        let up_arq_cfg: arq::Config = arq::Config { max_segment: segment, ..cfg.arq };
        let mut lanes: Table<Lane> = Table::new();
        lanes.put(
            PRIMARY_STREAM_ID as u64,
            Lane {
                stream: Stream::new(PRIMARY_STREAM_ID, up_arq_cfg, 0),
                target: vstd::slice::slice_to_vec(target),
                open: false,
                dialed: false,
                last_open_ms: None,
            },
        );
        let s: ClientSession = ClientSession {
            cfg,
            zone,
            conn_id,
            server_pub: *server_pub,
            client_eph: Some(client_eph),
            client_eph_pub,
            keys: None,
            up_arq_cfg,
            lanes,
            next_stream_id: 2,
            rr_last: 0,
            txn: 0,
            outstanding: Vec::new(),
        };
        proof {
            lanes::lemma_lanes(s.lanes@);
            assert(s.lanes@.len() == 1);
            assert(s@.lanes[0] == new_client(
                server_pub@,
                zone@,
                target@,
                cfg,
                conn_id@,
                client_eph.key(),
            ).lanes[0]);
            assert(s@ =~= new_client(
                server_pub@,
                zone@,
                target@,
                cfg,
                conn_id@,
                client_eph.key(),
            ));
        }
        s
    }

    /// A client session to the server of a public key, with a first stream to `target`. Fails where
    /// the zone is no name or where the random generator fails.
    pub fn new(
        server_pub: &[u8; ED25519_PUB_LEN],
        zone: &str,
        target: &[u8],
        cfg: Config,
    ) -> (r: Result<ClientSession, SessionError>)
        requires
            cfg.arq.min_rto_ms <= cfg.arq.max_rto_ms,
        ensures
            ({
                let labels = dns::dotted_labels(vstd::utf8::encode_utf8(zone@));
                match r {
                    Ok(s) => {
                        &&& dns::labels_ok(labels)
                        &&& s.wf()
                        &&& s@ == new_client(
                            server_pub@,
                            labels,
                            target@,
                            cfg,
                            s@.conn_id,
                            s@.eph->0,
                        )
                        &&& s@.eph is Some
                    },
                    Err(SessionError::Dns(e)) => e == DnsError::NameTooLong && !dns::labels_ok(
                        labels,
                    ),
                    Err(SessionError::Crypto(e)) => e == CryptoError::Rng && dns::labels_ok(
                        labels,
                    ),
                }
            }),
    {
        let zone: Name = match Name::parse(zone) {
            Ok(z) => z,
            Err(e) => {
                return Err(SessionError::Dns(e));
            },
        };
        let conn_id: [u8; CONN_ID_LEN] = match crypto::random_conn_id() {
            Ok(c) => c,
            Err(e) => {
                return Err(SessionError::Crypto(e));
            },
        };
        match Ephemeral::generate() {
            Ok(eph) => Ok(ClientSession::start(server_pub, zone, target, cfg, conn_id, eph)),
            Err(e) => Err(SessionError::Crypto(e)),
        }
    }
}

/// A client session with a changed stream.
pub open spec fn lane_set(m: ClientModel, sid: u16, l: LaneModel) -> ClientModel {
    ClientModel { lanes: table::with(m.lanes, sid as u64, l), ..m }
}

/// Stream `sid` exists.
pub open spec fn has_stream(m: ClientModel, sid: u16) -> bool {
    table::holds(m.lanes, sid as u64)
}

/// Stream `sid`.
pub open spec fn stream_of(m: ClientModel, sid: u16) -> LaneModel {
    table::at(m.lanes, sid as u64)
}

/// An id that the next stream may have: neither zero nor the first stream's, and not in use.
pub open spec fn free_id(m: ClientModel, sid: u16) -> bool {
    sid != 0 && sid != PRIMARY_STREAM_ID && !has_stream(m, sid)
}

/// The id `d` steps after `sid`, going round.
pub open spec fn id_after(sid: u16, d: int) -> u16 {
    ((sid + d) % 0x1_0000) as u16
}

/// A client session with a new stream.
pub open spec fn stream_added(m: ClientModel, sid: u16, target: Seq<u8>) -> ClientModel {
    ClientModel {
        lanes: table::with(m.lanes, sid as u64, lanes::fresh_lane(sid, m.up_arq, target, false)),
        next_stream_id: id_after(sid, 1),
        ..m
    }
}

/// A client session whose streams, and those to come, have another segment size.
pub open spec fn uplink_resized(m: ClientModel, size: usize) -> ClientModel {
    ClientModel {
        up_arq: arq::Config {
            max_segment: if size > 0 {
                size
            } else {
                1
            },
            ..m.up_arq
        },
        lanes: lanes::all_resized(m.lanes, size),
        ..m
    }
}

/// The streams that are over.
pub open spec fn over_ids(s: Seq<(u64, LaneModel)>) -> Seq<u16>
    decreases s.len(),
{
    if s.len() == 0 {
        Seq::empty()
    } else if lanes::over(s.last().1.stream) {
        over_ids(s.drop_last()).push(s.last().0 as u16)
    } else {
        over_ids(s.drop_last())
    }
}

/// The streams that are not over.
pub open spec fn live(s: Seq<(u64, LaneModel)>) -> Seq<(u64, LaneModel)> {
    s.filter(|e: (u64, LaneModel)| !lanes::over(e.1.stream))
}

proof fn lemma_live(s: Seq<(u64, LaneModel)>)
    requires
        lanes::lanes_ok(s),
    ensures
        lanes::lanes_ok(live(s)),
        forall|e: (u64, LaneModel)| #[trigger]
            live(s).contains(e) <==> s.contains(e) && !lanes::over(e.1.stream),
    decreases s.len(),
{
    reveal(Seq::filter);
    let r = live(s);
    if s.len() > 0 {
        let t = s.drop_last();
        assert forall|i: int| 0 <= i < t.len() implies (#[trigger] t[i]).0 <= 0xffff
            && arq::stream_ok(t[i].1.stream) by {
            assert(t[i] == s[i]);
        }
        assert(table::keyed(t)) by {
            assert forall|i: int, j: int| 0 <= i < j < t.len() implies (#[trigger] t[i]).0 < (
            #[trigger] t[j]).0 by {
                assert(s[i].0 < s[j].0);
            }
        }
        lemma_live(t);
        let u = live(t);
        let e = s.last();
        assert forall|x: (u64, LaneModel)| #[trigger] r.contains(x) implies s.contains(x)
            && !lanes::over(x.1.stream) by {
            let k = choose|k: int| 0 <= k < r.len() && r[k] == x;
            if k < u.len() {
                assert(u[k] == x);
                assert(u.contains(x));
                let n = choose|n: int| 0 <= n < t.len() && t[n] == x;
                assert(s[n] == x);
            } else {
                assert(s[s.len() - 1] == x);
            }
        }
        assert forall|x: (u64, LaneModel)|
            s.contains(x) && !lanes::over(x.1.stream) implies #[trigger] r.contains(x) by {
            let n = choose|n: int| 0 <= n < s.len() && s[n] == x;
            if n < t.len() {
                assert(t[n] == x);
                assert(t.contains(x));
                assert(u.contains(x));
                let k = choose|k: int| 0 <= k < u.len() && u[k] == x;
                assert(r[k] == x);
            } else {
                assert(r[r.len() - 1] == x);
            }
        }
        assert forall|i: int| 0 <= i < r.len() implies (#[trigger] r[i]).0 <= 0xffff
            && arq::stream_ok(r[i].1.stream) by {
            assert(r.contains(r[i]));
            let n = choose|n: int| 0 <= n < s.len() && s[n] == r[i];
            assert(s[n].0 <= 0xffff);
        }
        assert forall|i: int, j: int| 0 <= i < j < r.len() implies (#[trigger] r[i]).0 < (
        #[trigger] r[j]).0 by {
            if j < u.len() {
                assert(u[i] == r[i] && u[j] == r[j]);
            } else {
                assert(u[i] == r[i]);
                assert(u.contains(u[i]));
                let n = choose|n: int| 0 <= n < t.len() && t[n] == u[i];
                assert(s[n] == u[i]);
                assert(s[n].0 < s[s.len() - 1].0);
            }
        }
    }
}

impl ClientSession {
    /// The connection id.
    pub fn conn_id(&self) -> (id: [u8; CONN_ID_LEN])
        ensures
            id@ == self@.conn_id,
    {
        self.conn_id
    }

    /// Whether the handshake is complete.
    pub fn is_established(&self) -> (r: bool)
        ensures
            r == (self@.keys is Some),
    {
        self.keys.is_some()
    }

    /// Queues bytes on stream `sid`, if it exists.
    pub fn write_stream(&mut self, sid: u16, data: &[u8])
        requires
            old(self).wf(),
        ensures
            final(self).wf(),
            final(self)@ == (ClientModel {
                lanes: lanes::lane_written(old(self)@.lanes, sid, data@),
                ..old(self)@
            }),
    {
        lanes::write_to(&mut self.lanes, sid, data);
    }

    /// Takes the bytes that stream `sid` has delivered; none where it does not exist.
    pub fn read_stream(&mut self, sid: u16) -> (data: Vec<u8>)
        requires
            old(self).wf(),
        ensures
            final(self).wf(),
            data@ == lanes::lane_delivered(old(self)@.lanes, sid),
            final(self)@ == (ClientModel {
                lanes: lanes::lane_read(old(self)@.lanes, sid),
                ..old(self)@
            }),
    {
        lanes::read_from(&mut self.lanes, sid)
    }

    /// Asks for a half-close of stream `sid`, if it exists.
    pub fn close_stream(&mut self, sid: u16)
        requires
            old(self).wf(),
        ensures
            final(self).wf(),
            final(self)@ == (ClientModel {
                lanes: lanes::lane_closing(old(self)@.lanes, sid),
                ..old(self)@
            }),
    {
        lanes::close_one(&mut self.lanes, sid);
    }

    /// Whether stream `sid` is closed, reset or gone.
    pub fn is_stream_closed(&self, sid: u16) -> (r: bool)
        requires
            self.wf(),
        ensures
            r == (!has_stream(self@, sid) || lanes::over(stream_of(self@, sid).stream)),
    {
        proof {
            lanes::lemma_lane_get(self.lanes@, sid as u64);
        }
        match self.lanes.find(sid as u64) {
            Some(i) => self.lanes.value(i).stream.is_closed(),
            None => true,
        }
    }

    /// Whether the peer of stream `sid` has ended its half.
    pub fn stream_remote_finished(&self, sid: u16) -> (r: bool)
        requires
            self.wf(),
        ensures
            r == (has_stream(self@, sid) && stream_of(self@, sid).stream.remote_fin_recvd),
    {
        proof {
            lanes::lemma_lane_get(self.lanes@, sid as u64);
        }
        match self.lanes.find(sid as u64) {
            Some(i) => self.lanes.value(i).stream.remote_finished(),
            None => false,
        }
    }

    /// The ids of the streams, in order.
    pub fn stream_ids(&self) -> (out: Vec<u16>)
        requires
            self.wf(),
        ensures
            out@ == lanes::ids(self@.lanes),
    {
        lanes::lane_ids(&self.lanes)
    }

    /// Queues bytes on the first stream.
    pub fn write(&mut self, data: &[u8])
        requires
            old(self).wf(),
        ensures
            final(self).wf(),
            final(self)@ == (ClientModel {
                lanes: lanes::lane_written(old(self)@.lanes, PRIMARY_STREAM_ID, data@),
                ..old(self)@
            }),
    {
        self.write_stream(PRIMARY_STREAM_ID, data)
    }

    /// Takes the bytes that the first stream has delivered.
    pub fn read(&mut self) -> (data: Vec<u8>)
        requires
            old(self).wf(),
        ensures
            final(self).wf(),
            data@ == lanes::lane_delivered(old(self)@.lanes, PRIMARY_STREAM_ID),
            final(self)@ == (ClientModel {
                lanes: lanes::lane_read(old(self)@.lanes, PRIMARY_STREAM_ID),
                ..old(self)@
            }),
    {
        self.read_stream(PRIMARY_STREAM_ID)
    }

    /// Asks for a half-close of the first stream.
    pub fn close(&mut self)
        requires
            old(self).wf(),
        ensures
            final(self).wf(),
            final(self)@ == (ClientModel {
                lanes: lanes::lane_closing(old(self)@.lanes, PRIMARY_STREAM_ID),
                ..old(self)@
            }),
    {
        self.close_stream(PRIMARY_STREAM_ID)
    }

    /// Whether the first stream is closed, reset or gone.
    pub fn is_closed(&self) -> (r: bool)
        requires
            self.wf(),
        ensures
            r == (!has_stream(self@, PRIMARY_STREAM_ID) || lanes::over(
                stream_of(self@, PRIMARY_STREAM_ID).stream,
            )),
    {
        self.is_stream_closed(PRIMARY_STREAM_ID)
    }

    /// Whether the peer of the first stream has ended its half.
    pub fn remote_finished(&self) -> (r: bool)
        requires
            self.wf(),
        ensures
            r == (has_stream(self@, PRIMARY_STREAM_ID) && stream_of(
                self@,
                PRIMARY_STREAM_ID,
            ).stream.remote_fin_recvd),
    {
        self.stream_remote_finished(PRIMARY_STREAM_ID)
    }

    /// Drops the streams that are over and gives their ids.
    pub fn reap_closed(&mut self) -> (out: Vec<u16>)
        requires
            old(self).wf(),
        ensures
            final(self).wf(),
            out@ == over_ids(old(self)@.lanes),
            final(self)@ == (ClientModel { lanes: live(old(self)@.lanes), ..old(self)@ }),
    {
        let ghost all = self@.lanes;
        let ghost mut seen: int = 0;
        let mut out: Vec<u16> = Vec::new();
        let mut i: usize = 0;
        proof {
            reveal(Seq::filter);
            lanes::lemma_lanes(self.lanes@);
            assert(all.take(0) =~= Seq::empty());
            assert(all.skip(0) =~= all);
            assert(live(all.take(0)) =~= Seq::empty());
            assert(self@ =~= (ClientModel { lanes: live(all.take(0)) + all.skip(0), ..old(self)@ }));
        }
        while i < self.lanes.len()
            invariant
                0 <= seen <= all.len(),
                all == old(self)@.lanes,
                lanes::lanes_ok(all),
                self.keys == old(self).keys,
                self.cfg == old(self).cfg,
                i == live(all.take(seen)).len(),
                self@ == (ClientModel {
                    lanes: live(all.take(seen)) + all.skip(seen),
                    ..old(self)@
                }),
                out@ == over_ids(all.take(seen)),
            decreases all.len() - seen,
        {
            let ghost kept = live(all.take(seen));
            proof {
                reveal(Seq::filter);
                lanes::lemma_lanes(self.lanes@);
                assert(self@.lanes[i as int] == all[seen]);
                assert(self@.lanes[i as int] == (
                    self.lanes@[i as int].0,
                    lanes::lane_model(self.lanes@[i as int].1),
                ));
                assert(all.take(seen + 1).drop_last() =~= all.take(seen));
                assert(all.take(seen + 1).last() == all[seen]);
                assert(all[seen].0 <= 0xffff);
            }
            if self.lanes.value(i).stream.is_closed() {
                let ghost held = self.lanes@;
                let (id, _lane) = self.lanes.take(i);
                out.push(id as u16);
                proof {
                    lanes::lemma_lanes(self.lanes@);
                    assert(self@.lanes =~= kept + all.skip(seen + 1)) by {
                        assert forall|k: int| 0 <= k < self.lanes@.len() implies #[trigger]
                            self@.lanes[k] == (kept + all.skip(seen + 1))[k] by {
                            let h = if k < i {
                                k
                            } else {
                                k + 1
                            };
                            assert(lanes::lanes_model(held)[h] == (
                                held[h].0,
                                lanes::lane_model(held[h].1),
                            ));
                            assert(self.lanes@[k] == held[h]);
                        }
                    }
                }
            } else {
                i = i + 1;
                assert(self@.lanes =~= kept.push(all[seen]) + all.skip(seen + 1));
            }
            proof {
                seen = seen + 1;
                assert(self@ =~= (ClientModel {
                    lanes: live(all.take(seen)) + all.skip(seen),
                    ..old(self)@
                }));
            }
        }
        proof {
            lanes::lemma_lanes(self.lanes@);
            assert(seen == all.len());
            assert(all.take(seen) =~= all);
            assert(live(all) + all.skip(seen) =~= live(all));
            lemma_live(all);
        }
        out
    }

    /// Sets the segment size of every stream, and of those to come.
    pub fn set_uplink_segment(&mut self, size: usize)
        requires
            old(self).wf(),
        ensures
            final(self).wf(),
            final(self)@ == (ClientModel {
                up_arq: arq::Config {
                    max_segment: if size > 0 {
                        size
                    } else {
                        1
                    },
                    ..old(self)@.up_arq
                },
                lanes: lanes::all_resized(old(self)@.lanes, size),
                ..old(self)@
            }),
            final(self)@ == uplink_resized(old(self)@, size),
    {
        self.up_arq_cfg.max_segment = if size > 0 {
            size
        } else {
            1
        };
        lanes::resize_all(&mut self.lanes, size);
    }
}

/// Some id is free where there are fewer streams than ids.
proof fn lemma_some_id_free(m: ClientModel) -> (d: int)
    requires
        lanes::lanes_ok(m.lanes),
        m.lanes.len() < 65534,
    ensures
        0 <= d < 0x1_0000,
        free_id(m, id_after(m.next_stream_id, d)),
{
    let keys = m.lanes.map_values(|e: (u64, LaneModel)| e.0 as int);
    let all = vstd::set_lib::set_int_range(2, 0x1_0000);
    vstd::set_lib::lemma_int_range(2, 0x1_0000);
    keys.lemma_cardinality_of_set();
    if forall|id: u16| 2 <= id ==> #[trigger] has_stream(m, id) {
        assert forall|x: int| all.contains(x) implies #[trigger] keys.to_set().contains(x) by {
            let id = x as u16;
            assert(has_stream(m, id));
            let i = table::rank(m.lanes, id as u64) as int;
            assert(keys[i] == x);
        }
        vstd::set_lib::lemma_len_subset(all, keys.to_set());
        assert(false);
    }
    let id = choose|id: u16| 2 <= id && !#[trigger] has_stream(m, id);
    let d = if id >= m.next_stream_id {
        id - m.next_stream_id
    } else {
        id - m.next_stream_id + 0x1_0000
    };
    assert(id_after(m.next_stream_id, d) == id);
    d
}

/// `t` is the earliest deadline of the segments in flight of all streams.
pub open spec fn earliest(s: Seq<(u64, LaneModel)>, t: u64) -> bool {
    &&& exists|i: int, k: int|
        0 <= i < s.len() && 0 <= k < s[i].1.stream.inflight.len() && #[trigger] arq::deadline(
            s[i].1.stream.inflight[k],
            s[i].1.stream.rto_ms,
        ) == t
    &&& forall|i: int, k: int|
        0 <= i < s.len() && 0 <= k < s[i].1.stream.inflight.len() ==> t <= #[trigger] arq::deadline(
            s[i].1.stream.inflight[k],
            s[i].1.stream.rto_ms,
        )
}

/// Nothing is in flight on any stream.
pub open spec fn quiet(s: Seq<(u64, LaneModel)>) -> bool {
    forall|i: int| 0 <= i < s.len() ==> (#[trigger] s[i]).1.stream.inflight.len() == 0
}

impl ClientSession {
    /// Opens a stream to `target` and gives its id: the next free one. Its opening is sent once the
    /// handshake is complete; bytes written before it is acknowledged wait.
    pub fn open_stream(&mut self, target: &[u8]) -> (sid: u16)
        requires
            old(self).wf(),
            old(self)@.lanes.len() < 65534,
        ensures
            final(self).wf(),
            free_id(old(self)@, sid),
            exists|d: int|
                0 <= d < 0x1_0000 && sid == #[trigger] id_after(old(self)@.next_stream_id, d) && (
                forall|e: int|
                    0 <= e < d ==> !free_id(
                        old(self)@,
                        #[trigger] id_after(old(self)@.next_stream_id, e),
                    )),
            final(self)@ == (ClientModel {
                lanes: table::with(
                    old(self)@.lanes,
                    sid as u64,
                    lanes::fresh_lane(sid, old(self)@.up_arq, target@, false),
                ),
                next_stream_id: id_after(sid, 1),
                ..old(self)@
            }),
            final(self)@ == stream_added(old(self)@, sid, target@),
    {
        let ghost m = self@;
        let ghost mut goal: int = 0;
        let mut sid: u16 = self.next_stream_id;
        let ghost mut d: int = 0;
        proof {
            goal = lemma_some_id_free(m);
            assert(id_after(m.next_stream_id, 0) == m.next_stream_id);
        }
        loop
            invariant_except_break
                *self == *old(self),
                self.wf(),
                m == self@,
                0 <= d <= goal < 0x1_0000,
                sid == id_after(m.next_stream_id, d),
                free_id(m, id_after(m.next_stream_id, goal)),
                forall|e: int|
                    0 <= e < d ==> !free_id(m, #[trigger] id_after(m.next_stream_id, e)),
            ensures
                *self == *old(self),
                free_id(m, sid),
                0 <= d < 0x1_0000,
                sid == id_after(m.next_stream_id, d),
                forall|e: int|
                    0 <= e < d ==> !free_id(m, #[trigger] id_after(m.next_stream_id, e)),
            decreases goal - d,
        {
            proof {
                lanes::lemma_lane_get(self.lanes@, sid as u64);
            }
            if sid != 0 && sid != PRIMARY_STREAM_ID && self.lanes.find(sid as u64).is_none() {
                break;
            }
            sid = sid.wrapping_add(1);
            proof {
                assert(!free_id(m, id_after(m.next_stream_id, d)));
                d = d + 1;
                assert(sid == id_after(m.next_stream_id, d));
            }
        }
        self.next_stream_id = sid.wrapping_add(1);
        let lane: Lane = Lane {
            stream: Stream::new(sid, self.up_arq_cfg, 0),
            target: vstd::slice::slice_to_vec(target),
            open: false,
            dialed: false,
            last_open_ms: None,
        };
        proof {
            lanes::lemma_lane_get(self.lanes@, sid as u64);
            lanes::lemma_lane_put(self.lanes@, sid as u64, lane);
        }
        self.lanes.put(sid as u64, lane);
        sid
    }

    /// The earliest time at which a segment of some stream is due again, if any is in flight.
    pub fn next_deadline(&self) -> (r: Option<u64>)
        requires
            self.wf(),
        ensures
            match r {
                Some(t) => earliest(self@.lanes, t),
                None => quiet(self@.lanes),
            },
    {
        let ghost s = self@.lanes;
        let mut best: Option<u64> = None;
        let mut i: usize = 0;
        proof {
            lanes::lemma_lanes(self.lanes@);
            assert(s.take(0) =~= Seq::empty());
        }
        while i < self.lanes.len()
            invariant
                i <= s.len(),
                s == self@.lanes,
                s.len() == self.lanes@.len(),
                match best {
                    Some(t) => earliest(s.take(i as int), t),
                    None => quiet(s.take(i as int)),
                },
            decreases s.len() - i,
        {
            let ghost a = s.take(i as int);
            let ghost b = s.take(i + 1);
            proof {
                lanes::lemma_lanes(self.lanes@);
                assert(s[i as int] == (
                    self.lanes@[i as int].0,
                    lanes::lane_model(self.lanes@[i as int].1),
                ));
                assert(b =~= a.push(s[i as int]));
            }
            let next: Option<u64> = self.lanes.value(i).stream.next_deadline();
            let ghost was = best;
            if let Some(t) = next {
                best = match best {
                    Some(x) => if t < x {
                        Some(t)
                    } else {
                        Some(x)
                    },
                    None => Some(t),
                };
            }
            proof {
                lemma_earliest_grows(a, s[i as int], was, next, best);
            }
            i = i + 1;
        }
        assert(s.take(i as int) =~= s);
        best
    }
}

proof fn lemma_earliest_grows(
    a: Seq<(u64, LaneModel)>,
    e: (u64, LaneModel),
    was: Option<u64>,
    next: Option<u64>,
    best: Option<u64>,
)
    requires
        match was {
            Some(t) => earliest(a, t),
            None => quiet(a),
        },
        match next {
            Some(t) => arq::earliest_deadline(e.1.stream.inflight, e.1.stream.rto_ms, t),
            None => e.1.stream.inflight.len() == 0,
        },
        best == match (was, next) {
            (Some(x), Some(t)) => if t < x {
                Some(t)
            } else {
                Some(x)
            },
            (Some(x), None) => Some(x),
            (None, n) => n,
        },
    ensures
        match best {
            Some(t) => earliest(a.push(e), t),
            None => quiet(a.push(e)),
        },
{
    let b = a.push(e);
    if let Some(t) = best {
        assert forall|i: int, k: int|
            0 <= i < b.len() && 0 <= k < b[i].1.stream.inflight.len() implies t
            <= #[trigger] arq::deadline(b[i].1.stream.inflight[k], b[i].1.stream.rto_ms) by {
            if i < a.len() {
                assert(b[i] == a[i]);
                if was is None {
                    assert(a[i].1.stream.inflight.len() == 0);
                }
            }
        }
        if was is Some && t == was->0 {
            let (i, k) = choose|i: int, k: int|
                0 <= i < a.len() && 0 <= k < a[i].1.stream.inflight.len()
                    && #[trigger] arq::deadline(
                    a[i].1.stream.inflight[k],
                    a[i].1.stream.rto_ms,
                ) == t;
            assert(arq::deadline(b[i].1.stream.inflight[k], b[i].1.stream.rto_ms) == t);
        } else {
            let k = choose|k: int|
                0 <= k < e.1.stream.inflight.len() && #[trigger] arq::deadline(
                    e.1.stream.inflight[k],
                    e.1.stream.rto_ms,
                ) == t;
            let i = a.len() as int;
            assert(arq::deadline(b[i].1.stream.inflight[k], b[i].1.stream.rto_ms) == t);
        }
    } else {
        assert forall|i: int| 0 <= i < b.len() implies (#[trigger] b[i]).1.stream.inflight.len()
            == 0 by {
            if i < a.len() {
                assert(b[i] == a[i]);
            }
        }
    }
}

// ---- queries ----

/// The queries whose deadline has not passed.
pub open spec fn unexpired(o: Seq<(u16, u64)>, now: u64) -> Seq<(u16, u64)> {
    o.filter(|q: (u16, u64)| q.1 > now)
}

/// The time `wait` after `now`, at most the largest time.
pub open spec fn later(now: u64, wait: u64) -> u64 {
    if now + wait <= u64::MAX {
        (now + wait) as u64
    } else {
        u64::MAX
    }
}

/// The next transaction id.
pub open spec fn next_txn(m: ClientModel) -> u16 {
    id_after(m.txn, 1)
}

/// The query that carries `packet` under the next transaction id, where its name is not too long.
pub open spec fn query_with(m: ClientModel, packet: Seq<u8>) -> Option<Seq<u8>> {
    if dns::query_name_len(packet, m.zone) <= dns::MAX_NAME_LEN {
        Some(dns::query_message(next_txn(m), packet, m.zone, m.cfg.edns_udp))
    } else {
        None
    }
}

/// The query that carries a sealed frame, where the cipher seals a frame of that length.
pub open spec fn query_for(m: ClientModel, nonce: Seq<u8>, f: FrameModel) -> Option<Seq<u8>> {
    if frame::sealable(m.cfg.cipher, f) {
        let (up, _) = m.keys->0;
        query_with(m, sealed_packet(m.cfg.cipher, up, m.conn_id, nonce, f))
    } else {
        None
    }
}

/// The session after it tried to send a query: the transaction id is used up, and a query that was
/// built is in flight.
pub open spec fn asked(m: ClientModel, query: Option<Seq<u8>>, now: u64) -> ClientModel {
    ClientModel {
        txn: next_txn(m),
        outstanding: if query is Some {
            m.outstanding.push((next_txn(m), later(now, m.cfg.query_timeout_ms)))
        } else {
            m.outstanding
        },
        ..m
    }
}

/// What a poll gives: the session after it, and the query with the stream that it belongs to.
pub open spec fn poll_result(
    m: ClientModel,
    tag: Option<u16>,
    query: Option<Seq<u8>>,
    now: u64,
) -> (ClientModel, Option<(Option<u16>, Seq<u8>)>) {
    (
        asked(m, query, now),
        match query {
            Some(q) => Some((tag, q)),
            None => None,
        },
    )
}

/// The opening of the stream has not been acknowledged, and was not sent for a while.
pub open spec fn opening_due(l: LaneModel, now: u64, wait: u64) -> bool {
    !l.open && match l.last_open_ms {
        Some(t) => arq::elapsed(now, t) >= wait,
        None => true,
    }
}

/// The first place from `i` on of a stream whose opening is due, or the number of streams.
pub open spec fn first_opening(s: Seq<(u64, LaneModel)>, now: u64, wait: u64, i: nat) -> nat
    decreases s.len() - i,
{
    if i >= s.len() {
        s.len()
    } else if opening_due(s[i as int].1, now, wait) {
        i
    } else {
        first_opening(s, now, wait, i + 1)
    }
}

/// Some stream is not over.
pub open spec fn any_alive(s: Seq<(u64, LaneModel)>) -> bool {
    exists|i: int| 0 <= i < s.len() && !lanes::over((#[trigger] s[i]).1.stream)
}

/// A poll of an established session that sends no opening: the next frame of the streams in turn, or
/// an idle poll while a stream is alive.
pub open spec fn polled_streams(m: ClientModel, now: u64, nonce: Option<Seq<u8>>) -> (
    ClientModel,
    Option<(Option<u16>, Seq<u8>)>,
) {
    let (t, sent) = lanes::next_turn(m.lanes, m.rr_last, now);
    match sent {
        Some((id, f)) => {
            let n = ClientModel { lanes: t, rr_last: id, ..m };
            match nonce {
                Some(nonce) => poll_result(n, f.stream_id, query_for(n, nonce, f), now),
                None => (n, None),
            }
        },
        None => {
            let n = ClientModel { lanes: t, ..m };
            if any_alive(t) {
                match nonce {
                    Some(nonce) => poll_result(
                        n,
                        None,
                        query_for(n, nonce, control_frame(Kind::KeepAlive, None, Seq::empty())),
                        now,
                    ),
                    None => (n, None),
                }
            } else {
                (n, None)
            }
        },
    }
}

/// A poll of an established session: an opening that is due goes first.
pub open spec fn polled_established(
    m: ClientModel,
    now: u64,
    opening: Option<Seq<u8>>,
    nonce: Option<Seq<u8>>,
) -> (ClientModel, Option<(Option<u16>, Seq<u8>)>) {
    let i = first_opening(m.lanes, now, m.up_arq.initial_rto_ms, 0);
    if i < m.lanes.len() && opening is Some {
        let (id, l) = m.lanes[i as int];
        let n = lane_set(m, id as u16, LaneModel { last_open_ms: Some(now), ..l });
        poll_result(
            n,
            Some(id as u16),
            query_for(n, opening->0, control_frame(Kind::Syn, Some(id as u16), l.target)),
            now,
        )
    } else {
        polled_streams(m, now, nonce)
    }
}

/// A poll at time `now`: what it does to the session and the query that it gives. `opening` is the
/// nonce for an opening and `nonce` the one for anything else, as far as the generator gave them.
pub open spec fn polled_query(
    m: ClientModel,
    now: u64,
    opening: Option<Seq<u8>>,
    nonce: Option<Seq<u8>>,
) -> (ClientModel, Option<(Option<u16>, Seq<u8>)>) {
    let n = ClientModel { outstanding: unexpired(m.outstanding, now), ..m };
    if n.outstanding.len() >= n.cfg.max_query_inflight {
        (n, None)
    } else if n.keys is None {
        if n.outstanding.len() > 0 {
            (n, None)
        } else {
            poll_result(n, None, query_with(n, frame::syn_bytes(n.conn_id, n.eph_pub)), now)
        }
    } else {
        polled_established(n, now, opening, nonce)
    }
}

/// The model of a tagged query.
pub open spec fn tagged_view(r: Option<(Option<u16>, Vec<u8>)>) -> Option<(Option<u16>, Seq<u8>)> {
    match r {
        Some((tag, q)) => Some((tag, q@)),
        None => None,
    }
}

impl ClientSession {
    /// Frees the slots of queries whose deadline has passed.
    fn expire(&mut self, now: u64)
        requires
            old(self).wf(),
        ensures
            final(self).wf(),
            final(self).keys == old(self).keys,
            final(self)@ == (ClientModel {
                outstanding: unexpired(old(self)@.outstanding, now),
                ..old(self)@
            }),
    {
        let ghost all = self.outstanding@;
        let ghost mut seen: int = 0;
        let mut i: usize = 0;
        proof {
            reveal(Seq::filter);
            assert(all.take(0) =~= Seq::empty());
            assert(all.skip(0) =~= all);
            assert(unexpired(all.take(0), now) =~= Seq::empty());
        }
        while i < self.outstanding.len()
            invariant
                0 <= seen <= all.len(),
                all == old(self).outstanding@,
                i == unexpired(all.take(seen), now).len(),
                self.outstanding@ == unexpired(all.take(seen), now) + all.skip(seen),
                self.keys == old(self).keys,
                self.cfg == old(self).cfg,
                self@ == (ClientModel { outstanding: self.outstanding@, ..old(self)@ }),
            decreases all.len() - seen,
        {
            let ghost kept = unexpired(all.take(seen), now);
            proof {
                reveal(Seq::filter);
                assert(self.outstanding@[i as int] == all[seen]);
                assert(all.take(seen + 1).drop_last() =~= all.take(seen));
                assert(all.take(seen + 1).last() == all[seen]);
            }
            if self.outstanding[i].1 > now {
                i = i + 1;
                assert(self.outstanding@ =~= kept.push(all[seen]) + all.skip(seen + 1));
            } else {
                let _gone: (u16, u64) = self.outstanding.remove(i);
                assert(self.outstanding@ =~= kept + all.skip(seen + 1));
            }
            proof {
                seen = seen + 1;
            }
        }
        proof {
            assert(seen == all.len());
            assert(all.take(seen) =~= all);
            assert(self.outstanding@ =~= unexpired(all, now));
        }
    }

    /// Builds the query that carries `packet` under the next transaction id.
    fn build(&mut self, packet: &[u8]) -> (r: Option<Vec<u8>>)
        requires
            old(self).wf(),
        ensures
            final(self).wf(),
            final(self).keys == old(self).keys,
            final(self)@ == (ClientModel { txn: next_txn(old(self)@), ..old(self)@ }),
            message_view(r) == query_with(old(self)@, packet@),
    {
        self.txn = self.txn.wrapping_add(1);
        match dns::build_query(self.txn, packet, &self.zone, self.cfg.edns_udp) {
            Ok(q) => Some(q),
            Err(_) => None,
        }
    }

    /// Builds the query that carries a sealed frame under the next transaction id.
    fn build_sealed(&mut self, nonce: &[u8; NONCE_LEN], f: &Frame) -> (r: Option<Vec<u8>>)
        requires
            old(self).wf(),
            old(self)@.keys is Some,
        ensures
            final(self).wf(),
            final(self)@ == (ClientModel { txn: next_txn(old(self)@), ..old(self)@ }),
            message_view(r) == query_for(old(self)@, nonce@, f@),
    {
        let packet: Option<Vec<u8>> = match &self.keys {
            Some((up, _)) => if frame::fits_seal(up, f) {
                Some(frame::seal_short(up, &self.conn_id, nonce, f))
            } else {
                None
            },
            None => None,
        };
        match packet {
            Some(packet) => self.build(packet.as_slice()),
            None => {
                self.txn = self.txn.wrapping_add(1);
                None
            },
        }
    }

    /// Notes a query as in flight.
    fn note(&mut self, tag: Option<u16>, query: Option<Vec<u8>>, now: u64) -> (r: Option<
        (Option<u16>, Vec<u8>),
    >)
        requires
            old(self).wf(),
        ensures
            final(self).wf(),
            final(self)@ == (ClientModel {
                outstanding: if query is Some {
                    old(self)@.outstanding.push(
                        (old(self)@.txn, later(now, old(self)@.cfg.query_timeout_ms)),
                    )
                } else {
                    old(self)@.outstanding
                },
                ..old(self)@
            }),
            tagged_view(r) == match message_view(query) {
                Some(q) => Some((tag, q)),
                None => None,
            },
    {
        match query {
            Some(q) => {
                self.outstanding.push(
                    (self.txn, now.saturating_add(self.cfg.query_timeout_ms)),
                );
                Some((tag, q))
            },
            None => None,
        }
    }

    /// Where the first stream stands whose opening is due.
    fn opening(&self, now: u64) -> (r: Option<usize>)
        requires
            self.wf(),
        ensures
            ({
                let i = first_opening(self@.lanes, now, self@.up_arq.initial_rto_ms, 0);
                match r {
                    Some(k) => k == i && i < self@.lanes.len(),
                    None => i == self@.lanes.len(),
                }
            }),
    {
        let wait: u64 = self.up_arq_cfg.initial_rto_ms;
        let mut i: usize = 0;
        proof {
            lanes::lemma_lanes(self.lanes@);
        }
        while i < self.lanes.len()
            invariant
                i <= self.lanes@.len(),
                self@.lanes.len() == self.lanes@.len(),
                wait == self@.up_arq.initial_rto_ms,
                first_opening(self@.lanes, now, wait, 0) == first_opening(
                    self@.lanes,
                    now,
                    wait,
                    i as nat,
                ),
            decreases self.lanes@.len() - i,
        {
            proof {
                lanes::lemma_lanes(self.lanes@);
                assert(self@.lanes[i as int] == (
                    self.lanes@[i as int].0,
                    lanes::lane_model(self.lanes@[i as int].1),
                ));
            }
            let l: &Lane = self.lanes.value(i);
            let is_due: bool = !l.open && match l.last_open_ms {
                Some(t) => now.saturating_sub(t) >= wait,
                None => true,
            };
            if is_due {
                return Some(i);
            }
            i = i + 1;
        }
        None
    }

    /// Whether some stream is not over.
    fn any_stream_alive(&self) -> (r: bool)
        requires
            self.wf(),
        ensures
            r == any_alive(self@.lanes),
    {
        let mut i: usize = 0;
        proof {
            lanes::lemma_lanes(self.lanes@);
        }
        while i < self.lanes.len()
            invariant
                i <= self.lanes@.len(),
                self@.lanes.len() == self.lanes@.len(),
                forall|k: int| 0 <= k < i ==> lanes::over((#[trigger] self@.lanes[k]).1.stream),
            decreases self.lanes@.len() - i,
        {
            proof {
                lanes::lemma_lanes(self.lanes@);
                assert(self@.lanes[i as int] == (
                    self.lanes@[i as int].0,
                    lanes::lane_model(self.lanes@[i as int].1),
                ));
            }
            if !self.lanes.value(i).stream.is_closed() {
                return true;
            }
            i = i + 1;
        }
        false
    }

    /// Sends the opening of the stream at place `i`.
    fn poll_opening(&mut self, i: usize, now: u64, nonce: &[u8; NONCE_LEN]) -> (r: Option<
        (Option<u16>, Vec<u8>),
    >)
        requires
            old(self).wf(),
            old(self)@.keys is Some,
            i == first_opening(old(self)@.lanes, now, old(self)@.up_arq.initial_rto_ms, 0),
            i < old(self)@.lanes.len(),
        ensures
            final(self).wf(),
            (final(self)@, tagged_view(r)) == polled_established(
                old(self)@,
                now,
                Some(nonce@),
                None,
            ),
    {
        let ghost m = self@;
        proof {
            lanes::lemma_lanes(self.lanes@);
            assert(m.lanes[i as int] == (
                self.lanes@[i as int].0,
                lanes::lane_model(self.lanes@[i as int].1),
            ));
            table::lemma_found(self.lanes@, i as int);
            assert(m.lanes[i as int].0 <= 0xffff);
        }
        let sid: u16 = self.lanes.key(i) as u16;
        let target: Vec<u8> = vstd::slice::slice_to_vec(self.lanes.value(i).target.as_slice());
        let ghost was = self.lanes@;
        self.lanes.value_mut(i).last_open_ms = Some(now);
        proof {
            lanes::lemma_lane_set(was, self.lanes@, i as int, sid as u64);
            assert(self@ =~= lane_set(
                m,
                sid,
                LaneModel { last_open_ms: Some(now), ..m.lanes[i as int].1 },
            ));
        }
        let f: Frame = make_control(Kind::Syn, Some(sid), target);
        let query: Option<Vec<u8>> = self.build_sealed(nonce, &f);
        self.note(Some(sid), query, now)
    }

    /// Sends the next frame of the streams, or an idle poll.
    fn poll_streams(&mut self, now: u64, nonce: Option<[u8; NONCE_LEN]>) -> (r: Option<
        (Option<u16>, Vec<u8>),
    >)
        requires
            old(self).wf(),
            old(self)@.keys is Some,
        ensures
            final(self).wf(),
            (final(self)@, tagged_view(r)) == polled_streams(old(self)@, now, nonce_view(nonce)),
    {
        match lanes::next_frame(&mut self.lanes, self.rr_last, now) {
            Some((id, f)) => {
                self.rr_last = id;
                match nonce {
                    Some(nonce) => {
                        let query: Option<Vec<u8>> = self.build_sealed(&nonce, &f);
                        self.note(f.stream_id, query, now)
                    },
                    None => None,
                }
            },
            None => {
                if self.any_stream_alive() {
                    match nonce {
                        Some(nonce) => {
                            let f: Frame = make_control(Kind::KeepAlive, None, Vec::new());
                            let query: Option<Vec<u8>> = self.build_sealed(&nonce, &f);
                            self.note(None, query, now)
                        },
                        None => None,
                    }
                } else {
                    None
                }
            },
        }
    }

    /// Polls with given nonces: `opening` for an opening that is due, `nonce` for anything else that is
    /// sealed. Without the nonce that it needs a frame is not sent; streams send again what is lost.
    pub fn poll_query_with(
        &mut self,
        now: u64,
        opening: Option<[u8; NONCE_LEN]>,
        nonce: Option<[u8; NONCE_LEN]>,
    ) -> (r: Option<(Option<u16>, Vec<u8>)>)
        requires
            old(self).wf(),
        ensures
            final(self).wf(),
            (final(self)@, tagged_view(r)) == polled_query(
                old(self)@,
                now,
                nonce_view(opening),
                nonce_view(nonce),
            ),
    {
        self.expire(now);
        if self.outstanding.len() >= self.cfg.max_query_inflight {
            return None;
        }
        if self.keys.is_none() {
            if self.outstanding.len() > 0 {
                return None;
            }
            let syn: Vec<u8> = frame::build_syn(&self.conn_id, &self.client_eph_pub);
            let query: Option<Vec<u8>> = self.build(syn.as_slice());
            return self.note(None, query, now);
        }
        if let Some(i) = self.opening(now) {
            if let Some(n) = opening {
                return self.poll_opening(i, now, &n);
            }
        }
        self.poll_streams(now, nonce)
    }

    /// The next query to send, with the stream that it belongs to (none for the handshake and for idle
    /// polls); nothing where the budget is used up or there is nothing to send. Nonces are random.
    pub fn poll_query_tagged(&mut self, now: u64) -> (r: Option<(Option<u16>, Vec<u8>)>)
        requires
            old(self).wf(),
        ensures
            final(self).wf(),
            exists|opening: Option<[u8; NONCE_LEN]>, nonce: Option<[u8; NONCE_LEN]>|
                (final(self)@, tagged_view(r)) == #[trigger] polled_query(
                    old(self)@,
                    now,
                    nonce_view(opening),
                    nonce_view(nonce),
                ),
    {
        let opening: Option<[u8; NONCE_LEN]> = if self.is_established() && self.opening(
            now,
        ).is_some() {
            draw_nonce()
        } else {
            None
        };
        let nonce: Option<[u8; NONCE_LEN]> = if self.is_established() && opening.is_none() {
            draw_nonce()
        } else {
            None
        };
        self.poll_query_with(now, opening, nonce)
    }

    /// The next query to send, as [`ClientSession::poll_query_tagged`] without the stream.
    pub fn poll_query(&mut self, now: u64) -> (r: Option<Vec<u8>>)
        requires
            old(self).wf(),
        ensures
            final(self).wf(),
            exists|opening: Option<[u8; NONCE_LEN]>, nonce: Option<[u8; NONCE_LEN]>|
                {
                    let (m, q) = #[trigger] polled_query(
                        old(self)@,
                        now,
                        nonce_view(opening),
                        nonce_view(nonce),
                    );
                    final(self)@ == m && message_view(r) == untagged(q)
                },
    {
        match self.poll_query_tagged(now) {
            Some((_, q)) => Some(q),
            None => None,
        }
    }
}

/// A query without the stream that it belongs to.
pub open spec fn untagged(r: Option<(Option<u16>, Seq<u8>)>) -> Option<Seq<u8>> {
    match r {
        Some((_, q)) => Some(q),
        None => None,
    }
}

/// The nonce that was drawn; nothing where the draw failed.
pub fn nonce_drawn(drawn: Result<[u8; NONCE_LEN], CryptoError>) -> (n: Option<[u8; NONCE_LEN]>)
    ensures
        n == match drawn {
            Ok(nonce) => Some(nonce),
            Err(_) => None,
        },
{
    match drawn {
        Ok(nonce) => Some(nonce),
        Err(_) => None,
    }
}

/// A random nonce, if the generator gives one. Which one it is, and whether there is one, is chance; what
/// is returned for each draw is [`nonce_drawn`].
pub(crate) fn draw_nonce() -> (n: Option<[u8; NONCE_LEN]>) {
    nonce_drawn(crypto::random_nonce())
}

// ---- control queries ----

/// A control frame that carries a number.
pub open spec fn number_frame(kind: Kind, value: u16) -> FrameModel {
    control_frame(kind, None, crate::tunnel::wire::be16(value))
}

/// The session after it built a control query, and the query: nothing happens before the handshake is
/// complete or without a nonce.
pub open spec fn control_query(m: ClientModel, kind: Kind, value: u16, nonce: Option<Seq<u8>>) -> (
    ClientModel,
    Option<Seq<u8>>,
) {
    if m.keys is Some && nonce is Some {
        (
            ClientModel { txn: next_txn(m), ..m },
            query_for(m, nonce->0, number_frame(kind, value)),
        )
    } else {
        (m, None)
    }
}

impl ClientSession {
    /// Builds a control query that carries a number, with a given nonce.
    pub fn build_control(&mut self, kind: Kind, value: u16, nonce: Option<[u8; NONCE_LEN]>) -> (r:
        Option<Vec<u8>>)
        requires
            old(self).wf(),
        ensures
            final(self).wf(),
            (final(self)@, message_view(r)) == control_query(
                old(self)@,
                kind,
                value,
                nonce_view(nonce),
            ),
    {
        if !self.is_established() {
            return None;
        }
        match nonce {
            Some(nonce) => {
                let mut payload: Vec<u8> = Vec::new();
                crate::tunnel::wire::put16(&mut payload, value);
                assert(payload@ =~= crate::tunnel::wire::be16(value));
                let f: Frame = make_control(kind, None, payload);
                self.build_sealed(&nonce, &f)
            },
            None => None,
        }
    }

    /// Builds a query that asks for an answer padded to about `target` bytes: where it comes back, answers
    /// of that size survive the path.
    pub fn build_mtu_probe(&mut self, target: u16) -> (r: Option<Vec<u8>>)
        requires
            old(self).wf(),
        ensures
            final(self).wf(),
            exists|nonce: Option<[u8; NONCE_LEN]>|
                (final(self)@, message_view(r)) == #[trigger] control_query(
                    old(self)@,
                    Kind::MtuProbe,
                    target,
                    nonce_view(nonce),
                ),
    {
        let nonce: Option<[u8; NONCE_LEN]> = draw_nonce();
        self.build_control(Kind::MtuProbe, target, nonce)
    }

    /// Builds a query that tells the server to send segments of at most `size` bytes on every stream.
    pub fn build_set_mtu(&mut self, size: u16) -> (r: Option<Vec<u8>>)
        requires
            old(self).wf(),
        ensures
            final(self).wf(),
            exists|nonce: Option<[u8; NONCE_LEN]>|
                (final(self)@, message_view(r)) == #[trigger] control_query(
                    old(self)@,
                    Kind::SetMtu,
                    size,
                    nonce_view(nonce),
                ),
    {
        let nonce: Option<[u8; NONCE_LEN]> = draw_nonce();
        self.build_control(Kind::SetMtu, size, nonce)
    }
}

// ---- answers ----

/// The first place from `i` on of a query of this transaction id, or the number of queries.
pub open spec fn slot_of(o: Seq<(u16, u64)>, txn: u16, i: nat) -> nat
    decreases o.len() - i,
{
    if i >= o.len() {
        o.len()
    } else if o[i as int].0 == txn {
        i
    } else {
        slot_of(o, txn, i + 1)
    }
}

/// The queries without the first one of this transaction id; the last one takes its place.
pub open spec fn freed(o: Seq<(u16, u64)>, txn: u16) -> Seq<(u16, u64)> {
    let i = slot_of(o, txn, 0);
    if i < o.len() {
        o.update(i as int, o.last()).drop_last()
    } else {
        o
    }
}

/// The server's handshake is signed by the server that the client expects.
pub open spec fn accepted(m: ClientModel, server_eph: Seq<u8>, sig: Seq<u8>) -> bool {
    crypto::ed25519_verify_of(
        m.server_pub,
        signed_of(transcript_of(m.eph_pub, server_eph, m.conn_id)),
        sig,
    )
}

/// The session after its ephemeral key was used: the agreement gave a secret, from which the keys come,
/// or it failed.
pub open spec fn keys_installed(
    m: ClientModel,
    server_eph: Seq<u8>,
    secret: Option<Seq<u8>>,
) -> ClientModel {
    ClientModel {
        eph: None,
        keys: match secret {
            Some(secret) => Some(
                session_keys(transcript_of(m.eph_pub, server_eph, m.conn_id), secret),
            ),
            None => m.keys,
        },
        ..m
    }
}

/// What a packet that came with an answer does.
pub open spec fn packet_taken(
    m: ClientModel,
    p: PacketModel,
    now: u64,
) -> (ClientModel, AnswerOutcome) {
    match m.keys {
        None => match p {
            PacketModel::SynAck { conn_id, server_eph, sig } => (
                match m.eph {
                    Some(key) => if accepted(m, server_eph, sig) {
                        keys_installed(m, server_eph, crypto::x25519_secret_of(key, server_eph))
                    } else {
                        m
                    },
                    None => m,
                },
                AnswerOutcome::Consumed,
            ),
            _ => (m, AnswerOutcome::Consumed),
        },
        Some((_, down)) => match p {
            PacketModel::Data { conn_id, nonce, ciphertext } => match inner_frame(
                m.cfg.cipher,
                down,
                nonce,
                ciphertext,
            ) {
                Some(f) => frame_taken(m, f, now),
                None => (m, AnswerOutcome::Consumed),
            },
            _ => (m, AnswerOutcome::Consumed),
        },
    }
}

/// What a frame that came with an answer does: a probe's answer is reported, an acknowledged opening
/// opens its stream, and anything else goes to the stream that it names.
pub open spec fn frame_taken(m: ClientModel, f: FrameModel, now: u64) -> (
    ClientModel,
    AnswerOutcome,
) {
    match f.kind {
        Kind::MtuProbeResp => (
            m,
            AnswerOutcome::ProbeResp {
                target: match u16_of(f.payload) {
                    Some(t) => t,
                    None => 0,
                },
            },
        ),
        Kind::SynAck => (
            match f.stream_id {
                Some(sid) => if has_stream(m, sid) {
                    lane_set(m, sid, LaneModel { open: true, ..stream_of(m, sid) })
                } else {
                    m
                },
                None => m,
            },
            AnswerOutcome::Consumed,
        ),
        _ => (
            match f.stream_id {
                Some(sid) => ClientModel { lanes: lanes::routed(m.lanes, sid, f, now), ..m },
                None => m,
            },
            AnswerOutcome::Consumed,
        ),
    }
}

/// What an answer does.
pub open spec fn answer_taken(m: ClientModel, answer: Seq<u8>, now: u64) -> (
    ClientModel,
    AnswerOutcome,
) {
    match dns::answer_of(answer) {
        Err(_) => (m, AnswerOutcome::Consumed),
        Ok((txn, data)) => {
            let n = ClientModel { outstanding: freed(m.outstanding, txn), ..m };
            if data.len() == 0 {
                (n, AnswerOutcome::Consumed)
            } else {
                match frame::packet_of(data) {
                    Err(_) => (n, AnswerOutcome::Consumed),
                    Ok(p) => packet_taken(n, p, now),
                }
            }
        },
    }
}

impl ClientSession {
    /// Frees the slot of the query of this transaction id.
    fn free_slot(&mut self, txn: u16)
        requires
            old(self).wf(),
        ensures
            final(self).wf(),
            final(self)@ == (ClientModel {
                outstanding: freed(old(self)@.outstanding, txn),
                ..old(self)@
            }),
            final(self).client_eph == old(self).client_eph,
    {
        let ghost o = self.outstanding@;
        let mut i: usize = 0;
        while i < self.outstanding.len()
            invariant
                i <= o.len(),
                o == self.outstanding@,
                *self == *old(self),
                old(self).wf(),
                slot_of(o, txn, 0) == slot_of(o, txn, i as nat),
            decreases o.len() - i,
        {
            if self.outstanding[i].0 == txn {
                let _gone: (u16, u64) = self.outstanding.swap_remove(i);
                assert(self.outstanding@ =~= freed(o, txn));
                return;
            }
            i = i + 1;
        }
    }

    /// Whether the server's handshake is signed by the server that the client expects.
    pub fn accepts(&self, server_eph: &[u8; X25519_PUB_LEN], sig: &[u8; ED25519_SIG_LEN]) -> (r: bool)
        ensures
            r == accepted(self@, server_eph@, sig@),
    {
        let t: Vec<u8> = transcript(&self.client_eph_pub, server_eph, &self.conn_id);
        let msg: Vec<u8> = signed_msg(t.as_slice());
        crypto::verify_server_sig(&self.server_pub, msg.as_slice(), sig.as_slice()).is_ok()
    }

    /// Uses up the ephemeral key and installs the keys that come from the agreed secret; without a
    /// secret the session stays as it was.
    pub fn install_keys(&mut self, server_eph: &[u8; X25519_PUB_LEN], secret: Option<[u8; 32]>)
        requires
            old(self).wf(),
        ensures
            final(self).wf(),
            final(self)@ == keys_installed(old(self)@, server_eph@, secret_view(secret)),
    {
        self.client_eph = None;
        if let Some(ee) = secret {
            let t: Vec<u8> = transcript(&self.client_eph_pub, server_eph, &self.conn_id);
            let keys: crypto::SessionKeys = crypto::derive_session_keys_ecdh(
                ee.as_slice(),
                t.as_slice(),
            );
            if let Ok(up) = Aead::new(self.cfg.cipher, &keys.up) {
                if let Ok(down) = Aead::new(self.cfg.cipher, &keys.down) {
                    self.keys = Some((up, down));
                }
            }
        }
    }

    /// Takes a frame that came with an answer.
    pub fn on_frame(&mut self, f: &Frame, now: u64) -> (r: AnswerOutcome)
        requires
            old(self).wf(),
        ensures
            final(self).wf(),
            (final(self)@, r) == frame_taken(old(self)@, f@, now),
    {
        match f.kind {
            Kind::MtuProbeResp => {
                let target: u16 = match read_u16(f.payload.as_slice()) {
                    Some(t) => t,
                    None => 0,
                };
                return AnswerOutcome::ProbeResp { target };
            },
            Kind::SynAck => {
                if let Some(sid) = f.stream_id {
                    proof {
                        lanes::lemma_lane_get(self.lanes@, sid as u64);
                    }
                    if let Some(i) = self.lanes.find(sid as u64) {
                        self.lanes.value_mut(i).open = true;
                        proof {
                            lanes::lemma_lane_set(
                                old(self).lanes@,
                                self.lanes@,
                                i as int,
                                sid as u64,
                            );
                        }
                    }
                }
            },
            _ => {
                if let Some(sid) = f.stream_id {
                    lanes::route(&mut self.lanes, sid, f, now);
                }
            },
        }
        AnswerOutcome::Consumed
    }

    /// Takes an answer. A server's handshake that does not verify is ignored.
    pub fn on_answer(&mut self, answer: &[u8], now: u64) -> (r: AnswerOutcome)
        requires
            old(self).wf(),
        ensures
            final(self).wf(),
            (final(self)@, r) == answer_taken(old(self)@, answer@, now),
    {
        let parsed: dns::Answer = match dns::parse_answer(answer) {
            Ok(a) => a,
            Err(_) => {
                return AnswerOutcome::Consumed;
            },
        };
        self.free_slot(parsed.txn_id);
        let ghost n = self@;
        if parsed.data.len() == 0 {
            return AnswerOutcome::Consumed;
        }
        let packet: Packet = match frame::parse_packet(parsed.data.as_slice()) {
            Ok(p) => p,
            Err(_) => {
                return AnswerOutcome::Consumed;
            },
        };
        let ghost p = packet@;
        assert(answer_taken(old(self)@, answer@, now) == packet_taken(n, p, now));
        if self.keys.is_none() {
            if let Packet::SynAck { server_eph, sig, .. } = packet {
                if self.accepts(&server_eph, &sig) {
                    if let Some(eph) = self.client_eph.take() {
                        let secret: Option<[u8; 32]> = match eph.agree(&server_eph) {
                            Ok(ee) => Some(ee),
                            Err(_) => None,
                        };
                        self.install_keys(&server_eph, secret);
                    }
                }
            }
            return AnswerOutcome::Consumed;
        }
        if let Packet::Data { nonce, ciphertext, .. } = packet {
            let opened: Option<Frame> = match &self.keys {
                Some((_, down)) => match frame::open_frame(down, &nonce, ciphertext) {
                    Ok(f) => Some(f),
                    Err(_) => None,
                },
                None => None,
            };
            if let Some(f) = opened {
                return self.on_frame(&f, now);
            }
        }
        AnswerOutcome::Consumed
    }
}

} // verus!
