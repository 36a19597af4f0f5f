//! What a caller asks of one stream among many: bytes to send, bytes that arrived, a half-close, and when
//! to come back. Each reaches the stream that it names and no other.
use vstd::prelude::*;

use crate::table;
use crate::tunnel::dns;
use crate::tunnel::frame;
use crate::tunnel::frame::FrameModel;
use crate::tunnel::lanes;
use crate::tunnel::lanes::LaneModel;
use crate::tunnel::server;
use crate::tunnel::server::ServerModel;
use crate::tunnel::session;

verus! {

/// Stream `id` is not there in either, or is there in both and the same.
pub open spec fn same_stream(
    a: Seq<(u64, LaneModel)>,
    b: Seq<(u64, LaneModel)>,
    id: u16,
) -> bool {
    &&& table::holds(a, id as u64) == table::holds(b, id as u64)
    &&& table::holds(a, id as u64) ==> table::at(a, id as u64) == table::at(b, id as u64)
}

/// What is written goes behind what waits on its stream. Nothing else of the stream changes, and no
/// other stream does; bytes for a stream that does not exist go nowhere.
pub proof fn lemma_written_bytes_wait_on_their_stream(
    s: Seq<(u64, LaneModel)>,
    id: u16,
    data: Seq<u8>,
    other: u16,
)
    requires
        table::keyed(s),
    ensures
        ({
            let t = lanes::lane_written(s, id, data);
            let (a, b) = (table::at(s, id as u64), table::at(t, id as u64));
            &&& other != id ==> same_stream(t, s, other)
            &&& !table::holds(s, id as u64) ==> t == s
            &&& table::holds(s, id as u64) ==> {
                &&& table::holds(t, id as u64)
                &&& b.stream.outbox == a.stream.outbox + data
                &&& b == (LaneModel {
                    stream: crate::tunnel::arq::StreamModel {
                        outbox: b.stream.outbox,
                        ..a.stream
                    },
                    ..a
                })
            }
        }),
{
    if table::holds(s, id as u64) {
        let a = table::at(s, id as u64);
        let v = LaneModel {
            stream: crate::tunnel::arq::StreamModel {
                outbox: a.stream.outbox + data,
                ..a.stream
            },
            ..a
        };
        table::lemma_with(s, id as u64, v);
        if other != id {
            table::lemma_with_other(s, id as u64, v, other as u64);
        }
    }
}

/// Reading takes what its stream has delivered, all of it and once: a second read gives nothing. Nothing
/// else of the stream changes, and no other stream does; a stream that does not exist has nothing.
pub proof fn lemma_reading_takes_what_was_delivered(
    s: Seq<(u64, LaneModel)>,
    id: u16,
    other: u16,
)
    requires
        table::keyed(s),
    ensures
        ({
            let t = lanes::lane_read(s, id);
            let (a, b) = (table::at(s, id as u64), table::at(t, id as u64));
            &&& other != id ==> same_stream(t, s, other)
            &&& lanes::lane_delivered(t, id).len() == 0
            &&& !table::holds(s, id as u64) ==> t == s && lanes::lane_delivered(s, id).len() == 0
            &&& table::holds(s, id as u64) ==> {
                &&& lanes::lane_delivered(s, id) == a.stream.delivered
                &&& table::holds(t, id as u64)
                &&& b == (LaneModel {
                    stream: crate::tunnel::arq::StreamModel {
                        delivered: b.stream.delivered,
                        ..a.stream
                    },
                    ..a
                })
            }
        }),
{
    if table::holds(s, id as u64) {
        let a = table::at(s, id as u64);
        let v = LaneModel {
            stream: crate::tunnel::arq::StreamModel { delivered: Seq::empty(), ..a.stream },
            ..a
        };
        table::lemma_with(s, id as u64, v);
        if other != id {
            table::lemma_with_other(s, id as u64, v, other as u64);
        }
    }
}

/// A half-close is asked of its stream and of no other, and drops nothing that waits or was delivered.
pub proof fn lemma_half_close_drops_nothing(s: Seq<(u64, LaneModel)>, id: u16, other: u16)
    requires
        table::keyed(s),
    ensures
        ({
            let t = lanes::lane_closing(s, id);
            let (a, b) = (table::at(s, id as u64), table::at(t, id as u64));
            &&& other != id ==> same_stream(t, s, other)
            &&& !table::holds(s, id as u64) ==> t == s
            &&& table::holds(s, id as u64) ==> {
                &&& table::holds(t, id as u64)
                &&& b.stream.closing
                &&& b.stream.outbox == a.stream.outbox
                &&& b.stream.delivered == a.stream.delivered
                &&& b == (LaneModel {
                    stream: crate::tunnel::arq::StreamModel { closing: true, ..a.stream },
                    ..a
                })
            }
        }),
{
    if table::holds(s, id as u64) {
        let a = table::at(s, id as u64);
        let v = LaneModel {
            stream: crate::tunnel::arq::StreamModel { closing: true, ..a.stream },
            ..a
        };
        table::lemma_with(s, id as u64, v);
        if other != id {
            table::lemma_with_other(s, id as u64, v, other as u64);
        }
    }
}

/// A session that is removed is gone, and no other is touched.
pub proof fn lemma_removed_session_is_gone(m: ServerModel, c: Seq<u8>, other: Seq<u8>)
    requires
        table::keyed(m.sessions),
        server::id_key(other) != server::id_key(c),
    ensures
        ({
            let n = ServerModel {
                sessions: table::without(m.sessions, server::id_key(c)),
                ..m
            };
            &&& !server::has_session_of(n, c)
            &&& server::has_session_of(n, other) == server::has_session_of(m, other)
            &&& server::has_session_of(m, other) ==> server::session_of(n, other)
                == server::session_of(m, other)
        }),
{
    lemma_taken_out(m.sessions, server::id_key(c), server::id_key(other));
}

/// An entry that is taken out is gone, and every other stays.
proof fn lemma_taken_out<T>(s: Seq<(u64, T)>, k: u64, o: u64)
    requires
        table::keyed(s),
        o != k,
    ensures
        !table::holds(table::without(s, k), k),
        table::holds(table::without(s, k), o) == table::holds(s, o),
        table::holds(s, o) ==> table::at(table::without(s, k), o) == table::at(s, o),
{
    let t = table::without(s, k);
    let r = table::rank(s, k) as int;
    let at = table::rank(s, o) as int;
    table::lemma_without(s, k);
    table::lemma_rank(s, k);
    table::lemma_rank(s, o);
    if table::holds(s, k) {
        let back = if at <= r {
            at
        } else {
            at - 1
        };
        table::lemma_rank_is(t, o, back);
    }
}

/// The next deadline of a session is that of the stream whose segment is due first: before it no segment
/// of any stream is overdue, and from it on some is. A deadline past the largest time does not come.
pub proof fn lemma_deadline_covers_every_stream(
    s: Seq<(u64, LaneModel)>,
    t: u64,
    now: u64,
    i: int,
    k: int,
)
    requires
        session::earliest(s, t),
        t < u64::MAX,
    ensures
        now < t && 0 <= i < s.len() && 0 <= k < s[i].1.stream.inflight.len() ==> now
            < s[i].1.stream.inflight[k].sent_at + s[i].1.stream.rto_ms,
        now >= t ==> exists|a: int, b: int|
            0 <= a < s.len() && 0 <= b < s[a].1.stream.inflight.len() && now
                >= (#[trigger] s[a].1.stream.inflight[b]).sent_at + s[a].1.stream.rto_ms,
{
    if 0 <= i < s.len() && 0 <= k < s[i].1.stream.inflight.len() {
        assert(t <= crate::tunnel::arq::deadline(
            s[i].1.stream.inflight[k],
            s[i].1.stream.rto_ms,
        ));
    }
    let (a, b) = choose|a: int, b: int|
        0 <= a < s.len() && 0 <= b < s[a].1.stream.inflight.len()
            && #[trigger] crate::tunnel::arq::deadline(
            s[a].1.stream.inflight[b],
            s[a].1.stream.rto_ms,
        ) == t;
    assert(s[a].1.stream.inflight[b].sent_at + s[a].1.stream.rto_ms == t);
}

/// Segments use the room that there is: what a name or an answer with the longest question has room for,
/// less the 37 bytes around a frame and 16 for its header, and one byte where that leaves nothing.
pub proof fn lemma_segments_use_the_room(zone_len: int, edns_udp: u16)
    ensures
        ({
            let up = crate::tunnel::mtu::uplink_wire_bytes(zone_len);
            let down = crate::tunnel::mtu::downlink_wire_bytes(edns_udp as int, 259);
            &&& up > 53 ==> session::uplink_size(zone_len) == up - 53
            &&& up <= 53 ==> session::uplink_size(zone_len) == 1
            &&& down > 53 ==> session::downlink_size(edns_udp) == down - 53
            &&& down <= 53 ==> session::downlink_size(edns_udp) == 1
        }),
{
}

/// A segment as long as a server's new stream sends fits in an answer: sealed with its header, behind any
/// question that a query can have, it takes no more than the advertised size, as long as that leaves
/// room for one byte behind the longest question.
pub proof fn lemma_segments_fit_an_answer(
    request: Seq<u8>,
    cfg: session::Config,
    key: Seq<u8>,
    conn_id: Seq<u8>,
    nonce: Seq<u8>,
    f: FrameModel,
)
    requires
        dns::question_end_of(request) is Ok,
        dns::question_end_of(request)->Ok_0 <= 12 + 259,
        crate::tunnel::mtu::downlink_wire_bytes(cfg.edns_udp as int, 259) >= 54,
        conn_id.len() == 8,
        nonce.len() == 12,
        f.fragment is None && f.comp_algo is None,
        f.payload.len() <= server::down_arq(cfg).max_segment,
        crate::tunnel::crypto::sealed_under(cfg.cipher, key, nonce, frame::encoded(f)).len()
            == frame::encoded(f).len() + 16,
    ensures
        dns::answer_message(
            request,
            dns::question_end_of(request)->Ok_0,
            session::sealed_packet(cfg.cipher, key, conn_id, nonce, f),
            cfg.edns_udp,
        ).len() <= cfg.edns_udp,
{
    frame::lemma_frame_layout(f);
    let packet = session::sealed_packet(cfg.cipher, key, conn_id, nonce, f);
    let q = dns::question_end_of(request)->Ok_0 - 12;
    crate::tunnel::mtu::lemma_downlink_bound_is_exact(request, packet, cfg.edns_udp);
    let a = crate::tunnel::mtu::minus(cfg.edns_udp as int, crate::tunnel::mtu::envelope(q));
    let b = crate::tunnel::mtu::minus(cfg.edns_udp as int, crate::tunnel::mtu::envelope(259));
    assert(b <= a);
    assert(b - (b + 255) / 256 <= a - (a + 255) / 256);
}

/// A stream that a client opens is tuned as the server is configured, with segments of the size that
/// fits the server's answers; it starts at the number at which the client's end starts.
pub proof fn lemma_opened_stream_is_tuned(
    s: server::SessionModel,
    cfg: session::Config,
    f: FrameModel,
    sid: u16,
    now: u64,
)
    requires
        table::keyed(s.lanes),
        f.kind == frame::Kind::Syn,
        f.stream_id == Some(sid),
        !table::holds(s.lanes, sid as u64),
    ensures
        ({
            let l = table::at(server::responded(s, cfg, Some(f), now).0.lanes, sid as u64);
            let client = lanes::fresh_lane(sid, cfg.arq, f.payload, false);
            &&& l.stream.cfg.max_segment == session::downlink_size(cfg.edns_udp)
            &&& l.stream.cfg == (crate::tunnel::arq::Config {
                max_segment: l.stream.cfg.max_segment,
                ..cfg.arq
            })
            &&& l.stream.rto_ms == cfg.arq.initial_rto_ms
            &&& l.stream.snd_nxt == client.stream.rcv_nxt
            &&& l.stream.rcv_nxt == client.stream.snd_nxt
            &&& l.stream.snd_una == l.stream.snd_nxt
        }),
{
    let fresh = lanes::fresh_lane(sid, server::down_arq(cfg), f.payload, true);
    table::lemma_with(s.lanes, sid as u64, fresh);
}

/// By default both windows hold at least as many segments as there may be queries in flight, the peer's
/// end takes all that may be in flight, the first timeout lies between the limits, and a query is not
/// given up before a first timeout has passed.
pub proof fn lemma_default_windows_hold_the_budget()
    ensures
        ({
            let c = session::default_config();
            &&& c.max_query_inflight == 64
            &&& c.max_query_inflight <= c.arq.send_window == 256
            &&& c.arq.send_window <= c.arq.recv_window == 1024
            &&& c.arq.min_rto_ms == 200
            &&& c.arq.min_rto_ms <= c.arq.initial_rto_ms == 1000
            &&& c.arq.initial_rto_ms <= c.arq.max_rto_ms == 30000
            &&& c.arq.initial_rto_ms <= c.query_timeout_ms == 3000
            &&& c.edns_udp == 1232
            &&& c.cipher is ChaCha20Poly1305
            &&& c.arq.max_segment == 128
            &&& crate::tunnel::arq::default_config() == (crate::tunnel::arq::Config {
                send_window: 64,
                recv_window: 256,
                ..c.arq
            })
        }),
{
}

/// A new client session sizes its segments by what a query under its zone has room for, and its first
/// stream, like all that follow, is tuned so.
pub proof fn lemma_new_session_is_sized_by_its_zone(
    server_pub: Seq<u8>,
    zone: Seq<Seq<u8>>,
    target: Seq<u8>,
    cfg: session::Config,
    conn_id: Seq<u8>,
    key: ring::agreement::EphemeralPrivateKey,
)
    ensures
        ({
            let m = session::new_client(server_pub, zone, target, cfg, conn_id, key);
            let up = crate::tunnel::mtu::uplink_wire_bytes(session::name_len(zone));
            &&& m.lanes.len() == 1
            &&& m.lanes[0].0 == 1
            &&& m.lanes[0].1.stream.cfg == m.up_arq
            &&& m.up_arq.send_window == cfg.arq.send_window
            &&& m.up_arq.recv_window == cfg.arq.recv_window
            &&& 53 < up <= 0xffff ==> m.up_arq.max_segment == up - 53
            &&& up <= 53 ==> m.up_arq.max_segment == 1
            &&& !m.lanes[0].1.open
            &&& m.cfg == cfg
        }),
{
}

} // verus!
