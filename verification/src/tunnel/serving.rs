//! What a server does with a query: which are answered with nothing, how a stream is opened, and that a
//! client's frame reaches the stream that it names.
use vstd::prelude::*;

use crate::table;
use crate::tunnel::arq;
use crate::tunnel::crypto;
use crate::tunnel::dns;
use crate::tunnel::dns::DnsError;
use crate::tunnel::frame;
use crate::tunnel::frame::{FrameError, FrameModel, Kind, PacketModel};
use crate::tunnel::lanes;
use crate::tunnel::lanes::LaneModel;
use crate::tunnel::server;
use crate::tunnel::server::{ServerModel, SessionModel};
use crate::tunnel::session;
use crate::tunnel::session::{ClientModel, Config};

verus! {

/// A message that answers a query without data, and without error.
pub open spec fn empty_answer(query: Seq<u8>, answer: Seq<u8>) -> bool {
    &&& answer.len() >= 12
    &&& answer[0] == query[0] && answer[1] == query[1]
    &&& answer[2] == 0x81 && answer[3] == 0x80
    &&& dns::answer_of(answer) matches Ok((_, data)) && data.len() == 0
}

/// A query that is not under the zone is not answered. One under the zone that holds no packet that a
/// server takes, or a data packet for a session that it does not have, is answered without data, so
/// that nothing tells the server from an ordinary one. None of them changes anything.
pub proof fn lemma_strangers_learn_nothing(
    m: ServerModel,
    query: Seq<u8>,
    now: u64,
    exchange: Option<(Seq<u8>, Seq<u8>)>,
    fresh: Option<Seq<u8>>,
)
    requires
        match dns::query_of(query, m.zone) {
            Err(_) => true,
            Ok((_, data)) => match frame::packet_of(data) {
                Ok(PacketModel::Syn { .. }) => false,
                Ok(PacketModel::Data { conn_id, .. }) => !server::has_session_of(m, conn_id),
                _ => true,
            },
        },
    ensures
        ({
            let (n, answer) = server::query_answered(m, query, now, exchange, fresh);
            &&& n == m
            &&& dns::query_of(query, m.zone) == Err::<(u16, Seq<u8>), DnsError>(DnsError::WrongZone)
                ==> answer is None
            &&& dns::query_of(query, m.zone) != Err::<(u16, Seq<u8>), DnsError>(
                DnsError::WrongZone,
            ) ==> (answer is Some <==> dns::question_end_of(query) is Ok)
            &&& answer matches Some(a) ==> empty_answer(query, a)
        }),
{
    if dns::question_end_of(query) is Ok {
        dns::lemma_nodata_is_a_response(query, m.zone, m.cfg.edns_udp);
    }
}

/// The stream that an opening makes on the server.
pub open spec fn newly_opened(l: LaneModel, sid: u16, target: Seq<u8>) -> bool {
    &&& l.open
    &&& !l.dialed
    &&& l.target == target
    &&& l.stream.stream_id == sid
    &&& l.stream.state == arq::State::Open
    &&& l.stream.snd_nxt == 0 && l.stream.snd_una == 0 && l.stream.rcv_nxt == 0
    &&& l.stream.outbox.len() == 0
    &&& l.stream.inflight.len() == 0
    &&& l.stream.delivered.len() == 0
}

/// The opening of a stream makes the stream, once, with its target still to be dialed, and is answered
/// with its acknowledgement, each time that it comes. The client that gets the acknowledgement may send
/// on that stream. No other stream changes on either end.
pub proof fn lemma_opening_opens_both_ends(
    s: SessionModel,
    cfg: Config,
    client: ClientModel,
    sid: u16,
    target: Seq<u8>,
    now: u64,
    later: u64,
    other: u16,
)
    requires
        lanes::lanes_ok(s.lanes),
        session::client_ok(client),
        session::has_stream(client, sid),
        other != sid,
    ensures
        ({
            let f = FrameModel {
                kind: Kind::Syn,
                stream_id: Some(sid),
                seq: None,
                fragment: None,
                comp_algo: None,
                payload: target,
            };
            let (t, reply) = server::responded(s, cfg, Some(f), now);
            let (n, _) = session::frame_taken(client, reply->0, later);
            let k = sid as u64;
            &&& reply is Some
            &&& table::holds(t.lanes, k)
            &&& table::holds(s.lanes, k) ==> t == s
            &&& !table::holds(s.lanes, k) ==> newly_opened(table::at(t.lanes, k), sid, target)
            &&& table::holds(t.lanes, other as u64) == table::holds(s.lanes, other as u64)
            &&& table::holds(s.lanes, other as u64) ==> table::at(t.lanes, other as u64)
                == table::at(s.lanes, other as u64)
            &&& server::responded(t, cfg, Some(f), later) == (t, reply)
            &&& session::stream_of(n, sid) == (LaneModel {
                open: true,
                ..session::stream_of(client, sid)
            })
            &&& session::has_stream(client, other) ==> session::stream_of(n, other)
                == session::stream_of(client, other)
        }),
{
    let k = sid as u64;
    let fresh = lanes::fresh_lane(sid, server::down_arq(cfg), target, true);
    if !table::holds(s.lanes, k) {
        table::lemma_with(s.lanes, k, fresh);
        table::lemma_with_other(s.lanes, k, fresh, other as u64);
    }
    let opened = LaneModel { open: true, ..session::stream_of(client, sid) };
    table::lemma_with(client.lanes, k, opened);
    table::lemma_with_other(client.lanes, k, opened, other as u64);
}

/// The target that a client opens a stream with is the one that the server hands out to be dialed.
pub proof fn lemma_opened_target_is_handed_out(
    s: SessionModel,
    cfg: Config,
    sid: u16,
    target: Seq<u8>,
    now: u64,
)
    requires
        lanes::lanes_ok(s.lanes),
        !table::holds(s.lanes, sid as u64),
    ensures
        ({
            let f = FrameModel {
                kind: Kind::Syn,
                stream_id: Some(sid),
                seq: None,
                fragment: None,
                comp_algo: None,
                payload: target,
            };
            let t = server::responded(s, cfg, Some(f), now).0;
            server::undialed(t.lanes).contains((sid, target))
        }),
{
    let k = sid as u64;
    let fresh = lanes::fresh_lane(sid, server::down_arq(cfg), target, true);
    let t = table::with(s.lanes, k, fresh);
    table::lemma_with(s.lanes, k, fresh);
    lemma_undialed_holds(t, table::rank(t, k) as int);
}

proof fn lemma_undialed_holds(s: Seq<(u64, LaneModel)>, i: int)
    requires
        0 <= i < s.len(),
        !s[i].1.dialed,
    ensures
        server::undialed(s).contains((s[i].0 as u16, s[i].1.target)),
    decreases s.len(),
{
    let e = (s[i].0 as u16, s[i].1.target);
    let d = s.drop_last();
    let r = server::undialed(s);
    if i < s.len() - 1 {
        lemma_undialed_holds(d, i);
        let q = server::undialed(d);
        let k = choose|k: int| 0 <= k < q.len() && q[k] == e;
        assert(r[k] == e);
    } else {
        assert(r[r.len() - 1] == e);
    }
}

/// A frame of a stream is taken by that stream before the next frame is asked for: whatever comes of the
/// turn, it is that of the streams with the frame taken. A frame for a stream that does not exist, and an
/// idle poll, change nothing before the turn.
pub proof fn lemma_frame_is_taken_before_the_turn(
    s: SessionModel,
    cfg: Config,
    f: FrameModel,
    sid: u16,
    now: u64,
)
    requires
        lanes::lanes_ok(s.lanes),
        f.stream_id == Some(sid),
        f.kind == Kind::Data || f.kind == Kind::Ack || f.kind == Kind::Nack || f.kind == Kind::Fin
            || f.kind == Kind::Rst,
    ensures
        ({
            let k = sid as u64;
            let l = table::at(s.lanes, k);
            let taken = LaneModel { stream: arq::frame_taken(l.stream, f, now), ..l };
            let after = SessionModel {
                lanes: if table::holds(s.lanes, k) {
                    table::with(s.lanes, k, taken)
                } else {
                    s.lanes
                },
                ..s
            };
            let idle = FrameModel {
                kind: Kind::KeepAlive,
                stream_id: None,
                seq: None,
                fragment: None,
                comp_algo: None,
                payload: Seq::empty(),
            };
            &&& server::responded(s, cfg, Some(f), now) == server::responded(
                after,
                cfg,
                Some(idle),
                now,
            )
            &&& server::responded(s, cfg, Some(idle), now) == server::responded(s, cfg, None, now)
        }),
{
}

/// An idle poll is answered with what the open streams have to send: where one has a frame, some open
/// stream's next frame is the answer and that stream has sent it; where none has, there is none.
pub proof fn lemma_idle_poll_fetches_what_waits(s: SessionModel, cfg: Config, now: u64)
    requires
        lanes::lanes_ok(s.lanes),
    ensures
        ({
            let idle = FrameModel {
                kind: Kind::KeepAlive,
                stream_id: None,
                seq: None,
                fragment: None,
                comp_algo: None,
                payload: Seq::empty(),
            };
            let (t, reply) = server::responded(s, cfg, Some(idle), now);
            &&& reply matches Some(f) ==> exists|i: int|
                {
                    &&& 0 <= i < s.lanes.len()
                    &&& (#[trigger] s.lanes[i]).1.open
                    &&& arq::polled(s.lanes[i].1.stream, now).1 == Some(f)
                    &&& t.rr_last == s.lanes[i].0
                }
            &&& reply is None ==> forall|i: int|
                0 <= i < s.lanes.len() && (#[trigger] s.lanes[i]).1.open ==> arq::polled(
                    s.lanes[i].1.stream,
                    now,
                ).1 is None
        }),
{
    let start = lanes::start_after(s.lanes, s.rr_last);
    lanes::lemma_turn_goes_round(s.lanes, start, 0, now);
    let (t, sent) = lanes::turn(s.lanes, start, 0, now);
    let len = s.lanes.len();
    if let Some((id, f)) = sent {
        let j = choose|j: nat| #[trigger] lanes::served(s.lanes, start, 0, j, now, id, f);
        let i = ((start + j) % len) as int;
        assert(s.lanes[i].1.open);
    } else {
        table::lemma_rank(s.lanes, (s.rr_last + 1) as u64);
        assert forall|i: int| 0 <= i < len && (#[trigger] s.lanes[i]).1.open implies arq::polled(
            s.lanes[i].1.stream,
            now,
        ).1 is None by {
            let j = if i >= start {
                (i - start) as nat
            } else {
                (i - start + len) as nat
            };
            assert((start + j) % len == i) by {
                if i < start {
                    vstd::arithmetic::div_mod::lemma_mod_add_multiples_vanish(i, len as int);
                }
                vstd::arithmetic::div_mod::lemma_small_mod(i as nat, len);
            }
            assert(!lanes::ready(s.lanes, start, j, now));
        }
    }
}

/// An MTU probe changes nothing and is answered with as many bytes as it asks for, held between 2 and
/// the most that an answer may carry; the first two bytes say how many.
pub proof fn lemma_probe_is_answered_at_its_size(
    s: SessionModel,
    cfg: Config,
    f: FrameModel,
    now: u64,
)
    requires
        f.kind == Kind::MtuProbe,
    ensures
        ({
            let (t, reply) = server::responded(s, cfg, Some(f), now);
            let asked = if f.payload.len() < 2 {
                2
            } else {
                f.payload[0] * 256 + f.payload[1]
            };
            let size = if asked < 2 {
                2
            } else if asked > 4096 {
                4096
            } else {
                asked
            };
            &&& t == s
            &&& reply is Some
            &&& reply->0.kind == Kind::MtuProbeResp
            &&& reply->0.stream_id is None
            &&& reply->0.payload.len() == size
            &&& reply->0.payload[0] * 256 + reply->0.payload[1] == size
        }),
{
    let reply = server::probe_reply(f.payload);
    let size = server::probe_size(f.payload);
    assert(reply.payload[0] == crate::tunnel::wire::be16(size)[0]);
    assert(reply.payload[1] == crate::tunnel::wire::be16(size)[1]);
}

/// A new handshake sets up one session with no streams, under the client's connection id, and leaves
/// every other session alone; its answer carries the server's ephemeral key and its signature over the
/// words of this protocol, both ephemeral keys and the connection id.
pub proof fn lemma_handshake_sets_a_session_up(
    m: ServerModel,
    query: Seq<u8>,
    c: Seq<u8>,
    client_eph: Seq<u8>,
    now: u64,
    server_eph: Seq<u8>,
    secret: Seq<u8>,
    fresh: Option<Seq<u8>>,
    other: Seq<u8>,
)
    requires
        server::server_ok(m),
        dns::question_end_of(query) is Ok,
        dns::query_of(query, m.zone) matches Ok((_, data)) && frame::packet_of(data) == Ok::<
            PacketModel,
            FrameError,
        >((PacketModel::Syn { conn_id: c, client_eph })),
        !server::has_session_of(m, c),
        server_eph.len() == 32,
        c.len() == 8,
        client_eph.len() == 32,
        crypto::ed25519_sign_of(
            m.key_pair,
            session::signed_of(client_eph + server_eph + c),
        ).len() == 64,
        server::id_key(other) != server::id_key(c),
    ensures
        ({
            let (n, answer) = server::query_answered(
                m,
                query,
                now,
                Some((server_eph, secret)),
                fresh,
            );
            let s = server::session_of(n, c);
            let sig = crypto::ed25519_sign_of(
                m.key_pair,
                session::signed_of(client_eph + server_eph + c),
            );
            &&& server::has_session_of(n, c)
            &&& s.conn_id == c
            &&& s.lanes.len() == 0
            &&& s.last_seen == now
            &&& server::has_session_of(n, other) == server::has_session_of(m, other)
            &&& server::has_session_of(m, other) ==> server::session_of(n, other)
                == server::session_of(m, other)
            &&& n.zone == m.zone && n.cfg == m.cfg && n.key_pair == m.key_pair
            &&& answer matches Some(a) && dns::answer_of(a) matches Ok((txn, data)) && txn
                == crate::tunnel::wire::be16_at(query, 0) && frame::packet_of(data) == Ok::<
                PacketModel,
                FrameError,
            >((PacketModel::SynAck { conn_id: c, server_eph, sig }))
        }),
{
    let s = server::new_session(m, c, client_eph, server_eph, secret, now);
    let k = server::id_key(c);
    table::lemma_with(m.sessions, k, s);
    table::lemma_with_other(m.sessions, k, s, server::id_key(other));
    let sig = crypto::ed25519_sign_of(
        m.key_pair,
        session::signed_of(client_eph + server_eph + c),
    );
    frame::lemma_synack_round_trip(c, server_eph, sig);
    dns::lemma_answer_len(query, s.synack, m.cfg.edns_udp);
    dns::lemma_answer_round_trip(query, s.synack, m.cfg.edns_udp);
}

/// A new segment size from the client is in force for every stream of the session before the next frame
/// is asked for: whatever comes of the turn, it is that of the streams so sized. It is at least one.
pub proof fn lemma_segment_size_is_taken(
    s: SessionModel,
    cfg: Config,
    f: FrameModel,
    now: u64,
    i: int,
)
    requires
        f.kind == Kind::SetMtu,
        f.payload.len() >= 2,
        0 <= i < s.lanes.len(),
    ensures
        ({
            let asked = f.payload[0] * 256 + f.payload[1];
            let size = if asked == 0 {
                1
            } else {
                asked
            };
            let sized = SessionModel { lanes: lanes::all_resized(s.lanes, asked as usize), ..s };
            &&& server::responded(s, cfg, Some(f), now) == server::responded(sized, cfg, None, now)
            &&& sized.lanes[i].1.stream.cfg.max_segment == size
            &&& sized.lanes[i].0 == s.lanes[i].0
            &&& sized.lanes[i].1.stream.outbox == s.lanes[i].1.stream.outbox
            &&& sized.lanes[i].1.stream.inflight == s.lanes[i].1.stream.inflight
        }),
{
}

} // verus!
