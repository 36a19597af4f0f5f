//! What a client's polls give: an opening until it is acknowledged, what the open streams have to send,
//! and otherwise an idle poll that lets the server answer.
use vstd::prelude::*;

use crate::table;
use crate::tunnel::arq;
use crate::tunnel::arq::State;
use crate::tunnel::dns;
use crate::tunnel::frame;
use crate::tunnel::frame::{FrameModel, Kind};
use crate::tunnel::lanes;
use crate::tunnel::lanes::LaneModel;
use crate::tunnel::session;
use crate::tunnel::session::{AnswerOutcome, ClientModel};

verus! {

// ---- the query budget ----

/// The queries that are still waited for at a time.
pub open spec fn awaited(m: ClientModel, now: u64) -> Seq<(u16, u64)> {
    m.outstanding.filter(|q: (u16, u64)| now < q.1)
}

/// At most `wait` after `now`, and no later than a time can be.
pub open spec fn deadline_of(now: u64, wait: u64) -> int {
    if now + wait < 0x1_0000_0000_0000_0000 {
        now + wait
    } else {
        0xffff_ffff_ffff_ffff
    }
}

proof fn lemma_awaited(m: ClientModel, now: u64)
    ensures
        session::unexpired(m.outstanding, now) == awaited(m, now),
{
    lemma_same_filter(m.outstanding, now);
}

proof fn lemma_same_filter(o: Seq<(u16, u64)>, now: u64)
    ensures
        session::unexpired(o, now) == o.filter(|q: (u16, u64)| now < q.1),
    decreases o.len(),
{
    reveal(Seq::filter);
    if o.len() > 0 {
        lemma_same_filter(o.drop_last(), now);
    }
}

// ---- openings ----

/// The opening of the stream is owed: it is not acknowledged, and it was never sent or was last sent at
/// least `wait` ago.
pub open spec fn owed(l: LaneModel, now: u64, wait: u64) -> bool {
    &&& !l.open
    &&& l.last_open_ms matches Some(t) ==> now - t >= wait || wait == 0
}

/// The frame that opens a stream.
pub open spec fn opening_frame(sid: u16, target: Seq<u8>) -> FrameModel {
    FrameModel {
        kind: Kind::Syn,
        stream_id: Some(sid),
        seq: None,
        fragment: None,
        comp_algo: None,
        payload: target,
    }
}

proof fn lemma_first_opening(s: Seq<(u64, LaneModel)>, now: u64, wait: u64, i: nat)
    requires
        i <= s.len(),
    ensures
        ({
            let r = session::first_opening(s, now, wait, i);
            &&& i <= r <= s.len()
            &&& r < s.len() ==> owed(s[r as int].1, now, wait)
            &&& forall|j: int| i <= j < r ==> !owed((#[trigger] s[j]).1, now, wait)
        }),
    decreases s.len() - i,
{
    if i < s.len() && !session::opening_due(s[i as int].1, now, wait) {
        lemma_first_opening(s, now, wait, i + 1);
    }
}

/// The stream that is opened by a poll: the first one, by id, whose opening is owed.
pub open spec fn opened_next(m: ClientModel, now: u64, sid: u16) -> bool {
    &&& session::has_stream(m, sid)
    &&& owed(session::stream_of(m, sid), now, m.up_arq.initial_rto_ms)
    &&& forall|other: u16|
        other < sid && #[trigger] session::has_stream(m, other) ==> !owed(
            session::stream_of(m, other),
            now,
            m.up_arq.initial_rto_ms,
        )
}

proof fn lemma_next_opening(m: ClientModel, now: u64, sid: u16) -> (next: u16)
    requires
        session::client_ok(m),
        session::has_stream(m, sid),
        owed(session::stream_of(m, sid), now, m.up_arq.initial_rto_ms),
    ensures
        opened_next(m, now, next),
        next <= sid,
        ({
            let i = session::first_opening(m.lanes, now, m.up_arq.initial_rto_ms, 0);
            i < m.lanes.len() && m.lanes[i as int].0 == next && m.lanes[i as int].1
                == session::stream_of(m, next)
        }),
{
    let wait = m.up_arq.initial_rto_ms;
    let i = session::first_opening(m.lanes, now, wait, 0) as int;
    lemma_first_opening(m.lanes, now, wait, 0);
    let r = table::rank(m.lanes, sid as u64) as int;
    assert(m.lanes[r].1 == session::stream_of(m, sid));
    assert(i <= r);
    table::lemma_found(m.lanes, i);
    assert(m.lanes[i].0 <= 0xffff);
    let next = m.lanes[i].0 as u16;
    assert(next <= sid) by {
        if i < r {
            assert(m.lanes[i].0 < m.lanes[r].0);
        }
    }
    assert forall|other: u16|
        other < next && #[trigger] session::has_stream(m, other) implies !owed(
        session::stream_of(m, other),
        now,
        wait,
    ) by {
        let q = table::rank(m.lanes, other as u64) as int;
        if q >= i {
            if q > i {
                assert(m.lanes[i].0 < m.lanes[q].0);
            }
            assert(false);
        }
        assert(!owed(m.lanes[q].1, now, wait));
    }
    next
}

/// An opening that is not acknowledged is sent, and sent again: while the opening of some stream is
/// owed and the budget has room, a poll of an established session sends the opening, with the target, of
/// the first stream for which it is owed, and notes the time. Nothing else of any stream changes.
pub proof fn lemma_opening_is_sent_until_acknowledged(
    m: ClientModel,
    now: u64,
    opening: Seq<u8>,
    nonce: Option<Seq<u8>>,
    sid: u16,
)
    requires
        session::client_ok(m),
        m.keys is Some,
        awaited(m, now).len() < m.cfg.max_query_inflight,
        session::has_stream(m, sid),
        owed(session::stream_of(m, sid), now, m.up_arq.initial_rto_ms),
    ensures
        exists|next: u16|
            {
                let (n, sent) = session::polled_query(m, now, Some(opening), nonce);
                let l = session::stream_of(m, next);
                let f = opening_frame(next, l.target);
                let (up, _) = m.keys->0;
                let packet = session::sealed_packet(m.cfg.cipher, up, m.conn_id, opening, f);
                let txn = session::id_after(m.txn, 1);
                let fits = frame::sealable(m.cfg.cipher, f) && dns::query_name_len(packet, m.zone)
                    <= 255;
                &&& #[trigger] opened_next(m, now, next)
                &&& next <= sid
                &&& session::has_stream(n, next)
                &&& session::stream_of(n, next) == (LaneModel { last_open_ms: Some(now), ..l })
                &&& forall|other: u16|
                    other != next ==> #[trigger] session::has_stream(n, other)
                        == session::has_stream(m, other) && (session::has_stream(m, other)
                        ==> session::stream_of(n, other) == session::stream_of(m, other))
                &&& fits ==> sent == Some(
                    (
                        Some(next),
                        dns::query_message(txn, packet, m.zone, m.cfg.edns_udp),
                    ),
                )
                &&& !fits ==> sent is None
            },
{
    lemma_awaited(m, now);
    let next = lemma_next_opening(m, now, sid);
    let o = ClientModel { outstanding: session::unexpired(m.outstanding, now), ..m };
    let i = session::first_opening(o.lanes, now, o.up_arq.initial_rto_ms, 0) as int;
    let l = session::stream_of(m, next);
    let set = LaneModel { last_open_ms: Some(now), ..l };
    assert(o.lanes[i] == (next as u64, l));
    table::lemma_with(m.lanes, next as u64, set);
    let (n, sent) = session::polled_query(m, now, Some(opening), nonce);
    assert(n.lanes == table::with(m.lanes, next as u64, set));
    assert forall|other: u16| other != next implies #[trigger] session::has_stream(n, other)
        == session::has_stream(m, other) && (session::has_stream(m, other) ==> session::stream_of(
        n,
        other,
    ) == session::stream_of(m, other)) by {
        table::lemma_with_other(m.lanes, next as u64, set, other as u64);
    }
    assert(session::control_frame(Kind::Syn, Some(next), l.target) == opening_frame(
        next,
        l.target,
    ));
    assert(opened_next(m, now, next));
}

/// What a turn leaves of the streams: the same streams, each as it was but for what its own sending
/// changes, and nothing changes of one that is not open.
spec fn turned(s: Seq<(u64, LaneModel)>, t: Seq<(u64, LaneModel)>) -> bool {
    &&& t.len() == s.len()
    &&& forall|i: int|
        0 <= i < s.len() ==> (#[trigger] t[i]).0 == s[i].0 && t[i].1 == (LaneModel {
            stream: t[i].1.stream,
            ..s[i].1
        }) && (!s[i].1.open ==> t[i] == s[i])
}

proof fn lemma_turned(s: Seq<(u64, LaneModel)>, start: nat, k: nat, now: u64)
    ensures
        turned(s, lanes::turn(s, start, k, now).0),
    decreases s.len() - k,
{
    if k < s.len() {
        let i = ((start + k) % s.len()) as int;
        let (id, lane) = s[i];
        if !lane.open {
            lemma_turned(s, start, k + 1, now);
        } else {
            let (next, f) = arq::polled(lane.stream, now);
            let t = s.update(i, (id, LaneModel { stream: next, ..lane }));
            if f is None {
                lemma_turned(t, start, k + 1, now);
                let u = lanes::turn(t, start, k + 1, now).0;
                assert forall|j: int| 0 <= j < s.len() implies (#[trigger] u[j]).0 == s[j].0
                    && u[j].1 == (LaneModel { stream: u[j].1.stream, ..s[j].1 }) && (!s[j].1.open
                    ==> u[j] == s[j]) by {
                    assert(t[j].0 == s[j].0);
                }
            }
        }
    }
}

proof fn lemma_turned_at(s: Seq<(u64, LaneModel)>, t: Seq<(u64, LaneModel)>, k: u64)
    requires
        turned(s, t),
    ensures
        table::holds(t, k) == table::holds(s, k),
        table::holds(s, k) ==> {
            let l = table::at(s, k);
            &&& table::at(t, k) == (LaneModel { stream: table::at(t, k).stream, ..l })
            &&& !l.open ==> table::at(t, k) == l
        },
{
    assert forall|i: int| 0 <= i < s.len() implies (#[trigger] s[i]).0 == t[i].0 by {
        assert(t[i].0 == s[i].0);
    }
    table::lemma_same_keys(s, t, k);
    if table::holds(s, k) {
        assert(t[table::rank(s, k) as int].0 == s[table::rank(s, k) as int].0);
    }
}

/// An opening is not repeated early, and none is sent of a stream that is open: where a poll notes that
/// the opening of a stream was sent, it was owed. A poll opens no stream by itself, forgets none, and
/// changes no target.
pub proof fn lemma_opening_is_not_repeated_early(
    m: ClientModel,
    now: u64,
    opening: Option<Seq<u8>>,
    nonce: Option<Seq<u8>>,
    sid: u16,
)
    requires
        session::client_ok(m),
        session::has_stream(m, sid),
    ensures
        ({
            let n = session::polled_query(m, now, opening, nonce).0;
            let l = session::stream_of(m, sid);
            let k = session::stream_of(n, sid);
            &&& session::has_stream(n, sid)
            &&& k.open == l.open
            &&& k.target == l.target
            &&& k.last_open_ms != l.last_open_ms ==> k.last_open_ms == Some(now) && owed(
                l,
                now,
                m.up_arq.initial_rto_ms,
            )
            &&& !l.open ==> k.stream == l.stream
        }),
{
    let wait = m.up_arq.initial_rto_ms;
    let i = session::first_opening(m.lanes, now, wait, 0) as int;
    lemma_first_opening(m.lanes, now, wait, 0);
    if i < m.lanes.len() {
        let (id, l) = m.lanes[i];
        let set = LaneModel { last_open_ms: Some(now), ..l };
        assert(id <= 0xffff);
        table::lemma_found(m.lanes, i);
        table::lemma_with(m.lanes, id, set);
        if sid != id {
            table::lemma_with_other(m.lanes, id, set, sid as u64);
        }
    }
    lemma_turned(m.lanes, lanes::start_after(m.lanes, m.rr_last), 0, now);
    lemma_turned_at(m.lanes, lanes::next_turn(m.lanes, m.rr_last, now).0, sid as u64);
}

// ---- streams and idle polls ----

/// No opening of any stream is owed.
pub open spec fn none_owed(m: ClientModel, now: u64) -> bool {
    forall|sid: u16|
        #[trigger] session::has_stream(m, sid) ==> !owed(
            session::stream_of(m, sid),
            now,
            m.up_arq.initial_rto_ms,
        )
}

proof fn lemma_none_owed(m: ClientModel, now: u64)
    requires
        session::client_ok(m),
        none_owed(m, now),
    ensures
        session::first_opening(m.lanes, now, m.up_arq.initial_rto_ms, 0) == m.lanes.len(),
{
    let wait = m.up_arq.initial_rto_ms;
    let i = session::first_opening(m.lanes, now, wait, 0) as int;
    lemma_first_opening(m.lanes, now, wait, 0);
    if i < m.lanes.len() {
        table::lemma_found(m.lanes, i);
        assert(m.lanes[i].0 <= 0xffff);
        assert(session::has_stream(m, m.lanes[i].0 as u16));
    }
}

proof fn lemma_served(s: Seq<(u64, LaneModel)>, start: nat, k: nat, now: u64)
    requires
        k <= s.len(),
        forall|i: int| 0 <= i < s.len() ==> (#[trigger] s[i]).0 <= 0xffff,
    ensures
        ({
            let (t, sent) = lanes::turn(s, start, k, now);
            &&& t.len() == s.len()
            &&& sent matches Some((id, f)) ==> exists|i: int|
                {
                    &&& 0 <= i < s.len()
                    &&& (#[trigger] t[i]).0 == id
                    &&& s[i].0 == id
                    &&& s[i].1.open
                    &&& arq::polled(s[i].1.stream, now) == (t[i].1.stream, Some(f))
                }
            &&& sent is None ==> forall|i: int|
                0 <= i < s.len() ==> (#[trigger] t[i]).1.stream.state == s[i].1.stream.state
        }),
    decreases s.len() - k,
{
    if k < s.len() {
        let i = ((start + k) % s.len()) as int;
        let (id, lane) = s[i];
        assert(s[i].0 <= 0xffff);
        if !lane.open {
            lemma_served(s, start, k + 1, now);
        } else {
            let (next, f) = arq::polled(lane.stream, now);
            let t = s.update(i, (id, LaneModel { stream: next, ..lane }));
            if f is None {
                lemma_served(t, start, k + 1, now);
                let (u, sent) = lanes::turn(t, start, k + 1, now);
                assert(lanes::turn(s, start, k, now) == (u, sent));
                assert(next.state == lane.stream.state);
                if let Some((sid, g)) = sent {
                    let j = choose|j: int|
                        {
                            &&& 0 <= j < t.len()
                            &&& (#[trigger] u[j]).0 == sid
                            &&& t[j].0 == sid
                            &&& t[j].1.open
                            &&& arq::polled(t[j].1.stream, now) == (u[j].1.stream, Some(g))
                        };
                    if j == i {
                        lemma_nothing_twice(lane.stream, now);
                    }
                    assert(u[j].0 == sid && s[j].0 == sid);
                } else {
                    assert forall|j: int| 0 <= j < s.len() implies (#[trigger] u[j]).1.stream.state
                        == s[j].1.stream.state by {
                        assert(t[j].1.stream.state == s[j].1.stream.state);
                    }
                }
            } else {
                assert(t[i].0 == id);
            }
        }
    }
}

/// A stream that has nothing to send has nothing to send when it is asked again at the same time.
proof fn lemma_nothing_twice(m: arq::StreamModel, now: u64)
    requires
        arq::polled(m, now).1 is None,
    ensures
        arq::polled(arq::polled(m, now).0, now).1 is None,
{
    let e = arq::polled(m, now).0;
    if m.state != State::Reset && m.state != State::Closed {
        assert(e.fast_retx.len() == 0);
    }
}

/// What the open streams have to send is sent: where no opening is owed and the budget has room, a poll
/// of an established session takes the next frame of an open stream that has one, and sends it sealed.
pub proof fn lemma_open_streams_send(
    m: ClientModel,
    now: u64,
    opening: Option<Seq<u8>>,
    nonce: Seq<u8>,
    sid: u16,
)
    requires
        session::client_ok(m),
        m.keys is Some,
        awaited(m, now).len() < m.cfg.max_query_inflight,
        none_owed(m, now),
        session::has_stream(m, sid),
        session::stream_of(m, sid).open,
        arq::polled(session::stream_of(m, sid).stream, now).1 is Some,
    ensures
        exists|next: u16|
            {
                let (n, sent) = session::polled_query(m, now, opening, Some(nonce));
                let (after, given) = arq::polled(session::stream_of(m, next).stream, now);
                let f = given->0;
                let (up, _) = m.keys->0;
                let packet = session::sealed_packet(m.cfg.cipher, up, m.conn_id, nonce, f);
                let txn = session::id_after(m.txn, 1);
                let fits = frame::sealable(m.cfg.cipher, f) && dns::query_name_len(packet, m.zone)
                    <= 255;
                &&& #[trigger] session::has_stream(m, next)
                &&& session::stream_of(m, next).open
                &&& given is Some
                &&& session::has_stream(n, next)
                &&& session::stream_of(n, next).stream == after
                &&& n.rr_last == next
                &&& fits ==> sent == Some(
                    (f.stream_id, dns::query_message(txn, packet, m.zone, m.cfg.edns_udp)),
                )
                &&& !fits ==> sent is None
            },
{
    lemma_awaited(m, now);
    lemma_none_owed(m, now);
    let start = lanes::start_after(m.lanes, m.rr_last);
    let (t, turned_to) = lanes::turn(m.lanes, start, 0, now);
    lemma_served(m.lanes, start, 0, now);
    lanes::lemma_turn_goes_round(m.lanes, start, 0, now);
    let r = table::rank(m.lanes, sid as u64) as int;
    if turned_to is None {
        table::lemma_rank(m.lanes, (m.rr_last + 1) as u64);
        let len = m.lanes.len();
        let j = if r >= start {
            (r - start) as nat
        } else {
            (r - start + len) as nat
        };
        assert((start + j) % len == r) by {
            if r < start {
                vstd::arithmetic::div_mod::lemma_mod_add_multiples_vanish(r, len as int);
            }
            vstd::arithmetic::div_mod::lemma_small_mod(r as nat, len);
        }
        assert(!lanes::ready(m.lanes, start, j, now));
        assert(false);
    }
    let (next, f) = turned_to->0;
    let i = choose|i: int|
        {
            &&& 0 <= i < m.lanes.len()
            &&& (#[trigger] t[i]).0 == next
            &&& m.lanes[i].0 == next
            &&& m.lanes[i].1.open
            &&& arq::polled(m.lanes[i].1.stream, now) == (t[i].1.stream, Some(f))
        };
    table::lemma_found(m.lanes, i);
    lemma_turned(m.lanes, start, 0, now);
    lemma_turned_at(m.lanes, t, next as u64);
    assert forall|k: int| 0 <= k < m.lanes.len() implies (#[trigger] m.lanes[k]).0 == t[k].0 by {
        assert(t[k].0 == m.lanes[k].0);
    }
    table::lemma_same_keys(m.lanes, t, next as u64);
    assert(session::has_stream(m, next));
}

/// While a stream lives and nothing is to be sent, a poll asks the server for what it has: an idle poll,
/// which belongs to no stream. Where every stream is over, a poll sends nothing.
pub proof fn lemma_idle_poll_while_a_stream_lives(
    m: ClientModel,
    now: u64,
    opening: Option<Seq<u8>>,
    nonce: Seq<u8>,
)
    requires
        session::client_ok(m),
        m.keys is Some,
        awaited(m, now).len() < m.cfg.max_query_inflight,
        none_owed(m, now),
        forall|sid: u16|
            #[trigger] session::has_stream(m, sid) && session::stream_of(m, sid).open
                ==> arq::polled(session::stream_of(m, sid).stream, now).1 is None,
    ensures
        ({
            let sent = session::polled_query(m, now, opening, Some(nonce)).1;
            let alive = exists|sid: u16| #[trigger]
                session::has_stream(m, sid) && session::stream_of(m, sid).stream.state
                    != State::Closed && session::stream_of(m, sid).stream.state != State::Reset;
            let (up, _) = m.keys->0;
            let f = FrameModel {
                kind: Kind::KeepAlive,
                stream_id: None,
                seq: None,
                fragment: None,
                comp_algo: None,
                payload: Seq::empty(),
            };
            let packet = session::sealed_packet(m.cfg.cipher, up, m.conn_id, nonce, f);
            let fits = frame::sealable(m.cfg.cipher, f) && dns::query_name_len(packet, m.zone)
                <= 255;
            &&& alive && fits ==> sent == Some(
                (
                    None::<u16>,
                    dns::query_message(
                        session::id_after(m.txn, 1),
                        packet,
                        m.zone,
                        m.cfg.edns_udp,
                    ),
                ),
            )
            &&& !(alive && fits) ==> sent is None
        }),
{
    lemma_awaited(m, now);
    lemma_none_owed(m, now);
    let start = lanes::start_after(m.lanes, m.rr_last);
    let (t, turned_to) = lanes::turn(m.lanes, start, 0, now);
    lemma_served(m.lanes, start, 0, now);
    if let Some((next, f)) = turned_to {
        let i = choose|i: int|
            {
                &&& 0 <= i < m.lanes.len()
                &&& (#[trigger] t[i]).0 == next
                &&& m.lanes[i].0 == next
                &&& m.lanes[i].1.open
                &&& arq::polled(m.lanes[i].1.stream, now) == (t[i].1.stream, Some(f))
            };
        table::lemma_found(m.lanes, i);
        assert(session::has_stream(m, next));
        assert(false);
    }
    if session::any_alive(t) {
        let i = choose|i: int| 0 <= i < t.len() && !lanes::over((#[trigger] t[i]).1.stream);
        assert(t[i].1.stream.state == m.lanes[i].1.stream.state);
        table::lemma_found(m.lanes, i);
        assert(m.lanes[i].0 <= 0xffff);
        assert(session::has_stream(m, m.lanes[i].0 as u16));
    }
    if exists|sid: u16| #[trigger]
        session::has_stream(m, sid) && session::stream_of(m, sid).stream.state != State::Closed
            && session::stream_of(m, sid).stream.state != State::Reset {
        let sid = choose|sid: u16| #[trigger]
            session::has_stream(m, sid) && session::stream_of(m, sid).stream.state
                != State::Closed && session::stream_of(m, sid).stream.state != State::Reset;
        let i = table::rank(m.lanes, sid as u64) as int;
        assert(t[i].1.stream.state == m.lanes[i].1.stream.state);
        assert(session::any_alive(t));
    }
}

// ---- the handshake and the bookkeeping of queries ----

/// Before the handshake is complete a poll sends the client's handshake, and sends it again once no
/// query is waited for any more; while one is, it sends nothing.
pub proof fn lemma_handshake_is_sent_until_answered(
    m: ClientModel,
    now: u64,
    opening: Option<Seq<u8>>,
    nonce: Option<Seq<u8>>,
)
    requires
        session::client_ok(m),
        dns::labels_ok(m.zone),
        m.keys is None,
        m.cfg.max_query_inflight > 0,
    ensures
        ({
            let (n, sent) = session::polled_query(m, now, opening, nonce);
            let packet = frame::syn_bytes(m.conn_id, m.eph_pub);
            let fits = dns::query_name_len(packet, m.zone) <= 255;
            &&& awaited(m, now).len() > 0 || !fits ==> sent is None
            &&& awaited(m, now).len() == 0 && fits ==> {
                &&& sent matches Some((tag, q)) && tag is None && dns::query_of(q, m.zone) == Ok::<
                    (u16, Seq<u8>),
                    dns::DnsError,
                >((session::id_after(m.txn, 1), packet)) && frame::packet_of(packet) == Ok::<
                    frame::PacketModel,
                    frame::FrameError,
                >((frame::PacketModel::Syn { conn_id: m.conn_id, client_eph: m.eph_pub }))
            }
            &&& n.keys is None
            &&& n.lanes == m.lanes
        }),
{
    lemma_awaited(m, now);
    let packet = frame::syn_bytes(m.conn_id, m.eph_pub);
    if dns::query_name_len(packet, m.zone) <= 255 {
        dns::lemma_query_round_trip(
            session::id_after(m.txn, 1),
            packet,
            m.zone,
            m.cfg.edns_udp,
        );
        frame::lemma_syn_round_trip(m.conn_id, m.eph_pub);
    }
}

/// Every query that a poll gives has the transaction id after the last one, and is waited for until the
/// configured time has passed; beside it are waited for just those that were before and whose time has
/// not passed.
pub proof fn lemma_sent_query_is_awaited(
    m: ClientModel,
    now: u64,
    opening: Option<Seq<u8>>,
    nonce: Option<Seq<u8>>,
)
    requires
        dns::labels_ok(m.zone),
    ensures
        ({
            let (n, sent) = session::polled_query(m, now, opening, nonce);
            &&& sent is None ==> n.outstanding == awaited(m, now)
            &&& sent matches Some((tag, q)) ==> {
                &&& n.txn == if m.txn == 0xffff {
                    0
                } else {
                    m.txn + 1
                }
                &&& q.len() >= 2
                &&& q[0] * 256 + q[1] == n.txn
                &&& n.outstanding.len() == awaited(m, now).len() + 1
                &&& n.outstanding.drop_last() == awaited(m, now)
                &&& n.outstanding.last().0 == n.txn
                &&& n.outstanding.last().1 == deadline_of(now, m.cfg.query_timeout_ms)
            }
        }),
{
    lemma_awaited(m, now);
    let (n, sent) = session::polled_query(m, now, opening, nonce);
    let o = ClientModel { outstanding: session::unexpired(m.outstanding, now), ..m };
    lemma_established_query(o, now, opening, nonce);
    if let Some((tag, q)) = sent {
        if m.keys is None {
            let packet = frame::syn_bytes(m.conn_id, m.eph_pub);
            lemma_query_with(o, packet);
        }
        assert(n.outstanding.drop_last() =~= awaited(m, now));
    }
}

proof fn lemma_query_with(m: ClientModel, packet: Seq<u8>)
    requires
        dns::labels_ok(m.zone),
    ensures
        session::query_with(m, packet) matches Some(q) ==> q.len() >= 2 && q[0] * 256 + q[1]
            == session::next_txn(m),
{
    if session::query_with(m, packet) is Some {
        let txn = session::next_txn(m);
        dns::lemma_query_has_question(txn, packet, m.zone, m.cfg.edns_udp);
    }
}

proof fn lemma_established_query(
    m: ClientModel,
    now: u64,
    opening: Option<Seq<u8>>,
    nonce: Option<Seq<u8>>,
)
    requires
        dns::labels_ok(m.zone),
    ensures
        ({
            let (n, sent) = session::polled_established(m, now, opening, nonce);
            let txn = session::next_txn(m);
            &&& sent is None ==> n.outstanding == m.outstanding
            &&& sent matches Some((tag, q)) ==> {
                &&& n.txn == txn
                &&& q.len() >= 2
                &&& q[0] * 256 + q[1] == txn
                &&& n.outstanding == m.outstanding.push(
                    (txn, session::later(now, m.cfg.query_timeout_ms)),
                )
            }
        }),
{
    let i = session::first_opening(m.lanes, now, m.up_arq.initial_rto_ms, 0);
    if i < m.lanes.len() && opening is Some {
        let (id, l) = m.lanes[i as int];
        let n = session::lane_set(m, id as u16, LaneModel { last_open_ms: Some(now), ..l });
        let f = session::control_frame(Kind::Syn, Some(id as u16), l.target);
        lemma_query_for(n, opening->0, f);
    } else if nonce is Some {
        let (t, sent) = lanes::next_turn(m.lanes, m.rr_last, now);
        match sent {
            Some((id, f)) => {
                lemma_query_for(ClientModel { lanes: t, rr_last: id, ..m }, nonce->0, f);
            },
            None => {
                lemma_query_for(
                    ClientModel { lanes: t, ..m },
                    nonce->0,
                    session::control_frame(Kind::KeepAlive, None, Seq::empty()),
                );
            },
        }
    }
}

proof fn lemma_query_for(m: ClientModel, nonce: Seq<u8>, f: FrameModel)
    requires
        dns::labels_ok(m.zone),
    ensures
        session::query_for(m, nonce, f) matches Some(q) ==> q.len() >= 2 && q[0] * 256 + q[1]
            == session::next_txn(m),
{
    let (up, _) = m.keys->0;
    lemma_query_with(m, session::sealed_packet(m.cfg.cipher, up, m.conn_id, nonce, f));
}

proof fn lemma_slot(o: Seq<(u16, u64)>, txn: u16, i: nat)
    requires
        i <= o.len(),
    ensures
        ({
            let r = session::slot_of(o, txn, i);
            &&& i <= r <= o.len()
            &&& r < o.len() ==> o[r as int].0 == txn
            &&& forall|j: int| i <= j < r ==> (#[trigger] o[j]).0 != txn
        }),
    decreases o.len() - i,
{
    if i < o.len() && o[i as int].0 != txn {
        lemma_slot(o, txn, i + 1);
    }
}

/// An answer frees the slot of one query with its transaction id, where there is one, and no other.
pub proof fn lemma_answer_frees_its_query(m: ClientModel, answer: Seq<u8>, now: u64)
    ensures
        ({
            let (n, _) = session::answer_taken(m, answer, now);
            &&& dns::answer_of(answer) is Err ==> n == m
            &&& dns::answer_of(answer) matches Ok((txn, data)) ==> {
                &&& (exists|i: int| 0 <= i < m.outstanding.len() && (#[trigger] m.outstanding[i]).0
                    == txn) ==> n.outstanding.len() == m.outstanding.len() - 1
                &&& (forall|i: int| 0 <= i < m.outstanding.len() ==> (#[trigger] m.outstanding[i]).0
                    != txn) ==> n.outstanding == m.outstanding
                &&& forall|q: (u16, u64)|
                    q.0 != txn ==> (#[trigger] n.outstanding.contains(q)
                        <==> m.outstanding.contains(q))
            }
        }),
{
    let (n, _) = session::answer_taken(m, answer, now);
    if let Ok((txn, data)) = dns::answer_of(answer) {
        let o = m.outstanding;
        let p = n.outstanding;
        lemma_slot(o, txn, 0);
        let r = session::slot_of(o, txn, 0) as int;
        assert(p == session::freed(o, txn));
        if r < o.len() {
            assert(o[r].0 == txn);
            assert forall|q: (u16, u64)| q.0 != txn implies (#[trigger] p.contains(q)
                <==> o.contains(q)) by {
                if p.contains(q) {
                    let j = choose|j: int| 0 <= j < p.len() && p[j] == q;
                    if j == r {
                        assert(o[o.len() - 1] == q);
                    } else {
                        assert(o[j] == q);
                    }
                }
                if o.contains(q) {
                    let j = choose|j: int| 0 <= j < o.len() && o[j] == q;
                    if j == o.len() - 1 {
                        assert(p[r] == q);
                    } else {
                        assert(p[j] == q);
                    }
                }
            }
        }
    }
}

/// A frame that came for a stream reaches that stream and no other: an acknowledgement of its opening
/// opens it, and anything else is taken by the reliable stream. A frame for a stream that does not exist
/// does nothing.
pub proof fn lemma_frame_reaches_its_stream(
    m: ClientModel,
    f: FrameModel,
    now: u64,
    sid: u16,
    other: u16,
)
    requires
        session::client_ok(m),
        f.stream_id == Some(sid),
        f.kind != Kind::MtuProbeResp,
    ensures
        ({
            let (n, outcome) = session::frame_taken(m, f, now);
            let l = session::stream_of(m, sid);
            &&& outcome == AnswerOutcome::Consumed
            &&& !session::has_stream(m, sid) ==> n == m
            &&& session::has_stream(m, sid) ==> session::has_stream(n, sid)
            &&& session::has_stream(m, sid) && f.kind == Kind::SynAck ==> session::stream_of(n, sid)
                == (LaneModel { open: true, ..l })
            &&& session::has_stream(m, sid) && f.kind != Kind::SynAck ==> session::stream_of(n, sid)
                == (LaneModel { stream: arq::frame_taken(l.stream, f, now), ..l })
            &&& other != sid ==> session::has_stream(n, other) == session::has_stream(m, other) && (
            session::has_stream(m, other) ==> session::stream_of(n, other) == session::stream_of(
                m,
                other,
            ))
        }),
{
    if session::has_stream(m, sid) {
        let l = session::stream_of(m, sid);
        let opened = LaneModel { open: true, ..l };
        let taken = LaneModel { stream: arq::frame_taken(l.stream, f, now), ..l };
        table::lemma_with(m.lanes, sid as u64, opened);
        table::lemma_with(m.lanes, sid as u64, taken);
        if other != sid {
            table::lemma_with_other(m.lanes, sid as u64, opened, other as u64);
            table::lemma_with_other(m.lanes, sid as u64, taken, other as u64);
        }
    }
}

// ---- streams that are over ----

proof fn lemma_reaped(s: Seq<(u64, LaneModel)>)
    requires
        forall|i: int| 0 <= i < s.len() ==> (#[trigger] s[i]).0 <= 0xffff,
    ensures
        forall|id: u16| #[trigger]
            session::over_ids(s).contains(id) <==> exists|i: int|
                0 <= i < s.len() && (#[trigger] s[i]).0 == id && (s[i].1.stream.state
                    == State::Closed || s[i].1.stream.state == State::Reset),
    decreases s.len(),
{
    if s.len() > 0 {
        let d = s.drop_last();
        assert forall|i: int| 0 <= i < d.len() implies (#[trigger] d[i]).0 <= 0xffff by {
            assert(d[i] == s[i]);
        }
        lemma_reaped(d);
        let r = session::over_ids(s);
        let q = session::over_ids(d);
        let last = s.len() - 1;
        assert(s[last].0 <= 0xffff);
        let gone = |i: int|
            s[i].1.stream.state == State::Closed || s[i].1.stream.state == State::Reset;
        assert forall|id: u16| #[trigger] r.contains(id) <==> exists|i: int|
            0 <= i < s.len() && (#[trigger] s[i]).0 == id && (s[i].1.stream.state == State::Closed
                || s[i].1.stream.state == State::Reset) by {
            if r.contains(id) {
                let k = choose|k: int| 0 <= k < r.len() && r[k] == id;
                if k < q.len() {
                    assert(q[k] == id);
                    assert(q.contains(id));
                    let i = choose|i: int|
                        0 <= i < d.len() && (#[trigger] d[i]).0 == id && (d[i].1.stream.state
                            == State::Closed || d[i].1.stream.state == State::Reset);
                    assert(s[i].0 == id && gone(i));
                } else {
                    assert(s[last].0 == id && gone(last));
                }
            }
            if exists|i: int|
                0 <= i < s.len() && (#[trigger] s[i]).0 == id && (s[i].1.stream.state
                    == State::Closed || s[i].1.stream.state == State::Reset) {
                let i = choose|i: int|
                    0 <= i < s.len() && (#[trigger] s[i]).0 == id && (s[i].1.stream.state
                        == State::Closed || s[i].1.stream.state == State::Reset);
                if i < last {
                    assert(d[i].0 == id && d[i] == s[i]);
                    assert(q.contains(id));
                    let k = choose|k: int| 0 <= k < q.len() && q[k] == id;
                    assert(r[k] == id);
                } else {
                    assert(r[r.len() - 1] == id);
                }
            }
        }
    }
}

/// Reaping gives the ids of the streams that are closed or reset, and of no others, and drops just
/// these: every other stream stays as it is.
pub proof fn lemma_reaping_drops_what_is_over(m: ClientModel, sid: u16)
    requires
        session::client_ok(m),
    ensures
        ({
            let n = ClientModel { lanes: session::live(m.lanes), ..m };
            let l = session::stream_of(m, sid);
            let gone = l.stream.state == State::Closed || l.stream.state == State::Reset;
            &&& session::over_ids(m.lanes).contains(sid) <==> session::has_stream(m, sid) && gone
            &&& session::has_stream(n, sid) <==> session::has_stream(m, sid) && !gone
            &&& session::has_stream(n, sid) ==> session::stream_of(n, sid) == l
        }),
{
    let n = ClientModel { lanes: session::live(m.lanes), ..m };
    let keep = |e: (u64, LaneModel)| !lanes::over(e.1.stream);
    lemma_reaped(m.lanes);
    table::lemma_filtered(m.lanes, keep);
    assert(session::live(m.lanes) == m.lanes.filter(keep));
    table::lemma_among(m.lanes, n.lanes, sid as u64);
    let l = session::stream_of(m, sid);
    let gone = l.stream.state == State::Closed || l.stream.state == State::Reset;
    let r = table::rank(m.lanes, sid as u64) as int;
    if session::has_stream(m, sid) {
        assert(m.lanes[r] == (sid as u64, l));
        if !gone {
            assert(keep(m.lanes[r]));
            let j = choose|j: int| 0 <= j < n.lanes.len() && n.lanes[j] == m.lanes[r];
            table::lemma_found(n.lanes, j);
        }
    }
    if session::has_stream(n, sid) {
        let q = table::rank(n.lanes, sid as u64) as int;
        lemma_live_lives(m.lanes, q);
    }
    if session::over_ids(m.lanes).contains(sid) {
        let i = choose|i: int|
            0 <= i < m.lanes.len() && (#[trigger] m.lanes[i]).0 == sid && (
            m.lanes[i].1.stream.state == State::Closed || m.lanes[i].1.stream.state
                == State::Reset);
        table::lemma_found(m.lanes, i);
    }
}

proof fn lemma_live_lives(s: Seq<(u64, LaneModel)>, i: int)
    requires
        0 <= i < session::live(s).len(),
    ensures
        session::live(s)[i].1.stream.state != State::Closed,
        session::live(s)[i].1.stream.state != State::Reset,
    decreases s.len(),
{
    reveal(Seq::filter);
    if s.len() > 0 {
        let d = s.drop_last();
        if i < session::live(d).len() {
            lemma_live_lives(d, i);
        }
    }
}

// ---- turns ----

/// The stream may send and has something to send.
pub open spec fn has_turn(s: Seq<(u64, LaneModel)>, id: u16, now: u64) -> bool {
    &&& table::holds(s, id as u64)
    &&& table::at(s, id as u64).open
    &&& arq::polled(table::at(s, id as u64).stream, now).1 is Some
}

/// `id` comes before `other` where one goes round by rising id from the one after `last`.
pub open spec fn sooner(last: u16, id: u16, other: u16) -> bool {
    if id > last {
        other <= last || id <= other
    } else {
        other <= last && id <= other
    }
}

/// No stream starves another: the one that sends is the next one by id after the one that sent last,
/// going round, of those that have something to send. Where one has, one sends.
pub proof fn lemma_turns_go_by_id(s: Seq<(u64, LaneModel)>, last: u16, now: u64)
    requires
        lanes::lanes_ok(s),
    ensures
        ({
            let sent = lanes::next_turn(s, last, now).1;
            &&& sent matches Some((id, f)) ==> {
                &&& has_turn(s, id, now)
                &&& arq::polled(table::at(s, id as u64).stream, now).1 == Some(f)
                &&& forall|other: u16| #[trigger] has_turn(s, other, now) ==> sooner(last, id, other)
            }
            &&& sent is None ==> forall|other: u16| !#[trigger] has_turn(s, other, now)
        }),
{
    let start = lanes::start_after(s, last);
    lanes::lemma_turn_goes_round(s, start, 0, now);
    let sent = lanes::turn(s, start, 0, now).1;
    table::lemma_rank(s, (last + 1) as u64);
    let len = s.len();
    if let Some((id, f)) = sent {
        let j = choose|j: nat| #[trigger] lanes::served(s, start, 0, j, now, id, f);
        let i = ((start + j) % len) as int;
        table::lemma_found(s, i);
        assert(has_turn(s, id, now));
        assert forall|other: u16| #[trigger] has_turn(s, other, now) implies sooner(
            last,
            id,
            other,
        ) by {
            let r = table::rank(s, other as u64) as int;
            let h = lemma_place(start, r, len);
            assert(lanes::ready(s, start, h, now));
            assert(h >= j);
            lemma_place_of(start, j, len);
            lemma_sooner(s, last, start, j, h, i, r);
        }
    } else {
        assert forall|other: u16| !#[trigger] has_turn(s, other, now) by {
            if has_turn(s, other, now) {
                let r = table::rank(s, other as u64) as int;
                let h = lemma_place(start, r, len);
                assert(lanes::ready(s, start, h, now));
            }
        }
    }
}

/// How far a place is from the start, going round.
proof fn lemma_place(start: nat, r: int, len: nat) -> (h: nat)
    requires
        0 <= r < len,
        start < len,
    ensures
        h < len,
        (start + h) % len == r,
        h == if r >= start {
            r - start
        } else {
            r - start + len
        },
{
    let h = if r >= start {
        (r - start) as nat
    } else {
        (r - start + len) as nat
    };
    lemma_place_of(start, h, len);
    h
}

proof fn lemma_place_of(start: nat, h: nat, len: nat)
    requires
        start < len,
        h < len,
    ensures
        (start + h) % len == if start + h < len {
            (start + h) as int
        } else {
            start + h - len
        },
{
    if start + h < len {
        vstd::arithmetic::div_mod::lemma_small_mod(start + h, len);
    } else {
        vstd::arithmetic::div_mod::lemma_mod_add_multiples_vanish(start + h - len, len as int);
        vstd::arithmetic::div_mod::lemma_small_mod((start + h - len) as nat, len);
    }
}

proof fn lemma_sooner(
    s: Seq<(u64, LaneModel)>,
    last: u16,
    start: nat,
    j: nat,
    h: nat,
    i: int,
    r: int,
)
    requires
        lanes::lanes_ok(s),
        start == lanes::start_after(s, last),
        0 <= i < s.len(),
        0 <= r < s.len(),
        j <= h < s.len(),
        i == if start + j < s.len() {
            (start + j) as int
        } else {
            start + j - s.len()
        },
        h == if r >= start {
            r - start
        } else {
            r - start + s.len()
        },
    ensures
        sooner(last, s[i].0 as u16, s[r].0 as u16),
{
    table::lemma_rank(s, (last + 1) as u64);
    assert(s[i].0 <= 0xffff && s[r].0 <= 0xffff);
    let q = table::rank(s, (last + 1) as u64) as int;
    assert forall|k: int| 0 <= k < s.len() implies ((#[trigger] s[k]).0 > last <==> k >= q) by {}
    if i < r {
        assert(s[i].0 < s[r].0);
    }
    if r < i {
        assert(s[r].0 < s[i].0);
    }
    assert(s[i].0 > last <==> i >= q);
    assert(s[r].0 > last <==> r >= q);
}

// ---- new sessions and new streams ----

/// A new session has no keys, no query in flight, and one stream, the first, with its target, whose
/// opening is owed; new streams are tuned as configured, and are numbered from two on.
pub proof fn lemma_new_session_waits_to_open_its_first_stream(
    server_pub: Seq<u8>,
    zone: Seq<Seq<u8>>,
    target: Seq<u8>,
    cfg: session::Config,
    conn_id: Seq<u8>,
    key: ring::agreement::EphemeralPrivateKey,
    now: u64,
    sid: u16,
)
    ensures
        ({
            let m = session::new_client(server_pub, zone, target, cfg, conn_id, key);
            let l = session::stream_of(m, 1);
            &&& m.keys is None
            &&& m.outstanding.len() == 0
            &&& m.conn_id == conn_id && m.server_pub == server_pub && m.zone == zone
            &&& session::has_stream(m, sid) <==> sid == 1
            &&& l.target == target
            &&& owed(l, now, m.up_arq.initial_rto_ms)
            &&& l.stream.stream_id == 1
            &&& l.stream.outbox.len() == 0 && l.stream.inflight.len() == 0
            &&& m.up_arq == (arq::Config { max_segment: m.up_arq.max_segment, ..cfg.arq })
            &&& m.up_arq.max_segment >= 1
            &&& m.next_stream_id == 2
        }),
{
    let m = session::new_client(server_pub, zone, target, cfg, conn_id, key);
    assert(m.lanes.len() == 1);
    assert(table::keyed(m.lanes));
    table::lemma_found(m.lanes, 0);
    table::lemma_rank(m.lanes, sid as u64);
}

/// A new stream has its target, and its opening is owed at once; what is written on it waits until then.
/// Every other stream stays as it is, and the next stream gets another id.
#[verifier::spinoff_prover]
#[verifier::rlimit(60)]
pub proof fn lemma_new_stream_is_owed_its_opening(
    m: ClientModel,
    sid: u16,
    target: Seq<u8>,
    now: u64,
    other: u16,
)
    requires
        session::client_ok(m),
        session::free_id(m, sid),
        other != sid,
    ensures
        ({
            let n = session::stream_added(m, sid, target);
            let l = session::stream_of(n, sid);
            &&& sid > 1
            &&& !session::has_stream(m, sid)
            &&& session::has_stream(n, sid)
            &&& l.target == target
            &&& owed(l, now, m.up_arq.initial_rto_ms)
            &&& l.stream.stream_id == sid
            &&& l.stream.outbox.len() == 0
            &&& l.stream.cfg == m.up_arq
            &&& session::has_stream(n, other) == session::has_stream(m, other)
            &&& session::has_stream(m, other) ==> session::stream_of(n, other)
                == session::stream_of(m, other)
            &&& n.next_stream_id != sid
        }),
{
    let fresh = lanes::fresh_lane(sid, m.up_arq, target, false);
    table::lemma_with(m.lanes, sid as u64, fresh);
    table::lemma_with_other(m.lanes, sid as u64, fresh, other as u64);
}

/// Another segment size reaches every stream of the session and every stream to come; it is at least
/// one.
pub proof fn lemma_uplink_size_reaches_every_stream(m: ClientModel, size: usize, i: int)
    requires
        0 <= i < m.lanes.len(),
    ensures
        ({
            let n = session::uplink_resized(m, size);
            let set = if size == 0 {
                1
            } else {
                size
            };
            &&& n.up_arq == (arq::Config { max_segment: set, ..m.up_arq })
            &&& n.lanes.len() == m.lanes.len()
            &&& n.lanes[i].0 == m.lanes[i].0
            &&& n.lanes[i].1 == (LaneModel {
                stream: arq::StreamModel {
                    cfg: arq::Config { max_segment: set, ..m.lanes[i].1.stream.cfg },
                    ..m.lanes[i].1.stream
                },
                ..m.lanes[i].1
            })
            &&& n == (ClientModel { up_arq: n.up_arq, lanes: n.lanes, ..m })
        }),
{
}

// ---- control queries ----

/// A control query carries its number: once the handshake is complete and a nonce is there, the query
/// holds a sealed frame of the kind that was asked for, which belongs to no stream and has the number as
/// its two bytes, the high one first. Before that nothing is built.
pub proof fn lemma_control_query_carries_its_number(
    m: ClientModel,
    kind: Kind,
    value: u16,
    nonce: Option<Seq<u8>>,
)
    requires
        dns::labels_ok(m.zone),
    ensures
        ({
            let (n, query) = session::control_query(m, kind, value, nonce);
            let f = FrameModel {
                kind,
                stream_id: None,
                seq: None,
                fragment: None,
                comp_algo: None,
                payload: seq![(value / 256) as u8, (value % 256) as u8],
            };
            let (up, _) = m.keys->0;
            let packet = session::sealed_packet(m.cfg.cipher, up, m.conn_id, nonce->0, f);
            let fits = frame::sealable(m.cfg.cipher, f) && dns::query_name_len(packet, m.zone)
                <= 255;
            &&& m.keys is None || nonce is None ==> n == m && query is None
            &&& m.keys is Some && nonce is Some ==> {
                &&& n == (ClientModel { txn: n.txn, ..m })
                &&& fits ==> (query matches Some(q) && dns::query_of(q, m.zone) == Ok::<
                    (u16, Seq<u8>),
                    dns::DnsError,
                >((n.txn, packet)))
                &&& !fits ==> query is None
            }
        }),
{
    if m.keys is Some && nonce is Some {
        let (up, _) = m.keys->0;
        let f = session::number_frame(kind, value);
        let packet = session::sealed_packet(m.cfg.cipher, up, m.conn_id, nonce->0, f);
        assert(crate::tunnel::wire::be16(value) =~= seq![(value / 256) as u8, (value % 256) as u8]);
        if dns::query_name_len(packet, m.zone) <= 255 {
            dns::lemma_query_round_trip(session::next_txn(m), packet, m.zone, m.cfg.edns_udp);
        }
    }
}

// ---- the size of segments ----

/// A segment as long as a new stream sends fits in a query: sealed with its header under the zone it
/// takes no more than a name has room for, as long as the zone leaves room for one byte.
pub proof fn lemma_segments_fit_a_query(
    zone: Seq<Seq<u8>>,
    cfg: session::Config,
    key: Seq<u8>,
    conn_id: Seq<u8>,
    nonce: Seq<u8>,
    f: FrameModel,
)
    requires
        dns::labels_wire_len(zone) + 1 <= 255,
        crate::tunnel::mtu::uplink_wire_bytes((dns::labels_wire_len(zone) + 1) as int) >= 54,
        conn_id.len() == 8,
        nonce.len() == 12,
        f.fragment is None && f.comp_algo is None,
        f.payload.len() <= session::uplink_size(session::name_len(zone)),
        crate::tunnel::crypto::sealed_under(cfg.cipher, key, nonce, frame::encoded(f)).len()
            == frame::encoded(f).len() + 16,
    ensures
        dns::query_name_len(
            session::sealed_packet(cfg.cipher, key, conn_id, nonce, f),
            zone,
        ) <= 255,
{
    frame::lemma_frame_layout(f);
    let packet = session::sealed_packet(cfg.cipher, key, conn_id, nonce, f);
    crate::tunnel::mtu::lemma_uplink_bound_is_exact(packet, zone);
}

} // verus!
