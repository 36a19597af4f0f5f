//! What carrying a client's streams means, over whole operations: bytes are handed over once and in full,
//! a stream keeps its connection until it is given up or its session is dropped, and every event is
//! counted where it belongs.
use vstd::prelude::*;

use crate::relay::egress;
use crate::relay::egress::{PushModel, Queue, RelayModel};
use crate::relay::metrics::{Counts, ErrorKind};
use crate::table;
use crate::tunnel::addr;
use crate::tunnel::addr::TargetModel;
use crate::tunnel::lanes;
use crate::tunnel::lanes::LaneModel;
use crate::tunnel::server;
use crate::tunnel::server::{ServerModel, SessionModel};

verus! {

/// The stream has a connection.
pub open spec fn connected(m: RelayModel, c: Seq<u8>, sid: u16) -> bool {
    m.egress.contains((server::id_key(c), sid))
}

/// The bytes of a stream that its connection has not been given: none where there is no such stream.
pub open spec fn unsent(m: ServerModel, c: Seq<u8>, sid: u16) -> Seq<u8> {
    if server::has_session_of(m, c) && server::has_stream_of(m, c, sid) {
        server::stream_of(m, c, sid).stream.delivered
    } else {
        Seq::empty()
    }
}

/// A counter rose by `n`; counters go round at two to the power of 64.
pub open spec fn rose(before: u64, after: u64, n: int) -> bool {
    after == before + n || after == before + n - 0x1_0000_0000_0000_0000
}

/// Stream `sid` of session `c` became `l`, and nothing else of the sessions changed.
pub open spec fn only_stream_changed(
    a: ServerModel,
    b: ServerModel,
    c: Seq<u8>,
    sid: u16,
    l: LaneModel,
) -> bool {
    &&& server::has_session_of(b, c)
    &&& server::has_stream_of(b, c, sid)
    &&& server::stream_of(b, c, sid) == l
    &&& forall|other: u16|
        other != sid ==> #[trigger] server::has_stream_of(b, c, other) == server::has_stream_of(
            a,
            c,
            other,
        ) && (server::has_stream_of(a, c, other) ==> server::stream_of(b, c, other)
            == server::stream_of(a, c, other))
    &&& forall|d: Seq<u8>|
        server::id_key(d) != server::id_key(c) ==> #[trigger] server::has_session_of(b, d)
            == server::has_session_of(a, d) && (server::has_session_of(a, d)
            ==> server::session_of(b, d) == server::session_of(a, d))
}

proof fn lemma_only_stream_changed(m: ServerModel, c: Seq<u8>, sid: u16, l: LaneModel)
    requires
        server::server_ok(m),
        server::has_session_of(m, c),
    ensures
        ({
            let s = server::session_of(m, c);
            let t = SessionModel { lanes: table::with(s.lanes, sid as u64, l), ..s };
            only_stream_changed(m, server::session_set(m, c, t), c, sid, l)
        }),
{
    let s = server::session_of(m, c);
    let k = server::id_key(c);
    let t = SessionModel { lanes: table::with(s.lanes, sid as u64, l), ..s };
    let n = server::session_set(m, c, t);
    assert(server::session_ok(m.sessions[table::rank(m.sessions, k) as int]));
    table::lemma_with(m.sessions, k, t);
    table::lemma_with(s.lanes, sid as u64, l);
    assert forall|other: u16| other != sid implies #[trigger] server::has_stream_of(n, c, other)
        == server::has_stream_of(m, c, other) && (server::has_stream_of(m, c, other)
        ==> server::stream_of(n, c, other) == server::stream_of(m, c, other)) by {
        table::lemma_with_other(s.lanes, sid as u64, l, other as u64);
    }
    assert forall|d: Seq<u8>| server::id_key(d) != k implies #[trigger] server::has_session_of(n, d)
        == server::has_session_of(m, d) && (server::has_session_of(m, d) ==> server::session_of(
        n,
        d,
    ) == server::session_of(m, d)) by {
        table::lemma_with_other(m.sessions, k, t, server::id_key(d));
    }
}

/// Handing bytes over leaves the stream its connection: a push with room gives all the bytes that wait,
/// after which none wait, and every connection is still there. Only the bytes handed over are counted,
/// and nothing else of any session changes.
pub proof fn lemma_pushed_bytes_keep_the_connection(m: RelayModel, c: Seq<u8>, sid: u16)
    requires
        server::server_ok(m.server),
        connected(m, c, sid),
        0 < unsent(m.server, c, sid).len() < 0x1_0000_0000_0000_0000,
    ensures
        ({
            let (n, push) = egress::pushed(m, c, sid, Queue::Room);
            let bytes = unsent(m.server, c, sid);
            &&& push == PushModel::Send(bytes)
            &&& n.egress == m.egress
            &&& unsent(n.server, c, sid).len() == 0
            &&& only_stream_changed(
                m.server,
                n.server,
                c,
                sid,
                LaneModel {
                    stream: crate::tunnel::arq::StreamModel {
                        delivered: Seq::empty(),
                        ..server::stream_of(m.server, c, sid).stream
                    },
                    ..server::stream_of(m.server, c, sid)
                },
            )
            &&& rose(m.counts.bytes_uplink, n.counts.bytes_uplink, bytes.len() as int)
            &&& n.counts == (Counts { bytes_uplink: n.counts.bytes_uplink, ..m.counts })
            &&& n.idle_timeout_ms == m.idle_timeout_ms
        }),
{
    let s = server::session_of(m.server, c);
    let l = server::stream_of(m.server, c, sid);
    let read = LaneModel {
        stream: crate::tunnel::arq::StreamModel { delivered: Seq::empty(), ..l.stream },
        ..l
    };
    lemma_only_stream_changed(m.server, c, sid, read);
    let (n, push) = egress::pushed(m, c, sid, Queue::Room);
    assert(n.server == server::session_set(
        m.server,
        c,
        SessionModel { lanes: table::with(s.lanes, sid as u64, read), ..s },
    ));
}

/// What comes after a push is pushed too: however the sessions have moved on since, and whatever was
/// counted, bytes that were delivered since a push with room are what the next push with room gives.
pub proof fn lemma_next_push_gives_what_came_since(
    m: RelayModel,
    c: Seq<u8>,
    sid: u16,
    later: ServerModel,
    counts: Counts,
)
    requires
        connected(m, c, sid),
        unsent(later, c, sid).len() > 0,
    ensures
        ({
            let n = egress::pushed(m, c, sid, Queue::Room).0;
            let k = RelayModel { server: later, counts, ..n };
            egress::pushed(k, c, sid, Queue::Room).1 == PushModel::Send(unsent(later, c, sid))
        }),
{
}

/// A stream is given up by a push just where it has a connection, bytes wait, and the connection is
/// gone, or its queue is full while more than 262144 bytes wait. Then, and only then, its connection is
/// forgotten and the client is to see the end of the stream; no other connection is.
pub proof fn lemma_push_gives_up_only_what_cannot_go_on(
    m: RelayModel,
    c: Seq<u8>,
    sid: u16,
    queue: Queue,
)
    requires
        server::server_ok(m.server),
    ensures
        ({
            let (n, push) = egress::pushed(m, c, sid, queue);
            let waits = unsent(m.server, c, sid).len();
            &&& (push is Drop) <==> (connected(m, c, sid) && waits > 0 && (queue == Queue::Closed
                || queue == Queue::Full && waits > 262144))
            &&& (push is Send) <==> (connected(m, c, sid) && waits > 0 && queue == Queue::Room)
            &&& forall|k: u64, other: u16| #[trigger]
                n.egress.contains((k, other)) <==> m.egress.contains((k, other)) && !(push is Drop
                    && k == server::id_key(c) && other == sid)
            &&& push is Drop ==> only_stream_changed(
                m.server,
                n.server,
                c,
                sid,
                LaneModel {
                    stream: crate::tunnel::arq::StreamModel {
                        closing: true,
                        ..server::stream_of(m.server, c, sid).stream
                    },
                    ..server::stream_of(m.server, c, sid)
                },
            )
            &&& push is Drop && queue == Queue::Full ==> rose(
                m.counts.backlog_drops,
                n.counts.backlog_drops,
                1,
            ) && n.counts == (Counts { backlog_drops: n.counts.backlog_drops, ..m.counts })
            &&& push is Drop && queue != Queue::Full ==> n.counts == m.counts
            &&& push is Nothing ==> n == m
        }),
{
    let (n, push) = egress::pushed(m, c, sid, queue);
    if push is Drop {
        let k = server::id_key(c);
        lemma_left_out(m.egress, k, sid);
        let l = server::stream_of(m.server, c, sid);
        let s = server::session_of(m.server, c);
        let closing = LaneModel {
            stream: crate::tunnel::arq::StreamModel { closing: true, ..l.stream },
            ..l
        };
        lemma_only_stream_changed(m.server, c, sid, closing);
        assert(n.server == server::session_set(
            m.server,
            c,
            SessionModel { lanes: table::with(s.lanes, sid as u64, closing), ..s },
        ));
    }
}

proof fn lemma_left_out(s: Seq<(u64, u16)>, k: u64, sid: u16)
    ensures
        forall|a: u64, b: u16| #[trigger]
            egress::left_out(s, k, sid).contains((a, b)) <==> s.contains((a, b)) && !(a == k && b
                == sid),
{
    let p = |e: (u64, u16)| e != (k, sid);
    lemma_filter_contains(s, p);
    assert forall|a: u64, b: u16| #[trigger]
        egress::left_out(s, k, sid).contains((a, b)) <==> s.contains((a, b)) && !(a == k && b
            == sid) by {
        assert(s.filter(p).contains((a, b)) <==> s.contains((a, b)) && p((a, b)));
    }
}

proof fn lemma_filter_contains<A>(s: Seq<A>, p: spec_fn(A) -> bool)
    ensures
        forall|x: A| #[trigger] s.filter(p).contains(x) <==> s.contains(x) && p(x),
    decreases s.len(),
{
    reveal(Seq::filter);
    if s.len() > 0 {
        let t = s.drop_last();
        lemma_filter_contains(t, p);
        let r = s.filter(p);
        let u = t.filter(p);
        assert forall|x: A| #[trigger] r.contains(x) <==> s.contains(x) && p(x) by {
            if r.contains(x) {
                let i = choose|i: int| 0 <= i < r.len() && r[i] == x;
                if i < u.len() {
                    assert(u[i] == x);
                    assert(u.contains(x));
                    let j = choose|j: int| 0 <= j < t.len() && t[j] == x;
                    assert(s[j] == x);
                } else {
                    assert(s[s.len() - 1] == x);
                }
            }
            if s.contains(x) && p(x) {
                let j = choose|j: int| 0 <= j < s.len() && s[j] == x;
                if j < t.len() {
                    assert(t[j] == x);
                    assert(t.contains(x));
                    assert(u.contains(x));
                    let i = choose|i: int| 0 <= i < u.len() && u[i] == x;
                    assert(r[i] == x);
                } else {
                    assert(r[r.len() - 1] == x);
                }
            }
        }
    }
}

/// The end of a connection gives its stream up: the connection is forgotten, no other is, and the
/// client is to see the end of the stream.
pub proof fn lemma_end_of_a_connection_gives_the_stream_up(m: RelayModel, c: Seq<u8>, sid: u16)
    requires
        server::server_ok(m.server),
    ensures
        ({
            let n = egress::given_up(m, c, sid);
            &&& forall|k: u64, other: u16| #[trigger]
                n.egress.contains((k, other)) <==> m.egress.contains((k, other)) && !(k
                    == server::id_key(c) && other == sid)
            &&& n.counts == m.counts
            &&& server::has_session_of(m.server, c) && server::has_stream_of(m.server, c, sid)
                ==> only_stream_changed(
                m.server,
                n.server,
                c,
                sid,
                LaneModel {
                    stream: crate::tunnel::arq::StreamModel {
                        closing: true,
                        ..server::stream_of(m.server, c, sid).stream
                    },
                    ..server::stream_of(m.server, c, sid)
                },
            )
        }),
{
    lemma_left_out(m.egress, server::id_key(c), sid);
    if server::has_session_of(m.server, c) && server::has_stream_of(m.server, c, sid) {
        let l = server::stream_of(m.server, c, sid);
        let closing = LaneModel {
            stream: crate::tunnel::arq::StreamModel { closing: true, ..l.stream },
            ..l
        };
        lemma_only_stream_changed(m.server, c, sid, closing);
    }
}

/// Bytes that a connection gives are queued for the client behind those of its stream that wait, and
/// counted; connections and other streams stay as they are.
pub proof fn lemma_given_bytes_are_queued_in_order(
    m: RelayModel,
    c: Seq<u8>,
    sid: u16,
    data: Seq<u8>,
)
    requires
        server::server_ok(m.server),
        server::has_session_of(m.server, c),
        server::has_stream_of(m.server, c, sid),
        data.len() < 0x1_0000_0000_0000_0000,
    ensures
        ({
            let n = egress::data_given(m, c, sid, data);
            let l = server::stream_of(m.server, c, sid);
            &&& n.egress == m.egress
            &&& rose(m.counts.bytes_downlink, n.counts.bytes_downlink, data.len() as int)
            &&& n.counts == (Counts { bytes_downlink: n.counts.bytes_downlink, ..m.counts })
            &&& only_stream_changed(
                m.server,
                n.server,
                c,
                sid,
                LaneModel {
                    stream: crate::tunnel::arq::StreamModel {
                        outbox: l.stream.outbox + data,
                        ..l.stream
                    },
                    ..l
                },
            )
        }),
{
    let l = server::stream_of(m.server, c, sid);
    let written = LaneModel {
        stream: crate::tunnel::arq::StreamModel { outbox: l.stream.outbox + data, ..l.stream },
        ..l
    };
    lemma_only_stream_changed(m.server, c, sid, written);
}

/// Queries, answers, connect errors and timeouts are counted one by one, each in its own counter, and
/// leave the connections as they are.
pub proof fn lemma_events_are_counted_apart(m: RelayModel, after: ServerModel, kind: ErrorKind)
    ensures
        ({
            let q = egress::query_taken(m, after);
            let a = egress::answer_noted(m);
            let t = egress::timeout_noted(m);
            let f = egress::failure_noted(m, kind);
            &&& q.server == after
            &&& q.egress == m.egress
            &&& rose(m.counts.queries, q.counts.queries, 1)
            &&& q.counts == (Counts { queries: q.counts.queries, ..m.counts })
            &&& a == (RelayModel { counts: a.counts, ..m })
            &&& rose(m.counts.answers, a.counts.answers, 1)
            &&& a.counts == (Counts { answers: a.counts.answers, ..m.counts })
            &&& t == (RelayModel { counts: t.counts, ..m })
            &&& rose(m.counts.connect_timeouts, t.counts.connect_timeouts, 1)
            &&& t.counts == (Counts { connect_timeouts: t.counts.connect_timeouts, ..m.counts })
            &&& f == (RelayModel { counts: f.counts, ..m })
            &&& f.counts == (Counts { connect_failures: f.counts.connect_failures, ..m.counts })
        }),
{
}

// ---- dialing ----

/// The targets of a session that wait to be dialed, by rising stream id.
pub open spec fn waiting_targets(s: Seq<(u64, LaneModel)>, list: Seq<(u16, Seq<u8>)>) -> bool {
    forall|sid: u16, target: Seq<u8>| #[trigger]
        list.contains((sid, target)) <==> table::holds(s, sid as u64) && !table::at(
            s,
            sid as u64,
        ).dialed && table::at(s, sid as u64).target == target
}

proof fn lemma_undialed(s: Seq<(u64, LaneModel)>)
    requires
        table::keyed(s),
        forall|i: int| 0 <= i < s.len() ==> (#[trigger] s[i]).0 <= 0xffff,
    ensures
        forall|sid: u16, target: Seq<u8>| #[trigger]
            server::undialed(s).contains((sid, target)) <==> exists|i: int|
                0 <= i < s.len() && (#[trigger] s[i]).0 == sid && !s[i].1.dialed && s[i].1.target
                    == target,
        server::undialed(s).len() <= s.len(),
    decreases s.len(),
{
    if s.len() > 0 {
        let d = s.drop_last();
        assert forall|i: int, j: int| 0 <= i < j < d.len() implies (#[trigger] d[i]).0 < (
        #[trigger] d[j]).0 by {
            assert(s[i].0 < s[j].0);
        }
        assert forall|i: int| 0 <= i < d.len() implies (#[trigger] d[i]).0 <= 0xffff by {
            assert(d[i] == s[i]);
        }
        lemma_undialed(d);
        let r = server::undialed(s);
        let q = server::undialed(d);
        let last = s.len() - 1;
        assert(s[last].0 <= 0xffff);
        assert forall|sid: u16, target: Seq<u8>| #[trigger]
            r.contains((sid, target)) <==> exists|i: int|
                0 <= i < s.len() && (#[trigger] s[i]).0 == sid && !s[i].1.dialed && s[i].1.target
                    == target by {
            if r.contains((sid, target)) {
                let k = choose|k: int| 0 <= k < r.len() && r[k] == (sid, target);
                if k < q.len() {
                    assert(q[k] == (sid, target));
                    assert(q.contains((sid, target)));
                    let i = choose|i: int|
                        0 <= i < d.len() && (#[trigger] d[i]).0 == sid && !d[i].1.dialed
                            && d[i].1.target == target;
                    assert(s[i] == d[i]);
                } else {
                    assert(s[last].0 == sid);
                }
            }
            if exists|i: int|
                0 <= i < s.len() && (#[trigger] s[i]).0 == sid && !s[i].1.dialed && s[i].1.target
                    == target {
                let i = choose|i: int|
                    0 <= i < s.len() && (#[trigger] s[i]).0 == sid && !s[i].1.dialed
                        && s[i].1.target == target;
                if i < last {
                    assert(d[i] == s[i]);
                    assert(q.contains((sid, target)));
                    let k = choose|k: int| 0 <= k < q.len() && q[k] == (sid, target);
                    assert(r[k] == (sid, target));
                } else {
                    assert(r[r.len() - 1] == (sid, target));
                }
            }
        }
    }
}

/// The targets that wait to be dialed are those of the streams whose target was not handed out.
pub proof fn lemma_targets_of_new_streams_wait(s: Seq<(u64, LaneModel)>)
    requires
        lanes::lanes_ok(s),
    ensures
        waiting_targets(s, server::undialed(s)),
{
    lemma_undialed(s);
    let list = server::undialed(s);
    assert forall|sid: u16, target: Seq<u8>| #[trigger]
        list.contains((sid, target)) <==> table::holds(s, sid as u64) && !table::at(
            s,
            sid as u64,
        ).dialed && table::at(s, sid as u64).target == target by {
        if list.contains((sid, target)) {
            let i = choose|i: int|
                0 <= i < s.len() && (#[trigger] s[i]).0 == sid && !s[i].1.dialed && s[i].1.target
                    == target;
            table::lemma_found(s, i);
        }
        if table::holds(s, sid as u64) && !table::at(s, sid as u64).dialed && table::at(
            s,
            sid as u64,
        ).target == target {
            let r = table::rank(s, sid as u64) as int;
            assert(s[r].0 == sid);
        }
    }
}

/// What dialing `list` gives: each stream whose target decodes comes out with it and has a connection
/// from then on, one more stream is counted as opened for each, and any other is counted as
/// undecodable; connections that there were stay.
pub open spec fn dials(
    m: RelayModel,
    c: Seq<u8>,
    list: Seq<(u16, Seq<u8>)>,
    n: RelayModel,
    out: Seq<(u16, TargetModel)>,
) -> bool {
    &&& out.len() <= list.len()
    &&& forall|sid: u16, t: TargetModel| #[trigger]
        out.contains((sid, t)) <==> exists|i: int|
            0 <= i < list.len() && (#[trigger] list[i]).0 == sid && addr::parsed(list[i].1) == Ok::<
                TargetModel,
                addr::AddrError,
            >(t)
    &&& forall|k: u64, sid: u16| #[trigger]
        n.egress.contains((k, sid)) <==> m.egress.contains((k, sid)) || (k == server::id_key(c)
            && exists|i: int|
            0 <= i < list.len() && (#[trigger] list[i]).0 == sid && addr::parsed(list[i].1) is Ok)
    &&& n.counts.streams_opened == (m.counts.streams_opened + out.len())
        % 0x1_0000_0000_0000_0000
    &&& n.counts.undecodable_targets == (m.counts.undecodable_targets + (list.len() - out.len()))
        % 0x1_0000_0000_0000_0000
    &&& n.counts == (Counts {
        streams_opened: n.counts.streams_opened,
        undecodable_targets: n.counts.undecodable_targets,
        ..m.counts
    })
    &&& n.idle_timeout_ms == m.idle_timeout_ms
}

proof fn lemma_dials(m: RelayModel, c: Seq<u8>, list: Seq<(u16, Seq<u8>)>, n: nat)
    requires
        n <= list.len(),
    ensures
        dials(
            m,
            c,
            list.take(n as int),
            egress::dialed(m, c, list, n).0,
            egress::dialed(m, c, list, n).1,
        ),
    decreases n,
{
    let (q, out) = egress::dialed(m, c, list, n);
    let now = list.take(n as int);
    if n == 0 {
        assert(now.len() == 0);
    } else {
        let (p, was) = egress::dialed(m, c, list, (n - 1) as nat);
        lemma_dials(m, c, list, (n - 1) as nat);
        let before = list.take(n - 1);
        let (sid0, target) = list[n - 1];
        assert(now[n - 1] == list[n - 1]);
        assert forall|i: int| 0 <= i < n - 1 implies #[trigger] before[i] == now[i] by {}
        let k0 = server::id_key(c);
        lemma_left_out(p.egress, k0, sid0);
        let left = egress::left_out(p.egress, k0, sid0);
        assert forall|sid: u16, t: TargetModel| #[trigger]
            out.contains((sid, t)) <==> exists|i: int|
                0 <= i < now.len() && (#[trigger] now[i]).0 == sid && addr::parsed(now[i].1)
                    == Ok::<TargetModel, addr::AddrError>(t) by {
            if out.contains((sid, t)) {
                let j = choose|j: int| 0 <= j < out.len() && out[j] == (sid, t);
                if j < was.len() {
                    assert(was[j] == (sid, t));
                    assert(was.contains((sid, t)));
                    let i = choose|i: int|
                        0 <= i < before.len() && (#[trigger] before[i]).0 == sid && addr::parsed(
                            before[i].1,
                        ) == Ok::<TargetModel, addr::AddrError>(t);
                    assert(now[i] == before[i]);
                } else {
                    assert(now[n - 1].0 == sid);
                }
            }
            if exists|i: int|
                0 <= i < now.len() && (#[trigger] now[i]).0 == sid && addr::parsed(now[i].1)
                    == Ok::<TargetModel, addr::AddrError>(t) {
                let i = choose|i: int|
                    0 <= i < now.len() && (#[trigger] now[i]).0 == sid && addr::parsed(now[i].1)
                        == Ok::<TargetModel, addr::AddrError>(t);
                if i < n - 1 {
                    assert(before[i] == now[i]);
                    assert(was.contains((sid, t)));
                    let j = choose|j: int| 0 <= j < was.len() && was[j] == (sid, t);
                    assert(out[j] == (sid, t));
                } else {
                    assert(out[out.len() - 1] == (sid, t));
                }
            }
        }
        assert forall|k: u64, sid: u16| #[trigger]
            q.egress.contains((k, sid)) <==> m.egress.contains((k, sid)) || (k == k0 && exists|
                i: int,
            |
                0 <= i < now.len() && (#[trigger] now[i]).0 == sid && addr::parsed(now[i].1) is Ok) by {
            if addr::parsed(target) is Ok {
                assert(q.egress == left.push((k0, sid0)));
                if q.egress.contains((k, sid)) {
                    let j = choose|j: int| 0 <= j < q.egress.len() && q.egress[j] == (k, sid);
                    if j < left.len() {
                        assert(left[j] == (k, sid));
                        assert(left.contains((k, sid)));
                        assert(p.egress.contains((k, sid)));
                    } else {
                        assert(now[n - 1].0 == sid);
                    }
                }
                if k == k0 && sid == sid0 {
                    assert(q.egress[q.egress.len() - 1] == (k, sid));
                } else if p.egress.contains((k, sid)) {
                    assert(left.contains((k, sid)));
                    let j = choose|j: int| 0 <= j < left.len() && left[j] == (k, sid);
                    assert(q.egress[j] == (k, sid));
                }
            }
            assert(p.egress.contains((k, sid)) <==> m.egress.contains((k, sid)) || (k == k0
                && exists|i: int|
                0 <= i < before.len() && (#[trigger] before[i]).0 == sid && addr::parsed(
                    before[i].1,
                ) is Ok));
            if k == k0 && exists|i: int|
                0 <= i < before.len() && (#[trigger] before[i]).0 == sid && addr::parsed(
                    before[i].1,
                ) is Ok {
                let i = choose|i: int|
                    0 <= i < before.len() && (#[trigger] before[i]).0 == sid && addr::parsed(
                        before[i].1,
                    ) is Ok;
                assert(now[i] == before[i]);
            }
            if k == k0 && exists|i: int|
                0 <= i < now.len() && (#[trigger] now[i]).0 == sid && addr::parsed(now[i].1) is Ok {
                let i = choose|i: int|
                    0 <= i < now.len() && (#[trigger] now[i]).0 == sid && addr::parsed(
                        now[i].1,
                    ) is Ok;
                if i < n - 1 {
                    assert(before[i] == now[i]);
                }
            }
        }
    }
}

/// Dialing hands out the target of every new stream of the session that can be decoded, gives each of
/// these streams a connection, and hands none out twice.
pub proof fn lemma_dialing_hands_out_every_new_target(m: RelayModel, c: Seq<u8>)
    requires
        server::server_ok(m.server),
        server::has_session_of(m.server, c),
    ensures
        ({
            let list = server::undialed(server::session_of(m.server, c).lanes);
            let (n, out) = egress::dialed_new(m, c);
            &&& waiting_targets(server::session_of(m.server, c).lanes, list)
            &&& dials(m, c, list, n, out)
        }),
{
    let s = server::session_of(m.server, c);
    let list = server::undialed(s.lanes);
    assert(server::session_ok(
        m.server.sessions[table::rank(m.server.sessions, server::id_key(c)) as int],
    ));
    lemma_targets_of_new_streams_wait(s.lanes);
    let taken = RelayModel { server: server::targets_taken(m.server, c), ..m };
    lemma_dials(taken, c, list, list.len());
    assert(list.take(list.len() as int) =~= list);
}

// ---- idle sessions ----

/// A sweep drops a session just where no query came for it for the configured time, and with it the
/// connections of its streams, and of no others; each session that it drops is counted.
pub proof fn lemma_sweep_drops_idle_sessions_and_their_connections(m: RelayModel, now: u64, c: Seq<u8>)
    requires
        server::server_ok(m.server),
        m.server.sessions.len() < 0x1_0000_0000_0000_0000,
    ensures
        ({
            let n = egress::idle_dropped(m, now);
            let s = server::session_of(m.server, c);
            let idle = now - s.last_seen >= m.idle_timeout_ms || m.idle_timeout_ms == 0;
            &&& server::has_session_of(n.server, c) <==> server::has_session_of(m.server, c)
                && !idle
            &&& server::has_session_of(n.server, c) ==> server::session_of(n.server, c) == s
            &&& forall|sid: u16| #[trigger]
                connected(n, c, sid) <==> connected(m, c, sid) && !(server::has_session_of(
                    m.server,
                    c,
                ) && idle)
            &&& n.counts == (Counts { sessions_swept: n.counts.sessions_swept, ..m.counts })
            &&& n.counts.sessions_swept == (m.counts.sessions_swept + (
            m.server.sessions.len() - n.server.sessions.len())) % 0x1_0000_0000_0000_0000
        }),
{
    let all = m.server.sessions;
    let idle_ms = m.idle_timeout_ms;
    let kept = server::swept(all, now, idle_ms);
    let k = server::id_key(c);
    let n = egress::idle_dropped(m, now);
    let ids = server::stale_ids(all, now, idle_ms);
    server::lemma_sweep_keeps_the_live(all, now, idle_ms);
    assert forall|i: int| 0 <= i < kept.len() implies all.contains(#[trigger] kept[i]) by {
        assert(kept.contains(kept[i]));
    }
    table::lemma_among(all, kept, k);
    if server::has_session_of(m.server, c) {
        let e = all[table::rank(all, k) as int];
        assert(all.contains(e));
        if !server::stale(e.1, now, idle_ms) {
            assert(kept.contains(e));
            let j = choose|j: int| 0 <= j < kept.len() && kept[j] == e;
            table::lemma_found(kept, j);
        }
    }
    if server::has_session_of(n.server, c) {
        let e = kept[table::rank(kept, k) as int];
        assert(kept.contains(e));
    }
    lemma_stale(all, now, idle_ms);
    lemma_sessions_left_out(m.egress, ids, ids.len());
    assert forall|sid: u16| #[trigger] connected(n, c, sid) <==> connected(m, c, sid) && !(
    server::has_session_of(m.server, c) && server::stale(
        server::session_of(m.server, c),
        now,
        idle_ms,
    )) by {
        assert(n.egress.contains((k, sid)) <==> m.egress.contains((k, sid)) && !(exists|i: int|
            0 <= i < ids.len() && server::id_key(#[trigger] ids[i]) == k));
        if exists|i: int| 0 <= i < ids.len() && server::id_key(#[trigger] ids[i]) == k {
            let i = choose|i: int| 0 <= i < ids.len() && server::id_key(#[trigger] ids[i]) == k;
            assert(ids.contains(ids[i]));
            let j = choose|j: int|
                0 <= j < all.len() && (#[trigger] all[j]).1.conn_id == ids[i] && server::stale(
                    all[j].1,
                    now,
                    idle_ms,
                );
            assert(server::session_ok(all[j]));
            table::lemma_found(all, j);
        }
        if server::has_session_of(m.server, c) && server::stale(
            server::session_of(m.server, c),
            now,
            idle_ms,
        ) {
            let j = table::rank(all, k) as int;
            assert(server::session_ok(all[j]));
            assert(ids.contains(all[j].1.conn_id));
            let i = choose|i: int| 0 <= i < ids.len() && ids[i] == all[j].1.conn_id;
            assert(server::id_key(ids[i]) == k);
        }
    }
}

proof fn lemma_stale(s: Seq<(u64, SessionModel)>, now: u64, idle_ms: u64)
    ensures
        forall|c: Seq<u8>| #[trigger]
            server::stale_ids(s, now, idle_ms).contains(c) <==> exists|i: int|
                0 <= i < s.len() && (#[trigger] s[i]).1.conn_id == c && server::stale(
                    s[i].1,
                    now,
                    idle_ms,
                ),
        server::stale_ids(s, now, idle_ms).len() + server::swept(s, now, idle_ms).len() == s.len(),
    decreases s.len(),
{
    reveal(Seq::filter);
    if s.len() > 0 {
        let d = s.drop_last();
        lemma_stale(d, now, idle_ms);
        let r = server::stale_ids(s, now, idle_ms);
        let q = server::stale_ids(d, now, idle_ms);
        let last = s.len() - 1;
        assert forall|c: Seq<u8>| #[trigger] r.contains(c) <==> exists|i: int|
            0 <= i < s.len() && (#[trigger] s[i]).1.conn_id == c && server::stale(
                s[i].1,
                now,
                idle_ms,
            ) by {
            if r.contains(c) {
                let k = choose|k: int| 0 <= k < r.len() && r[k] == c;
                if k < q.len() {
                    assert(q[k] == c);
                    assert(q.contains(c));
                    let i = choose|i: int|
                        0 <= i < d.len() && (#[trigger] d[i]).1.conn_id == c && server::stale(
                            d[i].1,
                            now,
                            idle_ms,
                        );
                    assert(s[i] == d[i]);
                } else {
                    assert(s[last].1.conn_id == c);
                }
            }
            if exists|i: int|
                0 <= i < s.len() && (#[trigger] s[i]).1.conn_id == c && server::stale(
                    s[i].1,
                    now,
                    idle_ms,
                ) {
                let i = choose|i: int|
                    0 <= i < s.len() && (#[trigger] s[i]).1.conn_id == c && server::stale(
                        s[i].1,
                        now,
                        idle_ms,
                    );
                if i < last {
                    assert(d[i] == s[i]);
                    assert(q.contains(c));
                    let k = choose|k: int| 0 <= k < q.len() && q[k] == c;
                    assert(r[k] == c);
                } else {
                    assert(r[r.len() - 1] == c);
                }
            }
        }
    }
}

proof fn lemma_session_left_out(s: Seq<(u64, u16)>, k: u64)
    ensures
        forall|a: u64, b: u16| #[trigger]
            egress::session_left_out(s, k).contains((a, b)) <==> s.contains((a, b)) && a != k,
{
    let p = |e: (u64, u16)| e.0 != k;
    lemma_filter_contains(s, p);
    lemma_same_filter(s, k);
    assert forall|a: u64, b: u16| #[trigger]
        egress::session_left_out(s, k).contains((a, b)) <==> s.contains((a, b)) && a != k by {
        assert(s.filter(p).contains((a, b)) <==> s.contains((a, b)) && p((a, b)));
    }
}

proof fn lemma_same_filter(s: Seq<(u64, u16)>, k: u64)
    ensures
        egress::session_left_out(s, k) == s.filter(|e: (u64, u16)| e.0 != k),
    decreases s.len(),
{
    reveal(Seq::filter);
    if s.len() > 0 {
        lemma_same_filter(s.drop_last(), k);
    }
}

proof fn lemma_sessions_left_out(s: Seq<(u64, u16)>, ids: Seq<Seq<u8>>, n: nat)
    requires
        n <= ids.len(),
    ensures
        forall|k: u64, sid: u16| #[trigger]
            egress::sessions_left_out(s, ids, n).contains((k, sid)) <==> s.contains((k, sid))
                && !(exists|i: int| 0 <= i < n && server::id_key(#[trigger] ids[i]) == k),
    decreases n,
{
    if n > 0 {
        lemma_sessions_left_out(s, ids, (n - 1) as nat);
        let p = egress::sessions_left_out(s, ids, (n - 1) as nat);
        let k0 = server::id_key(ids[n - 1]);
        lemma_session_left_out(p, k0);
        assert forall|k: u64, sid: u16| #[trigger]
            egress::sessions_left_out(s, ids, n).contains((k, sid)) <==> s.contains((k, sid))
                && !(exists|i: int| 0 <= i < n && server::id_key(#[trigger] ids[i]) == k) by {
            if exists|i: int| 0 <= i < n && server::id_key(#[trigger] ids[i]) == k {
                let i = choose|i: int| 0 <= i < n && server::id_key(#[trigger] ids[i]) == k;
                if i < n - 1 {
                    assert(server::id_key(ids[i]) == k);
                }
            }
            if k == k0 {
                assert(server::id_key(ids[n - 1]) == k);
            }
        }
    }
}

} // verus!
