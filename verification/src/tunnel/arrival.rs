//! That a stream loses nothing: where every segment arrives once within the receive window, however the
//! carrier reorders and repeats them, the reader gets all that was written; and a segment that is not
//! acknowledged is sent again.
use vstd::prelude::*;

use crate::tunnel::arq;
use crate::tunnel::arq::{Config, SentModel, SeqNo, State, StreamModel};
use crate::tunnel::delivery;
use crate::tunnel::delivery::{
    cut, emitted, faithful, joined, prefix_of, run, taken, written, Event,
};
use crate::tunnel::frame::{FrameModel, Kind};

verus! {

// ---- the receiving side ----

/// The event brings the segment `q`: its data, or the FIN in its place.
pub open spec fn brings(e: Event, q: SeqNo) -> bool {
    e matches Event::Arrive(f, _) && (f.kind == Kind::Data || f.kind == Kind::Fin) && f.seq == Some(q)
}

/// In a run from `m`, segment `k` arrives at some time at which it lies within the receive window or
/// before it.
pub open spec fn arrives(m: StreamModel, base: SeqNo, events: Seq<Event>, k: int) -> bool {
    exists|i: int|
        0 <= i < events.len() && #[trigger] brings(events[i], arq::step(base, k)) && k
            < arq::distance(base, run(m, events.take(i)).rcv_nxt) + m.cfg.recv_window
}

/// What may happen to a receiver of these segments: it is not aborted, a data frame carries the segment
/// of its number, and the FIN stands at the last one.
pub open spec fn undisturbed(e: Event, base: SeqNo, segments: Seq<Seq<u8>>) -> bool {
    match e {
        Event::Reset => false,
        Event::Arrive(f, _) => {
            &&& faithful(f, base, segments)
            &&& f.kind != Kind::Rst
            &&& f.kind == Kind::Fin ==> (f.seq matches Some(q) ==> arq::distance(base, q)
                == segments.len() - 1)
        },
        _ => true,
    }
}

/// A receiver that has taken all that it could: neither the next segment nor the FIN waits.
spec fn caught_up(m: StreamModel, base: SeqNo, segments: Seq<Seq<u8>>) -> bool {
    &&& !m.reorder.contains_key(m.rcv_nxt)
    &&& m.remote_fin_seq != Some(m.rcv_nxt)
    &&& fins_last(m, base, segments)
}

/// The FIN stands at the last segment, and where it was passed everything was.
spec fn fins_last(m: StreamModel, base: SeqNo, segments: Seq<Seq<u8>>) -> bool {
    &&& m.remote_fin_seq matches Some(q) ==> arq::distance(base, q) == segments.len() - 1
    &&& m.remote_fin_recvd ==> arq::distance(base, m.rcv_nxt) == segments.len()
}

/// Segment `k` was taken, is kept, or is the FIN.
spec fn holds(m: StreamModel, base: SeqNo, k: int) -> bool {
    ||| k < arq::distance(base, m.rcv_nxt)
    ||| m.reorder.contains_key(arq::step(base, k))
    ||| m.remote_fin_seq == Some(arq::step(base, k))
}

/// What `a` holds, `b` holds.
spec fn holds_on(a: StreamModel, b: StreamModel, base: SeqNo, n: nat) -> bool {
    forall|k: int| 0 <= k < n && #[trigger] holds(a, base, k) ==> holds(b, base, k)
}

proof fn lemma_drained_holds(m: StreamModel, base: SeqNo, segments: Seq<Seq<u8>>, given: Seq<u8>)
    requires
        delivery::received(m, base, segments, given),
        segments.len() < 0x1_0000_0000,
        fins_last(m, base, segments),
    ensures
        ({
            let d = arq::drained(m);
            &&& !d.reorder.contains_key(d.rcv_nxt)
            &&& fins_last(d, base, segments)
            &&& holds_on(m, d, base, segments.len())
        }),
    decreases m.reorder.dom().len(),
{
    if m.reorder.contains_key(m.rcv_nxt) {
        let n = arq::distance(base, m.rcv_nxt);
        let next = StreamModel {
            delivered: m.delivered + m.reorder[m.rcv_nxt],
            reorder: m.reorder.remove(m.rcv_nxt),
            rcv_nxt: arq::step(m.rcv_nxt, 1),
            ..m
        };
        delivery::lemma_next_delivered(m, base, segments, given, m.reorder[m.rcv_nxt]);
        delivery::lemma_back(base, m.rcv_nxt);
        delivery::lemma_circle(base, n);
        delivery::lemma_circle(base, n + 1);
        assert(delivery::received(next, base, segments, given));
        assert forall|k: int| 0 <= k < segments.len() && #[trigger] holds(m, base, k) implies holds(
            next,
            base,
            k,
        ) by {
            delivery::lemma_circle(base, k);
        }
        lemma_drained_holds(next, base, segments, given);
        assert(arq::drained(m) == arq::drained(next));
    }
}

proof fn lemma_advanced_holds(m: StreamModel, base: SeqNo, segments: Seq<Seq<u8>>, given: Seq<u8>)
    requires
        delivery::received(m, base, segments, given),
        segments.len() < 0x1_0000_0000,
        fins_last(m, base, segments),
    ensures
        caught_up(arq::advanced(m), base, segments),
        holds_on(m, arq::advanced(m), base, segments.len()),
{
    lemma_drained_holds(m, base, segments, given);
    delivery::lemma_drained(m, base, segments, given);
    let d = arq::drained(m);
    let n = arq::distance(base, d.rcv_nxt);
    delivery::lemma_back(base, d.rcv_nxt);
    delivery::lemma_circle(base, n);
    let a = arq::advanced(m);
    if d.remote_fin_seq == Some(d.rcv_nxt) && !d.remote_fin_recvd {
        delivery::lemma_circle(base, n + 1);
        assert(n + 1 == segments.len());
        assert(arq::distance(base, a.rcv_nxt) == segments.len());
    }
    assert forall|k: int| 0 <= k < segments.len() && #[trigger] holds(m, base, k) implies holds(
        a,
        base,
        k,
    ) by {
        assert(holds(d, base, k));
    }
}

proof fn lemma_in_window(base: SeqNo, rcv: SeqNo, window: u32, k: int)
    requires
        0 <= k < 0x1_0000_0000,
        window <= 0x8000_0000,
        arq::distance(base, rcv) <= k < arq::distance(base, rcv) + window,
    ensures
        !arq::before(arq::step(base, k), rcv),
        arq::before(arq::step(base, k), arq::step(rcv, window as int)),
{
}

proof fn lemma_event_holds(
    m: StreamModel,
    base: SeqNo,
    segments: Seq<Seq<u8>>,
    given: Seq<u8>,
    e: Event,
)
    requires
        delivery::received(m, base, segments, given),
        segments.len() < 0x1_0000_0000,
        m.cfg.recv_window <= 0x8000_0000,
        caught_up(m, base, segments),
        undisturbed(e, base, segments),
    ensures
        ({
            let a = delivery::after(m, e);
            &&& caught_up(a, base, segments)
            &&& a.cfg.recv_window == m.cfg.recv_window
            &&& holds_on(m, a, base, segments.len())
            &&& forall|k: int|
                0 <= k < segments.len() && #[trigger] brings(e, arq::step(base, k)) && k
                    < arq::distance(base, m.rcv_nxt) + m.cfg.recv_window ==> holds(a, base, k)
        }),
{
    let a = delivery::after(m, e);
    let n = arq::distance(base, m.rcv_nxt);
    delivery::lemma_back(base, m.rcv_nxt);
    match e {
        Event::Arrive(f, now) => {
            match (f.kind, f.seq) {
                (Kind::Data, Some(q)) => {
                    let d = arq::distance(base, q);
                    delivery::lemma_back(base, q);
                    let acked = StreamModel { ack_pending: true, ..m };
                    if q == m.rcv_nxt {
                        let next = StreamModel {
                            delivered: acked.delivered + f.payload,
                            rcv_nxt: arq::step(m.rcv_nxt, 1),
                            ..acked
                        };
                        delivery::lemma_next_delivered(acked, base, segments, given, f.payload);
                        delivery::lemma_circle(base, n);
                        delivery::lemma_circle(base, n + 1);
                        assert forall|k: int|
                            0 <= k < segments.len() && #[trigger] holds(m, base, k) implies holds(
                            next,
                            base,
                            k,
                        ) by {}
                        lemma_advanced_holds(next, base, segments, given);
                        delivery::lemma_advanced_keeps_sender(next);
                        assert(holds(next, base, d));
                    }
                    assert forall|k: int|
                        0 <= k < segments.len() && #[trigger] brings(e, arq::step(base, k)) && k
                            < n + m.cfg.recv_window implies holds(a, base, k) by {
                        delivery::lemma_circle(base, k);
                        assert(k == d);
                        if k >= n {
                            lemma_in_window(base, m.rcv_nxt, m.cfg.recv_window, k);
                        }
                    }
                    assert forall|k: int|
                        0 <= k < segments.len() && #[trigger] holds(m, base, k) implies holds(
                        a,
                        base,
                        k,
                    ) by {}
                },
                (Kind::Fin, Some(q)) => {
                    delivery::lemma_back(base, q);
                    if let Some(p) = m.remote_fin_seq {
                        delivery::lemma_back(base, p);
                    }
                    let next = StreamModel {
                        ack_pending: true,
                        remote_fin_seq: if m.remote_fin_seq is None {
                            Some(q)
                        } else {
                            m.remote_fin_seq
                        },
                        ..m
                    };
                    assert(next.remote_fin_seq == Some(q));
                    assert forall|k: int|
                        0 <= k < segments.len() && #[trigger] holds(m, base, k) implies holds(
                        next,
                        base,
                        k,
                    ) by {}
                    lemma_advanced_holds(next, base, segments, given);
                    delivery::lemma_advanced_keeps_sender(next);
                    assert forall|k: int|
                        0 <= k < segments.len() && #[trigger] brings(e, arq::step(base, k)) && k
                            < n + m.cfg.recv_window implies holds(a, base, k) by {
                        assert(holds(next, base, k));
                    }
                },
                _ => {
                    assert forall|k: int|
                        0 <= k < segments.len() && #[trigger] holds(m, base, k) implies holds(
                        a,
                        base,
                        k,
                    ) by {}
                },
            }
        },
        _ => {
            assert forall|k: int|
                0 <= k < segments.len() && #[trigger] holds(m, base, k) implies holds(
                a,
                base,
                k,
            ) by {}
        },
    }
}

proof fn lemma_run_holds(
    id: u16,
    cfg: Config,
    base: SeqNo,
    events: Seq<Event>,
    segments: Seq<Seq<u8>>,
)
    requires
        segments.len() < 0x1_0000_0000,
        cfg.recv_window <= 0x8000_0000,
        forall|i: int|
            0 <= i < events.len() ==> undisturbed(#[trigger] events[i], base, segments),
    ensures
        ({
            let m = arq::new_stream(id, cfg, base);
            let end = run(m, events);
            &&& caught_up(end, base, segments)
            &&& end.cfg.recv_window == cfg.recv_window
            &&& forall|k: int|
                0 <= k < segments.len() && #[trigger] arrives(m, base, events, k) ==> holds(
                    end,
                    base,
                    k,
                )
        }),
    decreases events.len(),
{
    let m = arq::new_stream(id, cfg, base);
    if events.len() > 0 {
        let rest = events.drop_last();
        let last = events.last();
        assert(last == events[events.len() - 1]);
        assert forall|i: int| 0 <= i < rest.len() implies undisturbed(
            #[trigger] rest[i],
            base,
            segments,
        ) by {
            assert(rest[i] == events[i]);
        }
        lemma_run_holds(id, cfg, base, rest, segments);
        delivery::lemma_receiver_run(id, cfg, base, rest, segments);
        let s = run(m, rest);
        lemma_event_holds(s, base, segments, taken(m, rest), last);
        assert forall|k: int|
            0 <= k < segments.len() && #[trigger] arrives(m, base, events, k) implies holds(
            run(m, events),
            base,
            k,
        ) by {
            let i = choose|i: int|
                0 <= i < events.len() && #[trigger] brings(events[i], arq::step(base, k)) && k
                    < arq::distance(base, run(m, events.take(i)).rcv_nxt) + m.cfg.recv_window;
            if i < rest.len() {
                assert(rest[i] == events[i]);
                assert(rest.take(i) =~= events.take(i));
                assert(arrives(m, base, rest, k));
                assert(holds(s, base, k));
            } else {
                assert(events.take(i) =~= rest);
            }
        }
    }
}

/// Where every segment arrives at least once within the receive window, in whatever order and however
/// often, the reader gets all of them, in order and once each.
pub proof fn lemma_all_arrived_all_delivered(
    id: u16,
    cfg: Config,
    base: SeqNo,
    events: Seq<Event>,
    segments: Seq<Seq<u8>>,
)
    requires
        segments.len() < 0x1_0000_0000,
        cfg.recv_window <= 0x8000_0000,
        forall|i: int|
            0 <= i < events.len() ==> undisturbed(#[trigger] events[i], base, segments),
        forall|k: int|
            0 <= k < segments.len() ==> #[trigger] arrives(
                arq::new_stream(id, cfg, base),
                base,
                events,
                k,
            ),
    ensures
        ({
            let m = arq::new_stream(id, cfg, base);
            let end = run(m, events);
            &&& end.rcv_nxt == arq::step(base, segments.len() as int)
            &&& taken(m, events) + end.delivered == joined(segments, segments.len())
        }),
{
    let m = arq::new_stream(id, cfg, base);
    let end = run(m, events);
    assert forall|i: int| 0 <= i < events.len() implies (
    #[trigger] events[i] matches Event::Arrive(f, _) ==> faithful(f, base, segments)) by {
        assert(undisturbed(events[i], base, segments));
    }
    delivery::lemma_receiver_run(id, cfg, base, events, segments);
    lemma_run_holds(id, cfg, base, events, segments);
    let n = arq::distance(base, end.rcv_nxt);
    delivery::lemma_back(base, end.rcv_nxt);
    if n < segments.len() {
        assert(arrives(m, base, events, n));
        assert(holds(end, base, n));
    }
}

/// Where the first `count` segments arrive at least once within the receive window, whatever becomes of
/// the others, the reader gets at least these, in order and once each.
pub proof fn lemma_first_arrived_first_delivered(
    id: u16,
    cfg: Config,
    base: SeqNo,
    events: Seq<Event>,
    segments: Seq<Seq<u8>>,
    count: nat,
)
    requires
        segments.len() < 0x1_0000_0000,
        count <= segments.len(),
        cfg.recv_window <= 0x8000_0000,
        forall|i: int|
            0 <= i < events.len() ==> undisturbed(#[trigger] events[i], base, segments),
        forall|k: int|
            0 <= k < count ==> #[trigger] arrives(
                arq::new_stream(id, cfg, base),
                base,
                events,
                k,
            ),
    ensures
        ({
            let m = arq::new_stream(id, cfg, base);
            let end = run(m, events);
            let n = arq::distance(base, end.rcv_nxt);
            &&& count <= n <= segments.len()
            &&& taken(m, events) + end.delivered == joined(segments, n as nat)
            &&& prefix_of(joined(segments, count), taken(m, events) + end.delivered)
        }),
{
    let m = arq::new_stream(id, cfg, base);
    let end = run(m, events);
    assert forall|i: int| 0 <= i < events.len() implies (
    #[trigger] events[i] matches Event::Arrive(f, _) ==> faithful(f, base, segments)) by {
        assert(undisturbed(events[i], base, segments));
    }
    delivery::lemma_receiver_run(id, cfg, base, events, segments);
    lemma_run_holds(id, cfg, base, events, segments);
    let n = arq::distance(base, end.rcv_nxt);
    delivery::lemma_back(base, end.rcv_nxt);
    if n < count {
        assert(arrives(m, base, events, n));
        assert(holds(end, base, n));
    }
    delivery::lemma_joined_prefix(segments, count, n as nat);
}

/// Segment `k` arrives in a run.
pub open spec fn brought(base: SeqNo, events: Seq<Event>, k: int) -> bool {
    exists|i: int| 0 <= i < events.len() && #[trigger] brings(events[i], arq::step(base, k))
}

/// The first segments, up to as many as the receive window holds, are read once they have arrived,
/// whenever that was: nothing of them is dropped for want of room.
pub proof fn lemma_first_window_is_delivered(
    id: u16,
    cfg: Config,
    base: SeqNo,
    events: Seq<Event>,
    segments: Seq<Seq<u8>>,
    count: nat,
)
    requires
        segments.len() < 0x1_0000_0000,
        count <= segments.len(),
        count <= cfg.recv_window <= 0x8000_0000,
        forall|i: int|
            0 <= i < events.len() ==> undisturbed(#[trigger] events[i], base, segments),
        forall|k: int| 0 <= k < count ==> #[trigger] brought(base, events, k),
    ensures
        ({
            let m = arq::new_stream(id, cfg, base);
            let end = run(m, events);
            &&& count <= arq::distance(base, end.rcv_nxt)
            &&& prefix_of(joined(segments, count), taken(m, events) + end.delivered)
        }),
{
    let m = arq::new_stream(id, cfg, base);
    assert forall|k: int| 0 <= k < count implies #[trigger] arrives(m, base, events, k) by {
        assert(brought(base, events, k));
        let i = choose|i: int|
            0 <= i < events.len() && #[trigger] brings(events[i], arq::step(base, k));
        delivery::lemma_back(base, run(m, events.take(i)).rcv_nxt);
    }
    lemma_first_arrived_first_delivered(id, cfg, base, events, segments, count);
}

/// A receiver acknowledges what it has: after any run it has read, or can read, the first `n` segments,
/// and nothing else, and an acknowledgement that it sends carries the number `n` after the first.
pub proof fn lemma_acknowledges_what_was_delivered(
    id: u16,
    cfg: Config,
    base: SeqNo,
    events: Seq<Event>,
    segments: Seq<Seq<u8>>,
    now: u64,
)
    requires
        segments.len() < 0x1_0000_0000,
        forall|i: int|
            0 <= i < events.len() ==> (#[trigger] events[i] matches Event::Arrive(f, _)
                ==> faithful(f, base, segments)),
    ensures
        ({
            let m = arq::new_stream(id, cfg, base);
            let end = run(m, events);
            let n = arq::distance(base, end.rcv_nxt);
            &&& n <= segments.len()
            &&& taken(m, events) + end.delivered == joined(segments, n as nat)
            &&& end.rcv_nxt == arq::step(base, n)
            &&& arq::polled(end, now).1 matches Some(f) ==> (f.kind == Kind::Ack ==> f.seq == Some(
                arq::step(base, n),
            ))
        }),
{
    let m = arq::new_stream(id, cfg, base);
    let end = run(m, events);
    delivery::lemma_receiver_run(id, cfg, base, events, segments);
    delivery::lemma_back(base, end.rcv_nxt);
}

// ---- the sending side ----

/// Nothing is written once the stream is to be closed.
pub open spec fn closes_last(events: Seq<Event>) -> bool {
    forall|i: int, j: int|
        #![trigger events[i], events[j]]
        0 <= i < j < events.len() && events[i] is Close ==> !(events[j] is Write)
}

/// The FIN is the last of `n` segments, and the only one that is in flight.
spec fn fin_is_last(m: StreamModel, base: SeqNo, n: nat) -> bool {
    &&& m.fin_seq matches Some(q) ==> m.closing && m.outbox.len() == 0 && arq::distance(base, q) == n
        - 1
    &&& forall|i: int|
        0 <= i < m.inflight.len() && (#[trigger] m.inflight[i]).is_fin ==> m.fin_seq == Some(
            m.inflight[i].seq,
        )
    &&& m.rst_pending ==> m.state == State::Reset
}

/// The FIN among these frames is the one that the stream sent, and an RST is there only where the stream
/// was aborted.
spec fn ends_as(f: FrameModel, m: StreamModel) -> bool {
    &&& f.kind == Kind::Fin ==> m.fin_seq is Some && f.seq == m.fin_seq
    &&& f.kind == Kind::Rst ==> m.state == State::Reset
}

spec fn all_end_as(frames: Seq<FrameModel>, m: StreamModel) -> bool {
    forall|i: int| 0 <= i < frames.len() ==> ends_as(#[trigger] frames[i], m)
}

proof fn lemma_resent_fin(m: StreamModel, base: SeqNo, n: nat, k: nat, now: u64)
    requires
        fin_is_last(m, base, n),
        k < m.inflight.len(),
    ensures
        fin_is_last(arq::resent(m, k, now).0, base, n),
        ends_as(arq::resent(m, k, now).1->0, arq::resent(m, k, now).0),
{
    let r = arq::resent(m, k, now).0;
    assert(m.inflight[k as int].is_fin ==> m.fin_seq == Some(m.inflight[k as int].seq));
    assert forall|i: int| 0 <= i < r.inflight.len() && (
    #[trigger] r.inflight[i]).is_fin implies r.fin_seq == Some(r.inflight[i].seq) by {
        assert(r.inflight[i].is_fin == m.inflight[i].is_fin);
        assert(r.inflight[i].seq == m.inflight[i].seq);
    }
}

proof fn lemma_placed_fin(s: Seq<SentModel>, e: SentModel, fin: Option<SeqNo>)
    requires
        arq::in_order(s),
        forall|i: int| 0 <= i < s.len() && (#[trigger] s[i]).is_fin ==> fin == Some(s[i].seq),
        e.is_fin ==> fin == Some(e.seq),
    ensures
        ({
            let t = arq::placed(s, e);
            forall|i: int| 0 <= i < t.len() && (#[trigger] t[i]).is_fin ==> fin == Some(t[i].seq)
        }),
{
    arq::lemma_rank(s, e.seq);
    let r = arq::rank(s, e.seq) as int;
    let t = arq::placed(s, e);
    assert forall|i: int| 0 <= i < t.len() && (#[trigger] t[i]).is_fin implies fin == Some(
        t[i].seq,
    ) by {
        if arq::in_flight(s, e.seq) {
            if i != r {
                assert(t[i] == s[i]);
            }
        } else if i < r {
            assert(t[i] == s[i]);
        } else if i > r {
            assert(t[i] == s[i - 1]);
        }
    }
}

proof fn lemma_poll_fin(m: StreamModel, base: SeqNo, segments: Seq<Seq<u8>>, w: Seq<u8>, now: u64)
    requires
        delivery::sent_as(m, base, segments, w),
        fin_is_last(m, base, segments.len()),
        segments.len() < 0xffff_ffff,
    ensures
        ({
            let (next, frame) = arq::polled(m, now);
            let n = if next.snd_nxt != m.snd_nxt {
                segments.len() + 1
            } else {
                segments.len()
            };
            &&& fin_is_last(next, base, n)
            &&& frame matches Some(f) ==> ends_as(f, next)
            &&& m.fin_seq is Some ==> next.fin_seq == m.fin_seq
            &&& (next.state == State::Reset) == (m.state == State::Reset)
            &&& next.closing == m.closing
        }),
{
    reveal(delivery::sent_as);
    let (next, frame) = arq::polled(m, now);
    delivery::lemma_circle(base, segments.len() as int);
    if !m.rst_pending && m.state != State::Reset && m.state != State::Closed {
        let i = arq::first_queued(m.fast_retx, m.inflight, 0);
        delivery::lemma_first_queued_in_flight(m.fast_retx, m.inflight, 0);
        if i < m.fast_retx.len() {
            lemma_resent_fin(
                StreamModel { fast_retx: m.fast_retx.skip(i as int + 1), ..m },
                base,
                segments.len(),
                arq::rank(m.inflight, m.fast_retx[i as int]),
                now,
            );
        } else {
            let e = StreamModel { fast_retx: Seq::empty(), ..m };
            let k = arq::first_due(e.inflight, e.rto_ms, now, 0);
            if k < e.inflight.len() {
                lemma_resent_fin(
                    StreamModel {
                        rto_ms: arq::backed_off(e.rto_ms, e.cfg.max_rto_ms),
                        ..e
                    },
                    base,
                    segments.len(),
                    k,
                    now,
                );
            } else if m.nack_pending is None && !m.ack_pending {
                if arq::has_room(m) && m.outbox.len() > 0 {
                    let s = SentModel {
                        seq: m.snd_nxt,
                        data: m.outbox.take(arq::segment_len(m)),
                        sent_at: now,
                        retx: 0,
                        is_fin: false,
                    };
                    lemma_placed_fin(m.inflight, s, m.fin_seq);
                } else if m.closing && m.fin_seq is None && m.outbox.len() == 0 && arq::has_room(m) {
                    let s = SentModel {
                        seq: m.snd_nxt,
                        data: Seq::empty(),
                        sent_at: now,
                        retx: 0,
                        is_fin: true,
                    };
                    lemma_placed_fin(m.inflight, s, Some(m.snd_nxt));
                }
            }
        }
    }
}

proof fn lemma_other_fin(m: StreamModel, base: SeqNo, n: nat, e: Event)
    requires
        fin_is_last(m, base, n),
        m.reorder.dom().finite(),
        arq::in_order(m.inflight),
        !(e is Poll),
        e is Write ==> !m.closing,
    ensures
        ({
            let a = delivery::after(m, e);
            &&& fin_is_last(a, base, n)
            &&& a.fin_seq == m.fin_seq
            &&& m.state == State::Reset ==> a.state == State::Reset
            &&& a.closing == (m.closing || e is Close)
        }),
{
    let a = delivery::after(m, e);
    if m.state == State::Reset {
        delivery::lemma_reset_is_final(m, e);
    }
    if let Event::Arrive(f, now) = e {
        match (f.kind, f.seq) {
            (Kind::Data, Some(q)) => {
                let next = StreamModel {
                    delivered: m.delivered + f.payload,
                    rcv_nxt: arq::step(m.rcv_nxt, 1),
                    ack_pending: true,
                    ..m
                };
                delivery::lemma_advanced_keeps_sender(next);
                lemma_advanced_keeps_closing(next);
            },
            (Kind::Fin, Some(q)) => {
                let next = StreamModel {
                    ack_pending: true,
                    remote_fin_seq: if m.remote_fin_seq is None {
                        Some(q)
                    } else {
                        m.remote_fin_seq
                    },
                    ..m
                };
                delivery::lemma_advanced_keeps_sender(next);
                lemma_advanced_keeps_closing(next);
            },
            (Kind::Ack, Some(ack)) => {
                arq::lemma_unacked_in_order(m.inflight, ack);
                let t = arq::unacked(m.inflight, ack);
                assert forall|i: int| 0 <= i < t.len() && (
                #[trigger] t[i]).is_fin implies m.fin_seq == Some(t[i].seq) by {
                    assert(t.contains(t[i]));
                    let n = choose|n: int| 0 <= n < m.inflight.len() && m.inflight[n] == t[i];
                    assert(m.inflight[n].is_fin);
                }
            },
            _ => {},
        }
    }
}

proof fn lemma_advanced_keeps_closing(m: StreamModel)
    requires
        m.reorder.dom().finite(),
    ensures
        arq::advanced(m).closing == m.closing,
    decreases m.reorder.dom().len(),
{
    if m.reorder.contains_key(m.rcv_nxt) {
        let next = StreamModel {
            delivered: m.delivered + m.reorder[m.rcv_nxt],
            reorder: m.reorder.remove(m.rcv_nxt),
            rcv_nxt: arq::step(m.rcv_nxt, 1),
            ..m
        };
        lemma_advanced_keeps_closing(next);
        assert(arq::drained(m) == arq::drained(next));
    }
}

proof fn lemma_run_fin(m: StreamModel, base: SeqNo, events: Seq<Event>)
    requires
        m.reorder.dom().finite(),
        delivery::sent_as(m, base, Seq::empty(), Seq::empty()),
        fin_is_last(m, base, 0),
        !m.closing,
        cut(m, events).len() < 0xffff_ffff,
        closes_last(events),
    ensures
        ({
            let end = run(m, events);
            &&& fin_is_last(end, base, cut(m, events).len())
            &&& all_end_as(emitted(m, events), end)
            &&& end.closing ==> exists|i: int| 0 <= i < events.len() && #[trigger] events[i] is Close
        }),
    decreases events.len(),
{
    if events.len() > 0 {
        let rest = events.drop_last();
        let e = events.last();
        assert(e == events[events.len() - 1]);
        delivery::lemma_cut_grows(m, events);
        assert(closes_last(rest)) by {
            assert forall|i: int, j: int|
                #![trigger rest[i], rest[j]]
                0 <= i < j < rest.len() && rest[i] is Close implies !(rest[j] is Write) by {
                assert(rest[i] == events[i] && rest[j] == events[j]);
            }
        }
        lemma_run_fin(m, base, rest);
        delivery::lemma_sender_run(m, base, rest);
        delivery::lemma_reorder_finite(m, rest);
        let s = run(m, rest);
        let end = run(m, events);
        if let Event::Poll(now) = e {
            lemma_poll_fin(s, base, cut(m, rest), written(rest), now);
        } else {
            reveal(delivery::sent_as);
            if e is Write && s.closing {
                let i = choose|i: int| 0 <= i < rest.len() && #[trigger] rest[i] is Close;
                assert(events[i] == rest[i]);
                assert(false);
            }
            lemma_other_fin(s, base, cut(m, rest).len(), e);
        }
        let frames = emitted(m, events);
        assert forall|i: int| 0 <= i < frames.len() implies ends_as(#[trigger] frames[i], end) by {
            if i < emitted(m, rest).len() {
                assert(frames[i] == emitted(m, rest)[i]);
                assert(ends_as(emitted(m, rest)[i], s));
            }
        }
        if end.closing {
            if s.closing {
                let i = choose|i: int| 0 <= i < rest.len() && #[trigger] rest[i] is Close;
                assert(events[i] == rest[i]);
            }
        }
    }
}

/// A stream loses nothing: where the writer sent all that it was given, did not write after its close and
/// was not aborted, and each of its segments arrived once within the receive window, then what was read,
/// with what can be read, is what was written. The carrier may repeat and reorder frames, and lose any
/// that is sent again.
pub proof fn lemma_nothing_is_lost(
    sender_id: u16,
    sender_cfg: Config,
    sending: Seq<Event>,
    receiver_id: u16,
    receiver_cfg: Config,
    receiving: Seq<Event>,
    base: SeqNo,
)
    requires
        ({
            let sender = arq::new_stream(sender_id, sender_cfg, base);
            let receiver = arq::new_stream(receiver_id, receiver_cfg, base);
            &&& cut(sender, sending).len() < 0xffff_ffff
            &&& closes_last(sending)
            &&& run(sender, sending).state != State::Reset
            &&& run(sender, sending).outbox.len() == 0
            &&& forall|i: int|
                0 <= i < receiving.len() ==> !((#[trigger] receiving[i]) is Reset) && (
                receiving[i] matches Event::Arrive(f, _) ==> emitted(sender, sending).contains(f))
            &&& forall|k: int|
                0 <= k < cut(sender, sending).len() ==> #[trigger] arrives(
                    receiver,
                    base,
                    receiving,
                    k,
                )
        }),
        receiver_cfg.recv_window <= 0x8000_0000,
    ensures
        ({
            let receiver = arq::new_stream(receiver_id, receiver_cfg, base);
            taken(receiver, receiving) + run(receiver, receiving).delivered == written(sending)
        }),
{
    let sender = arq::new_stream(sender_id, sender_cfg, base);
    let segments = cut(sender, sending);
    let frames = emitted(sender, sending);
    let end = run(sender, sending);
    delivery::lemma_sent_in_order(sender_id, sender_cfg, base, sending);
    assert(delivery::sent_as(sender, base, Seq::empty(), Seq::empty())) by {
        reveal(delivery::sent_as);
        assert(joined(Seq::<Seq<u8>>::empty(), 0) + sender.outbox =~= Seq::empty());
    }
    lemma_run_fin(sender, base, sending);
    assert forall|i: int| 0 <= i < receiving.len() implies undisturbed(
        #[trigger] receiving[i],
        base,
        segments,
    ) by {
        if let Event::Arrive(f, _) = receiving[i] {
            let k = choose|k: int| 0 <= k < frames.len() && frames[k] == f;
            assert(faithful(frames[k], base, segments));
            assert(ends_as(frames[k], end));
        }
    }
    lemma_all_arrived_all_delivered(receiver_id, receiver_cfg, base, receiving, segments);
    assert(joined(segments, segments.len()) + end.outbox =~= joined(segments, segments.len()));
}

// ---- sending again ----

proof fn lemma_first_due_found(s: Seq<SentModel>, rto_ms: u64, now: u64, i: nat, k: int)
    requires
        i <= k < s.len(),
        arq::due(s[k], rto_ms, now),
    ensures
        ({
            let d = arq::first_due(s, rto_ms, now, i);
            d < s.len() && arq::due(s[d as int], rto_ms, now)
        }),
    decreases s.len() - i,
{
    if !arq::due(s[i as int], rto_ms, now) {
        lemma_first_due_found(s, rto_ms, now, i + 1, k);
    }
}

/// A segment whose timeout has passed is not forgotten: while one is in flight, the stream sends again,
/// as it was first sent, one that the peer reported missing or one that is due.
pub proof fn lemma_overdue_is_sent_again(m: StreamModel, now: u64, k: int)
    requires
        !m.rst_pending,
        m.state != State::Reset,
        m.state != State::Closed,
        0 <= k < m.inflight.len(),
        arq::due(m.inflight[k], m.rto_ms, now),
    ensures
        exists|i: int|
            0 <= i < m.inflight.len() && arq::polled(m, now).1 == Some(
                arq::segment_frame(m.stream_id, #[trigger] m.inflight[i]),
            ) && (arq::due(m.inflight[i], m.rto_ms, now) || m.fast_retx.contains(m.inflight[i].seq)),
{
    let i = arq::first_queued(m.fast_retx, m.inflight, 0);
    delivery::lemma_first_queued_in_flight(m.fast_retx, m.inflight, 0);
    if i < m.fast_retx.len() {
        let r = arq::rank(m.inflight, m.fast_retx[i as int]) as int;
        assert(m.fast_retx.contains(m.inflight[r].seq));
        assert(arq::polled(m, now).1 == Some(arq::segment_frame(m.stream_id, m.inflight[r])));
    } else {
        lemma_first_due_found(m.inflight, m.rto_ms, now, 0, k);
        let d = arq::first_due(m.inflight, m.rto_ms, now, 0) as int;
        assert(arq::polled(m, now).1 == Some(arq::segment_frame(m.stream_id, m.inflight[d])));
    }
}

} // verus!
