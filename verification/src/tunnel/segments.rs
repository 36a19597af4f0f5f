//! How a stream cuts what is written: segments are numbered without a gap, a frame that is sent again
//! repeats its segment, and a data frame is neither empty nor longer than a segment may be.
use vstd::arithmetic::div_mod::lemma_fundamental_div_mod_converse;
use vstd::prelude::*;

use crate::tunnel::arq;
use crate::tunnel::arq::{Config, SentModel, SeqNo, State, StreamModel};
use crate::tunnel::delivery;
use crate::tunnel::delivery::{cut, emitted, joined, prefix_of, run, written, Event};
use crate::tunnel::frame::{FrameModel, Kind};

verus! {

/// A frame carries data or the FIN.
pub open spec fn is_segment(f: FrameModel) -> bool {
    f.kind == Kind::Data || f.kind == Kind::Fin
}

/// The data is the segment of number `q`, where segments are numbered from `base`; numbers come round
/// again, and of two segments with one number the later counts.
pub open spec fn carries(q: SeqNo, data: Seq<u8>, base: SeqNo, segments: Seq<Seq<u8>>) -> bool {
    exists|i: int|
        0 <= i < segments.len() <= i + 0x1_0000_0000 && q == #[trigger] arq::step(base, i) && data
            == segments[i]
}

/// A frame carries one of these segments, which are numbered from `base`.
pub open spec fn repeats(f: FrameModel, base: SeqNo, segments: Seq<Seq<u8>>) -> bool {
    f.seq matches Some(q) && carries(q, f.payload, base, segments)
}

/// What is in flight is numbered as it was cut.
#[verifier::opaque]
spec fn numbered(m: StreamModel, base: SeqNo, segments: Seq<Seq<u8>>) -> bool {
    &&& arq::in_order(m.inflight)
    &&& m.snd_nxt == arq::step(base, segments.len() as int)
    &&& forall|i: int|
        0 <= i < m.inflight.len() ==> carries(
            (#[trigger] m.inflight[i]).seq,
            m.inflight[i].data,
            base,
            segments,
        )
}

/// What was cut, with what waits, is what was written; a reset drops what waits.
#[verifier::opaque]
spec fn keeps(m: StreamModel, segments: Seq<Seq<u8>>, w: Seq<u8>) -> bool {
    let all = joined(segments, segments.len());
    if m.state == State::Reset {
        prefix_of(all, w)
    } else {
        all + m.outbox == w
    }
}

proof fn lemma_round(base: SeqNo, n: int, i: int)
    requires
        0 <= i <= n <= i + 0x1_0000_0000,
    ensures
        arq::step(arq::step(base, n), 1) == arq::step(base, n + 1),
        arq::step(base, n + 1) != arq::step(base, n),
        arq::step(base, i) == arq::step(base, n) ==> i == n || n == i + 0x1_0000_0000,
{
    let m: int = 0x1_0000_0000;
    let at = (base + n) % m;
    let q = (base + n) / m;
    assert(base + n == q * m + at);
    if at + 1 < m {
        lemma_fundamental_div_mod_converse(base + n + 1, m, q, at + 1);
    } else {
        lemma_fundamental_div_mod_converse(base + n + 1, m, q + 1, 0);
    }
    assert(base + (n + 1) == base + n + 1);
    let k = (base + i) / m;
    assert(base + i == k * m + (base + i) % m);
    if (base + i) % m == at {
        assert(n - i == (q - k) * m);
        assert(q - k == 0 || q - k == 1);
    }
}

proof fn lemma_resent_numbered(
    m: StreamModel,
    base: SeqNo,
    segments: Seq<Seq<u8>>,
    k: nat,
    now: u64,
)
    requires
        numbered(m, base, segments),
        k < m.inflight.len(),
    ensures
        numbered(arq::resent(m, k, now).0, base, segments),
        repeats(arq::resent(m, k, now).1->0, base, segments),
{
    reveal(numbered);
    let r = arq::resent(m, k, now).0;
    let e = m.inflight[k as int];
    assert(carries(e.seq, e.data, base, segments));
    assert forall|i: int| 0 <= i < r.inflight.len() implies carries(
        (#[trigger] r.inflight[i]).seq,
        r.inflight[i].data,
        base,
        segments,
    ) by {
        assert(carries(m.inflight[i].seq, m.inflight[i].data, base, segments));
    }
    assert(arq::in_order(r.inflight));
}

proof fn lemma_launched_numbered(
    m: StreamModel,
    base: SeqNo,
    segments: Seq<Seq<u8>>,
    data: Seq<u8>,
    is_fin: bool,
    now: u64,
)
    requires
        numbered(m, base, segments),
    ensures
        ({
            let (next, f) = arq::launched(m, data, is_fin, now);
            &&& numbered(next, base, segments.push(data))
            &&& next.snd_nxt != m.snd_nxt
            &&& f->0.seq == Some(arq::step(base, segments.len() as int))
            &&& f->0.payload == data
        }),
{
    reveal(numbered);
    let n = segments.len() as int;
    let longer = segments.push(data);
    let e = SentModel { seq: m.snd_nxt, data, sent_at: now, retx: 0, is_fin };
    let t = arq::placed(m.inflight, e);
    let r = arq::rank(m.inflight, e.seq) as int;
    lemma_round(base, n, n);
    arq::lemma_placed_in_order(m.inflight, e);
    arq::lemma_rank(m.inflight, e.seq);
    assert forall|i: int| 0 <= i < t.len() implies carries(
        (#[trigger] t[i]).seq,
        t[i].data,
        base,
        longer,
    ) by {
        if i == r {
            assert(t[i] == e);
            assert(longer[n] == data);
        } else {
            let j = if arq::in_flight(m.inflight, e.seq) || i < r {
                i
            } else {
                i - 1
            };
            assert(t[i] == m.inflight[j]);
            let o = m.inflight[j];
            assert(carries(o.seq, o.data, base, segments));
            let k = choose|k: int|
                0 <= k < segments.len() <= k + 0x1_0000_0000 && o.seq == #[trigger] arq::step(
                    base,
                    k,
                ) && o.data == segments[k];
            lemma_round(base, n, k);
            assert(o.seq != e.seq);
            assert(longer[k] == segments[k]);
        }
    }
}

proof fn lemma_poll_numbered(
    m: StreamModel,
    base: SeqNo,
    segments: Seq<Seq<u8>>,
    w: Seq<u8>,
    now: u64,
)
    requires
        numbered(m, base, segments),
        keeps(m, segments, w),
    ensures
        ({
            let (next, frame) = arq::polled(m, now);
            let longer = if next.snd_nxt != m.snd_nxt {
                segments.push(frame->0.payload)
            } else {
                segments
            };
            &&& numbered(next, base, longer)
            &&& keeps(next, longer, w)
            &&& frame matches Some(f) ==> (is_segment(f) ==> if next.snd_nxt != m.snd_nxt {
                f.seq == Some(arq::step(base, segments.len() as int))
            } else {
                repeats(f, base, segments)
            })
        }),
{
    reveal(numbered);
    reveal(keeps);
    let all = joined(segments, segments.len());
    if !m.rst_pending && m.state != State::Reset && m.state != State::Closed {
        let i = arq::first_queued(m.fast_retx, m.inflight, 0);
        delivery::lemma_first_queued_in_flight(m.fast_retx, m.inflight, 0);
        if i < m.fast_retx.len() {
            lemma_resent_numbered(
                StreamModel { fast_retx: m.fast_retx.skip(i as int + 1), ..m },
                base,
                segments,
                arq::rank(m.inflight, m.fast_retx[i as int]),
                now,
            );
        } else {
            let e = StreamModel { fast_retx: Seq::empty(), ..m };
            let k = arq::first_due(e.inflight, e.rto_ms, now, 0);
            if k < e.inflight.len() {
                lemma_resent_numbered(
                    StreamModel { rto_ms: arq::backed_off(e.rto_ms, e.cfg.max_rto_ms), ..e },
                    base,
                    segments,
                    k,
                    now,
                );
            } else if e.nack_pending is None && !e.ack_pending && arq::has_room(e) {
                if e.outbox.len() > 0 {
                    let n = arq::segment_len(e);
                    let data = e.outbox.take(n);
                    lemma_launched_numbered(
                        StreamModel { outbox: e.outbox.skip(n), ..e },
                        base,
                        segments,
                        data,
                        false,
                        now,
                    );
                    delivery::lemma_joined_longer(segments, segments.push(data), segments.len());
                    assert(all + data + e.outbox.skip(n) =~= all + e.outbox);
                } else if e.closing && e.fin_seq is None {
                    let data = Seq::<u8>::empty();
                    lemma_launched_numbered(e, base, segments, data, true, now);
                    delivery::lemma_joined_longer(segments, segments.push(data), segments.len());
                    assert(all + data + e.outbox =~= all + e.outbox);
                }
            }
        }
    }
}

proof fn lemma_event_numbered(
    m: StreamModel,
    base: SeqNo,
    segments: Seq<Seq<u8>>,
    w: Seq<u8>,
    e: Event,
)
    requires
        numbered(m, base, segments),
        keeps(m, segments, w),
        m.reorder.dom().finite(),
        !(e is Poll),
    ensures
        numbered(delivery::after(m, e), base, segments),
        keeps(
            delivery::after(m, e),
            segments,
            match e {
                Event::Write(data) => w + data,
                _ => w,
            },
        ),
{
    reveal(numbered);
    reveal(keeps);
    let all = joined(segments, segments.len());
    match e {
        Event::Write(data) => {
            assert(all + (m.outbox + data) =~= all + m.outbox + data);
            if m.state == State::Reset {
                delivery::lemma_prefix_longer(all, w, data);
            }
        },
        Event::Reset => {
            delivery::lemma_prefix_of_sum(all, m.outbox);
        },
        Event::Arrive(f, now) => match (f.kind, f.seq) {
            (Kind::Data, Some(q)) => {
                delivery::lemma_advanced_keeps_sender(
                    StreamModel {
                        delivered: m.delivered + f.payload,
                        rcv_nxt: arq::step(m.rcv_nxt, 1),
                        ack_pending: true,
                        ..m
                    },
                );
            },
            (Kind::Fin, Some(q)) => {
                delivery::lemma_advanced_keeps_sender(
                    StreamModel {
                        ack_pending: true,
                        remote_fin_seq: if m.remote_fin_seq is None {
                            Some(q)
                        } else {
                            m.remote_fin_seq
                        },
                        ..m
                    },
                );
            },
            (Kind::Ack, Some(ack)) => {
                arq::lemma_unacked_in_order(m.inflight, ack);
                let t = arq::unacked(m.inflight, ack);
                assert forall|i: int| 0 <= i < t.len() implies carries(
                    (#[trigger] t[i]).seq,
                    t[i].data,
                    base,
                    segments,
                ) by {
                    assert(t.contains(t[i]));
                    let n = choose|n: int| 0 <= n < m.inflight.len() && m.inflight[n] == t[i];
                    assert(carries(m.inflight[n].seq, m.inflight[n].data, base, segments));
                }
            },
            (Kind::Rst, _) => {
                delivery::lemma_prefix_of_sum(all, m.outbox);
            },
            _ => {},
        },
        _ => {},
    }
}

/// The run so far is numbered as it was cut, and keeps what was written.
spec fn run_numbered(m: StreamModel, base: SeqNo, events: Seq<Event>) -> bool {
    &&& numbered(run(m, events), base, cut(m, events))
    &&& keeps(run(m, events), cut(m, events), written(events))
}

proof fn lemma_run_numbered_poll(m: StreamModel, base: SeqNo, events: Seq<Event>, now: u64)
    requires
        events.len() > 0,
        events.last() == Event::Poll(now),
        run_numbered(m, base, events.drop_last()),
    ensures
        run_numbered(m, base, events),
{
    let rest = events.drop_last();
    lemma_poll_numbered(run(m, rest), base, cut(m, rest), written(rest), now);
}

proof fn lemma_run_numbered_event(m: StreamModel, base: SeqNo, events: Seq<Event>)
    requires
        m.reorder.dom().finite(),
        events.len() > 0,
        !(events.last() is Poll),
        run_numbered(m, base, events.drop_last()),
    ensures
        run_numbered(m, base, events),
{
    let rest = events.drop_last();
    delivery::lemma_reorder_finite(m, rest);
    lemma_event_numbered(run(m, rest), base, cut(m, rest), written(rest), events.last());
}

proof fn lemma_run_numbered(id: u16, cfg: Config, base: SeqNo, events: Seq<Event>)
    ensures
        run_numbered(arq::new_stream(id, cfg, base), base, events),
    decreases events.len(),
{
    let m = arq::new_stream(id, cfg, base);
    if events.len() == 0 {
        reveal(numbered);
        reveal(keeps);
        assert(joined(cut(m, events), 0) + m.outbox =~= Seq::empty());
    } else {
        lemma_run_numbered(id, cfg, base, events.drop_last());
        match events.last() {
            Event::Poll(now) => {
                lemma_run_numbered_poll(m, base, events, now);
            },
            _ => {
                lemma_run_numbered_event(m, base, events);
            },
        }
    }
}

/// After any run, the next frame of a sender that carries data or the FIN is either a new segment, which
/// has the number after all that were cut before, or repeats the segment of its number.
pub proof fn lemma_segments_are_numbered_without_a_gap(
    id: u16,
    cfg: Config,
    base: SeqNo,
    events: Seq<Event>,
    now: u64,
)
    ensures
        ({
            let m = arq::new_stream(id, cfg, base);
            let before = cut(m, events);
            let after = cut(m, events.push(Event::Poll(now)));
            arq::polled(run(m, events), now).1 matches Some(f) ==> (is_segment(f) ==> {
                ||| {
                    &&& f.seq == Some(arq::step(base, before.len() as int))
                    &&& after == before.push(f.payload)
                }
                ||| {
                    &&& after == before
                    &&& repeats(f, base, before)
                }
            })
        }),
{
    let m = arq::new_stream(id, cfg, base);
    assert(events.push(Event::Poll(now)).drop_last() =~= events);
    lemma_run_numbered(id, cfg, base, events);
    lemma_poll_numbered(run(m, events), base, cut(m, events), written(events), now);
}

/// What a sender cut, segment by segment, is the front of what was written, and without a reset all of
/// it but what waits.
pub proof fn lemma_segments_make_up_what_was_written(
    id: u16,
    cfg: Config,
    base: SeqNo,
    events: Seq<Event>,
)
    ensures
        ({
            let m = arq::new_stream(id, cfg, base);
            let segments = cut(m, events);
            let all = joined(segments, segments.len());
            &&& prefix_of(all, written(events))
            &&& run(m, events).state != State::Reset ==> all + run(m, events).outbox == written(
                events,
            )
        }),
{
    reveal(keeps);
    let m = arq::new_stream(id, cfg, base);
    let segments = cut(m, events);
    lemma_run_numbered(id, cfg, base, events);
    delivery::lemma_prefix_of_sum(joined(segments, segments.len()), run(m, events).outbox);
}

/// No segment is set to be longer than `limit` bytes.
pub open spec fn sized_within(cfg: Config, events: Seq<Event>, limit: nat) -> bool {
    &&& 1 <= cfg.max_segment <= limit
    &&& forall|i: int|
        0 <= i < events.len() ==> (#[trigger] events[i] matches Event::Resize(size) ==> size <= limit)
}

/// What is in flight is the FIN, or has from one to `limit` bytes.
spec fn all_sized(s: Seq<SentModel>, limit: nat) -> bool {
    forall|i: int|
        0 <= i < s.len() ==> (#[trigger] s[i]).is_fin || 1 <= s[i].data.len() <= limit
}

/// Data frames have from one to `limit` bytes.
spec fn frame_sized(f: FrameModel, limit: nat) -> bool {
    f.kind == Kind::Data ==> 1 <= f.payload.len() <= limit
}

spec fn sender_sized(m: StreamModel, limit: nat) -> bool {
    &&& 1 <= m.cfg.max_segment <= limit
    &&& arq::in_order(m.inflight)
    &&& all_sized(m.inflight, limit)
}

proof fn lemma_resent_sized(m: StreamModel, k: nat, now: u64, limit: nat)
    requires
        sender_sized(m, limit),
        k < m.inflight.len(),
    ensures
        sender_sized(arq::resent(m, k, now).0, limit),
        frame_sized(arq::resent(m, k, now).1->0, limit),
{
    let r = arq::resent(m, k, now).0;
    assert(m.inflight[k as int].is_fin || 1 <= m.inflight[k as int].data.len() <= limit);
    assert forall|i: int| 0 <= i < r.inflight.len() implies (#[trigger] r.inflight[i]).is_fin || 1
        <= r.inflight[i].data.len() <= limit by {
        assert(m.inflight[i].is_fin || 1 <= m.inflight[i].data.len() <= limit);
    }
    assert(arq::in_order(r.inflight));
}

proof fn lemma_launched_sized(m: StreamModel, data: Seq<u8>, is_fin: bool, now: u64, limit: nat)
    requires
        sender_sized(m, limit),
        is_fin || 1 <= data.len() <= limit,
    ensures
        sender_sized(arq::launched(m, data, is_fin, now).0, limit),
        frame_sized(arq::launched(m, data, is_fin, now).1->0, limit),
{
    let e = SentModel { seq: m.snd_nxt, data, sent_at: now, retx: 0, is_fin };
    arq::lemma_placed_in_order(m.inflight, e);
    arq::lemma_rank(m.inflight, e.seq);
    let t = arq::placed(m.inflight, e);
    let r = arq::rank(m.inflight, e.seq) as int;
    assert forall|i: int| 0 <= i < t.len() implies (#[trigger] t[i]).is_fin || 1
        <= t[i].data.len() <= limit by {
        if i == r {
            assert(t[i] == e);
        } else if arq::in_flight(m.inflight, e.seq) || i < r {
            assert(t[i] == m.inflight[i]);
        } else {
            assert(t[i] == m.inflight[i - 1]);
        }
    }
}

proof fn lemma_poll_sized(m: StreamModel, now: u64, limit: nat)
    requires
        sender_sized(m, limit),
    ensures
        sender_sized(arq::polled(m, now).0, limit),
        arq::polled(m, now).1 matches Some(f) ==> frame_sized(f, limit),
{
    if !m.rst_pending && m.state != State::Reset && m.state != State::Closed {
        let i = arq::first_queued(m.fast_retx, m.inflight, 0);
        delivery::lemma_first_queued_in_flight(m.fast_retx, m.inflight, 0);
        if i < m.fast_retx.len() {
            lemma_resent_sized(
                StreamModel { fast_retx: m.fast_retx.skip(i as int + 1), ..m },
                arq::rank(m.inflight, m.fast_retx[i as int]),
                now,
                limit,
            );
        } else {
            let e = StreamModel { fast_retx: Seq::empty(), ..m };
            let k = arq::first_due(e.inflight, e.rto_ms, now, 0);
            if k < e.inflight.len() {
                lemma_resent_sized(
                    StreamModel { rto_ms: arq::backed_off(e.rto_ms, e.cfg.max_rto_ms), ..e },
                    k,
                    now,
                    limit,
                );
            } else if e.nack_pending is None && !e.ack_pending && arq::has_room(e) {
                if e.outbox.len() > 0 {
                    let n = arq::segment_len(e);
                    lemma_launched_sized(
                        StreamModel { outbox: e.outbox.skip(n), ..e },
                        e.outbox.take(n),
                        false,
                        now,
                        limit,
                    );
                } else if e.closing && e.fin_seq is None {
                    lemma_launched_sized(e, Seq::empty(), true, now, limit);
                }
            }
        }
    }
}

proof fn lemma_event_sized(m: StreamModel, e: Event, limit: nat)
    requires
        sender_sized(m, limit),
        m.reorder.dom().finite(),
        !(e is Poll),
        e matches Event::Resize(size) ==> size <= limit,
    ensures
        sender_sized(delivery::after(m, e), limit),
{
    if let Event::Arrive(f, now) = e {
        match (f.kind, f.seq) {
            (Kind::Data, Some(q)) => {
                delivery::lemma_advanced_keeps_sender(
                    StreamModel {
                        delivered: m.delivered + f.payload,
                        rcv_nxt: arq::step(m.rcv_nxt, 1),
                        ack_pending: true,
                        ..m
                    },
                );
            },
            (Kind::Fin, Some(q)) => {
                delivery::lemma_advanced_keeps_sender(
                    StreamModel {
                        ack_pending: true,
                        remote_fin_seq: if m.remote_fin_seq is None {
                            Some(q)
                        } else {
                            m.remote_fin_seq
                        },
                        ..m
                    },
                );
            },
            (Kind::Ack, Some(ack)) => {
                arq::lemma_unacked_in_order(m.inflight, ack);
                let t = arq::unacked(m.inflight, ack);
                assert forall|i: int| 0 <= i < t.len() implies (#[trigger] t[i]).is_fin || 1
                    <= t[i].data.len() <= limit by {
                    assert(t.contains(t[i]));
                    let n = choose|n: int| 0 <= n < m.inflight.len() && m.inflight[n] == t[i];
                    assert(m.inflight[n].is_fin || 1 <= m.inflight[n].data.len() <= limit);
                }
            },
            _ => {},
        }
    }
}

proof fn lemma_run_sized(m: StreamModel, events: Seq<Event>, limit: nat)
    requires
        sender_sized(m, limit),
        m.reorder.dom().finite(),
        sized_within(m.cfg, events, limit),
    ensures
        sender_sized(run(m, events), limit),
        forall|i: int|
            0 <= i < emitted(m, events).len() ==> frame_sized(
                #[trigger] emitted(m, events)[i],
                limit,
            ),
    decreases events.len(),
{
    if events.len() > 0 {
        let rest = events.drop_last();
        assert forall|i: int| 0 <= i < rest.len() implies (#[trigger] rest[i] matches Event::Resize(
            size,
        ) ==> size <= limit) by {
            assert(rest[i] == events[i]);
        }
        lemma_run_sized(m, rest, limit);
        delivery::lemma_reorder_finite(m, rest);
        let s = run(m, rest);
        let e = events.last();
        assert(e == events[events.len() - 1]);
        if let Event::Poll(now) = e {
            lemma_poll_sized(s, now, limit);
        } else {
            lemma_event_sized(s, e, limit);
        }
        let frames = emitted(m, events);
        assert forall|i: int| 0 <= i < frames.len() implies frame_sized(
            #[trigger] frames[i],
            limit,
        ) by {
            if i < emitted(m, rest).len() {
                assert(frames[i] == emitted(m, rest)[i]);
            }
        }
    }
}

/// Over a whole run every data frame that a stream sends, the first time or again, has at least one byte
/// and at most as many as the longest segment that was set.
pub proof fn lemma_data_frames_are_sized(
    id: u16,
    cfg: Config,
    base: SeqNo,
    events: Seq<Event>,
    limit: nat,
)
    requires
        sized_within(cfg, events, limit),
    ensures
        ({
            let frames = emitted(arq::new_stream(id, cfg, base), events);
            forall|i: int|
                0 <= i < frames.len() && (#[trigger] frames[i]).kind == Kind::Data ==> 1
                    <= frames[i].payload.len() <= limit
        }),
{
    let m = arq::new_stream(id, cfg, base);
    lemma_run_sized(m, events, limit);
    let frames = emitted(m, events);
    assert forall|i: int| 0 <= i < frames.len() && (
    #[trigger] frames[i]).kind == Kind::Data implies 1 <= frames[i].payload.len() <= limit by {
        assert(frame_sized(frames[i], limit));
    }
}

} // verus!
