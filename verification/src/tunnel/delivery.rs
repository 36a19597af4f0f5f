//! What a stream guarantees over whole runs: the bytes that one side reads are a prefix of the bytes
//! that the other side wrote, whatever the carrier drops, repeats or reorders; the window bounds what
//! is in flight; a reset is final.
use vstd::prelude::*;

use crate::tunnel::arq;
use crate::tunnel::arq::{Config, SentModel, SeqNo, State, StreamModel};
use crate::tunnel::frame::{FrameModel, Kind};

verus! {

/// Something that happens to a stream.
pub enum Event {
    /// The application writes bytes.
    Write(Seq<u8>),
    /// The application asks for a half-close.
    Close,
    /// The application aborts the stream.
    Reset,
    /// The application reads what was delivered.
    Read,
    /// A frame arrives at a time.
    Arrive(FrameModel, u64),
    /// The next frame to send at a time is asked for.
    Poll(u64),
    /// The segment size is set.
    Resize(usize),
}

/// The state after an event.
pub open spec fn after(
    m: StreamModel,
    e: Event,
) -> StreamModel {
    match e {
        Event::Write(data) => StreamModel { outbox: m.outbox + data, ..m },
        Event::Close => StreamModel { closing: true, ..m },
        Event::Reset => StreamModel {
            rst_pending: true,
            ..arq::aborted(m)
        },
        Event::Read => StreamModel { delivered: Seq::empty(), ..m },
        Event::Arrive(f, now) => arq::frame_taken(m, f, now),
        Event::Poll(now) => arq::polled(m, now).0,
        Event::Resize(size) => StreamModel {
            cfg: Config {
                max_segment: if size > 0 {
                    size
                } else {
                    1
                },
                ..m.cfg
            },
            ..m
        },
    }
}

/// The state after a run.
pub open spec fn run(
    m: StreamModel,
    events: Seq<Event>,
) -> StreamModel
    decreases events.len(),
{
    if events.len() == 0 {
        m
    } else {
        after(run(m, events.drop_last()), events.last())
    }
}

/// All bytes written in a run.
pub open spec fn written(events: Seq<Event>) -> Seq<u8>
    decreases events.len(),
{
    if events.len() == 0 {
        Seq::empty()
    } else {
        match events.last() {
            Event::Write(data) => written(events.drop_last()) + data,
            _ => written(events.drop_last()),
        }
    }
}

/// All bytes read in a run.
pub open spec fn taken(m: StreamModel, events: Seq<Event>) -> Seq<u8>
    decreases events.len(),
{
    if events.len() == 0 {
        Seq::empty()
    } else {
        let rest = events.drop_last();
        match events.last() {
            Event::Read => taken(m, rest) + run(m, rest).delivered,
            _ => taken(m, rest),
        }
    }
}

/// All frames sent in a run.
pub open spec fn emitted(m: StreamModel, events: Seq<Event>) -> Seq<
    FrameModel,
>
    decreases events.len(),
{
    if events.len() == 0 {
        Seq::empty()
    } else {
        let rest = events.drop_last();
        match events.last() {
            Event::Poll(now) => match arq::polled(run(m, rest), now).1 {
                Some(f) => emitted(m, rest).push(f),
                None => emitted(m, rest),
            },
            _ => emitted(m, rest),
        }
    }
}

/// The segments that a run cut, in order of their first transmission; the FIN counts as an empty one.
pub open spec fn cut(m: StreamModel, events: Seq<Event>) -> Seq<Seq<u8>>
    decreases events.len(),
{
    if events.len() == 0 {
        Seq::empty()
    } else {
        let rest = events.drop_last();
        let s = run(m, rest);
        match events.last() {
            Event::Poll(now) => {
                let (next, frame) = arq::polled(s, now);
                if next.snd_nxt != s.snd_nxt {
                    cut(m, rest).push(frame->0.payload)
                } else {
                    cut(m, rest)
                }
            },
            _ => cut(m, rest),
        }
    }
}

/// The first `n` segments in a row.
pub open spec fn joined(segments: Seq<Seq<u8>>, n: nat) -> Seq<u8>
    decreases n,
{
    if n == 0 {
        Seq::empty()
    } else {
        joined(segments, (n - 1) as nat) + segments[n - 1]
    }
}

/// A frame agrees with segments that are numbered from `base`: data is the segment of its number, and
/// the FIN stands at an empty one.
pub open spec fn faithful(
    f: FrameModel,
    base: SeqNo,
    segments: Seq<Seq<u8>>,
) -> bool {
    match (f.kind, f.seq) {
        (Kind::Data, Some(q)) => {
            let d = arq::distance(base, q);
            d < segments.len() && f.payload == segments[d]
        },
        (Kind::Fin, Some(q)) => {
            let d = arq::distance(base, q);
            d < segments.len() && segments[d].len() == 0
        },
        _ => true,
    }
}

/// `a` is a prefix of `b`.
pub open spec fn prefix_of(a: Seq<u8>, b: Seq<u8>) -> bool {
    a.len() <= b.len() && a == b.take(a.len() as int)
}

pub(crate) proof fn lemma_circle(base: SeqNo, n: int)
    requires
        0 <= n < 0x1_0000_0000,
    ensures
        arq::distance(base, arq::step(base, n)) == n,
        arq::step(arq::step(base, n), 1)
            == arq::step(base, n + 1),
{
}

pub(crate) proof fn lemma_back(base: SeqNo, q: SeqNo)
    ensures
        0 <= arq::distance(base, q) < 0x1_0000_0000,
        arq::step(base, arq::distance(base, q)) == q,
{
}

pub(crate) proof fn lemma_joined_longer(a: Seq<Seq<u8>>, b: Seq<Seq<u8>>, n: nat)
    requires
        n <= a.len(),
        n <= b.len(),
        forall|i: int| 0 <= i < n ==> a[i] == b[i],
    ensures
        joined(a, n) == joined(b, n),
    decreases n,
{
    if n > 0 {
        lemma_joined_longer(a, b, (n - 1) as nat);
    }
}

pub(crate) proof fn lemma_joined_prefix(s: Seq<Seq<u8>>, n: nat, k: nat)
    requires
        n <= k,
    ensures
        prefix_of(joined(s, n), joined(s, k)),
    decreases k,
{
    if n < k {
        lemma_joined_prefix(s, n, (k - 1) as nat);
        let a = joined(s, n);
        let b = joined(s, (k - 1) as nat);
        assert((b + s[k - 1]).take(a.len() as int) =~= b.take(a.len() as int));
    } else {
        assert(joined(s, n) =~= joined(s, n).take(joined(s, n).len() as int));
    }
}

// ---- the receiving side ----

/// A receiver agrees with segments numbered from `base`, having given out `given` before what it holds.
pub(crate) open spec fn received(
    m: StreamModel,
    base: SeqNo,
    segments: Seq<Seq<u8>>,
    given: Seq<u8>,
) -> bool {
    let n = arq::distance(base, m.rcv_nxt);
    &&& m.reorder.dom().finite()
    &&& n <= segments.len()
    &&& given + m.delivered == joined(segments, n as nat)
    &&& forall|k: SeqNo| #[trigger]
        m.reorder.contains_key(k) ==> arq::distance(base, k) < segments.len()
            && m.reorder[k] == segments[arq::distance(base, k)]
    &&& m.remote_fin_seq matches Some(q) ==> arq::distance(base, q)
        < segments.len() && segments[arq::distance(base, q)].len() == 0
}

pub(crate) proof fn lemma_next_delivered(
    m: StreamModel,
    base: SeqNo,
    segments: Seq<Seq<u8>>,
    given: Seq<u8>,
    data: Seq<u8>,
)
    requires
        received(m, base, segments, given),
        segments.len() < 0x1_0000_0000,
        arq::distance(base, m.rcv_nxt) < segments.len(),
        data == segments[arq::distance(base, m.rcv_nxt)],
    ensures
        received(
            StreamModel {
                delivered: m.delivered + data,
                rcv_nxt: arq::step(m.rcv_nxt, 1),
                ..m
            },
            base,
            segments,
            given,
        ),
{
    let n = arq::distance(base, m.rcv_nxt);
    lemma_back(base, m.rcv_nxt);
    lemma_circle(base, n);
    lemma_circle(base, n + 1);
    assert(given + (m.delivered + data) =~= (given + m.delivered) + data);
    assert(joined(segments, (n + 1) as nat) == joined(segments, n as nat) + segments[n]);
}

pub(crate) proof fn lemma_drained(
    m: StreamModel,
    base: SeqNo,
    segments: Seq<Seq<u8>>,
    given: Seq<u8>,
)
    requires
        received(m, base, segments, given),
        segments.len() < 0x1_0000_0000,
    ensures
        received(arq::drained(m), base, segments, given),
    decreases m.reorder.dom().len(),
{
    if m.reorder.contains_key(m.rcv_nxt) {
        let data = m.reorder[m.rcv_nxt];
        lemma_next_delivered(m, base, segments, given, data);
        let next = StreamModel {
            delivered: m.delivered + m.reorder[m.rcv_nxt],
            reorder: m.reorder.remove(m.rcv_nxt),
            rcv_nxt: arq::step(m.rcv_nxt, 1),
            ..m
        };
        assert(received(next, base, segments, given));
        lemma_drained(next, base, segments, given);
    }
}

proof fn lemma_advanced(
    m: StreamModel,
    base: SeqNo,
    segments: Seq<Seq<u8>>,
    given: Seq<u8>,
)
    requires
        received(m, base, segments, given),
        segments.len() < 0x1_0000_0000,
    ensures
        received(arq::advanced(m), base, segments, given),
{
    lemma_drained(m, base, segments, given);
    let d = arq::drained(m);
    if d.remote_fin_seq == Some(d.rcv_nxt) && !d.remote_fin_recvd {
        let n = arq::distance(base, d.rcv_nxt);
        lemma_next_delivered(d, base, segments, given, segments[n]);
        assert(d.delivered + segments[n] =~= d.delivered);
    }
    assert(received(arq::fin_passed(d), base, segments, given));
}

pub(crate) proof fn lemma_receiver_step(
    m: StreamModel,
    base: SeqNo,
    segments: Seq<Seq<u8>>,
    given: Seq<u8>,
    e: Event,
)
    requires
        received(m, base, segments, given),
        segments.len() < 0x1_0000_0000,
        e matches Event::Arrive(f, _) ==> faithful(f, base, segments),
    ensures
        received(
            after(m, e),
            base,
            segments,
            if e is Read {
                given + m.delivered
            } else {
                given
            },
        ),
{
    match e {
        Event::Arrive(f, now) => {
            match (f.kind, f.seq) {
                (Kind::Data, Some(q)) => {
                    let a = StreamModel { ack_pending: true, ..m };
                    assert(received(a, base, segments, given));
                    if q == m.rcv_nxt {
                        lemma_next_delivered(a, base, segments, given, f.payload);
                        lemma_advanced(
                            StreamModel {
                                delivered: a.delivered + f.payload,
                                rcv_nxt: arq::step(a.rcv_nxt, 1),
                                ..a
                            },
                            base,
                            segments,
                            given,
                        );
                    }
                },
                (Kind::Fin, Some(q)) => {
                    lemma_advanced(
                        StreamModel {
                            ack_pending: true,
                            remote_fin_seq: if m.remote_fin_seq is None {
                                Some(q)
                            } else {
                                m.remote_fin_seq
                            },
                            ..m
                        },
                        base,
                        segments,
                        given,
                    );
                },
                _ => {},
            }
        },
        Event::Read => {
            assert(given + m.delivered + Seq::<u8>::empty() =~= given + m.delivered);
        },
        _ => {},
    }
}

pub(crate) proof fn lemma_receiver_run(
    id: u16,
    cfg: Config,
    base: SeqNo,
    events: Seq<Event>,
    segments: Seq<Seq<u8>>,
)
    requires
        segments.len() < 0x1_0000_0000,
        forall|i: int|
            0 <= i < events.len() ==> (#[trigger] events[i] matches Event::Arrive(f, _)
                ==> faithful(f, base, segments)),
    ensures
        ({
            let m = arq::new_stream(id, cfg, base);
            received(run(m, events), base, segments, taken(m, events))
        }),
    decreases events.len(),
{
    let m = arq::new_stream(id, cfg, base);
    if events.len() > 0 {
        let rest = events.drop_last();
        assert forall|i: int| 0 <= i < rest.len() implies (#[trigger] rest[i] matches Event::Arrive(
            f,
            _,
        ) ==> faithful(f, base, segments)) by {
            assert(rest[i] == events[i]);
        }
        lemma_receiver_run(id, cfg, base, rest, segments);
        assert(events.last() == events[events.len() - 1]);
        lemma_receiver_step(run(m, rest), base, segments, taken(m, rest), events.last());
    } else {
        assert(Seq::<u8>::empty() + m.delivered =~= Seq::empty());
    }
}

/// A stream delivers in order, once each, and without a gap: where every data frame that arrives
/// carries the segment of its number, the bytes that were read, with those that can be read, are the
/// segments up to the next one expected.
pub proof fn lemma_delivered_in_order(
    id: u16,
    cfg: Config,
    base: SeqNo,
    events: Seq<Event>,
    segments: Seq<Seq<u8>>,
)
    requires
        segments.len() < 0x1_0000_0000,
        forall|i: int|
            0 <= i < events.len() ==> (#[trigger] events[i] matches Event::Arrive(f, _)
                ==> faithful(f, base, segments)),
    ensures
        ({
            let m = arq::new_stream(id, cfg, base);
            let end = run(m, events);
            let n = arq::distance(base, end.rcv_nxt);
            n <= segments.len() && taken(m, events) + end.delivered == joined(segments, n as nat)
        }),
{
    lemma_receiver_run(id, cfg, base, events, segments);
}

// ---- the sending side ----

/// A segment in flight agrees with segments numbered from `base`.
pub(crate) open spec fn agrees(
    e: SentModel,
    base: SeqNo,
    segments: Seq<Seq<u8>>,
) -> bool {
    let d = arq::distance(base, e.seq);
    d < segments.len() && e.data == segments[d] && (e.is_fin ==> e.data.len() == 0)
}

pub(crate) open spec fn all_agree(
    s: Seq<SentModel>,
    base: SeqNo,
    segments: Seq<Seq<u8>>,
) -> bool {
    forall|i: int| 0 <= i < s.len() ==> agrees(#[trigger] s[i], base, segments)
}

/// A sender agrees with the segments that it cut from the bytes `w`.
#[verifier::opaque]
pub(crate) open spec fn sent_as(
    m: StreamModel,
    base: SeqNo,
    segments: Seq<Seq<u8>>,
    w: Seq<u8>,
) -> bool {
    let all = joined(segments, segments.len());
    &&& arq::in_order(m.inflight)
    &&& m.snd_nxt == arq::step(base, segments.len() as int)
    &&& all_agree(m.inflight, base, segments)
    &&& if m.state == State::Reset {
        prefix_of(all, w)
    } else {
        all + m.outbox == w
    }
}

proof fn lemma_all_agree_longer(
    s: Seq<SentModel>,
    base: SeqNo,
    segments: Seq<Seq<u8>>,
    x: Seq<u8>,
)
    requires
        all_agree(s, base, segments),
    ensures
        all_agree(s, base, segments.push(x)),
{
    assert forall|i: int| 0 <= i < s.len() implies agrees(
        #[trigger] s[i],
        base,
        segments.push(x),
    ) by {
        assert(agrees(s[i], base, segments));
        lemma_back(base, s[i].seq);
    }
}

pub(crate) proof fn lemma_advanced_keeps_sender(m: StreamModel)
    requires
        m.reorder.dom().finite(),
    ensures
        ({
            let d = arq::advanced(m);
            &&& d.inflight == m.inflight
            &&& d.snd_nxt == m.snd_nxt
            &&& d.snd_una == m.snd_una
            &&& d.outbox == m.outbox
            &&& d.cfg == m.cfg
            &&& d.reorder.dom().finite()
            &&& (d.state == State::Reset) == (m.state == State::Reset)
            &&& d.fin_seq == m.fin_seq
            &&& d.local_fin_acked == m.local_fin_acked
            &&& d.remote_fin_recvd == m.remote_fin_recvd || d.state == arq::settled(
                d,
            ).state
            &&& d.remote_fin_recvd == m.remote_fin_recvd ==> d.state == m.state
            &&& d.rto_ms == m.rto_ms
            &&& d.rst_pending == m.rst_pending
            &&& d.srtt == m.srtt
            &&& d.rttvar == m.rttvar
        }),
    decreases m.reorder.dom().len(),
{
    if m.reorder.contains_key(m.rcv_nxt) {
        let next = StreamModel {
            delivered: m.delivered + m.reorder[m.rcv_nxt],
            reorder: m.reorder.remove(m.rcv_nxt),
            rcv_nxt: arq::step(m.rcv_nxt, 1),
            ..m
        };
        lemma_advanced_keeps_sender(next);
        assert(arq::drained(m) == arq::drained(next));
    }
}

pub(crate) proof fn lemma_prefix_longer(a: Seq<u8>, b: Seq<u8>, data: Seq<u8>)
    requires
        prefix_of(a, b),
    ensures
        prefix_of(a, b + data),
{
    assert((b + data).take(a.len() as int) =~= b.take(a.len() as int));
}

pub(crate) proof fn lemma_prefix_of_sum(a: Seq<u8>, rest: Seq<u8>)
    ensures
        prefix_of(a, a + rest),
{
    assert((a + rest).take(a.len() as int) =~= a);
}

proof fn lemma_resent_agrees(
    m: StreamModel,
    base: SeqNo,
    segments: Seq<Seq<u8>>,
    w: Seq<u8>,
    k: nat,
    now: u64,
)
    requires
        sent_as(m, base, segments, w),
        k < m.inflight.len(),
    ensures
        ({
            let (next, f) = arq::resent(m, k, now);
            sent_as(next, base, segments, w) && faithful(f->0, base, segments)
        }),
{
    reveal(sent_as);
    let s = m.inflight;
    let t = arq::resent(m, k, now).0.inflight;
    assert(agrees(s[k as int], base, segments));
    assert forall|i: int| 0 <= i < t.len() implies agrees(#[trigger] t[i], base, segments) by {
        assert(agrees(s[i], base, segments));
    }
    assert(arq::in_order(t)) by {
        assert forall|i: int, j: int| 0 <= i < j < t.len() implies #[trigger] t[i].seq
            < #[trigger] t[j].seq by {
            assert(s[i].seq < s[j].seq);
        }
    }
}

proof fn lemma_launched_agrees(
    m: StreamModel,
    base: SeqNo,
    segments: Seq<Seq<u8>>,
    w: Seq<u8>,
    data: Seq<u8>,
    is_fin: bool,
    now: u64,
)
    requires
        arq::in_order(m.inflight),
        m.snd_nxt == arq::step(base, segments.len() as int),
        all_agree(m.inflight, base, segments),
        m.state != State::Reset,
        joined(segments, segments.len()) + data + m.outbox == w,
        segments.len() + 1 < 0x1_0000_0000,
        is_fin ==> data.len() == 0,
    ensures
        ({
            let (next, f) = arq::launched(m, data, is_fin, now);
            let longer = segments.push(data);
            &&& sent_as(next, base, longer, w)
            &&& faithful(f->0, base, longer)
            &&& next.snd_nxt != m.snd_nxt
            &&& f->0.payload == data
        }),
{
    reveal(sent_as);
    let n = segments.len();
    let longer = segments.push(data);
    let e = SentModel { seq: m.snd_nxt, data, sent_at: now, retx: 0, is_fin };
    lemma_circle(base, n as int);
    lemma_circle(base, n as int + 1);
    lemma_all_agree_longer(m.inflight, base, segments, data);
    arq::lemma_placed_in_order(m.inflight, e);
    arq::lemma_rank(m.inflight, e.seq);
    let t = arq::placed(m.inflight, e);
    let r = arq::rank(m.inflight, e.seq) as int;
    assert forall|i: int| 0 <= i < t.len() implies agrees(#[trigger] t[i], base, longer) by {
        if i == r {
            assert(t[i] == e);
        } else if arq::in_flight(m.inflight, e.seq) || i < r {
            assert(t[i] == m.inflight[i]);
            assert(agrees(m.inflight[i], base, longer));
        } else {
            assert(t[i] == m.inflight[i - 1]);
            assert(agrees(m.inflight[i - 1], base, longer));
        }
    }
    lemma_joined_longer(segments, longer, n);
    assert(joined(longer, (n + 1) as nat) == joined(longer, n) + data);
}

proof fn lemma_poll_agrees(
    m: StreamModel,
    base: SeqNo,
    segments: Seq<Seq<u8>>,
    w: Seq<u8>,
    now: u64,
)
    requires
        sent_as(m, base, segments, w),
        segments.len() + 1 < 0x1_0000_0000,
    ensures
        ({
            let (next, f) = arq::polled(m, now);
            let longer = if next.snd_nxt != m.snd_nxt {
                segments.push(f->0.payload)
            } else {
                segments
            };
            &&& sent_as(next, base, longer, w)
            &&& next.snd_nxt != m.snd_nxt ==> f is Some
            &&& f matches Some(frame) ==> faithful(frame, base, longer)
        }),
{
    reveal(sent_as);
    if !m.rst_pending && m.state != State::Reset && m.state != State::Closed {
        let i = arq::first_queued(m.fast_retx, m.inflight, 0);
        if i < m.fast_retx.len() {
            let q = StreamModel {
                fast_retx: m.fast_retx.skip(i as int + 1),
                ..m
            };
            lemma_first_queued_in_flight(m.fast_retx, m.inflight, 0);
            assert(sent_as(q, base, segments, w));
            lemma_resent_agrees(
                q,
                base,
                segments,
                w,
                arq::rank(m.inflight, m.fast_retx[i as int]),
                now,
            );
        } else {
            let e = StreamModel { fast_retx: Seq::empty(), ..m };
            let k = arq::first_due(e.inflight, e.rto_ms, now, 0);
            if k < e.inflight.len() {
                let b = StreamModel {
                    rto_ms: arq::backed_off(e.rto_ms, e.cfg.max_rto_ms),
                    ..e
                };
                assert(sent_as(b, base, segments, w));
                lemma_resent_agrees(b, base, segments, w, k, now);
            } else if e.nack_pending is None && !e.ack_pending && arq::has_room(e) {
                if e.outbox.len() > 0 {
                    let n = arq::segment_len(e);
                    let data = e.outbox.take(n);
                    assert(data + e.outbox.skip(n) =~= e.outbox);
                    assert(joined(segments, segments.len()) + data + e.outbox.skip(n) =~= joined(
                        segments,
                        segments.len(),
                    ) + e.outbox);
                    lemma_launched_agrees(
                        StreamModel { outbox: e.outbox.skip(n), ..e },
                        base,
                        segments,
                        w,
                        data,
                        false,
                        now,
                    );
                } else if e.closing && e.fin_seq is None {
                    assert(joined(segments, segments.len()) + Seq::<u8>::empty() + e.outbox
                        =~= joined(segments, segments.len()) + e.outbox);
                    lemma_launched_agrees(e, base, segments, w, Seq::empty(), true, now);
                }
            }
        }
    }
}

pub(crate) proof fn lemma_first_queued_in_flight(
    q: Seq<SeqNo>,
    inflight: Seq<SentModel>,
    i: nat,
)
    ensures
        ({
            let k = arq::first_queued(q, inflight, i);
            k < q.len() ==> arq::in_flight(inflight, q[k as int])
        }),
    decreases q.len() - i,
{
    if i < q.len() {
        lemma_first_queued_in_flight(q, inflight, i + 1);
    }
}

proof fn lemma_sender_event(
    m: StreamModel,
    base: SeqNo,
    segments: Seq<Seq<u8>>,
    w: Seq<u8>,
    e: Event,
)
    requires
        sent_as(m, base, segments, w),
        m.reorder.dom().finite(),
        !(e is Poll),
    ensures
        sent_as(
            after(m, e),
            base,
            segments,
            match e {
                Event::Write(data) => w + data,
                _ => w,
            },
        ),
{
    reveal(sent_as);
    let all = joined(segments, segments.len());
    match e {
        Event::Write(data) => {
            assert(all + (m.outbox + data) =~= all + m.outbox + data);
            if m.state == State::Reset {
                lemma_prefix_longer(all, w, data);
            }
        },
        Event::Reset => {
            lemma_prefix_of_sum(all, m.outbox);
        },
        Event::Arrive(f, now) => {
            match (f.kind, f.seq) {
                (Kind::Data, Some(q)) => {
                    lemma_advanced_keeps_sender(
                        StreamModel {
                            delivered: m.delivered + f.payload,
                            rcv_nxt: arq::step(m.rcv_nxt, 1),
                            ack_pending: true,
                            ..m
                        },
                    );
                },
                (Kind::Fin, Some(q)) => {
                    lemma_advanced_keeps_sender(
                        StreamModel {
                            ack_pending: true,
                            remote_fin_seq: if m.remote_fin_seq is None {
                                Some(q)
                            } else {
                                m.remote_fin_seq
                            },
                            ..m
                        },
                    );
                },
                (Kind::Ack, Some(ack)) => {
                    arq::lemma_unacked_in_order(m.inflight, ack);
                    let t = arq::unacked(m.inflight, ack);
                    assert forall|i: int| 0 <= i < t.len() implies agrees(
                        #[trigger] t[i],
                        base,
                        segments,
                    ) by {
                        assert(t.contains(t[i]));
                        let n = choose|n: int| 0 <= n < m.inflight.len() && m.inflight[n] == t[i];
                        assert(agrees(m.inflight[n], base, segments));
                    }
                },
                (Kind::Rst, _) => {
                    lemma_prefix_of_sum(all, m.outbox);
                },
                _ => {},
            }
        },
        _ => {},
    }
}

pub(crate) proof fn lemma_reorder_finite(m: StreamModel, events: Seq<Event>)
    requires
        m.reorder.dom().finite(),
    ensures
        run(m, events).reorder.dom().finite(),
    decreases events.len(),
{
    if events.len() > 0 {
        let rest = events.drop_last();
        lemma_reorder_finite(m, rest);
        let s = run(m, rest);
        if let Event::Arrive(f, now) = events.last() {
            match (f.kind, f.seq) {
                (Kind::Data, Some(q)) => {
                    lemma_advanced_keeps_sender(
                        StreamModel {
                            delivered: s.delivered + f.payload,
                            rcv_nxt: arq::step(s.rcv_nxt, 1),
                            ack_pending: true,
                            ..s
                        },
                    );
                },
                (Kind::Fin, Some(q)) => {
                    lemma_advanced_keeps_sender(
                        StreamModel {
                            ack_pending: true,
                            remote_fin_seq: if s.remote_fin_seq is None {
                                Some(q)
                            } else {
                                s.remote_fin_seq
                            },
                            ..s
                        },
                    );
                },
                _ => {},
            }
        }
    }
}

proof fn lemma_faithful_longer(
    f: FrameModel,
    base: SeqNo,
    segments: Seq<Seq<u8>>,
    x: Seq<u8>,
)
    requires
        faithful(f, base, segments),
    ensures
        faithful(f, base, segments.push(x)),
{
    if let Some(q) = f.seq {
        lemma_back(base, q);
    }
}

/// A sender cuts what was written into segments in order, and every frame that it sends, the first time
/// or again, carries the segment of its number: what is cut, with what waits, is what was written.
pub proof fn lemma_sent_in_order(id: u16, cfg: Config, base: SeqNo, events: Seq<Event>)
    requires
        cut(arq::new_stream(id, cfg, base), events).len() < 0xffff_ffff,
    ensures
        ({
            let m = arq::new_stream(id, cfg, base);
            let segments = cut(m, events);
            let end = run(m, events);
            let all = joined(segments, segments.len());
            &&& forall|i: int|
                0 <= i < emitted(m, events).len() ==> faithful(
                    #[trigger] emitted(m, events)[i],
                    base,
                    segments,
                )
            &&& prefix_of(all, written(events))
            &&& end.state != State::Reset ==> all + end.outbox == written(events)
        }),
{
    let m = arq::new_stream(id, cfg, base);
    reveal(sent_as);
    assert(joined(Seq::<Seq<u8>>::empty(), 0) + m.outbox =~= Seq::empty());
    lemma_sender_run(m, base, events);
    let segments = cut(m, events);
    lemma_prefix_of_sum(joined(segments, segments.len()), run(m, events).outbox);
}

proof fn lemma_sender_run_poll(
    m: StreamModel,
    base: SeqNo,
    events: Seq<Event>,
    now: u64,
)
    requires
        events.len() > 0,
        events.last() == Event::Poll(now),
        cut(m, events).len() < 0xffff_ffff,
        sent_as(
            run(m, events.drop_last()),
            base,
            cut(m, events.drop_last()),
            written(events.drop_last()),
        ),
        all_faithful(emitted(m, events.drop_last()), base, cut(m, events.drop_last())),
    ensures
        sent_as(run(m, events), base, cut(m, events), written(events)),
        all_faithful(emitted(m, events), base, cut(m, events)),
{
    let rest = events.drop_last();
    let s = run(m, rest);
    let segments = cut(m, rest);
    let longer = cut(m, events);
    let old_frames = emitted(m, rest);
    let frames = emitted(m, events);
    lemma_poll_agrees(s, base, segments, written(rest), now);
    assert forall|i: int| 0 <= i < frames.len() implies faithful(
        #[trigger] frames[i],
        base,
        longer,
    ) by {
        if i < old_frames.len() {
            assert(frames[i] == old_frames[i]);
            assert(faithful(old_frames[i], base, segments));
            if longer != segments {
                lemma_faithful_longer(old_frames[i], base, segments, longer.last());
            }
        }
    }
}

pub(crate) open spec fn all_faithful(
    frames: Seq<FrameModel>,
    base: SeqNo,
    segments: Seq<Seq<u8>>,
) -> bool {
    forall|i: int| 0 <= i < frames.len() ==> faithful(#[trigger] frames[i], base, segments)
}

proof fn lemma_sender_run_event(
    m: StreamModel,
    base: SeqNo,
    events: Seq<Event>,
)
    requires
        m.reorder.dom().finite(),
        events.len() > 0,
        !(events.last() is Poll),
        sent_as(
            run(m, events.drop_last()),
            base,
            cut(m, events.drop_last()),
            written(events.drop_last()),
        ),
        all_faithful(emitted(m, events.drop_last()), base, cut(m, events.drop_last())),
    ensures
        sent_as(run(m, events), base, cut(m, events), written(events)),
        all_faithful(emitted(m, events), base, cut(m, events)),
{
    let rest = events.drop_last();
    lemma_reorder_finite(m, rest);
    lemma_sender_event(run(m, rest), base, cut(m, rest), written(rest), events.last());
}

pub(crate) proof fn lemma_sender_run(m: StreamModel, base: SeqNo, events: Seq<Event>)
    requires
        m.reorder.dom().finite(),
        sent_as(m, base, Seq::empty(), Seq::empty()),
        cut(m, events).len() < 0xffff_ffff,
    ensures
        sent_as(run(m, events), base, cut(m, events), written(events)),
        all_faithful(emitted(m, events), base, cut(m, events)),
    decreases events.len(),
{
    if events.len() > 0 {
        lemma_cut_grows(m, events);
        lemma_sender_run(m, base, events.drop_last());
        match events.last() {
            Event::Poll(now) => {
                lemma_sender_run_poll(m, base, events, now);
            },
            _ => {
                lemma_sender_run_event(m, base, events);
            },
        }
    }
}

pub(crate) proof fn lemma_cut_grows(m: StreamModel, events: Seq<Event>)
    requires
        events.len() > 0,
    ensures
        cut(m, events.drop_last()).len() <= cut(m, events).len(),
{
}

/// The carrier may drop, repeat and reorder frames, and the sender may be told anything: what the
/// receiver has read, with what it can read, is a prefix of what the sender was given to write.
pub proof fn lemma_read_is_prefix_of_written(
    sender_id: u16,
    sender_cfg: Config,
    sending: Seq<Event>,
    receiver_id: u16,
    receiver_cfg: Config,
    receiving: Seq<Event>,
    base: SeqNo,
)
    requires
        cut(arq::new_stream(sender_id, sender_cfg, base), sending).len()
            < 0xffff_ffff,
        forall|i: int|
            0 <= i < receiving.len() ==> (#[trigger] receiving[i] matches Event::Arrive(f, _)
                ==> emitted(
                arq::new_stream(sender_id, sender_cfg, base),
                sending,
            ).contains(f)),
    ensures
        ({
            let m = arq::new_stream(receiver_id, receiver_cfg, base);
            prefix_of(taken(m, receiving) + run(m, receiving).delivered, written(sending))
        }),
{
    let sender = arq::new_stream(sender_id, sender_cfg, base);
    let segments = cut(sender, sending);
    let frames = emitted(sender, sending);
    lemma_sent_in_order(sender_id, sender_cfg, base, sending);
    assert forall|i: int| 0 <= i < receiving.len() implies (
    #[trigger] receiving[i] matches Event::Arrive(f, _) ==> faithful(f, base, segments)) by {
        if let Event::Arrive(f, _) = receiving[i] {
            let k = choose|k: int| 0 <= k < frames.len() && frames[k] == f;
            assert(faithful(frames[k], base, segments));
        }
    }
    lemma_delivered_in_order(receiver_id, receiver_cfg, base, receiving, segments);
    let m = arq::new_stream(receiver_id, receiver_cfg, base);
    let n = arq::distance(base, run(m, receiving).rcv_nxt) as nat;
    lemma_joined_prefix(segments, n, segments.len());
    let a = joined(segments, n);
    let b = joined(segments, segments.len());
    assert(written(sending).take(b.len() as int).take(a.len() as int) =~= written(sending).take(
        a.len() as int,
    ));
}

// ---- the window ----

/// What is in flight lies between the oldest segment that is not acknowledged and the next one to
/// send, and where anything is in flight that stretch is no longer than the window.
spec fn windowed(m: StreamModel) -> bool {
    let d = arq::distance(m.snd_una, m.snd_nxt);
    &&& arq::in_order(m.inflight)
    &&& m.inflight.len() > 0 ==> d <= m.cfg.send_window
    &&& forall|i: int|
        0 <= i < m.inflight.len() ==> arq::distance(
            m.snd_una,
            (#[trigger] m.inflight[i]).seq,
        ) < d
}

proof fn lemma_few_in_window(m: StreamModel)
    requires
        windowed(m),
    ensures
        m.inflight.len() <= m.cfg.send_window,
{
    let d = arq::distance(m.snd_una, m.snd_nxt);
    let places = m.inflight.map_values(
        |e: SentModel| arq::distance(m.snd_una, e.seq),
    );
    assert forall|i: int, j: int|
        0 <= i < places.len() && 0 <= j < places.len() && i != j implies places[i]
        != places[j] by {
        if i < j {
            assert(m.inflight[i].seq < m.inflight[j].seq);
        } else {
            assert(m.inflight[j].seq < m.inflight[i].seq);
        }
    }
    assert(places.no_duplicates());
    places.unique_seq_to_set();
    vstd::set_lib::lemma_int_range(0, d);
    assert forall|x: int| places.to_set().contains(x) implies vstd::set_lib::set_int_range(
        0,
        d,
    ).contains(x) by {
        let i = choose|i: int| 0 <= i < places.len() && places[i] == x;
        assert(arq::distance(m.snd_una, m.inflight[i].seq) < d);
        lemma_back(m.snd_una, m.inflight[i].seq);
    }
    vstd::set_lib::lemma_len_subset(places.to_set(), vstd::set_lib::set_int_range(0, d));
}

proof fn lemma_window_ack(m: StreamModel, ack: SeqNo, now: u64)
    requires
        windowed(m),
    ensures
        windowed(arq::ack_taken(m, ack, now)),
{
    let s = m.inflight;
    let t = arq::unacked(s, ack);
    let n = arq::ack_taken(m, ack, now);
    arq::lemma_unacked_in_order(s, ack);
    assert forall|i: int| 0 <= i < t.len() implies arq::distance(
        n.snd_una,
        (#[trigger] t[i]).seq,
    ) < arq::distance(n.snd_una, m.snd_nxt) && arq::distance(
        n.snd_una,
        m.snd_nxt,
    ) <= m.cfg.send_window by {
        assert(t.contains(t[i]));
        let k = choose|k: int| 0 <= k < s.len() && s[k] == t[i];
        assert(arq::distance(m.snd_una, s[k].seq) < arq::distance(
            m.snd_una,
            m.snd_nxt,
        ));
    }
    if t.len() > 0 {
        assert(arq::distance(n.snd_una, t[0].seq) < arq::distance(
            n.snd_una,
            m.snd_nxt,
        ));
    }
}

proof fn lemma_window_launch(
    m: StreamModel,
    data: Seq<u8>,
    is_fin: bool,
    now: u64,
)
    requires
        windowed(m),
        arq::has_room(m),
    ensures
        windowed(arq::launched(m, data, is_fin, now).0),
{
    let e = SentModel { seq: m.snd_nxt, data, sent_at: now, retx: 0, is_fin };
    let s = m.inflight;
    let t = arq::placed(s, e);
    let r = arq::rank(s, e.seq) as int;
    arq::lemma_rank(s, e.seq);
    arq::lemma_placed_in_order(s, e);
    let next = arq::step(m.snd_nxt, 1);
    assert(arq::distance(m.snd_una, next) == arq::distance(
        m.snd_una,
        m.snd_nxt,
    ) + 1);
    assert forall|i: int| 0 <= i < t.len() implies arq::distance(
        m.snd_una,
        (#[trigger] t[i]).seq,
    ) < arq::distance(m.snd_una, next) by {
        if i == r {
        } else if arq::in_flight(s, e.seq) || i < r {
            assert(t[i] == s[i]);
            assert(arq::distance(m.snd_una, s[i].seq)
                < arq::distance(m.snd_una, m.snd_nxt));
        } else {
            assert(t[i] == s[i - 1]);
            assert(arq::distance(m.snd_una, s[i - 1].seq)
                < arq::distance(m.snd_una, m.snd_nxt));
        }
    }
}

proof fn lemma_window_resend(m: StreamModel, k: nat, now: u64)
    requires
        windowed(m),
        k < m.inflight.len(),
    ensures
        windowed(arq::resent(m, k, now).0),
{
    let s = m.inflight;
    let t = arq::resent(m, k, now).0.inflight;
    assert forall|i: int| 0 <= i < t.len() implies (#[trigger] t[i]).seq == s[i].seq by {}
    assert forall|i: int, j: int| 0 <= i < j < t.len() implies #[trigger] t[i].seq
        < #[trigger] t[j].seq by {
        assert(s[i].seq < s[j].seq);
    }
}

proof fn lemma_window_poll(m: StreamModel, now: u64)
    requires
        windowed(m),
    ensures
        windowed(arq::polled(m, now).0),
{
    if !m.rst_pending && m.state != State::Reset && m.state != State::Closed {
        let i = arq::first_queued(m.fast_retx, m.inflight, 0);
        if i < m.fast_retx.len() {
            lemma_first_queued_in_flight(m.fast_retx, m.inflight, 0);
            lemma_window_resend(
                StreamModel {
                    fast_retx: m.fast_retx.skip(i as int + 1),
                    ..m
                },
                arq::rank(m.inflight, m.fast_retx[i as int]),
                now,
            );
        } else {
            let e = StreamModel { fast_retx: Seq::empty(), ..m };
            let k = arq::first_due(e.inflight, e.rto_ms, now, 0);
            if k < e.inflight.len() {
                lemma_window_resend(
                    StreamModel {
                        rto_ms: arq::backed_off(e.rto_ms, e.cfg.max_rto_ms),
                        ..e
                    },
                    k,
                    now,
                );
            } else if e.nack_pending is None && !e.ack_pending && arq::has_room(e) {
                if e.outbox.len() > 0 {
                    let n = arq::segment_len(e);
                    lemma_window_launch(
                        StreamModel { outbox: e.outbox.skip(n), ..e },
                        e.outbox.take(n),
                        false,
                        now,
                    );
                } else if e.closing && e.fin_seq is None {
                    lemma_window_launch(e, Seq::empty(), true, now);
                }
            }
        }
    }
}

proof fn lemma_window_event(m: StreamModel, e: Event)
    requires
        windowed(m),
        m.reorder.dom().finite(),
    ensures
        windowed(after(m, e)),
        after(m, e).cfg.send_window == m.cfg.send_window,
{
    match e {
        Event::Poll(now) => {
            lemma_window_poll(m, now);
        },
        Event::Arrive(f, now) => {
            match (f.kind, f.seq) {
                (Kind::Data, Some(q)) => {
                    lemma_advanced_keeps_sender(
                        StreamModel {
                            delivered: m.delivered + f.payload,
                            rcv_nxt: arq::step(m.rcv_nxt, 1),
                            ack_pending: true,
                            ..m
                        },
                    );
                },
                (Kind::Fin, Some(q)) => {
                    lemma_advanced_keeps_sender(
                        StreamModel {
                            ack_pending: true,
                            remote_fin_seq: if m.remote_fin_seq is None {
                                Some(q)
                            } else {
                                m.remote_fin_seq
                            },
                            ..m
                        },
                    );
                },
                (Kind::Ack, Some(ack)) => {
                    lemma_window_ack(m, ack, now);
                },
                _ => {},
            }
        },
        _ => {},
    }
}

proof fn lemma_window_run(m: StreamModel, events: Seq<Event>)
    requires
        windowed(m),
        m.reorder.dom().finite(),
    ensures
        windowed(run(m, events)),
        run(m, events).cfg.send_window == m.cfg.send_window,
    decreases events.len(),
{
    if events.len() > 0 {
        lemma_window_run(m, events.drop_last());
        lemma_reorder_finite(m, events.drop_last());
        lemma_window_event(run(m, events.drop_last()), events.last());
    }
}

/// Never are more segments in flight than the send window allows, whatever the peer acknowledges.
pub proof fn lemma_window_bounds_in_flight(
    id: u16,
    cfg: Config,
    base: SeqNo,
    events: Seq<Event>,
)
    ensures
        run(arq::new_stream(id, cfg, base), events).inflight.len()
            <= cfg.send_window,
{
    let m = arq::new_stream(id, cfg, base);
    lemma_window_run(m, events);
    lemma_few_in_window(run(m, events));
}

// ---- the lifecycle ----

/// A reset stream stays reset, and sends nothing but the RST that may be pending.
pub proof fn lemma_reset_is_final(m: StreamModel, e: Event)
    requires
        m.state == State::Reset,
        m.reorder.dom().finite(),
    ensures
        after(m, e).state == State::Reset,
        e matches Event::Poll(now) ==> (arq::polled(m, now).1 matches Some(f)
            ==> f.kind == Kind::Rst && m.rst_pending && !after(m, e).rst_pending),
{
    lemma_lifecycle_event(m, e);
}

/// The peer of a reset stream is reset by the frame that the stream sends next, and the stream sends
/// nothing after it.
pub proof fn lemma_reset_reaches_peer(
    m: StreamModel,
    peer: StreamModel,
    now: u64,
    later: u64,
)
    ensures
        ({
            let r = after(m, Event::Reset);
            let (next, f) = arq::polled(r, now);
            &&& f is Some
            &&& arq::frame_taken(peer, f->0, now).state == State::Reset
            &&& arq::polled(next, later).1 is None
        }),
{
}

/// A closed stream sends nothing but acknowledgements.
pub proof fn lemma_closed_only_acknowledges(m: StreamModel, now: u64)
    requires
        m.state == State::Closed,
        !m.rst_pending,
    ensures
        arq::polled(m, now).1 matches Some(f) ==> f.kind == Kind::Ack && f.seq
            == Some(m.rcv_nxt),
{
}

proof fn lemma_lifecycle_event(m: StreamModel, e: Event)
    requires
        m.reorder.dom().finite(),
    ensures
        m.state == State::Reset ==> after(m, e).state == State::Reset,
        m.state == arq::settled(m).state ==> after(m, e).state
            == arq::settled(after(m, e)).state,
{
    if let Event::Arrive(f, now) = e {
        match (f.kind, f.seq) {
            (Kind::Data, Some(q)) => {
                lemma_advanced_keeps_sender(
                    StreamModel {
                        delivered: m.delivered + f.payload,
                        rcv_nxt: arq::step(m.rcv_nxt, 1),
                        ack_pending: true,
                        ..m
                    },
                );
            },
            (Kind::Fin, Some(q)) => {
                lemma_advanced_keeps_sender(
                    StreamModel {
                        ack_pending: true,
                        remote_fin_seq: if m.remote_fin_seq is None {
                            Some(q)
                        } else {
                            m.remote_fin_seq
                        },
                        ..m
                    },
                );
            },
            _ => {},
        }
    }
}

/// The lifecycle state always says which FINs were sent, acknowledged and reached: a stream is closed
/// just where its own FIN was acknowledged and the peer's was reached in order.
pub proof fn lemma_state_tells_fins(id: u16, cfg: Config, base: SeqNo, events: Seq<Event>)
    ensures
        ({
            let end = run(arq::new_stream(id, cfg, base), events);
            &&& end.state == arq::settled(end).state
            &&& end.state == State::Closed ==> end.fin_seq is Some && end.local_fin_acked
                && end.remote_fin_recvd
        }),
    decreases events.len(),
{
    let m = arq::new_stream(id, cfg, base);
    if events.len() > 0 {
        lemma_state_tells_fins(id, cfg, base, events.drop_last());
        lemma_reorder_finite(m, events.drop_last());
        lemma_lifecycle_event(run(m, events.drop_last()), events.last());
    }
}

// ---- the timeout ----

/// A timeout within its limits stays within them.
pub proof fn lemma_timeout_stays_within_limits(m: StreamModel, e: Event)
    requires
        arq::stream_ok(m),
        m.cfg.min_rto_ms <= m.rto_ms <= m.cfg.max_rto_ms,
    ensures
        m.cfg.min_rto_ms <= after(m, e).rto_ms <= m.cfg.max_rto_ms,
{
    if let Event::Arrive(f, now) = e {
        match (f.kind, f.seq) {
            (Kind::Data, Some(q)) => {
                lemma_advanced_keeps_sender(
                    StreamModel {
                        delivered: m.delivered + f.payload,
                        rcv_nxt: arq::step(m.rcv_nxt, 1),
                        ack_pending: true,
                        ..m
                    },
                );
            },
            (Kind::Fin, Some(q)) => {
                lemma_advanced_keeps_sender(
                    StreamModel {
                        ack_pending: true,
                        remote_fin_seq: if m.remote_fin_seq is None {
                            Some(q)
                        } else {
                            m.remote_fin_seq
                        },
                        ..m
                    },
                );
            },
            _ => {},
        }
    }
}

/// A segment that the peer reports missing is sent again at once, as it was first sent, and the report
/// does not lengthen the timeout.
pub proof fn lemma_nack_resends_without_backoff(
    m: StreamModel,
    seq: SeqNo,
    now: u64,
)
    requires
        arq::in_flight(m.inflight, seq),
        m.fast_retx.len() == 0,
        !m.rst_pending,
        m.state != State::Reset,
        m.state != State::Closed,
    ensures
        ({
            let (next, f) = arq::polled(arq::nack_taken(m, seq), now);
            let e = m.inflight[arq::rank(m.inflight, seq) as int];
            &&& f == Some(arq::segment_frame(m.stream_id, e))
            &&& f->0.seq == Some(seq)
            &&& next.rto_ms == m.rto_ms
        }),
{
    let n = arq::nack_taken(m, seq);
    assert(n.fast_retx[0] == seq);
    assert(arq::first_queued(n.fast_retx, n.inflight, 0) == 0);
}

/// An acknowledgement takes out of flight the segments before it and no others.
pub proof fn lemma_ack_clears_what_is_before_it(
    m: StreamModel,
    ack: SeqNo,
    now: u64,
)
    requires
        arq::in_order(m.inflight),
    ensures
        forall|e: SentModel| #[trigger]
            arq::ack_taken(m, ack, now).inflight.contains(e)
                <==> m.inflight.contains(e) && !arq::before(e.seq, ack),
{
    arq::lemma_unacked_in_order(m.inflight, ack);
}

} // verus!
