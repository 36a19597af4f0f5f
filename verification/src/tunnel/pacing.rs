//! When a stream sends what: a segment again once its timeout has passed, an acknowledgement for
//! everything that arrives, new segments while the window has room, and the FIN after all of them.
use vstd::prelude::*;

use crate::tunnel::arq;
use crate::tunnel::arq::{SentModel, SeqNo, State, StreamModel};
use crate::tunnel::frame::{FrameModel, Kind};

verus! {

/// The stream is neither closed nor reset, and no reset waits to be sent.
pub open spec fn running(m: StreamModel) -> bool {
    &&& !m.rst_pending
    &&& m.state != State::Reset
    &&& m.state != State::Closed
}

/// A frame of a stream.
pub open spec fn frame_with(id: u16, kind: Kind, seq: Option<SeqNo>, payload: Seq<u8>) -> FrameModel {
    FrameModel {
        kind,
        stream_id: Some(id),
        seq,
        fragment: None,
        comp_algo: None,
        payload,
    }
}

/// No segment in flight is overdue or was reported missing.
pub open spec fn nothing_overdue(m: StreamModel, now: u64) -> bool {
    &&& forall|i: int| 0 <= i < m.inflight.len() ==> now < (#[trigger] m.inflight[i]).sent_at + m.rto_ms
    &&& m.fast_retx.len() == 0
}

proof fn lemma_nothing_due(s: Seq<SentModel>, rto_ms: u64, now: u64, i: nat)
    requires
        i <= s.len(),
        forall|k: int| 0 <= k < s.len() ==> now < (#[trigger] s[k]).sent_at + rto_ms,
    ensures
        arq::first_due(s, rto_ms, now, i) == s.len(),
    decreases s.len() - i,
{
    if i < s.len() {
        assert(now < s[i as int].sent_at + rto_ms);
        lemma_nothing_due(s, rto_ms, now, i + 1);
    }
}

proof fn lemma_due_found(s: Seq<SentModel>, rto_ms: u64, now: u64, i: nat, k: int)
    requires
        i <= k < s.len(),
        now >= s[k].sent_at + rto_ms,
    ensures
        ({
            let r = arq::first_due(s, rto_ms, now, i);
            &&& i <= r <= k
            &&& now >= s[r as int].sent_at + rto_ms
            &&& forall|j: int| i <= j < r ==> now < (#[trigger] s[j]).sent_at + rto_ms
        }),
    decreases s.len() - i,
{
    if now < s[i as int].sent_at + rto_ms {
        lemma_due_found(s, rto_ms, now, i + 1, k);
    }
}

/// A segment that was not acknowledged for a whole timeout is sent again, the first such one by number,
/// as it was first sent; it is counted as sent again at this time, and the timeout doubles up to its
/// limit. Nothing else changes.
pub proof fn lemma_timeout_sends_again_and_doubles(m: StreamModel, now: u64, k: int)
    requires
        running(m),
        m.fast_retx.len() == 0,
        0 <= k < m.inflight.len(),
        now >= m.inflight[k].sent_at + m.rto_ms,
    ensures
        exists|i: int|
            {
                let (n, f) = arq::polled(m, now);
                let e = m.inflight[i];
                &&& 0 <= i <= k
                &&& now >= (#[trigger] m.inflight[i]).sent_at + m.rto_ms
                &&& forall|j: int| 0 <= j < i ==> now < (#[trigger] m.inflight[j]).sent_at
                    + m.rto_ms
                &&& f == Some(
                    frame_with(
                        m.stream_id,
                        if e.is_fin {
                            Kind::Fin
                        } else {
                            Kind::Data
                        },
                        Some(e.seq),
                        e.data,
                    ),
                )
                &&& n.rto_ms == if 2 * m.rto_ms <= m.cfg.max_rto_ms {
                    2 * m.rto_ms
                } else {
                    m.cfg.max_rto_ms as int
                }
                &&& n.inflight.len() == m.inflight.len()
                &&& n.inflight[i].sent_at == now
                &&& n.inflight[i].seq == e.seq
                &&& n.inflight[i].data == e.data
                &&& n.inflight[i].is_fin == e.is_fin
                &&& n.inflight[i].retx > 0
                &&& forall|j: int|
                    0 <= j < m.inflight.len() && j != i ==> #[trigger] n.inflight[j]
                        == m.inflight[j]
                &&& n == (StreamModel {
                    inflight: n.inflight,
                    rto_ms: n.rto_ms,
                    ..m
                })
            },
{
    lemma_due_found(m.inflight, m.rto_ms, now, 0, k);
    let i = arq::first_due(m.inflight, m.rto_ms, now, 0) as int;
    let (n, f) = arq::polled(m, now);
    assert(m.fast_retx =~= Seq::empty());
    assert(now >= m.inflight[i].sent_at + m.rto_ms);
}

/// While nothing is to be sent again or acknowledged, what was written is sent: as many bytes as a
/// segment holds, or all of them, in the segment after the last one, as long as fewer segments than the
/// window allows are not acknowledged. What is left waits.
pub proof fn lemma_written_bytes_are_sent(m: StreamModel, now: u64)
    requires
        arq::stream_ok(m),
        running(m),
        nothing_overdue(m, now),
        m.nack_pending is None,
        !m.ack_pending,
        m.outbox.len() > 0,
        arq::distance(m.snd_una, m.snd_nxt) < m.cfg.send_window,
    ensures
        ({
            let (n, f) = arq::polled(m, now);
            let len = if m.outbox.len() < m.cfg.max_segment {
                m.outbox.len() as int
            } else {
                m.cfg.max_segment as int
            };
            &&& f == Some(
                frame_with(m.stream_id, Kind::Data, Some(m.snd_nxt), m.outbox.take(len)),
            )
            &&& n.outbox == m.outbox.skip(len)
            &&& n.snd_nxt == if m.snd_nxt == 0xffff_ffff {
                0
            } else {
                m.snd_nxt + 1
            }
            &&& n.inflight.contains(
                SentModel {
                    seq: m.snd_nxt,
                    data: m.outbox.take(len),
                    sent_at: now,
                    retx: 0,
                    is_fin: false,
                },
            )
            &&& n.rto_ms == m.rto_ms
        }),
{
    lemma_nothing_due(m.inflight, m.rto_ms, now, 0);
    let (n, f) = arq::polled(m, now);
    let len = arq::segment_len(m);
    let e = SentModel {
        seq: m.snd_nxt,
        data: m.outbox.take(len),
        sent_at: now,
        retx: 0,
        is_fin: false,
    };
    assert(m.fast_retx =~= Seq::empty());
    arq::lemma_rank(m.inflight, m.snd_nxt);
    let r = arq::rank(m.inflight, m.snd_nxt) as int;
    assert(n.inflight == arq::placed(m.inflight, e));
    assert(n.inflight[r] == e);
}

/// A stream that was closed sends its FIN once, after everything that was written, under the number
/// after the last segment.
pub proof fn lemma_fin_follows_the_last_byte(m: StreamModel, now: u64)
    requires
        arq::stream_ok(m),
        running(m),
        nothing_overdue(m, now),
        m.nack_pending is None,
        !m.ack_pending,
        m.closing,
    ensures
        ({
            let (n, f) = arq::polled(m, now);
            let may = m.outbox.len() == 0 && m.fin_seq is None && arq::distance(
                m.snd_una,
                m.snd_nxt,
            ) < m.cfg.send_window;
            &&& may ==> f == Some(
                frame_with(m.stream_id, Kind::Fin, Some(m.snd_nxt), Seq::empty()),
            ) && n.fin_seq == Some(m.snd_nxt)
            &&& !may ==> n.fin_seq == m.fin_seq && (f matches Some(g) ==> g.kind == Kind::Data)
        }),
{
    lemma_nothing_due(m.inflight, m.rto_ms, now, 0);
    assert(m.fast_retx =~= Seq::empty());
}

/// Everything that arrives is acknowledged: after a data segment, a FIN or an idle poll, with nothing in
/// flight, the stream sends an acknowledgement of what it expects next, and before it at most the report
/// of the first missing segment.
pub proof fn lemma_arrival_is_acknowledged(
    m: StreamModel,
    f: FrameModel,
    now: u64,
    t: u64,
    u: u64,
)
    requires
        arq::stream_ok(m),
        f.kind == Kind::Data && f.seq is Some || f.kind == Kind::Fin && f.seq is Some || f.kind
            == Kind::KeepAlive,
        running(arq::frame_taken(m, f, now)),
        m.inflight.len() == 0,
        m.fast_retx.len() == 0,
    ensures
        ({
            let n = arq::frame_taken(m, f, now);
            let (p, first) = arq::polled(n, t);
            let ack = frame_with(n.stream_id, Kind::Ack, Some(n.rcv_nxt), Seq::empty());
            let nack = frame_with(n.stream_id, Kind::Nack, n.nack_pending, Seq::empty());
            &&& n.nack_pending is None ==> first == Some(ack)
            &&& n.nack_pending is Some ==> first == Some(nack) && arq::polled(p, u).1 == Some(ack)
        }),
{
    let n = arq::frame_taken(m, f, now);
    lemma_taken_keeps(m, f, now);
    assert(n.fast_retx =~= Seq::empty());
    assert(n.inflight =~= Seq::empty());
    assert(arq::first_due(n.inflight, n.rto_ms, t, 0) == 0);
    assert(arq::first_due(n.inflight, n.rto_ms, u, 0) == 0);
}

proof fn lemma_taken_keeps(m: StreamModel, f: FrameModel, now: u64)
    requires
        arq::stream_ok(m),
        f.kind == Kind::Data && f.seq is Some || f.kind == Kind::Fin && f.seq is Some || f.kind
            == Kind::KeepAlive,
    ensures
        ({
            let n = arq::frame_taken(m, f, now);
            &&& n.inflight == m.inflight
            &&& n.fast_retx == m.fast_retx
            &&& n.ack_pending
            &&& n.stream_id == m.stream_id
        }),
{
    if let Some(seq) = f.seq {
        let a = StreamModel { ack_pending: true, ..m };
        lemma_drained_keeps(
            StreamModel {
                delivered: m.delivered + f.payload,
                rcv_nxt: arq::step(m.rcv_nxt, 1),
                ..a
            },
        );
        lemma_drained_keeps(
            StreamModel {
                ack_pending: true,
                remote_fin_seq: if m.remote_fin_seq is None {
                    Some(seq)
                } else {
                    m.remote_fin_seq
                },
                ..m
            },
        );
    }
}

proof fn lemma_drained_keeps(m: StreamModel)
    requires
        m.reorder.dom().finite(),
    ensures
        arq::drained(m).inflight == m.inflight,
        arq::drained(m).fast_retx == m.fast_retx,
        arq::drained(m).ack_pending == m.ack_pending,
        arq::drained(m).stream_id == m.stream_id,
    decreases m.reorder.dom().len(),
{
    if m.reorder.contains_key(m.rcv_nxt) {
        let next = StreamModel {
            delivered: m.delivered + m.reorder[m.rcv_nxt],
            reorder: m.reorder.remove(m.rcv_nxt),
            rcv_nxt: arq::step(m.rcv_nxt, 1),
            ..m
        };
        lemma_drained_keeps(next);
        assert(arq::drained(m) == arq::drained(next));
    }
}

/// A segment that arrives ahead of its turn within the receive window is kept, and the report to be sent
/// names the first one that is missing.
pub proof fn lemma_gap_is_reported(m: StreamModel, seq: SeqNo, payload: Seq<u8>, now: u64)
    requires
        m.cfg.recv_window <= 0x7fff_ffff,
        0 < arq::distance(m.rcv_nxt, seq) < m.cfg.recv_window,
    ensures
        ({
            let f = frame_with(m.stream_id, Kind::Data, Some(seq), payload);
            let n = arq::frame_taken(m, f, now);
            &&& n.nack_pending == Some(m.rcv_nxt)
            &&& n.rcv_nxt == m.rcv_nxt
            &&& n.delivered == m.delivered
            &&& n.reorder.contains_key(seq)
            &&& !m.reorder.contains_key(seq) ==> n.reorder[seq] == payload
        }),
{
}

/// A round trip is never measured by a segment that was sent more than once, nor by the FIN: where an
/// acknowledgement covers no other, the estimate and the timeout stay as they are.
pub proof fn lemma_repeated_segment_measures_nothing(m: StreamModel, ack: SeqNo, now: u64)
    requires
        forall|i: int|
            0 <= i < m.inflight.len() && arq::before((#[trigger] m.inflight[i]).seq, ack)
                ==> m.inflight[i].retx > 0 || m.inflight[i].is_fin,
    ensures
        ({
            let f = frame_with(m.stream_id, Kind::Ack, Some(ack), Seq::empty());
            let n = arq::frame_taken(m, f, now);
            &&& n.srtt == m.srtt
            &&& n.rttvar == m.rttvar
            &&& n.rto_ms == m.rto_ms
        }),
{
    lemma_no_round_trip(m.inflight, ack, now);
}

proof fn lemma_no_round_trip(s: Seq<SentModel>, ack: SeqNo, now: u64)
    requires
        forall|i: int|
            0 <= i < s.len() && arq::before((#[trigger] s[i]).seq, ack) ==> s[i].retx > 0
                || s[i].is_fin,
    ensures
        arq::round_trip(s, ack, now) is None,
    decreases s.len(),
{
    if s.len() > 0 {
        let d = s.drop_last();
        assert forall|i: int|
            0 <= i < d.len() && arq::before((#[trigger] d[i]).seq, ack) implies d[i].retx > 0
            || d[i].is_fin by {
            assert(s[i] == d[i]);
        }
        lemma_no_round_trip(d, ack, now);
        assert(s[s.len() - 1] == s.last());
    }
}

/// A number is before those up to half a circle ahead of it, and before no others: not before itself,
/// nor before those that are behind it.
pub proof fn lemma_before_is_half_a_circle(a: SeqNo, d: int)
    requires
        0 <= d < 0x1_0000_0000,
    ensures
        arq::before(a, ((a + d) % 0x1_0000_0000) as u32) <==> 0 < d <= 0x8000_0000,
{
}

/// An acknowledgement moves the window: what it covers no longer counts against the window, and one
/// that comes late moves nothing back. It tells that the FIN arrived just where it covers the FIN.
/// Nothing that waits, was delivered or is expected changes.
pub proof fn lemma_acknowledgement_moves_the_window(m: StreamModel, ack: SeqNo, now: u64)
    ensures
        ({
            let n = arq::frame_taken(
                m,
                frame_with(m.stream_id, Kind::Ack, Some(ack), Seq::empty()),
                now,
            );
            &&& arq::before(m.snd_una, ack) ==> n.snd_una == ack
            &&& !arq::before(m.snd_una, ack) ==> n.snd_una == m.snd_una
            &&& n.local_fin_acked <==> m.local_fin_acked || (m.fin_seq matches Some(fin)
                && arq::before(fin, ack))
            &&& n.snd_nxt == m.snd_nxt
            &&& n.outbox == m.outbox
            &&& n.fast_retx == m.fast_retx
            &&& n.closing == m.closing
            &&& n.fin_seq == m.fin_seq
            &&& n.rcv_nxt == m.rcv_nxt
            &&& n.reorder == m.reorder
            &&& n.delivered == m.delivered
            &&& n.remote_fin_recvd == m.remote_fin_recvd
            &&& n.ack_pending == m.ack_pending
            &&& n.nack_pending == m.nack_pending
            &&& n.cfg == m.cfg
        }),
{
}

/// The last segment with data that an acknowledgement covers and that was sent only once measures the
/// round trip, from when it was sent until now; the first measurement is the estimate.
pub proof fn lemma_round_trip_is_measured(m: StreamModel, ack: SeqNo, now: u64, i: int)
    requires
        0 <= i < m.inflight.len(),
        arq::before(m.inflight[i].seq, ack),
        m.inflight[i].retx == 0,
        !m.inflight[i].is_fin,
        forall|j: int|
            i < j < m.inflight.len() && arq::before((#[trigger] m.inflight[j]).seq, ack)
                ==> m.inflight[j].retx > 0 || m.inflight[j].is_fin,
    ensures
        arq::round_trip(m.inflight, ack, now) == Some(
            if now >= m.inflight[i].sent_at {
                (now - m.inflight[i].sent_at) as u64
            } else {
                0
            },
        ),
        ({
            let n = arq::frame_taken(
                m,
                frame_with(m.stream_id, Kind::Ack, Some(ack), Seq::empty()),
                now,
            );
            &&& n.srtt is Some
            &&& m.srtt is None && now >= m.inflight[i].sent_at ==> n.srtt == Some(
                crate::tunnel::double::of_whole((now - m.inflight[i].sent_at) as nat),
            )
        }),
{
    lemma_last_measures(m.inflight, ack, now, i);
}

proof fn lemma_last_measures(s: Seq<SentModel>, ack: SeqNo, now: u64, i: int)
    requires
        0 <= i < s.len(),
        arq::before(s[i].seq, ack),
        s[i].retx == 0,
        !s[i].is_fin,
        forall|j: int|
            i < j < s.len() && arq::before((#[trigger] s[j]).seq, ack) ==> s[j].retx > 0
                || s[j].is_fin,
    ensures
        arq::round_trip(s, ack, now) == Some(
            if now >= s[i].sent_at {
                (now - s[i].sent_at) as u64
            } else {
                0
            },
        ),
    decreases s.len(),
{
    if i < s.len() - 1 {
        let d = s.drop_last();
        assert forall|j: int|
            i < j < d.len() && arq::before((#[trigger] d[j]).seq, ack) implies d[j].retx > 0
            || d[j].is_fin by {
            assert(s[j] == d[j]);
        }
        assert(d[i] == s[i]);
        lemma_last_measures(d, ack, now, i);
        assert(s[s.len() - 1] == s.last());
    }
}

/// A reset from the peer drops what waits to be sent or put in order, and nothing that was delivered:
/// that can still be read. It is not answered.
pub proof fn lemma_reset_leaves_what_was_delivered(m: StreamModel, f: FrameModel, now: u64)
    requires
        f.kind == Kind::Rst,
    ensures
        ({
            let n = arq::frame_taken(m, f, now);
            &&& n.state == State::Reset
            &&& n.delivered == m.delivered
            &&& n.inflight.len() == 0
            &&& n.outbox.len() == 0
            &&& n.reorder.dom() =~= Set::empty()
            &&& !m.rst_pending ==> arq::polled(n, now).1 is None
        }),
{
}

/// The FIN is passed in its turn: where it is the next thing expected, the peer has finished, and the
/// FIN is acknowledged. Where one segment is missing before it, it is passed once that one arrives, and
/// not before.
pub proof fn lemma_fin_is_passed_in_its_turn(
    m: StreamModel,
    fin: FrameModel,
    segment: FrameModel,
    now: u64,
)
    requires
        m.remote_fin_seq is None,
        !m.remote_fin_recvd,
        m.state == State::Open || m.state == State::FinSent,
        m.reorder.dom() =~= Set::empty(),
        0 < m.cfg.recv_window <= 0x7fff_ffff,
        fin.kind == Kind::Fin,
        segment.kind == Kind::Data,
        segment.seq == Some(m.rcv_nxt),
    ensures
        fin.seq == Some(m.rcv_nxt) ==> {
            let n = arq::frame_taken(m, fin, now);
            &&& n.remote_fin_recvd
            &&& n.ack_pending
            &&& n.rcv_nxt == (m.rcv_nxt + 1) % 0x1_0000_0000
            &&& n.delivered == m.delivered
            &&& n.nack_pending is None
            &&& n.state == State::FinRcvd || n.state == State::Closed
        },
        fin.seq == Some(((m.rcv_nxt + 1) % 0x1_0000_0000) as u32) ==> {
            let early = arq::frame_taken(m, fin, now);
            let n = arq::frame_taken(early, segment, now);
            &&& !early.remote_fin_recvd
            &&& early.rcv_nxt == m.rcv_nxt
            &&& early.delivered == m.delivered
            &&& early.state == m.state
            &&& n.remote_fin_recvd
            &&& n.delivered == m.delivered + segment.payload
            &&& n.rcv_nxt == (m.rcv_nxt + 2) % 0x1_0000_0000
            &&& n.state == State::FinRcvd || n.state == State::Closed
        },
{
}

/// The next deadline is when the stream has something to send again: before it no segment is overdue,
/// and from it on a poll sends a segment again. A deadline past the largest time does not come.
pub proof fn lemma_deadline_is_when_a_segment_is_due(m: StreamModel, t: u64, now: u64)
    requires
        running(m),
        m.fast_retx.len() == 0,
        arq::earliest_deadline(m.inflight, m.rto_ms, t),
        t < u64::MAX,
    ensures
        now < t ==> nothing_overdue(m, now),
        now >= t ==> (arq::polled(m, now).1 matches Some(f) && (f.kind == Kind::Data || f.kind
            == Kind::Fin)),
{
    let i = choose|i: int|
        0 <= i < m.inflight.len() && #[trigger] arq::deadline(m.inflight[i], m.rto_ms) == t;
    if now >= t {
        lemma_timeout_sends_again_and_doubles(m, now, i);
    } else {
        assert forall|k: int| 0 <= k < m.inflight.len() implies now < (
        #[trigger] m.inflight[k]).sent_at + m.rto_ms by {
            assert(t <= arq::deadline(m.inflight[k], m.rto_ms));
        }
    }
}

/// The segment that is expected next is delivered at once, behind what was delivered before; with
/// nothing kept for later and no FIN known, the one after it is expected and nothing is reported
/// missing. One that came before, or that lies beyond the receive window, is acknowledged and changes
/// nothing else.
pub proof fn lemma_expected_segment_is_delivered(
    m: StreamModel,
    seq: SeqNo,
    payload: Seq<u8>,
    now: u64,
)
    requires
        0 < m.cfg.recv_window <= 0x7fff_ffff,
    ensures
        ({
            let n = arq::frame_taken(
                m,
                frame_with(m.stream_id, Kind::Data, Some(seq), payload),
                now,
            );
            let ahead = arq::distance(m.rcv_nxt, seq);
            &&& ahead == 0 && m.reorder.dom() =~= Set::empty() && m.remote_fin_seq is None ==> n
                == (StreamModel {
                delivered: m.delivered + payload,
                rcv_nxt: ((m.rcv_nxt + 1) % 0x1_0000_0000) as u32,
                ack_pending: true,
                nack_pending: None,
                ..m
            })
            &&& m.cfg.recv_window <= ahead ==> n == (StreamModel { ack_pending: true, ..m })
        }),
{
    if arq::distance(m.rcv_nxt, seq) == 0 && m.reorder.dom() =~= Set::empty() {
        let next = StreamModel {
            delivered: m.delivered + payload,
            rcv_nxt: arq::step(m.rcv_nxt, 1),
            ack_pending: true,
            ..m
        };
        assert(arq::drained(next) == next);
    }
}

/// The first FIN counts: another one that names another place does not move the end of the stream.
pub proof fn lemma_first_fin_counts(m: StreamModel, f: FrameModel, now: u64)
    requires
        m.reorder.dom().finite(),
        m.remote_fin_seq is Some,
        f.kind == Kind::Fin,
    ensures
        arq::frame_taken(m, f, now).remote_fin_seq == m.remote_fin_seq,
        m.remote_fin_recvd ==> arq::frame_taken(m, f, now).remote_fin_recvd,
{
    if f.seq is Some {
        lemma_drained_keeps_fin(StreamModel { ack_pending: true, ..m });
    }
}

proof fn lemma_drained_keeps_fin(m: StreamModel)
    requires
        m.reorder.dom().finite(),
    ensures
        arq::drained(m).remote_fin_seq == m.remote_fin_seq,
        arq::drained(m).remote_fin_recvd == m.remote_fin_recvd,
    decreases m.reorder.dom().len(),
{
    if m.reorder.contains_key(m.rcv_nxt) {
        let next = StreamModel {
            delivered: m.delivered + m.reorder[m.rcv_nxt],
            reorder: m.reorder.remove(m.rcv_nxt),
            rcv_nxt: arq::step(m.rcv_nxt, 1),
            ..m
        };
        lemma_drained_keeps_fin(next);
        assert(arq::drained(m) == arq::drained(next));
    }
}

} // verus!
