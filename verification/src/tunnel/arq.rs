//! A reliable, ordered byte stream over the unreliable frame carrier.
//!
//! [`Stream`] does no I/O and keeps no clock: the caller supplies a monotonic time in milliseconds. The
//! caller writes bytes with [`Stream::write`], pulls frames to send with [`Stream::poll_transmit`] until
//! there are none, feeds arriving frames to [`Stream::on_frame`], and takes the bytes that have arrived
//! in order with [`Stream::read`].
//!
//! Sequence numbers count segments, not bytes. Reliability rests on cumulative acknowledgements, fast
//! retransmission of segments that the peer reports missing, and retransmission after a timeout that
//! adapts to the measured round trip. A FIN takes a sequence number of its own, so that a half-close is
//! acknowledged in order. There is no congestion control: the send window bounds what is in flight.
use std::collections::BTreeMap;
use std::collections::VecDeque;

use vstd::arithmetic::power2::{lemma2_to64, lemma2_to64_rest, lemma_pow2_adds, pow2};
use vstd::prelude::*;

use crate::tunnel::double;
use crate::tunnel::double::Double;
use crate::tunnel::frame::{Frame, FrameModel, Kind};

verus! {

broadcast use {
    vstd::std_specs::btree::group_btree_axioms,
    vstd::std_specs::vecdeque::group_vec_dequeue_axioms,
};

/// A segment sequence number.
pub type SeqNo = u32;

/// The distance from `b` forward to `a` on the circle of sequence numbers.
pub open spec fn distance(b: SeqNo, a: SeqNo) -> int {
    if a >= b {
        a - b
    } else {
        a - b + 0x1_0000_0000
    }
}

/// The sequence number `n` steps after `s`.
pub open spec fn step(s: SeqNo, n: int) -> SeqNo {
    ((s + n) % 0x1_0000_0000) as u32
}

/// `a` is before `b` in serial-number arithmetic.
pub open spec fn before(a: SeqNo, b: SeqNo) -> bool {
    distance(b, a) >= 0x8000_0000
}

/// Whether `a` is strictly before `b` in serial-number arithmetic.
pub fn seq_lt(a: SeqNo, b: SeqNo) -> (r: bool)
    ensures
        r == before(a, b),
{
    a.wrapping_sub(b) >= 0x8000_0000
}

/// Stream lifecycle state.
#[derive(Debug, Clone, Copy, PartialEq, Eq, Structural)]
pub enum State {
    /// Open in both directions.
    Open,
    /// A FIN has been sent; the stream may still receive.
    FinSent,
    /// A FIN has been received; the stream may still send.
    FinRcvd,
    /// Both halves closed cleanly.
    Closed,
    /// Abruptly reset.
    Reset,
}

/// Tuning. The defaults are conservative for a channel of very high latency.
#[derive(Debug, Clone, Copy, PartialEq, Eq, Structural)]
pub struct Config {
    /// Most payload bytes in a segment.
    pub max_segment: usize,
    /// Most segments in flight.
    pub send_window: u32,
    /// How far ahead of the next expected segment a segment may arrive.
    pub recv_window: u32,
    /// Retransmission timeout before the first round trip is measured (ms).
    pub initial_rto_ms: u64,
    /// Lowest retransmission timeout (ms).
    pub min_rto_ms: u64,
    /// Highest retransmission timeout (ms).
    pub max_rto_ms: u64,
}

/// The default tuning.
pub open spec fn default_config() -> Config {
    Config {
        max_segment: 128,
        send_window: 64,
        recv_window: 256,
        initial_rto_ms: 1_000,
        min_rto_ms: 200,
        max_rto_ms: 30_000,
    }
}

impl Default for Config {
    fn default() -> (c: Config)
        ensures
            c == default_config(),
    {
        Config {
            max_segment: 128,
            send_window: 64,
            recv_window: 256,
            initial_rto_ms: 1_000,
            min_rto_ms: 200,
            max_rto_ms: 30_000,
        }
    }
}

/// A segment that has been sent and not acknowledged.
#[derive(Debug)]
struct Sent {
    seq: SeqNo,
    data: Vec<u8>,
    /// When it was last sent (ms).
    sent_at: u64,
    /// How often it was sent again.
    retx: u32,
    /// It is the FIN, which carries no bytes.
    is_fin: bool,
}

/// What is known of a segment in flight.
pub struct SentModel {
    /// Its sequence number.
    pub seq: SeqNo,
    /// Its bytes.
    pub data: Seq<u8>,
    /// When it was last sent.
    pub sent_at: u64,
    /// How often it was sent again.
    pub retx: u32,
    /// It is the FIN.
    pub is_fin: bool,
}

spec fn sent_model(s: Sent) -> SentModel {
    SentModel {
        seq: s.seq,
        data: s.data@,
        sent_at: s.sent_at,
        retx: s.retx,
        is_fin: s.is_fin,
    }
}

spec fn sent_models(s: Seq<Sent>) -> Seq<SentModel> {
    Seq::new(s.len(), |i: int| sent_model(s[i]))
}

/// The state of a stream.
#[verifier::ext_equal]
pub struct StreamModel {
    /// Stream id.
    pub stream_id: u16,
    /// Tuning.
    pub cfg: Config,
    /// Lifecycle state.
    pub state: State,
    /// Oldest sequence number that is not acknowledged.
    pub snd_una: SeqNo,
    /// Next sequence number to send.
    pub snd_nxt: SeqNo,
    /// Bytes that wait to be sent.
    pub outbox: Seq<u8>,
    /// Segments in flight, by rising sequence number.
    pub inflight: Seq<SentModel>,
    /// Sequence numbers that the peer reported missing.
    pub fast_retx: Seq<SeqNo>,
    /// A half-close was asked for.
    pub closing: bool,
    /// The sequence number of the FIN, once sent.
    pub fin_seq: Option<SeqNo>,
    /// The FIN was acknowledged.
    pub local_fin_acked: bool,
    /// An RST waits to be sent.
    pub rst_pending: bool,
    /// Next sequence number expected.
    pub rcv_nxt: SeqNo,
    /// Segments that arrived ahead of their turn.
    pub reorder: Map<SeqNo, Seq<u8>>,
    /// Bytes that arrived in order and were not read.
    pub delivered: Seq<u8>,
    /// The sequence number of the peer's FIN, once known.
    pub remote_fin_seq: Option<SeqNo>,
    /// The peer's FIN was reached in order.
    pub remote_fin_recvd: bool,
    /// An acknowledgement waits to be sent.
    pub ack_pending: bool,
    /// The first missing sequence number, to be reported.
    pub nack_pending: Option<SeqNo>,
    /// Smoothed round trip (ms), as the units of a double.
    pub srtt: Option<nat>,
    /// Round-trip variation (ms), as the units of a double.
    pub rttvar: nat,
    /// Retransmission timeout (ms).
    pub rto_ms: u64,
}

/// One reliable stream; the two sides are symmetric.
#[derive(Debug)]
pub struct Stream {
    stream_id: u16,
    cfg: Config,
    state: State,
    snd_una: SeqNo,
    snd_nxt: SeqNo,
    outbox: Vec<u8>,
    inflight: Vec<Sent>,
    fast_retx: VecDeque<SeqNo>,
    closing: bool,
    fin_seq: Option<SeqNo>,
    local_fin_acked: bool,
    rst_pending: bool,
    rcv_nxt: SeqNo,
    reorder: BTreeMap<SeqNo, Vec<u8>>,
    delivered: Vec<u8>,
    remote_fin_seq: Option<SeqNo>,
    remote_fin_recvd: bool,
    ack_pending: bool,
    nack_pending: Option<SeqNo>,
    srtt: Option<Double>,
    rttvar: Double,
    rto_ms: u64,
}

spec fn reorder_model(m: Map<SeqNo, Vec<u8>>) -> Map<SeqNo, Seq<u8>> {
    Map::new(|k: SeqNo| m.contains_key(k), |k: SeqNo| m[k]@)
}

impl View for Stream {
    type V = StreamModel;

    closed spec fn view(&self) -> StreamModel {
        StreamModel {
            stream_id: self.stream_id,
            cfg: self.cfg,
            state: self.state,
            snd_una: self.snd_una,
            snd_nxt: self.snd_nxt,
            outbox: self.outbox@,
            inflight: sent_models(self.inflight@),
            fast_retx: self.fast_retx@,
            closing: self.closing,
            fin_seq: self.fin_seq,
            local_fin_acked: self.local_fin_acked,
            rst_pending: self.rst_pending,
            rcv_nxt: self.rcv_nxt,
            reorder: reorder_model(self.reorder@),
            delivered: self.delivered@,
            remote_fin_seq: self.remote_fin_seq,
            remote_fin_recvd: self.remote_fin_recvd,
            ack_pending: self.ack_pending,
            nack_pending: self.nack_pending,
            srtt: double_view(self.srtt),
            rttvar: self.rttvar@,
            rto_ms: self.rto_ms,
        }
    }
}

/// The units of an optional double.
pub open spec fn double_view(d: Option<Double>) -> Option<nat> {
    match d {
        Some(d) => Some(d@),
        None => None,
    }
}

/// The bound on a round trip, in the units of a double.
pub open spec fn round_trip_limit() -> nat {
    pow2((double::UNIT_BITS + 64) as nat)
}

/// Segments stand in order of rising sequence numbers.
pub open spec fn in_order(s: Seq<SentModel>) -> bool {
    forall|i: int, j: int| 0 <= i < j < s.len() ==> #[trigger] s[i].seq < #[trigger] s[j].seq
}

/// What every operation keeps.
pub open spec fn stream_ok(m: StreamModel) -> bool {
    &&& in_order(m.inflight)
    &&& m.reorder.dom().finite()
    &&& m.cfg.min_rto_ms <= m.cfg.max_rto_ms
    &&& m.srtt matches Some(s) ==> s <= round_trip_limit()
    &&& m.rttvar <= round_trip_limit()
}

/// A new stream.
pub open spec fn new_stream(stream_id: u16, cfg: Config, initial_seq: SeqNo) -> StreamModel {
    StreamModel {
        stream_id,
        cfg,
        state: State::Open,
        snd_una: initial_seq,
        snd_nxt: initial_seq,
        outbox: Seq::empty(),
        inflight: Seq::empty(),
        fast_retx: Seq::empty(),
        closing: false,
        fin_seq: None,
        local_fin_acked: false,
        rst_pending: false,
        rcv_nxt: initial_seq,
        reorder: Map::empty(),
        delivered: Seq::empty(),
        remote_fin_seq: None,
        remote_fin_recvd: false,
        ack_pending: false,
        nack_pending: None,
        srtt: None,
        rttvar: 0,
        rto_ms: cfg.initial_rto_ms,
    }
}

/// A stream that was aborted: nothing more is sent or put in order. What was delivered stays.
pub open spec fn aborted(m: StreamModel) -> StreamModel {
    StreamModel {
        state: State::Reset,
        inflight: Seq::empty(),
        outbox: Seq::empty(),
        reorder: Map::empty(),
        fast_retx: Seq::empty(),
        ..m
    }
}

/// The time at which a segment is due again, at most the largest time.
pub open spec fn deadline(s: SentModel, rto_ms: u64) -> u64 {
    if s.sent_at + rto_ms <= u64::MAX {
        (s.sent_at + rto_ms) as u64
    } else {
        u64::MAX
    }
}

/// `t` is the earliest deadline of the segments in flight.
pub open spec fn earliest_deadline(s: Seq<SentModel>, rto_ms: u64, t: u64) -> bool {
    &&& exists|i: int| 0 <= i < s.len() && #[trigger] deadline(s[i], rto_ms) == t
    &&& forall|i: int| 0 <= i < s.len() ==> t <= #[trigger] deadline(s[i], rto_ms)
}

impl Stream {
    /// What every operation keeps.
    pub open spec fn wf(&self) -> bool {
        stream_ok(self@)
    }

    /// Creates a stream. Both peers start from the same `initial_seq`.
    pub fn new(stream_id: u16, cfg: Config, initial_seq: SeqNo) -> (s: Stream)
        requires
            cfg.min_rto_ms <= cfg.max_rto_ms,
        ensures
            s.wf(),
            s@ == new_stream(stream_id, cfg, initial_seq),
    {
        let s: Stream = Stream {
            stream_id,
            cfg,
            state: State::Open,
            snd_una: initial_seq,
            snd_nxt: initial_seq,
            outbox: Vec::new(),
            inflight: Vec::new(),
            fast_retx: VecDeque::new(),
            closing: false,
            fin_seq: None,
            local_fin_acked: false,
            rst_pending: false,
            rcv_nxt: initial_seq,
            reorder: BTreeMap::new(),
            delivered: Vec::new(),
            remote_fin_seq: None,
            remote_fin_recvd: false,
            ack_pending: false,
            nack_pending: None,
            srtt: None,
            rttvar: Double::zero(),
            rto_ms: cfg.initial_rto_ms,
        };
        assert(s@ =~= new_stream(stream_id, cfg, initial_seq));
        s
    }

    /// Current lifecycle state.
    pub fn state(&self) -> (state: State)
        ensures
            state == self@.state,
    {
        self.state
    }

    /// Current retransmission timeout (ms).
    pub fn rto_ms(&self) -> (rto: u64)
        ensures
            rto == self@.rto_ms,
    {
        self.rto_ms
    }

    /// Whether the peer's FIN was reached in order.
    pub fn remote_finished(&self) -> (r: bool)
        ensures
            r == self@.remote_fin_recvd,
    {
        self.remote_fin_recvd
    }

    /// Whether the stream is fully closed or reset.
    pub fn is_closed(&self) -> (r: bool)
        ensures
            r == (self@.state == State::Closed || self@.state == State::Reset),
    {
        self.state == State::Closed || self.state == State::Reset
    }

    /// Most payload bytes in a segment.
    pub fn max_segment(&self) -> (n: usize)
        ensures
            n == self@.cfg.max_segment,
    {
        self.cfg.max_segment
    }

    /// Sets the most payload bytes in a segment, at least one.
    pub fn set_max_segment(&mut self, size: usize)
        requires
            old(self).wf(),
        ensures
            final(self).wf(),
            final(self)@ == (StreamModel {
                cfg: Config { max_segment: if size > 0 { size } else { 1 }, ..old(self)@.cfg },
                ..old(self)@
            }),
    {
        self.cfg.max_segment = if size > 0 {
            size
        } else {
            1
        };
    }

    /// Queues bytes for reliable, ordered delivery.
    pub fn write(&mut self, data: &[u8])
        requires
            old(self).wf(),
        ensures
            final(self).wf(),
            final(self)@ == (StreamModel { outbox: old(self)@.outbox + data@, ..old(self)@ }),
    {
        self.outbox.extend_from_slice(data);
        assert(self.outbox@ =~= old(self)@.outbox + data@);
    }

    /// Asks for a half-close: a FIN is sent after all queued bytes.
    pub fn close(&mut self)
        requires
            old(self).wf(),
        ensures
            final(self).wf(),
            final(self)@ == (StreamModel { closing: true, ..old(self)@ }),
    {
        self.closing = true;
    }

    /// Drops everything that waits to be sent or put in order.
    fn abort(&mut self)
        requires
            old(self).wf(),
        ensures
            final(self).wf(),
            final(self)@ == aborted(old(self)@),
    {
        self.state = State::Reset;
        self.inflight.clear();
        self.outbox.clear();
        self.reorder.clear();
        self.fast_retx.clear();
        assert(self@ =~= aborted(old(self)@));
    }

    /// Aborts the stream: queues an RST and drops the buffers. Delivered bytes stay readable.
    pub fn reset(&mut self)
        requires
            old(self).wf(),
        ensures
            final(self).wf(),
            final(self)@ == (StreamModel { rst_pending: true, ..aborted(old(self)@) }),
    {
        self.abort();
        self.rst_pending = true;
    }

    /// Takes the bytes delivered so far.
    pub fn read(&mut self) -> (data: Vec<u8>)
        requires
            old(self).wf(),
        ensures
            final(self).wf(),
            data@ == old(self)@.delivered,
            final(self)@ == (StreamModel { delivered: Seq::empty(), ..old(self)@ }),
    {
        let mut data: Vec<u8> = Vec::new();
        data.append(&mut self.delivered);
        assert(data@ =~= old(self)@.delivered);
        data
    }

    /// How many bytes can be read.
    pub fn readable(&self) -> (n: usize)
        ensures
            n == self@.delivered.len(),
    {
        self.delivered.len()
    }

    /// The earliest time at which a segment in flight is due again, if any is in flight.
    pub fn next_deadline(&self) -> (r: Option<u64>)
        ensures
            match r {
                Some(t) => earliest_deadline(self@.inflight, self@.rto_ms, t),
                None => self@.inflight.len() == 0,
            },
    {
        if self.inflight.len() == 0 {
            return None;
        }
        let mut t: u64 = self.inflight[0].sent_at.saturating_add(self.rto_ms);
        let mut i: usize = 1;
        assert(deadline(self@.inflight[0], self@.rto_ms) == t);
        while i < self.inflight.len()
            invariant
                1 <= i <= self.inflight.len(),
                exists|k: int|
                    0 <= k < i && #[trigger] deadline(self@.inflight[k], self@.rto_ms) == t,
                forall|k: int|
                    0 <= k < i ==> t <= #[trigger] deadline(self@.inflight[k], self@.rto_ms),
            decreases self.inflight.len() - i,
        {
            let d: u64 = self.inflight[i].sent_at.saturating_add(self.rto_ms);
            assert(deadline(self@.inflight[i as int], self@.rto_ms) == d);
            if d < t {
                t = d;
            }
            i = i + 1;
        }
        Some(t)
    }
}

/// The lifecycle state that follows from what was sent and received. A reset is final.
pub open spec fn settled(m: StreamModel) -> StreamModel {
    let state = if m.state == State::Reset {
        State::Reset
    } else if m.remote_fin_recvd {
        if m.fin_seq is Some && m.local_fin_acked {
            State::Closed
        } else {
            State::FinRcvd
        }
    } else if m.fin_seq is Some {
        State::FinSent
    } else {
        State::Open
    };
    StreamModel { state, ..m }
}

/// Delivers the buffered segments that follow on without a gap.
pub open spec fn drained(m: StreamModel) -> StreamModel
    decreases m.reorder.dom().len(),
    when m.reorder.dom().finite()
{
    if m.reorder.contains_key(m.rcv_nxt) {
        drained(
            StreamModel {
                delivered: m.delivered + m.reorder[m.rcv_nxt],
                reorder: m.reorder.remove(m.rcv_nxt),
                rcv_nxt: step(m.rcv_nxt, 1),
                ..m
            },
        )
    } else {
        m
    }
}

/// Passes the peer's FIN where it is the next thing expected.
pub open spec fn fin_passed(m: StreamModel) -> StreamModel {
    if m.remote_fin_seq == Some(m.rcv_nxt) && !m.remote_fin_recvd {
        settled(StreamModel { rcv_nxt: step(m.rcv_nxt, 1), remote_fin_recvd: true, ..m })
    } else {
        m
    }
}

/// What follows an arrival at the next expected place: buffered segments are delivered, the FIN is
/// passed, and a gap is reported if segments are left.
pub open spec fn advanced(m: StreamModel) -> StreamModel {
    let d = fin_passed(drained(m));
    StreamModel {
        nack_pending: if d.reorder.dom() =~= Set::empty() {
            None
        } else {
            Some(d.rcv_nxt)
        },
        ..d
    }
}

/// The state after a data segment. Every segment is acknowledged; one that was delivered before or lies
/// beyond the receive window changes nothing else, the next one expected is delivered, and any other is
/// kept for later.
pub open spec fn data_taken(m: StreamModel, seq: SeqNo, payload: Seq<u8>) -> StreamModel {
    let a = StreamModel { ack_pending: true, ..m };
    if before(seq, m.rcv_nxt) || !before(seq, step(m.rcv_nxt, m.cfg.recv_window as int)) {
        a
    } else if seq == m.rcv_nxt {
        advanced(
            StreamModel {
                delivered: m.delivered + payload,
                rcv_nxt: step(m.rcv_nxt, 1),
                ..a
            },
        )
    } else {
        StreamModel {
            reorder: if m.reorder.contains_key(seq) {
                m.reorder
            } else {
                m.reorder.insert(seq, payload)
            },
            nack_pending: Some(m.rcv_nxt),
            ..a
        }
    }
}

/// The state after a FIN. The first FIN counts.
pub open spec fn fin_taken(m: StreamModel, seq: SeqNo) -> StreamModel {
    advanced(
        StreamModel {
            ack_pending: true,
            remote_fin_seq: if m.remote_fin_seq is None {
                Some(seq)
            } else {
                m.remote_fin_seq
            },
            ..m
        },
    )
}

impl Stream {
    fn update_state(&mut self)
        requires
            old(self).wf(),
        ensures
            final(self).wf(),
            final(self)@ == settled(old(self)@),
    {
        if self.state == State::Reset {
            return;
        }
        let local_fin_sent: bool = self.fin_seq.is_some();
        let local_done: bool = local_fin_sent && self.local_fin_acked;
        self.state = match (local_done, self.remote_fin_recvd, local_fin_sent) {
            (true, true, _) => State::Closed,
            (_, true, _) => State::FinRcvd,
            (_, false, true) => State::FinSent,
            _ => State::Open,
        };
    }

    fn advance_recv(&mut self)
        requires
            old(self).wf(),
        ensures
            final(self).wf(),
            final(self)@ == advanced(old(self)@),
    {
        loop
            invariant_except_break
                drained(self@) == drained(old(self)@),
                self.wf(),
            ensures
                self.wf(),
                self@ == drained(old(self)@),
            decreases self@.reorder.dom().len(),
        {
            let ghost before_step = *self;
            match self.reorder.remove(&self.rcv_nxt) {
                Some(next) => {
                    self.delivered.extend_from_slice(next.as_slice());
                    self.rcv_nxt = self.rcv_nxt.wrapping_add(1);
                    proof {
                        let m = before_step@;
                        assert(self@ =~= (StreamModel {
                            delivered: m.delivered + m.reorder[m.rcv_nxt],
                            reorder: m.reorder.remove(m.rcv_nxt),
                            rcv_nxt: step(m.rcv_nxt, 1),
                            ..m
                        }));
                    }
                },
                None => {
                    assert(self@ =~= before_step@);
                    break;
                },
            }
        }
        let at_fin: bool = match self.remote_fin_seq {
            Some(fin) => fin == self.rcv_nxt && !self.remote_fin_recvd,
            None => false,
        };
        if at_fin {
            self.rcv_nxt = self.rcv_nxt.wrapping_add(1);
            self.remote_fin_recvd = true;
            self.update_state();
        }
        assert(self@ == fin_passed(drained(old(self)@)));
        assert(self@.reorder.dom() =~= self.reorder@.dom());
        let ghost d = self@;
        if self.reorder.is_empty() {
            self.nack_pending = None;
            assert(self.reorder@.dom() =~= Set::empty());
        } else {
            self.nack_pending = Some(self.rcv_nxt);
        }
        assert(self@ =~= advanced(old(self)@));
    }

    fn on_data(&mut self, seq: SeqNo, payload: &[u8])
        requires
            old(self).wf(),
        ensures
            final(self).wf(),
            final(self)@ == data_taken(old(self)@, seq, payload@),
    {
        self.ack_pending = true;
        if seq_lt(seq, self.rcv_nxt) {
            return;
        }
        if !seq_lt(seq, self.rcv_nxt.wrapping_add(self.cfg.recv_window)) {
            return;
        }
        if seq == self.rcv_nxt {
            self.delivered.extend_from_slice(payload);
            self.rcv_nxt = self.rcv_nxt.wrapping_add(1);
            assert(self.delivered@ =~= old(self)@.delivered + payload@);
            self.advance_recv();
        } else {
            if !self.reorder.contains_key(&seq) {
                let copy: Vec<u8> = vstd::slice::slice_to_vec(payload);
                self.reorder.insert(seq, copy);
            }
            self.nack_pending = Some(self.rcv_nxt);
            assert(self@ =~= data_taken(old(self)@, seq, payload@));
        }
    }

    fn on_fin(&mut self, seq: SeqNo)
        requires
            old(self).wf(),
        ensures
            final(self).wf(),
            final(self)@ == fin_taken(old(self)@, seq),
    {
        self.ack_pending = true;
        if self.remote_fin_seq.is_none() {
            self.remote_fin_seq = Some(seq);
        }
        self.advance_recv();
    }
}

/// `a - b`, at least zero.
pub open spec fn elapsed(a: u64, b: u64) -> u64 {
    if a >= b {
        (a - b) as u64
    } else {
        0
    }
}

/// The round trip measured by an acknowledgement: that of the last acknowledged segment that carried
/// data and was sent only once.
pub open spec fn round_trip(s: Seq<SentModel>, ack: SeqNo, now: u64) -> Option<u64>
    decreases s.len(),
{
    if s.len() == 0 {
        None
    } else {
        let e = s.last();
        if before(e.seq, ack) && e.retx == 0 && !e.is_fin {
            Some(elapsed(now, e.sent_at))
        } else {
            round_trip(s.drop_last(), ack, now)
        }
    }
}

/// The segments that an acknowledgement leaves in flight.
pub open spec fn unacked(s: Seq<SentModel>, ack: SeqNo) -> Seq<SentModel> {
    s.filter(|e: SentModel| !before(e.seq, ack))
}

/// `v` held between `lo` and `hi`.
pub open spec fn held_between(v: int, lo: u64, hi: u64) -> int {
    if v < lo {
        lo as int
    } else if v > hi {
        hi as int
    } else {
        v
    }
}

/// The smoothed round trip and its variation after a measurement of `r` milliseconds, in doubles: the
/// first one sets them, a later one moves the round trip by an eighth and the variation by a quarter.
pub open spec fn estimate(srtt: Option<nat>, rttvar: nat, r: u64) -> (nat, nat) {
    let sample = double::of_whole(r as nat);
    match srtt {
        None => (sample, double::scaled(sample, 1, 1)),
        Some(s) => (
            double::sum(double::scaled(s, 7, 3), double::scaled(sample, 1, 3)),
            double::sum(
                double::scaled(rttvar, 3, 2),
                double::scaled(double::gap(s, sample), 1, 2),
            ),
        ),
    }
}

/// The timeout for an estimate: the round trip and four times its variation, in whole milliseconds,
/// at least one, held between the limits.
pub open spec fn timeout(srtt: nat, rttvar: nat, cfg: Config) -> int {
    let whole = double::whole_part(double::sum(srtt, double::scaled(rttvar, 4, 0)));
    held_between(
        if whole < 1 {
            1
        } else {
            whole as int
        },
        cfg.min_rto_ms,
        cfg.max_rto_ms,
    )
}

/// The state after a round trip was measured.
pub open spec fn measured(m: StreamModel, r: u64) -> StreamModel {
    let (srtt, rttvar) = estimate(m.srtt, m.rttvar, r);
    StreamModel {
        srtt: Some(srtt),
        rttvar,
        rto_ms: timeout(srtt, rttvar, m.cfg) as u64,
        ..m
    }
}

/// The state after an acknowledgement: `ack` is the next sequence number that the peer expects, and
/// everything before it is acknowledged.
pub open spec fn ack_taken(m: StreamModel, ack: SeqNo, now: u64) -> StreamModel {
    let a = StreamModel {
        inflight: unacked(m.inflight, ack),
        snd_una: if before(m.snd_una, ack) {
            ack
        } else {
            m.snd_una
        },
        local_fin_acked: m.local_fin_acked || (m.fin_seq matches Some(fin) && before(fin, ack)),
        ..m
    };
    settled(
        match round_trip(m.inflight, ack, now) {
            Some(r) => measured(a, r),
            None => a,
        },
    )
}

/// The number of segments before `q`.
pub open spec fn rank(s: Seq<SentModel>, q: SeqNo) -> nat
    decreases s.len(),
{
    if s.len() == 0 {
        0
    } else if s.last().seq < q {
        s.len()
    } else {
        rank(s.drop_last(), q)
    }
}

/// The segment `q` is in flight.
pub open spec fn in_flight(s: Seq<SentModel>, q: SeqNo) -> bool {
    rank(s, q) < s.len() && s[rank(s, q) as int].seq == q
}

/// The state after the peer reported a segment missing: it is queued once if it is in flight.
pub open spec fn nack_taken(m: StreamModel, seq: SeqNo) -> StreamModel {
    if in_flight(m.inflight, seq) && !m.fast_retx.contains(seq) {
        StreamModel { fast_retx: m.fast_retx.push(seq), ..m }
    } else {
        m
    }
}

/// The state after a frame.
pub open spec fn frame_taken(
    m: StreamModel,
    f: FrameModel,
    now: u64,
) -> StreamModel {
    match (f.kind, f.seq) {
        (Kind::Data, Some(seq)) => data_taken(m, seq, f.payload),
        (Kind::Ack, Some(ack)) => ack_taken(m, ack, now),
        (Kind::Nack, Some(seq)) => nack_taken(m, seq),
        (Kind::Fin, Some(seq)) => fin_taken(m, seq),
        (Kind::Rst, _) => aborted(m),
        (Kind::KeepAlive, _) => StreamModel { ack_pending: true, ..m },
        _ => m,
    }
}

pub(crate) proof fn lemma_rank(s: Seq<SentModel>, q: SeqNo)
    requires
        in_order(s),
    ensures
        rank(s, q) <= s.len(),
        forall|i: int| 0 <= i < rank(s, q) ==> (#[trigger] s[i]).seq < q,
        forall|i: int| rank(s, q) <= i < s.len() ==> (#[trigger] s[i]).seq >= q,
    decreases s.len(),
{
    if s.len() > 0 && s.last().seq >= q {
        let t = s.drop_last();
        lemma_rank(t, q);
        assert forall|i: int| 0 <= i < rank(s, q) implies (#[trigger] s[i]).seq < q by {
            assert(t[i] == s[i]);
        }
        assert forall|i: int| rank(s, q) <= i < s.len() implies (#[trigger] s[i]).seq >= q by {
            if i < t.len() {
                assert(t[i] == s[i]);
            }
        }
    }
}

pub(crate) proof fn lemma_unacked_in_order(s: Seq<SentModel>, ack: SeqNo)
    requires
        in_order(s),
    ensures
        in_order(unacked(s, ack)),
        unacked(s, ack).len() <= s.len(),
        forall|e: SentModel| #[trigger]
            unacked(s, ack).contains(e) <==> s.contains(e) && !before(e.seq, ack),
    decreases s.len(),
{
    reveal(Seq::filter);
    let keep = |e: SentModel| !before(e.seq, ack);
    let r = unacked(s, ack);
    if s.len() > 0 {
        let t = s.drop_last();
        lemma_unacked_in_order(t, ack);
        let u = unacked(t, ack);
        assert forall|e: SentModel| #[trigger] r.contains(e) implies s.contains(e) && !before(
            e.seq,
            ack,
        ) by {
            let k = choose|k: int| 0 <= k < r.len() && r[k] == e;
            if k < u.len() {
                assert(u[k] == e);
                assert(u.contains(e));
                let n = choose|n: int| 0 <= n < t.len() && t[n] == e;
                assert(s[n] == e);
            } else {
                assert(s[s.len() - 1] == e);
            }
        }
        assert forall|e: SentModel| s.contains(e) && !before(e.seq, ack) implies #[trigger] r.contains(
            e,
        ) by {
            let n = choose|n: int| 0 <= n < s.len() && s[n] == e;
            if n < t.len() {
                assert(t[n] == e);
                assert(t.contains(e));
                assert(u.contains(e));
                let k = choose|k: int| 0 <= k < u.len() && u[k] == e;
                assert(r[k] == e);
            } else {
                assert(r[r.len() - 1] == e);
            }
        }
        if keep(s.last()) {
            assert forall|i: int, j: int| 0 <= i < j < r.len() implies #[trigger] r[i].seq
                < #[trigger] r[j].seq by {
                if j < u.len() {
                    assert(u[i] == r[i] && u[j] == r[j]);
                } else {
                    assert(u[i] == r[i]);
                    assert(u.contains(u[i]));
                    let n = choose|n: int| 0 <= n < t.len() && t[n] == u[i];
                    assert(s[n] == u[i]);
                }
            }
        }
    }
}

/// What a round trip is made of stays within its bound.
proof fn lemma_estimate_bound(srtt: Option<nat>, rttvar: nat, r: u64)
    requires
        srtt matches Some(s) ==> s <= round_trip_limit(),
        rttvar <= round_trip_limit(),
    ensures
        ({
            let (s, v) = estimate(srtt, rttvar, r);
            s <= round_trip_limit() && v <= round_trip_limit()
        }),
        double::of_whole(r as nat) <= round_trip_limit(),
        double::scaled(rttvar, 3, 2) <= round_trip_limit(),
        double::scaled(double::of_whole(r as nat), 1, 3) <= round_trip_limit(),
        srtt matches Some(s) ==> {
            &&& double::scaled(s, 7, 3) <= round_trip_limit()
            &&& double::gap(s, double::of_whole(r as nat)) <= round_trip_limit()
            &&& double::scaled(double::gap(s, double::of_whole(r as nat)), 1, 2)
                <= round_trip_limit()
        },
        double::scaled(rttvar, 4, 0) <= 4 * round_trip_limit(),
        16 * round_trip_limit() <= pow2((double::UNIT_BITS + 70) as nat),
{
    let k = (double::UNIT_BITS + 64) as nat;
    let p = pow2(k);
    let sample = double::of_whole(r as nat);
    lemma2_to64();
    lemma2_to64_rest();
    lemma_pow2_adds((k - 3) as nat, 3);
    lemma_pow2_adds((k - 2) as nat, 2);
    lemma_pow2_adds((k - 1) as nat, 1);
    lemma_pow2_adds(k, 6);
    let u = pow2(double::UNIT_BITS as nat);
    lemma_pow2_adds(64, double::UNIT_BITS as nat);
    assert(r * u <= p) by (nonlinear_arith)
        requires
            r <= pow2(64),
            p == pow2(64) * u,
    ;
    double::lemma_nearest_at_most(r as nat * u, 0, 1, k);
    double::lemma_nearest_at_most(1 * sample, 1, 1, (k - 1) as nat);
    double::lemma_nearest_at_most(1 * sample, 3, 1, (k - 3) as nat);
    double::lemma_nearest_at_most(3 * rttvar, 2, 3, (k - 2) as nat);
    double::lemma_nearest_at_most(4 * rttvar, 0, 4, k);
    if let Some(s) = srtt {
        double::lemma_nearest_at_most(7 * s, 3, 7, (k - 3) as nat);
        let apart = if s >= sample {
            (s - sample) as nat
        } else {
            (sample - s) as nat
        };
        double::lemma_nearest_at_most(apart, 0, 1, k);
        double::lemma_nearest_at_most(1 * double::gap(s, sample), 2, 1, (k - 2) as nat);
        let (x, y) = (double::scaled(s, 7, 3), double::scaled(sample, 1, 3));
        double::lemma_nearest_at_most(x + y, 0, 1, k);
        let (x, y) = (double::scaled(rttvar, 3, 2), double::scaled(double::gap(s, sample), 1, 2));
        double::lemma_nearest_at_most(x + y, 0, 1, k);
    }
}

fn next_estimate(srtt: &Option<Double>, rttvar: &Double, r: u64) -> (e: (Double, Double))
    requires
        double_view(*srtt) matches Some(s) ==> s <= round_trip_limit(),
        rttvar@ <= round_trip_limit(),
    ensures
        (e.0@, e.1@) == estimate(double_view(*srtt), rttvar@, r),
        e.0@ <= round_trip_limit(),
        e.1@ <= round_trip_limit(),
{
    proof {
        lemma_estimate_bound(double_view(*srtt), rttvar@, r);
    }
    let sample: Double = Double::of_whole(r);
    match srtt {
        None => (sample, sample.scaled(1, 1)),
        Some(s) => (
            s.scaled(7, 3).sum(&sample.scaled(1, 3)),
            rttvar.scaled(3, 2).sum(&s.gap(&sample).scaled(1, 2)),
        ),
    }
}

fn next_timeout(srtt: &Double, rttvar: &Double, cfg: &Config) -> (t: u64)
    requires
        srtt@ <= round_trip_limit(),
        rttvar@ <= round_trip_limit(),
        cfg.min_rto_ms <= cfg.max_rto_ms,
    ensures
        t == timeout(srtt@, rttvar@, *cfg),
{
    proof {
        lemma_estimate_bound(Some(srtt@), rttvar@, 0);
        let k = (double::UNIT_BITS + 64) as nat;
        lemma2_to64();
        lemma_pow2_adds(k, 0);
        double::lemma_nearest_at_most(srtt@ + double::scaled(rttvar@, 4, 0), 0, 5, k);
    }
    let whole: u64 = srtt.sum(&rttvar.scaled(4, 0)).whole_part();
    let at_least: u64 = if whole < 1 {
        1
    } else {
        whole
    };
    if at_least < cfg.min_rto_ms {
        cfg.min_rto_ms
    } else if at_least > cfg.max_rto_ms {
        cfg.max_rto_ms
    } else {
        at_least
    }
}

impl Stream {
    fn position(&self, seq: SeqNo) -> (r: Option<usize>)
        requires
            self.wf(),
        ensures
            match r {
                Some(i) => in_flight(self@.inflight, seq) && i == rank(self@.inflight, seq),
                None => !in_flight(self@.inflight, seq),
            },
    {
        let mut i: usize = 0;
        proof {
            lemma_rank(self@.inflight, seq);
        }
        while i < self.inflight.len()
            invariant
                i <= self.inflight.len(),
                self.wf(),
                forall|k: int| 0 <= k < i ==> (#[trigger] self@.inflight[k]).seq != seq,
            decreases self.inflight.len() - i,
        {
            if self.inflight[i].seq == seq {
                proof {
                    lemma_rank(self@.inflight, seq);
                    assert(self@.inflight[i as int].seq == seq);
                }
                return Some(i);
            }
            i = i + 1;
        }
        None
    }

    fn update_rto(&mut self, r: u64)
        requires
            old(self).wf(),
        ensures
            final(self).wf(),
            final(self)@ == measured(old(self)@, r),
    {
        let (srtt, rttvar) = next_estimate(&self.srtt, &self.rttvar, r);
        self.rto_ms = next_timeout(&srtt, &rttvar, &self.cfg);
        self.srtt = Some(srtt);
        self.rttvar = rttvar;
    }

    /// Takes the acknowledged segments out of flight and gives the round trip that they measure.
    fn take_acked(&mut self, ack: SeqNo, now: u64) -> (r: Option<u64>)
        requires
            old(self).wf(),
        ensures
            final(self).wf(),
            r == round_trip(old(self)@.inflight, ack, now),
            final(self)@ == (StreamModel {
                inflight: unacked(old(self)@.inflight, ack),
                ..old(self)@
            }),
    {
        let ghost all = self@.inflight;
        let ghost mut seen: int = 0;
        let mut newest: Option<u64> = None;
        let mut i: usize = 0;
        proof {
            reveal(Seq::filter);
            assert(all.take(0) =~= Seq::empty());
            assert(all.skip(0) =~= all);
            assert(unacked(all.take(0), ack) =~= Seq::empty());
        }
        while i < self.inflight.len()
            invariant
                0 <= seen <= all.len(),
                all == old(self)@.inflight,
                i == unacked(all.take(seen), ack).len(),
                self@.inflight == unacked(all.take(seen), ack) + all.skip(seen),
                self@ == (StreamModel { inflight: self@.inflight, ..old(self)@ }),
                newest == round_trip(all.take(seen), ack, now),
            decreases all.len() - seen,
        {
            let ghost kept = unacked(all.take(seen), ack);
            proof {
                reveal(Seq::filter);
                assert(self@.inflight.len() == self.inflight.len());
                assert(self@.inflight[i as int] == all[seen]);
                assert(all.take(seen + 1).drop_last() =~= all.take(seen));
                assert(all.take(seen + 1).last() == all[seen]);
            }
            if seq_lt(self.inflight[i].seq, ack) {
                let ghost held = self@.inflight;
                let sent: Sent = self.inflight.remove(i);
                assert(self@.inflight =~= held.remove(i as int));
                if sent.retx == 0 && !sent.is_fin {
                    newest = Some(now.saturating_sub(sent.sent_at));
                }
                assert(self@.inflight =~= kept + all.skip(seen + 1));
            } else {
                i = i + 1;
                assert(self@.inflight =~= kept.push(all[seen]) + all.skip(seen + 1));
            }
            proof {
                seen = seen + 1;
            }
        }
        proof {
            assert(self@.inflight.len() == self.inflight.len());
            assert(seen == all.len());
            assert(all.take(seen) =~= all);
            assert(self@.inflight =~= unacked(all, ack));
            lemma_unacked_in_order(all, ack);
        }
        newest
    }

    fn on_ack(&mut self, ack: SeqNo, now: u64)
        requires
            old(self).wf(),
        ensures
            final(self).wf(),
            final(self)@ == ack_taken(old(self)@, ack, now),
    {
        let newest: Option<u64> = self.take_acked(ack, now);
        if seq_lt(self.snd_una, ack) {
            self.snd_una = ack;
        }
        if let Some(fin) = self.fin_seq {
            if seq_lt(fin, ack) {
                self.local_fin_acked = true;
            }
        }
        if let Some(r) = newest {
            self.update_rto(r);
        }
        self.update_state();
    }

    fn on_nack(&mut self, seq: SeqNo)
        requires
            old(self).wf(),
        ensures
            final(self).wf(),
            final(self)@ == nack_taken(old(self)@, seq),
    {
        if self.position(seq).is_none() {
            return;
        }
        let mut i: usize = 0;
        while i < self.fast_retx.len()
            invariant
                *self == *old(self),
                self.wf(),
                i <= self.fast_retx.len(),
                forall|k: int| 0 <= k < i ==> self.fast_retx@[k] != seq,
            decreases self.fast_retx.len() - i,
        {
            if self.fast_retx[i] == seq {
                assert(self@.fast_retx[i as int] == seq);
                return;
            }
            i = i + 1;
        }
        self.fast_retx.push_back(seq);
        assert(self@ =~= nack_taken(old(self)@, seq));
    }

    /// Processes a frame that arrived for this stream at time `now`. A frame that needs a sequence
    /// number and has none is ignored, as is a frame of the session layer.
    pub fn on_frame(&mut self, f: &Frame, now: u64)
        requires
            old(self).wf(),
        ensures
            final(self).wf(),
            final(self)@ == frame_taken(old(self)@, f@, now),
    {
        match f.kind {
            Kind::Data => {
                if let Some(seq) = f.seq {
                    self.on_data(seq, f.payload.as_slice());
                }
            },
            Kind::Ack => {
                if let Some(ack) = f.seq {
                    self.on_ack(ack, now);
                }
            },
            Kind::Nack => {
                if let Some(seq) = f.seq {
                    self.on_nack(seq);
                }
            },
            Kind::Fin => {
                if let Some(seq) = f.seq {
                    self.on_fin(seq);
                }
            },
            Kind::Rst => {
                self.abort();
            },
            Kind::KeepAlive => {
                self.ack_pending = true;
            },
            Kind::Syn | Kind::SynAck | Kind::MtuProbe | Kind::MtuProbeResp | Kind::SetMtu => {},
        }
    }
}

/// A frame of stream `id` with a sequence number.
pub open spec fn stream_frame(
    id: u16,
    kind: Kind,
    seq: Option<SeqNo>,
    payload: Seq<u8>,
) -> FrameModel {
    FrameModel {
        kind,
        stream_id: Some(id),
        seq,
        fragment: None,
        comp_algo: None,
        payload,
    }
}

/// The frame that carries a segment.
pub open spec fn segment_frame(id: u16, e: SentModel) -> FrameModel {
    stream_frame(
        id,
        if e.is_fin {
            Kind::Fin
        } else {
            Kind::Data
        },
        Some(e.seq),
        e.data,
    )
}

/// The first place from `i` on of a queued sequence number that is in flight, or the queue's length.
pub open spec fn first_queued(q: Seq<SeqNo>, inflight: Seq<SentModel>, i: nat) -> nat
    decreases q.len() - i,
{
    if i >= q.len() {
        q.len()
    } else if in_flight(inflight, q[i as int]) {
        i
    } else {
        first_queued(q, inflight, i + 1)
    }
}

/// The segment's timeout has passed.
pub open spec fn due(e: SentModel, rto_ms: u64, now: u64) -> bool {
    now >= e.sent_at + rto_ms
}

/// The first place from `i` on of a segment that is due, or the number of segments.
pub open spec fn first_due(s: Seq<SentModel>, rto_ms: u64, now: u64, i: nat) -> nat
    decreases s.len() - i,
{
    if i >= s.len() {
        s.len()
    } else if due(s[i as int], rto_ms, now) {
        i
    } else {
        first_due(s, rto_ms, now, i + 1)
    }
}

/// The segment after it was sent again.
pub open spec fn sent_again(e: SentModel, now: u64) -> SentModel {
    SentModel {
        sent_at: now,
        retx: if e.retx < u32::MAX {
            (e.retx + 1) as u32
        } else {
            e.retx
        },
        ..e
    }
}

/// Segment `k` is sent again.
pub open spec fn resent(m: StreamModel, k: nat, now: u64) -> (
    StreamModel,
    Option<FrameModel>,
) {
    (
        StreamModel {
            inflight: m.inflight.update(k as int, sent_again(m.inflight[k as int], now)),
            ..m
        },
        Some(segment_frame(m.stream_id, m.inflight[k as int])),
    )
}

/// Twice the timeout, at most `max`.
pub open spec fn backed_off(rto_ms: u64, max: u64) -> u64 {
    if 2 * rto_ms <= max {
        (2 * rto_ms) as u64
    } else {
        max
    }
}

/// The segments with `e` in its place, in place of one of the same number.
pub open spec fn placed(s: Seq<SentModel>, e: SentModel) -> Seq<SentModel> {
    let r = rank(s, e.seq) as int;
    if in_flight(s, e.seq) {
        s.update(r, e)
    } else {
        s.insert(r, e)
    }
}

/// A first transmission of `data`, or of the FIN.
pub open spec fn launched(m: StreamModel, data: Seq<u8>, is_fin: bool, now: u64) -> (
    StreamModel,
    Option<FrameModel>,
) {
    let e = SentModel { seq: m.snd_nxt, data, sent_at: now, retx: 0, is_fin };
    (
        StreamModel {
            snd_nxt: step(m.snd_nxt, 1),
            inflight: placed(m.inflight, e),
            ..m
        },
        Some(segment_frame(m.stream_id, e)),
    )
}

/// The send window has room.
pub open spec fn has_room(m: StreamModel) -> bool {
    distance(m.snd_una, m.snd_nxt) < m.cfg.send_window
}

/// The length of the next new segment.
pub open spec fn segment_len(m: StreamModel) -> int {
    if m.outbox.len() <= m.cfg.max_segment {
        m.outbox.len() as int
    } else {
        m.cfg.max_segment as int
    }
}

/// What a stream sends where nothing is to be sent again: a NACK, an acknowledgement, a new segment,
/// the FIN, in this order.
pub open spec fn polled_fresh(m: StreamModel, now: u64) -> (
    StreamModel,
    Option<FrameModel>,
) {
    if m.nack_pending is Some {
        (
            StreamModel { nack_pending: None, ..m },
            Some(stream_frame(m.stream_id, Kind::Nack, m.nack_pending, Seq::empty())),
        )
    } else if m.ack_pending {
        (
            StreamModel { ack_pending: false, ..m },
            Some(stream_frame(m.stream_id, Kind::Ack, Some(m.rcv_nxt), Seq::empty())),
        )
    } else if has_room(m) && m.outbox.len() > 0 {
        let n = segment_len(m);
        launched(
            StreamModel { outbox: m.outbox.skip(n), ..m },
            m.outbox.take(n),
            false,
            now,
        )
    } else if m.closing && m.fin_seq is None && m.outbox.len() == 0 && has_room(m) {
        let (sent, frame) = launched(m, Seq::empty(), true, now);
        (settled(StreamModel { fin_seq: Some(m.snd_nxt), ..sent }), frame)
    } else {
        (m, None)
    }
}

/// What a stream sends while it is neither closed nor reset: first a segment that the peer reported
/// missing, then the first one that is due, which doubles the timeout.
pub open spec fn polled_open(m: StreamModel, now: u64) -> (
    StreamModel,
    Option<FrameModel>,
) {
    let i = first_queued(m.fast_retx, m.inflight, 0);
    if i < m.fast_retx.len() {
        resent(
            StreamModel { fast_retx: m.fast_retx.skip(i as int + 1), ..m },
            rank(m.inflight, m.fast_retx[i as int]),
            now,
        )
    } else {
        let e = StreamModel { fast_retx: Seq::empty(), ..m };
        let k = first_due(e.inflight, e.rto_ms, now, 0);
        if k < e.inflight.len() {
            resent(
                StreamModel { rto_ms: backed_off(e.rto_ms, e.cfg.max_rto_ms), ..e },
                k,
                now,
            )
        } else {
            polled_fresh(e, now)
        }
    }
}

/// The next frame to send at time `now`, and the state after it. An RST goes before everything; a reset
/// stream sends nothing else, and a closed one only acknowledges.
pub open spec fn polled(m: StreamModel, now: u64) -> (
    StreamModel,
    Option<FrameModel>,
) {
    if m.rst_pending {
        (
            StreamModel { rst_pending: false, ..m },
            Some(stream_frame(m.stream_id, Kind::Rst, None, Seq::empty())),
        )
    } else if m.state == State::Reset {
        (m, None)
    } else if m.state == State::Closed {
        if m.ack_pending {
            (
                StreamModel { ack_pending: false, ..m },
                Some(stream_frame(m.stream_id, Kind::Ack, Some(m.rcv_nxt), Seq::empty())),
            )
        } else {
            (m, None)
        }
    } else {
        polled_open(m, now)
    }
}

/// The model of an optional frame.
pub open spec fn frame_view(f: Option<Frame>) -> Option<FrameModel> {
    match f {
        Some(f) => Some(f@),
        None => None,
    }
}

proof fn lemma_first_queued(q: Seq<SeqNo>, inflight: Seq<SentModel>, i: nat, j: nat)
    requires
        i <= j <= q.len(),
        forall|k: int| i <= k < j ==> !in_flight(inflight, #[trigger] q[k]),
    ensures
        first_queued(q, inflight, i) == first_queued(q, inflight, j),
    decreases j - i,
{
    if i < j {
        assert(!in_flight(inflight, q[i as int]));
        lemma_first_queued(q, inflight, i + 1, j);
    }
}

proof fn lemma_first_due(s: Seq<SentModel>, rto_ms: u64, now: u64, i: nat, j: nat)
    requires
        i <= j <= s.len(),
        forall|k: int| i <= k < j ==> !due(#[trigger] s[k], rto_ms, now),
    ensures
        first_due(s, rto_ms, now, i) == first_due(s, rto_ms, now, j),
    decreases j - i,
{
    if i < j {
        assert(!due(s[i as int], rto_ms, now));
        lemma_first_due(s, rto_ms, now, i + 1, j);
    }
}

pub(crate) proof fn lemma_placed_in_order(s: Seq<SentModel>, e: SentModel)
    requires
        in_order(s),
    ensures
        in_order(placed(s, e)),
{
    lemma_rank(s, e.seq);
}

/// A frame of stream `id` that carries `payload`.
fn make_frame(id: u16, kind: Kind, seq: Option<SeqNo>, payload: Vec<u8>) -> (f: Frame)
    ensures
        f@ == stream_frame(id, kind, seq, payload@),
{
    Frame { kind, stream_id: Some(id), seq, fragment: None, comp_algo: None, payload }
}

impl Stream {
    /// How many segments were sent and not acknowledged.
    fn inflight_count(&self) -> (n: u32)
        ensures
            n == distance(self@.snd_una, self@.snd_nxt),
    {
        self.snd_nxt.wrapping_sub(self.snd_una)
    }

    /// Sends segment `k` again.
    fn resend(&mut self, k: usize, now: u64) -> (f: Frame)
        requires
            old(self).wf(),
            k < old(self)@.inflight.len(),
        ensures
            final(self).wf(),
            (final(self)@, Some(f@)) == resent(old(self)@, k as nat, now),
    {
        let mut sent: Sent = self.inflight.remove(k);
        assert(sent_model(sent) == old(self)@.inflight[k as int]);
        sent.sent_at = now;
        sent.retx = sent.retx.saturating_add(1);
        let data: Vec<u8> = vstd::slice::slice_to_vec(sent.data.as_slice());
        let kind: Kind = if sent.is_fin {
            Kind::Fin
        } else {
            Kind::Data
        };
        let f: Frame = make_frame(self.stream_id, kind, Some(sent.seq), data);
        self.inflight.insert(k, sent);
        assert(self@ =~= resent(old(self)@, k as nat, now).0);
        f
    }

    /// Puts a segment that was sent in its place.
    fn place(&mut self, sent: Sent)
        requires
            old(self).wf(),
        ensures
            final(self).wf(),
            final(self)@ == (StreamModel {
                inflight: placed(old(self)@.inflight, sent_model(sent)),
                ..old(self)@
            }),
    {
        let ghost s = self@.inflight;
        let mut at: usize = self.inflight.len();
        proof {
            lemma_rank(s, sent.seq);
            lemma_placed_in_order(s, sent_model(sent));
        }
        while at > 0 && self.inflight[at - 1].seq >= sent.seq
            invariant
                at <= self.inflight.len(),
                s == self@.inflight,
                in_order(s),
                forall|i: int| at <= i < s.len() ==> (#[trigger] s[i]).seq >= sent.seq,
            decreases at,
        {
            at = at - 1;
            assert(s[at as int].seq >= sent.seq);
        }
        proof {
            if at > 0 {
                assert(s[at - 1].seq < sent.seq);
            }
            if at < s.len() {
                assert(s[at as int].seq >= sent.seq);
            }
            assert(at == rank(s, sent.seq));
        }
        if at < self.inflight.len() && self.inflight[at].seq == sent.seq {
            assert(s[at as int].seq == sent.seq);
            self.inflight.set(at, sent);
        } else {
            self.inflight.insert(at, sent);
        }
        assert(self@.inflight =~= placed(s, sent_model(sent)));
    }

    /// Sends `data`, or the FIN, for the first time.
    fn launch(&mut self, data: Vec<u8>, is_fin: bool, now: u64) -> (f: Frame)
        requires
            old(self).wf(),
        ensures
            final(self).wf(),
            (final(self)@, Some(f@)) == launched(old(self)@, data@, is_fin, now),
    {
        let seq: SeqNo = self.snd_nxt;
        self.snd_nxt = self.snd_nxt.wrapping_add(1);
        let copy: Vec<u8> = vstd::slice::slice_to_vec(data.as_slice());
        self.place(Sent { seq, data: copy, sent_at: now, retx: 0, is_fin });
        let kind: Kind = if is_fin {
            Kind::Fin
        } else {
            Kind::Data
        };
        make_frame(self.stream_id, kind, Some(seq), data)
    }

    /// Takes the first queued segment that is still in flight.
    fn next_queued(&mut self) -> (r: Option<usize>)
        requires
            old(self).wf(),
        ensures
            final(self).wf(),
            ({
                let m = old(self)@;
                let i = first_queued(m.fast_retx, m.inflight, 0);
                match r {
                    Some(k) => {
                        &&& i < m.fast_retx.len()
                        &&& k == rank(m.inflight, m.fast_retx[i as int])
                        &&& k < m.inflight.len()
                        &&& final(self)@ == (StreamModel {
                            fast_retx: m.fast_retx.skip(i as int + 1),
                            ..m
                        })
                    },
                    None => {
                        &&& i == m.fast_retx.len()
                        &&& final(self)@ == (StreamModel { fast_retx: Seq::empty(), ..m })
                    },
                }
            }),
    {
        let ghost m = self@;
        let ghost mut i: nat = 0;
        assert(m.fast_retx.skip(0) =~= m.fast_retx);
        while self.fast_retx.len() > 0
            invariant
                self.wf(),
                m == old(self)@,
                i <= m.fast_retx.len(),
                self@ == (StreamModel { fast_retx: m.fast_retx.skip(i as int), ..m }),
                first_queued(m.fast_retx, m.inflight, 0) == first_queued(
                    m.fast_retx,
                    m.inflight,
                    i,
                ),
            decreases m.fast_retx.len() - i,
        {
            match self.fast_retx.pop_front() {
                Some(seq) => {
                    assert(seq == m.fast_retx[i as int]);
                    assert(self@ =~= (StreamModel {
                        fast_retx: m.fast_retx.skip(i as int + 1),
                        ..m
                    }));
                    if let Some(k) = self.position(seq) {
                        return Some(k);
                    }
                    proof {
                        i = i + 1;
                    }
                },
                None => {},
            }
        }
        assert(self@ =~= (StreamModel { fast_retx: Seq::empty(), ..m }));
        None
    }

    /// The first segment that is due.
    fn next_due(&self, now: u64) -> (r: Option<usize>)
        ensures
            ({
                let k = first_due(self@.inflight, self@.rto_ms, now, 0);
                match r {
                    Some(i) => i == k && k < self@.inflight.len(),
                    None => k == self@.inflight.len(),
                }
            }),
    {
        let mut i: usize = 0;
        while i < self.inflight.len()
            invariant
                i <= self.inflight.len(),
                first_due(self@.inflight, self@.rto_ms, now, 0) == first_due(
                    self@.inflight,
                    self@.rto_ms,
                    now,
                    i as nat,
                ),
            decreases self.inflight.len() - i,
        {
            let sent_at: u64 = self.inflight[i].sent_at;
            assert(self@.inflight[i as int].sent_at == sent_at);
            if now >= sent_at && now - sent_at >= self.rto_ms {
                return Some(i);
            }
            i = i + 1;
        }
        None
    }

    /// What is sent where nothing is to be sent again.
    fn poll_fresh(&mut self, now: u64) -> (f: Option<Frame>)
        requires
            old(self).wf(),
        ensures
            final(self).wf(),
            (final(self)@, frame_view(f)) == polled_fresh(old(self)@, now),
    {
        if let Some(seq) = self.nack_pending {
            self.nack_pending = None;
            return Some(make_frame(self.stream_id, Kind::Nack, Some(seq), Vec::new()));
        }
        if self.ack_pending {
            self.ack_pending = false;
            return Some(make_frame(self.stream_id, Kind::Ack, Some(self.rcv_nxt), Vec::new()));
        }
        let room: bool = self.inflight_count() < self.cfg.send_window;
        if room && self.outbox.len() > 0 {
            let take: usize = if self.outbox.len() <= self.cfg.max_segment {
                self.outbox.len()
            } else {
                self.cfg.max_segment
            };
            let rest: Vec<u8> = self.outbox.split_off(take);
            let data: Vec<u8> = vstd::slice::slice_to_vec(self.outbox.as_slice());
            self.outbox = rest;
            assert(data@ =~= old(self)@.outbox.take(take as int));
            assert(self@.outbox =~= old(self)@.outbox.skip(take as int));
            return Some(self.launch(data, false, now));
        }
        if self.closing && self.fin_seq.is_none() && self.outbox.len() == 0 && room {
            let seq: SeqNo = self.snd_nxt;
            let f: Frame = self.launch(Vec::new(), true, now);
            self.fin_seq = Some(seq);
            self.update_state();
            return Some(f);
        }
        None
    }

    /// Pulls the next frame to send at time `now`, if anything is due. In order: an RST, a segment that
    /// the peer reported missing, the first segment whose timeout has passed, a NACK, an
    /// acknowledgement, a new segment, the FIN.
    pub fn poll_transmit(&mut self, now: u64) -> (f: Option<Frame>)
        requires
            old(self).wf(),
        ensures
            final(self).wf(),
            (final(self)@, frame_view(f)) == polled(old(self)@, now),
    {
        if self.rst_pending {
            self.rst_pending = false;
            return Some(make_frame(self.stream_id, Kind::Rst, None, Vec::new()));
        }
        if self.state == State::Reset {
            return None;
        }
        if self.state == State::Closed {
            if self.ack_pending {
                self.ack_pending = false;
                return Some(make_frame(self.stream_id, Kind::Ack, Some(self.rcv_nxt), Vec::new()));
            }
            return None;
        }
        if let Some(k) = self.next_queued() {
            return Some(self.resend(k, now));
        }
        if let Some(k) = self.next_due(now) {
            self.rto_ms = if self.rto_ms <= self.cfg.max_rto_ms / 2 {
                self.rto_ms * 2
            } else {
                self.cfg.max_rto_ms
            };
            return Some(self.resend(k, now));
        }
        self.poll_fresh(now)
    }
}

} // verus!
