//! The streams of one session: which of them sends next, and where an arriving frame goes.
use vstd::prelude::*;

use crate::table;
use crate::table::Table;
use crate::tunnel::arq;
use crate::tunnel::arq::{Config, SeqNo, State, Stream, StreamModel};
use crate::tunnel::frame::{Frame, FrameModel, Kind};

verus! {

/// One stream of a session.
#[derive(Debug)]
pub(crate) struct Lane {
    /// The reliable stream.
    pub(crate) stream: Stream,
    /// The target address that the server dials for the stream.
    pub(crate) target: Vec<u8>,
    /// The stream's opening was acknowledged, so it may send.
    pub(crate) open: bool,
    /// The target was handed out to be dialed.
    pub(crate) dialed: bool,
    /// When the opening was last sent.
    pub(crate) last_open_ms: Option<u64>,
}

/// What is known of one stream of a session.
pub struct LaneModel {
    /// The reliable stream.
    pub stream: StreamModel,
    /// The target address.
    pub target: Seq<u8>,
    /// The stream may send.
    pub open: bool,
    /// The target was handed out.
    pub dialed: bool,
    /// When the opening was last sent.
    pub last_open_ms: Option<u64>,
}

pub(crate) open spec fn lane_model(l: Lane) -> LaneModel {
    LaneModel {
        stream: l.stream@,
        target: l.target@,
        open: l.open,
        dialed: l.dialed,
        last_open_ms: l.last_open_ms,
    }
}

pub(crate) open spec fn lanes_model(s: Seq<(u64, Lane)>) -> Seq<(u64, LaneModel)> {
    table::mapped(s, |l: Lane| lane_model(l))
}

/// Streams stand by rising id, and each is well formed.
pub open spec fn lanes_ok(s: Seq<(u64, LaneModel)>) -> bool {
    &&& table::keyed(s)
    &&& forall|i: int|
        0 <= i < s.len() ==> (#[trigger] s[i]).0 <= 0xffff && arq::stream_ok(s[i].1.stream)
}

/// A stream that has been opened towards `target`.
pub open spec fn fresh_lane(id: u16, cfg: Config, target: Seq<u8>, open: bool) -> LaneModel {
    LaneModel {
        stream: arq::new_stream(id, cfg, 0),
        target,
        open,
        dialed: false,
        last_open_ms: None,
    }
}

/// Where the turn goes after stream `last` was served: the next id, or the first.
pub open spec fn start_after(s: Seq<(u64, LaneModel)>, last: u16) -> nat {
    let r = table::rank(s, (last + 1) as u64);
    if r < s.len() {
        r
    } else {
        0
    }
}

/// The streams, asked in turn from place `start` on, `k` of them having been asked: the first open one
/// that has a frame sends it.
pub open spec fn turn(s: Seq<(u64, LaneModel)>, start: nat, k: nat, now: u64) -> (
    Seq<(u64, LaneModel)>,
    Option<(u16, FrameModel)>,
)
    decreases s.len() - k,
{
    if k >= s.len() {
        (s, None)
    } else {
        let i = ((start + k) % s.len()) as int;
        let (id, lane) = s[i];
        if !lane.open {
            turn(s, start, k + 1, now)
        } else {
            let (next, f) = arq::polled(lane.stream, now);
            let t = s.update(i, (id, LaneModel { stream: next, ..lane }));
            match f {
                Some(f) => (t, Some((id as u16, f))),
                None => turn(t, start, k + 1, now),
            }
        }
    }
}

/// The next frame of the streams after stream `last` was served.
pub open spec fn next_turn(s: Seq<(u64, LaneModel)>, last: u16, now: u64) -> (
    Seq<(u64, LaneModel)>,
    Option<(u16, FrameModel)>,
) {
    turn(s, start_after(s, last), 0, now)
}

/// The streams after a frame was handed to stream `id`, if it exists.
pub open spec fn routed(s: Seq<(u64, LaneModel)>, id: u16, f: FrameModel, now: u64) -> Seq<
    (u64, LaneModel),
> {
    if table::holds(s, id as u64) {
        let lane = table::at(s, id as u64);
        table::with(
            s,
            id as u64,
            LaneModel { stream: arq::frame_taken(lane.stream, f, now), ..lane },
        )
    } else {
        s
    }
}

/// A stream with another segment size, at least one.
pub open spec fn resized(m: StreamModel, size: usize) -> StreamModel {
    StreamModel {
        cfg: Config {
            max_segment: if size > 0 {
                size
            } else {
                1
            },
            ..m.cfg
        },
        ..m
    }
}

/// The streams with another segment size.
pub open spec fn all_resized(s: Seq<(u64, LaneModel)>, size: usize) -> Seq<(u64, LaneModel)> {
    table::mapped(s, |l: LaneModel| LaneModel { stream: resized(l.stream, size), ..l })
}

/// The stream is closed or reset.
pub open spec fn over(m: StreamModel) -> bool {
    m.state == State::Closed || m.state == State::Reset
}

/// The ids.
pub open spec fn ids(s: Seq<(u64, LaneModel)>) -> Seq<u16> {
    Seq::new(s.len(), |i: int| s[i].0 as u16)
}

pub(crate) proof fn lemma_lanes(s: Seq<(u64, Lane)>)
    ensures
        lanes_model(s).len() == s.len(),
        table::keyed(lanes_model(s)) == table::keyed(s),
        forall|i: int|
            0 <= i < s.len() ==> #[trigger] lanes_model(s)[i] == (s[i].0, lane_model(s[i].1)),
{
    let m = lanes_model(s);
    if table::keyed(m) {
        table::lemma_same_keys(m, s, 0);
    }
    if table::keyed(s) {
        table::lemma_same_keys(s, m, 0);
    }
}

proof fn lemma_update_keeps_keys(s: Seq<(u64, LaneModel)>, i: int, l: LaneModel)
    requires
        lanes_ok(s),
        0 <= i < s.len(),
        arq::stream_ok(l.stream),
    ensures
        lanes_ok(s.update(i, (s[i].0, l))),
{
    let t = s.update(i, (s[i].0, l));
    table::lemma_same_keys(s, t, 0);
}

/// Changing the entry of key `k` is putting the changed stream in.
pub(crate) proof fn lemma_lane_set(s: Seq<(u64, Lane)>, t: Seq<(u64, Lane)>, i: int, k: u64)
    requires
        lanes_ok(lanes_model(s)),
        table::holds(s, k),
        i == table::rank(s, k),
        t.len() == s.len(),
        t == s.update(i, (s[i].0, t[i].1)),
        arq::stream_ok(lane_model(t[i].1).stream),
    ensures
        table::holds(lanes_model(s), k),
        lanes_model(s)[i] == (k, lane_model(s[i].1)),
        table::at(lanes_model(s), k) == lane_model(s[i].1),
        lanes_model(t) == table::with(lanes_model(s), k, lane_model(t[i].1)),
        lanes_ok(lanes_model(t)),
{
    let m = lanes_model(s);
    lemma_lanes(s);
    lemma_lanes(t);
    table::lemma_same_keys(s, m, k);
    assert(m[i] == (s[i].0, lane_model(s[i].1)));
    assert(lanes_model(t) =~= m.update(i, (m[i].0, lane_model(t[i].1))));
    lemma_update_keeps_keys(m, i, lane_model(t[i].1));
}

/// Looking a stream up by its id.
pub(crate) proof fn lemma_lane_get(s: Seq<(u64, Lane)>, k: u64)
    requires
        lanes_ok(lanes_model(s)),
    ensures
        table::keyed(s),
        table::holds(lanes_model(s), k) == table::holds(s, k),
        table::rank(lanes_model(s), k) == table::rank(s, k),
        table::holds(s, k) ==> table::at(lanes_model(s), k) == lane_model(table::at(s, k))
            && arq::stream_ok(lane_model(table::at(s, k)).stream),
{
    let m = lanes_model(s);
    lemma_lanes(s);
    table::lemma_same_keys(s, m, k);
    if table::holds(s, k) {
        let i = table::rank(s, k) as int;
        assert(m[i] == (s[i].0, lane_model(s[i].1)));
    }
}

/// Putting a stream in.
pub(crate) proof fn lemma_lane_put(s: Seq<(u64, Lane)>, k: u64, l: Lane)
    requires
        lanes_ok(lanes_model(s)),
        k <= 0xffff,
        arq::stream_ok(lane_model(l).stream),
    ensures
        lanes_model(table::with(s, k, l)) == table::with(lanes_model(s), k, lane_model(l)),
        lanes_ok(lanes_model(table::with(s, k, l))),
{
    let f = |l: Lane| lane_model(l);
    let m = lanes_model(s);
    lemma_lanes(s);
    table::lemma_mapped(s, f, k);
    let t = table::with(s, k, l);
    assert(table::mapped(t, f) == table::with(table::mapped(s, f), k, f(l)));
    table::lemma_with(m, k, lane_model(l));
    table::lemma_rank(m, k);
    let n = table::with(m, k, lane_model(l));
    let r = table::rank(m, k) as int;
    assert forall|i: int| 0 <= i < n.len() implies (#[trigger] n[i]).0 <= 0xffff
        && arq::stream_ok(n[i].1.stream) by {
        if i == r {
        } else if table::holds(m, k) || i < r {
            assert(n[i] == m[i]);
        } else {
            assert(n[i] == m[i - 1]);
        }
    }
}

/// Asks the streams in turn for the next frame.
pub(crate) fn next_frame(lanes: &mut Table<Lane>, last: u16, now: u64) -> (r: Option<(u16, Frame)>)
    requires
        lanes_ok(lanes_model(old(lanes)@)),
    ensures
        lanes_ok(lanes_model(final(lanes)@)),
        ({
            let (t, f) = next_turn(lanes_model(old(lanes)@), last, now);
            &&& lanes_model(final(lanes)@) == t
            &&& match r {
                Some((id, frame)) => f == Some((id, frame@)),
                None => f is None,
            }
        }),
{
    let n: usize = lanes.len();
    let ghost s = lanes_model(lanes@);
    proof {
        lemma_lanes(lanes@);
    }
    let mut start: usize = 0;
    while start < n && lanes.key(start) <= last as u64
        invariant
            start <= n,
            n == lanes@.len(),
            s == lanes_model(lanes@),
            s.len() == n,
            lanes_ok(s),
            forall|i: int| 0 <= i < start ==> (#[trigger] s[i]).0 <= last,
        decreases n - start,
    {
        proof {
            lemma_lanes(lanes@);
        }
        start = start + 1;
    }
    proof {
        lemma_lanes(lanes@);
        table::lemma_rank_is(s, (last + 1) as u64, start as int);
    }
    if start >= n {
        start = 0;
    }
    let mut k: usize = 0;
    assert(start as nat == start_after(s, last));
    while k < n
        invariant
            k <= n,
            n == lanes@.len(),
            n > 0 ==> start < n,
            s == lanes_model(old(lanes)@),
            start as nat == start_after(s, last),
            lanes_ok(lanes_model(lanes@)),
            turn(s, start as nat, 0, now) == turn(
                lanes_model(lanes@),
                start as nat,
                k as nat,
                now,
            ),
        decreases n - k,
    {
        let i: usize = if k < n - start {
            start + k
        } else {
            k - (n - start)
        };
        let ghost m = lanes_model(lanes@);
        proof {
            lemma_lanes(lanes@);
            assert(m.len() == n);
            assert(i as int == (start + k) % (n as int)) by {
                if k < n - start {
                    vstd::arithmetic::div_mod::lemma_small_mod((start + k) as nat, n as nat);
                } else {
                    vstd::arithmetic::div_mod::lemma_small_mod(i as nat, n as nat);
                    vstd::arithmetic::div_mod::lemma_mod_add_multiples_vanish(i as int, n as int);
                }
            }
            assert(m[i as int] == (lanes@[i as int].0, lane_model(lanes@[i as int].1)));
        }
        if lanes.value(i).open {
            let id: u64 = lanes.key(i);
            let ghost before = lanes@;
            let polled: Option<Frame> = lanes.value_mut(i).stream.poll_transmit(now);
            proof {
                let (next, f) = arq::polled(m[i as int].1.stream, now);
                let l = LaneModel { stream: next, ..m[i as int].1 };
                assert(lanes@[i as int].1.stream@ == next);
                lemma_lanes(lanes@);
                assert(lanes_model(lanes@) =~= m.update(i as int, (m[i as int].0, l)));
                lemma_update_keeps_keys(m, i as int, l);
            }
            if let Some(f) = polled {
                return Some((id as u16, f));
            }
        }
        k = k + 1;
    }
    proof {
        lemma_lanes(lanes@);
    }
    None
}

/// Hands a frame to stream `id`, if it exists.
pub(crate) fn route(lanes: &mut Table<Lane>, id: u16, f: &Frame, now: u64)
    requires
        lanes_ok(lanes_model(old(lanes)@)),
    ensures
        lanes_ok(lanes_model(final(lanes)@)),
        lanes_model(final(lanes)@) == routed(lanes_model(old(lanes)@), id, f@, now),
{
    let ghost m = lanes_model(lanes@);
    proof {
        lemma_lanes(lanes@);
        table::lemma_same_keys(lanes@, m, id as u64);
    }
    if let Some(i) = lanes.find(id as u64) {
        assert(m[i as int] == (lanes@[i as int].0, lane_model(lanes@[i as int].1)));
        lanes.value_mut(i).stream.on_frame(f, now);
        proof {
            let l = LaneModel {
                stream: arq::frame_taken(m[i as int].1.stream, f@, now),
                ..m[i as int].1
            };
            lemma_lanes(lanes@);
            assert(lanes_model(lanes@) =~= m.update(i as int, (m[i as int].0, l)));
            lemma_update_keeps_keys(m, i as int, l);
        }
    }
}

/// Sets the segment size of every stream.
pub(crate) fn resize_all(lanes: &mut Table<Lane>, size: usize)
    requires
        lanes_ok(lanes_model(old(lanes)@)),
    ensures
        lanes_ok(lanes_model(final(lanes)@)),
        lanes_model(final(lanes)@) == all_resized(lanes_model(old(lanes)@), size),
{
    let ghost m = lanes_model(lanes@);
    let n: usize = lanes.len();
    let mut i: usize = 0;
    proof {
        lemma_lanes(lanes@);
    }
    while i < n
        invariant
            i <= n,
            n == lanes@.len(),
            n == m.len(),
            lanes_ok(lanes_model(lanes@)),
            m == lanes_model(old(lanes)@),
            forall|j: int|
                0 <= j < n ==> #[trigger] lanes_model(lanes@)[j] == if j < i {
                    all_resized(m, size)[j]
                } else {
                    m[j]
                },
        decreases n - i,
    {
        let ghost t = lanes_model(lanes@);
        proof {
            lemma_lanes(lanes@);
            assert(t[i as int] == (lanes@[i as int].0, lane_model(lanes@[i as int].1)));
        }
        lanes.value_mut(i).stream.set_max_segment(size);
        proof {
            let l = LaneModel { stream: resized(m[i as int].1.stream, size), ..m[i as int].1 };
            lemma_lanes(lanes@);
            assert(lanes_model(lanes@) =~= t.update(i as int, (m[i as int].0, l)));
            lemma_update_keeps_keys(t, i as int, l);
        }
        i = i + 1;
    }
    proof {
        lemma_lanes(lanes@);
    }
    assert(lanes_model(lanes@) =~= all_resized(m, size));
}

/// The streams after bytes were queued on stream `id`, if it exists.
pub open spec fn lane_written(s: Seq<(u64, LaneModel)>, id: u16, data: Seq<u8>) -> Seq<
    (u64, LaneModel),
> {
    if table::holds(s, id as u64) {
        let l = table::at(s, id as u64);
        table::with(
            s,
            id as u64,
            LaneModel {
                stream: StreamModel { outbox: l.stream.outbox + data, ..l.stream },
                ..l
            },
        )
    } else {
        s
    }
}

/// The streams after the delivered bytes of stream `id` were taken, if it exists.
pub open spec fn lane_read(s: Seq<(u64, LaneModel)>, id: u16) -> Seq<(u64, LaneModel)> {
    if table::holds(s, id as u64) {
        let l = table::at(s, id as u64);
        table::with(
            s,
            id as u64,
            LaneModel { stream: StreamModel { delivered: Seq::empty(), ..l.stream }, ..l },
        )
    } else {
        s
    }
}

/// The streams after a half-close of stream `id` was asked for, if it exists.
pub open spec fn lane_closing(s: Seq<(u64, LaneModel)>, id: u16) -> Seq<(u64, LaneModel)> {
    if table::holds(s, id as u64) {
        let l = table::at(s, id as u64);
        table::with(
            s,
            id as u64,
            LaneModel { stream: StreamModel { closing: true, ..l.stream }, ..l },
        )
    } else {
        s
    }
}

/// The bytes that stream `id` has delivered; none where it does not exist.
pub open spec fn lane_delivered(s: Seq<(u64, LaneModel)>, id: u16) -> Seq<u8> {
    if table::holds(s, id as u64) {
        table::at(s, id as u64).stream.delivered
    } else {
        Seq::empty()
    }
}

/// Queues bytes on stream `id`, if it exists.
pub(crate) fn write_to(lanes: &mut Table<Lane>, id: u16, data: &[u8])
    requires
        lanes_ok(lanes_model(old(lanes)@)),
    ensures
        lanes_ok(lanes_model(final(lanes)@)),
        all_small(lanes_model(old(lanes)@)) ==> all_small(lanes_model(final(lanes)@)),
        lanes_model(final(lanes)@) == lane_written(lanes_model(old(lanes)@), id, data@),
{
    proof {
        lemma_lane_get(lanes@, id as u64);
    }
    if let Some(i) = lanes.find(id as u64) {
        lanes.value_mut(i).stream.write(data);
        proof {
            lemma_lane_set(old(lanes)@, lanes@, i as int, id as u64);
            lemma_set_small(old(lanes)@, lanes@, i as int, id as u64);
        }
    }
}

/// Takes the bytes that stream `id` has delivered.
pub(crate) fn read_from(lanes: &mut Table<Lane>, id: u16) -> (data: Vec<u8>)
    requires
        lanes_ok(lanes_model(old(lanes)@)),
    ensures
        lanes_ok(lanes_model(final(lanes)@)),
        all_small(lanes_model(old(lanes)@)) ==> all_small(lanes_model(final(lanes)@)),
        data@ == lane_delivered(lanes_model(old(lanes)@), id),
        lanes_model(final(lanes)@) == lane_read(lanes_model(old(lanes)@), id),
{
    proof {
        lemma_lane_get(lanes@, id as u64);
    }
    match lanes.find(id as u64) {
        Some(i) => {
            let data: Vec<u8> = lanes.value_mut(i).stream.read();
            proof {
                lemma_lane_set(old(lanes)@, lanes@, i as int, id as u64);
                lemma_set_small(old(lanes)@, lanes@, i as int, id as u64);
            }
            data
        },
        None => Vec::new(),
    }
}

/// Asks for a half-close of stream `id`, if it exists.
pub(crate) fn close_one(lanes: &mut Table<Lane>, id: u16)
    requires
        lanes_ok(lanes_model(old(lanes)@)),
    ensures
        lanes_ok(lanes_model(final(lanes)@)),
        all_small(lanes_model(old(lanes)@)) ==> all_small(lanes_model(final(lanes)@)),
        lanes_model(final(lanes)@) == lane_closing(lanes_model(old(lanes)@), id),
{
    proof {
        lemma_lane_get(lanes@, id as u64);
    }
    if let Some(i) = lanes.find(id as u64) {
        lanes.value_mut(i).stream.close();
        proof {
            lemma_lane_set(old(lanes)@, lanes@, i as int, id as u64);
            lemma_set_small(old(lanes)@, lanes@, i as int, id as u64);
        }
    }
}

proof fn lemma_set_small(s: Seq<(u64, Lane)>, t: Seq<(u64, Lane)>, i: int, k: u64)
    requires
        lanes_ok(lanes_model(s)),
        0 <= i < s.len(),
        lanes_model(s).len() == lanes_model(t).len(),
        t == s.update(i, (s[i].0, t[i].1)),
        small(lane_model(s[i].1).stream) ==> small(lane_model(t[i].1).stream),
    ensures
        all_small(lanes_model(s)) ==> all_small(lanes_model(t)),
{
    lemma_lanes(s);
    lemma_lanes(t);
    let a = lanes_model(s);
    let b = lanes_model(t);
    if all_small(a) {
        assert forall|j: int| 0 <= j < b.len() implies small((#[trigger] b[j]).1.stream) by {
            assert(small(a[j].1.stream));
            assert(a[j] == (s[j].0, lane_model(s[j].1)));
            assert(b[j] == (t[j].0, lane_model(t[j].1)));
        }
    }
}

/// The ids of the streams, in order.
pub(crate) fn lane_ids(lanes: &Table<Lane>) -> (out: Vec<u16>)
    requires
        lanes_ok(lanes_model(lanes@)),
    ensures
        out@ == ids(lanes_model(lanes@)),
{
    let mut out: Vec<u16> = Vec::new();
    let n: usize = lanes.len();
    let mut i: usize = 0;
    proof {
        lemma_lanes(lanes@);
    }
    while i < n
        invariant
            i <= n,
            n == lanes@.len(),
            out@.len() == i,
            lanes_ok(lanes_model(lanes@)),
            forall|j: int| 0 <= j < i ==> out@[j] == ids(lanes_model(lanes@))[j],
        decreases n - i,
    {
        proof {
            lemma_lanes(lanes@);
        }
        out.push(lanes.key(i) as u16);
        i = i + 1;
    }
    proof {
        lemma_lanes(lanes@);
    }
    assert(out@ =~= ids(lanes_model(lanes@)));
    out
}

// ---- the size of what is sent ----

/// No segment is longer than 65535 bytes.
pub open spec fn small(m: StreamModel) -> bool {
    &&& m.cfg.max_segment <= 0xffff
    &&& forall|i: int| 0 <= i < m.inflight.len() ==> (#[trigger] m.inflight[i]).data.len() <= 0xffff
}

/// No segment of any of the streams is longer than 65535 bytes.
pub open spec fn all_small(s: Seq<(u64, LaneModel)>) -> bool {
    forall|i: int| 0 <= i < s.len() ==> small((#[trigger] s[i]).1.stream)
}

proof fn lemma_drained_small(m: StreamModel)
    requires
        m.reorder.dom().finite(),
    ensures
        arq::advanced(m).inflight == m.inflight,
        arq::advanced(m).cfg == m.cfg,
    decreases m.reorder.dom().len(),
{
    if m.reorder.contains_key(m.rcv_nxt) {
        let next = StreamModel {
            delivered: m.delivered + m.reorder[m.rcv_nxt],
            reorder: m.reorder.remove(m.rcv_nxt),
            rcv_nxt: arq::step(m.rcv_nxt, 1),
            ..m
        };
        lemma_drained_small(next);
        assert(arq::drained(m) == arq::drained(next));
    }
}

pub(crate) proof fn lemma_frame_keeps_small(m: StreamModel, f: FrameModel, now: u64)
    requires
        arq::stream_ok(m),
        small(m),
    ensures
        small(arq::frame_taken(m, f, now)),
{
    match (f.kind, f.seq) {
        (Kind::Data, Some(q)) => {
            lemma_drained_small(
                StreamModel {
                    delivered: m.delivered + f.payload,
                    rcv_nxt: arq::step(m.rcv_nxt, 1),
                    ack_pending: true,
                    ..m
                },
            );
        },
        (Kind::Fin, Some(q)) => {
            lemma_drained_small(
                StreamModel {
                    ack_pending: true,
                    remote_fin_seq: if m.remote_fin_seq is None {
                        Some(q)
                    } else {
                        m.remote_fin_seq
                    },
                    ..m
                },
            );
        },
        (Kind::Ack, Some(ack)) => {
            arq::lemma_unacked_in_order(m.inflight, ack);
            let t = arq::unacked(m.inflight, ack);
            assert forall|i: int| 0 <= i < t.len() implies (#[trigger] t[i]).data.len() <= 0xffff by {
                assert(t.contains(t[i]));
                let n = choose|n: int| 0 <= n < m.inflight.len() && m.inflight[n] == t[i];
                assert(m.inflight[n].data.len() <= 0xffff);
            }
        },
        _ => {},
    }
}

proof fn lemma_launch_small(m: StreamModel, data: Seq<u8>, is_fin: bool, now: u64)
    requires
        arq::stream_ok(m),
        small(m),
        data.len() <= 0xffff,
    ensures
        small(arq::launched(m, data, is_fin, now).0),
{
    let e = arq::SentModel { seq: m.snd_nxt, data, sent_at: now, retx: 0, is_fin };
    arq::lemma_rank(m.inflight, e.seq);
    let t = arq::placed(m.inflight, e);
    let r = arq::rank(m.inflight, e.seq) as int;
    assert forall|i: int| 0 <= i < t.len() implies (#[trigger] t[i]).data.len() <= 0xffff by {
        if i == r {
        } else if arq::in_flight(m.inflight, e.seq) || i < r {
            assert(t[i] == m.inflight[i]);
        } else {
            assert(t[i] == m.inflight[i - 1]);
        }
    }
}

proof fn lemma_queued_in_flight(q: Seq<SeqNo>, inflight: Seq<arq::SentModel>, i: nat)
    ensures
        ({
            let k = arq::first_queued(q, inflight, i);
            k < q.len() ==> arq::in_flight(inflight, q[k as int])
        }),
    decreases q.len() - i,
{
    if i < q.len() {
        lemma_queued_in_flight(q, inflight, i + 1);
    }
}

proof fn lemma_poll_keeps_small(m: StreamModel, now: u64)
    requires
        arq::stream_ok(m),
        small(m),
    ensures
        small(arq::polled(m, now).0),
        arq::polled(m, now).1 matches Some(f) ==> f.payload.len() <= 0xffff,
{
    if !m.rst_pending && !over(m) {
        let i = arq::first_queued(m.fast_retx, m.inflight, 0);
        if i < m.fast_retx.len() {
            lemma_queued_in_flight(m.fast_retx, m.inflight, 0);
            assert(m.inflight[arq::rank(m.inflight, m.fast_retx[i as int]) as int].data.len()
                <= 0xffff);
        } else {
            let e = StreamModel { fast_retx: Seq::empty(), ..m };
            let k = arq::first_due(e.inflight, e.rto_ms, now, 0);
            if k < e.inflight.len() {
                assert(m.inflight[k as int].data.len() <= 0xffff);
            } else if e.nack_pending is None && !e.ack_pending && arq::has_room(e) {
                if e.outbox.len() > 0 {
                    let n = arq::segment_len(e);
                    lemma_launch_small(
                        StreamModel { outbox: e.outbox.skip(n), ..e },
                        e.outbox.take(n),
                        false,
                        now,
                    );
                } else if e.closing && e.fin_seq is None {
                    lemma_launch_small(e, Seq::empty(), true, now);
                }
            }
        }
    }
}

pub(crate) proof fn lemma_turn_keeps_small(
    s: Seq<(u64, LaneModel)>,
    start: nat,
    k: nat,
    now: u64,
)
    requires
        all_small(s),
        forall|i: int| 0 <= i < s.len() ==> arq::stream_ok((#[trigger] s[i]).1.stream),
    ensures
        all_small(turn(s, start, k, now).0),
        turn(s, start, k, now).1 matches Some((_, f)) ==> f.payload.len() <= 0xffff,
    decreases s.len() - k,
{
    if k < s.len() {
        let i = ((start + k) % s.len()) as int;
        let (id, lane) = s[i];
        if !lane.open {
            lemma_turn_keeps_small(s, start, k + 1, now);
        } else {
            assert(small(s[i].1.stream) && arq::stream_ok(s[i].1.stream));
            lemma_poll_keeps_small(lane.stream, now);
            lemma_poll_keeps_ok(lane.stream, now);
            let (next, f) = arq::polled(lane.stream, now);
            let t = s.update(i, (id, LaneModel { stream: next, ..lane }));
            if f is None {
                lemma_turn_keeps_small(t, start, k + 1, now);
            }
        }
    }
}

proof fn lemma_poll_keeps_ok(m: StreamModel, now: u64)
    requires
        arq::stream_ok(m),
    ensures
        arq::stream_ok(arq::polled(m, now).0),
{
    if !m.rst_pending && !over(m) {
        let i = arq::first_queued(m.fast_retx, m.inflight, 0);
        let e = StreamModel { fast_retx: Seq::empty(), ..m };
        if i < m.fast_retx.len() {
            lemma_queued_in_flight(m.fast_retx, m.inflight, 0);
        } else if arq::first_due(e.inflight, e.rto_ms, now, 0) >= e.inflight.len()
            && arq::has_room(e) {
            let n = arq::segment_len(e);
            let a = arq::SentModel {
                seq: m.snd_nxt,
                data: e.outbox.take(n),
                sent_at: now,
                retx: 0,
                is_fin: false,
            };
            let b = arq::SentModel {
                seq: m.snd_nxt,
                data: Seq::empty(),
                sent_at: now,
                retx: 0,
                is_fin: true,
            };
            arq::lemma_placed_in_order(e.inflight, a);
            arq::lemma_placed_in_order(e.inflight, b);
        }
    }
}

// ---- turns ----

/// The `j`th stream from place `start` on may send and has something to send.
pub open spec fn ready(s: Seq<(u64, LaneModel)>, start: nat, j: nat, now: u64) -> bool {
    let lane = s[((start + j) % s.len()) as int].1;
    lane.open && arq::polled(lane.stream, now).1 is Some
}

/// The `j`th stream from place `start` on sends frame `f`: it is the first, from the `k`th on, that
/// has something to send.
pub open spec fn served(
    s: Seq<(u64, LaneModel)>,
    start: nat,
    k: nat,
    j: nat,
    now: u64,
    id: u16,
    f: FrameModel,
) -> bool {
    let i = ((start + j) % s.len()) as int;
    &&& k <= j < s.len()
    &&& ready(s, start, j, now)
    &&& id == s[i].0
    &&& arq::polled(s[i].1.stream, now).1 == Some(f)
    &&& forall|h: nat| k <= h < j ==> !#[trigger] ready(s, start, h, now)
}

/// Streams take turns: the one that sends is the first open one, going round from the one after the
/// last that was served, that has something to send.
pub proof fn lemma_turn_goes_round(s: Seq<(u64, LaneModel)>, start: nat, k: nat, now: u64)
    requires
        k <= s.len(),
        forall|i: int| 0 <= i < s.len() ==> (#[trigger] s[i]).0 <= 0xffff,
    ensures
        turn(s, start, k, now).1 matches Some(sent) ==> exists|j: nat| #[trigger]
            served(s, start, k, j, now, sent.0, sent.1),
        turn(s, start, k, now).1 is None ==> forall|j: nat|
            k <= j < s.len() ==> !#[trigger] ready(s, start, j, now),
    decreases s.len() - k,
{
    if k < s.len() {
        let i = ((start + k) % s.len()) as int;
        let (id, lane) = s[i];
        assert(s[i].0 <= 0xffff);
        let (next, f) = arq::polled(lane.stream, now);
        if lane.open && f is Some {
            assert(turn(s, start, k, now).1 == Some((id as u16, f->0)));
            assert(served(s, start, k, k, now, id as u16, f->0));
            let sent = turn(s, start, k, now).1->0;
            assert(served(s, start, k, k, now, sent.0, sent.1));
        } else {
            let t = if lane.open {
                s.update(i, (id, LaneModel { stream: next, ..lane }))
            } else {
                s
            };
            lemma_turn_goes_round(t, start, k + 1, now);
            assert forall|j: nat| k < j < s.len() implies ready(t, start, j, now)
                == #[trigger] ready(s, start, j, now) && t[((start + j) % s.len()) as int]
                == s[((start + j) % s.len()) as int] by {
                lemma_other_place(start, k, j, s.len());
            }
            assert(!ready(s, start, k, now));
            assert(turn(s, start, k, now) == turn(t, start, k + 1, now));
            if turn(t, start, k + 1, now).1 is None {
                assert forall|j: nat| k <= j < s.len() implies !#[trigger] ready(
                    s,
                    start,
                    j,
                    now,
                ) by {
                    if j > k {
                        assert(!ready(t, start, j, now));
                    }
                }
            }
            if turn(t, start, k + 1, now).1 is Some {
                let (sid, g) = turn(t, start, k + 1, now).1->0;
                let j = choose|j: nat| #[trigger] served(t, start, k + 1, j, now, sid, g);
                assert(ready(t, start, j, now) == ready(s, start, j, now));
                assert forall|h: nat| k <= h < j implies !#[trigger] ready(s, start, h, now) by {
                    if h > k {
                        assert(!ready(t, start, h, now));
                    }
                }
                assert(served(s, start, k, j, now, sid, g));
                assert(turn(s, start, k, now).1 == Some((sid, g)));
                let sent = turn(s, start, k, now).1->0;
                assert(sent.0 == sid);
                assert(sent.1 == g);
                assert(served(s, start, k, j, now, sent.0, sent.1));
            }
        }
    }
}

proof fn lemma_other_place(start: nat, k: nat, j: nat, n: nat)
    requires
        k < j < n,
    ensures
        (start + k) % n != (start + j) % n,
{
    if (start + k) % n == (start + j) % n {
        vstd::arithmetic::div_mod::lemma_fundamental_div_mod((start + k) as int, n as int);
        vstd::arithmetic::div_mod::lemma_fundamental_div_mod((start + j) as int, n as int);
        let a = (start + k) / n;
        let b = (start + j) / n;
        assert(n * b - n * a == j - k);
        assert(false) by (nonlinear_arith)
            requires
                n * b - n * a == j - k,
                0 < j - k < n,
                n > 0,
        ;
    }
}

/// A frame reaches the stream that it names and no other.
pub proof fn lemma_frames_do_not_cross(
    s: Seq<(u64, LaneModel)>,
    id: u16,
    f: FrameModel,
    now: u64,
    other: u16,
)
    requires
        table::keyed(s),
        other != id,
    ensures
        table::holds(routed(s, id, f, now), other as u64) == table::holds(s, other as u64),
        table::holds(s, other as u64) ==> table::at(routed(s, id, f, now), other as u64)
            == table::at(s, other as u64),
{
    if table::holds(s, id as u64) {
        let lane = table::at(s, id as u64);
        table::lemma_with_other(
            s,
            id as u64,
            LaneModel { stream: arq::frame_taken(lane.stream, f, now), ..lane },
            other as u64,
        );
    }
}

} // verus!
