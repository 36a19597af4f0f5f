//! Reliable streams over a lossy channel.
use spark::tunnel::arq::{seq_lt, Config, State, Stream};
use spark::tunnel::frame::{Frame, Kind};

/// A deterministic pseudo-random channel between two streams: configurable drop / duplicate /
/// reorder, plus a fixed one-way latency, driven by the virtual clock.
struct Sim {
    latency: u64,
    drop_pct: u32,
    dup_pct: u32,
    reorder_pct: u32,
    rng: u64,
    a_to_b: Vec<(u64, u64, Frame)>,
    b_to_a: Vec<(u64, u64, Frame)>,
    counter: u64,
}

impl Sim {
    fn new(latency: u64, drop_pct: u32, dup_pct: u32, reorder_pct: u32, seed: u64) -> Self {
        Sim {
            latency,
            drop_pct,
            dup_pct,
            reorder_pct,
            rng: seed | 1,
            a_to_b: Vec::new(),
            b_to_a: Vec::new(),
            counter: 0,
        }
    }
    fn next_rand(&mut self) -> u32 {
        let mut x = self.rng;
        x ^= x >> 12;
        x ^= x << 25;
        x ^= x >> 27;
        self.rng = x;
        (x.wrapping_mul(0x2545F491_4F6CDD1D) >> 33) as u32
    }
    fn chance(&mut self, pct: u32) -> bool {
        self.next_rand() % 100 < pct
    }
    fn send(&mut self, from_a: bool, frame: Frame, now: u64) {
        if self.chance(self.drop_pct) {
            return;
        }
        let copies = if self.chance(self.dup_pct) { 2 } else { 1 };
        for _ in 0..copies {
            let extra = if self.chance(self.reorder_pct) {
                self.latency + (self.next_rand() as u64 % 50)
            } else {
                0
            };
            let at = now + self.latency + extra;
            let c = self.counter;
            self.counter += 1;
            if from_a {
                self.a_to_b.push((at, c, frame.clone()));
            } else {
                self.b_to_a.push((at, c, frame.clone()));
            }
        }
    }
    fn deliver_due(&mut self, to_b: bool, now: u64) -> Vec<Frame> {
        let q = if to_b {
            &mut self.a_to_b
        } else {
            &mut self.b_to_a
        };
        let mut due: Vec<(u64, u64, Frame)> =
            q.iter().filter(|(at, _, _)| *at <= now).cloned().collect();
        q.retain(|(at, _, _)| *at > now);
        due.sort_by_key(|(at, c, _)| (*at, *c));
        due.into_iter().map(|(_, _, f)| f).collect()
    }
    fn empty(&self) -> bool {
        self.a_to_b.is_empty() && self.b_to_a.is_empty()
    }
}

/// Advance the virtual clock to the next interesting instant: the earliest pending delivery or
/// RTO deadline strictly after `now` (or `now + 1` if nothing is pending).
fn next_time(a: &Stream, b: &Stream, sim: &Sim, now: u64) -> u64 {
    let mut cand: Vec<u64> = Vec::new();
    cand.extend(sim.a_to_b.iter().map(|(at, _, _)| *at));
    cand.extend(sim.b_to_a.iter().map(|(at, _, _)| *at));
    cand.extend(a.next_deadline());
    cand.extend(b.next_deadline());
    cand.into_iter()
        .filter(|&x| x > now)
        .min()
        .unwrap_or(now + 1)
}

/// Pump both streams through the sim until `done` holds or the step budget runs out.
fn pump(
    a: &mut Stream,
    b: &mut Stream,
    sim: &mut Sim,
    got: &mut Vec<u8>,
    max_steps: u64,
    done: impl Fn(&Stream, &Stream, &Sim, &[u8]) -> bool,
) {
    let mut now = 0u64;
    for _ in 0..max_steps {
        while let Some(f) = a.poll_transmit(now) {
            sim.send(true, f, now);
        }
        while let Some(f) = b.poll_transmit(now) {
            sim.send(false, f, now);
        }
        for f in sim.deliver_due(true, now) {
            b.on_frame(&f, now);
        }
        for f in sim.deliver_due(false, now) {
            a.on_frame(&f, now);
        }
        got.extend_from_slice(&b.read());
        if done(a, b, sim, got) {
            return;
        }
        now = next_time(a, b, sim, now);
    }
}

fn run_transfer(
    a: &mut Stream,
    b: &mut Stream,
    sim: &mut Sim,
    payload: &[u8],
    max_steps: u64,
) -> Vec<u8> {
    a.write(payload);
    let mut got = Vec::new();
    let want = payload.len();
    pump(a, b, sim, &mut got, max_steps, |_, _, s, g| {
        g.len() >= want && s.empty()
    });
    got
}

fn payload_of(len: usize) -> Vec<u8> {
    (0..len)
        .map(|i| (i as u8).wrapping_mul(31).wrapping_add(7))
        .collect()
}

#[test]
fn perfect_channel_delivers_in_order() {
    let cfg = Config::default();
    let mut a = Stream::new(1, cfg, 0);
    let mut b = Stream::new(1, cfg, 0);
    let mut sim = Sim::new(10, 0, 0, 0, 0xABCD);
    let payload = payload_of(5000);
    let got = run_transfer(&mut a, &mut b, &mut sim, &payload, 100_000);
    assert_eq!(got, payload);
}

#[test]
fn lossy_channel_recovers_via_rto() {
    let cfg = Config {
        initial_rto_ms: 100,
        min_rto_ms: 20,
        ..Config::default()
    };
    let mut a = Stream::new(1, cfg, 0);
    let mut b = Stream::new(1, cfg, 0);
    let mut sim = Sim::new(10, 30, 0, 0, 0x1357);
    let payload = payload_of(3000);
    let got = run_transfer(&mut a, &mut b, &mut sim, &payload, 1_000_000);
    assert_eq!(got, payload);
}

#[test]
fn reordering_and_duplication_still_deliver() {
    let cfg = Config {
        initial_rto_ms: 100,
        min_rto_ms: 20,
        ..Config::default()
    };
    let mut a = Stream::new(1, cfg, 0);
    let mut b = Stream::new(1, cfg, 0);
    let mut sim = Sim::new(10, 10, 40, 60, 0x2468);
    let payload = payload_of(4000);
    let got = run_transfer(&mut a, &mut b, &mut sim, &payload, 1_000_000);
    assert_eq!(got, payload);
}

#[test]
fn window_bounds_inflight() {
    let cfg = Config {
        send_window: 4,
        max_segment: 10,
        ..Config::default()
    };
    let mut a = Stream::new(1, cfg, 0);
    a.write(&payload_of(1000));
    let mut sent = 0;
    while let Some(f) = a.poll_transmit(0) {
        if f.kind == Kind::Data {
            sent += 1;
        }
    }
    assert_eq!(sent, 4, "in-flight is capped at the send window");
}

#[test]
fn rto_adapts_to_measured_rtt() {
    let cfg = Config::default();
    let mut a = Stream::new(1, cfg, 0);
    a.write(&payload_of(50));
    let f = a.poll_transmit(0).unwrap();
    assert_eq!(f.kind, Kind::Data);
    let ack = Frame {
        kind: Kind::Ack,
        stream_id: Some(1),
        seq: Some(1),
        fragment: None,
        comp_algo: None,
        payload: Vec::new(),
    };
    a.on_frame(&ack, 40);
    assert!(
        a.rto_ms() < 1_000,
        "RTO should drop after a fast RTT sample"
    );
    assert!(a.rto_ms() >= cfg.min_rto_ms);
}

#[test]
fn receiver_nacks_first_missing_seq_on_gap() {
    let cfg = Config::default();
    let mut b = Stream::new(1, cfg, 0);
    // A future segment arrives while seq 0 is still missing → a gap at 0.
    let data1 = Frame {
        kind: Kind::Data,
        stream_id: Some(1),
        seq: Some(1),
        fragment: None,
        comp_algo: None,
        payload: b"x".to_vec(),
    };
    b.on_frame(&data1, 0);
    // NACK for the missing seq 0 is emitted (before the standalone ACK).
    let f = b.poll_transmit(0).unwrap();
    assert_eq!(f.kind, Kind::Nack);
    assert_eq!(f.seq, Some(0));
}

#[test]
fn sender_fast_retransmits_on_nack_without_backoff() {
    let cfg = Config::default();
    let mut a = Stream::new(1, cfg, 0);
    a.write(&payload_of(300)); // several segments
                               // Send three segments at t=0.
    for _ in 0..3 {
        assert_eq!(a.poll_transmit(0).unwrap().kind, Kind::Data);
    }
    let rto_before = a.rto_ms();
    // Peer NACKs seq 0.
    let nack = Frame {
        kind: Kind::Nack,
        stream_id: Some(1),
        seq: Some(0),
        fragment: None,
        comp_algo: None,
        payload: Vec::new(),
    };
    a.on_frame(&nack, 5);
    let f = a.poll_transmit(5).unwrap();
    assert_eq!(f.kind, Kind::Data);
    assert_eq!(f.seq, Some(0), "fast-retransmits the NACKed segment");
    assert_eq!(a.rto_ms(), rto_before, "a NACK must not back off the RTO");
}

#[test]
fn one_way_close_rests_at_fin_sent_and_delivers_eof() {
    // Only `a` closes: it should rest at FinSent (its FIN acked, but the peer hasn't FIN'd), and
    // `b` should see EOF (remote_finished) after all bytes.
    let cfg = Config {
        initial_rto_ms: 100,
        min_rto_ms: 20,
        ..Config::default()
    };
    let mut a = Stream::new(1, cfg, 0);
    let mut b = Stream::new(1, cfg, 0);
    let mut sim = Sim::new(10, 20, 10, 20, 0x9911);
    let payload = payload_of(2000);
    a.write(&payload);
    a.close();
    let want = payload.len();
    let mut got = Vec::new();
    pump(
        &mut a,
        &mut b,
        &mut sim,
        &mut got,
        1_000_000,
        |a, b, _, g| a.state() == State::FinSent && b.remote_finished() && g.len() >= want,
    );
    assert_eq!(got, payload, "all bytes delivered before EOF");
    assert!(b.remote_finished(), "receiver observed the FIN");
    assert_eq!(
        a.state(),
        State::FinSent,
        "one-way close: local FIN acked, peer still open"
    );
}

#[test]
fn graceful_close_both_directions_reaches_closed() {
    let cfg = Config {
        initial_rto_ms: 100,
        min_rto_ms: 20,
        ..Config::default()
    };
    let mut a = Stream::new(1, cfg, 0);
    let mut b = Stream::new(1, cfg, 0);
    let mut sim = Sim::new(10, 20, 10, 20, 0x5AA5);
    let payload = payload_of(2000);
    a.write(&payload);
    a.close();
    b.close(); // symmetric close; b sends its own (data-less) FIN
    let mut got = Vec::new();
    pump(
        &mut a,
        &mut b,
        &mut sim,
        &mut got,
        1_000_000,
        |a, b, _, _| a.state() == State::Closed && b.state() == State::Closed,
    );
    assert_eq!(got, payload, "all bytes delivered");
    assert_eq!(a.state(), State::Closed);
    assert_eq!(b.state(), State::Closed);
}

#[test]
fn reset_propagates_to_peer() {
    let cfg = Config::default();
    let mut a = Stream::new(1, cfg, 0);
    let mut b = Stream::new(1, cfg, 0);
    a.reset();
    let f = a.poll_transmit(0).expect("RST is emitted");
    assert_eq!(f.kind, Kind::Rst);
    assert_eq!(a.state(), State::Reset);
    b.on_frame(&f, 0);
    assert_eq!(b.state(), State::Reset);
    // No further frames after the RST.
    assert!(a.poll_transmit(1).is_none());
}

fn control(kind: Kind, seq: Option<u32>) -> Frame {
    Frame {
        kind,
        stream_id: Some(1),
        seq,
        fragment: None,
        comp_algo: None,
        payload: Vec::new(),
    }
}

#[test]
fn sequence_numbers_compare_across_the_wrap() {
    assert!(seq_lt(1, 2));
    assert!(!seq_lt(2, 2));
    assert!(seq_lt(u32::MAX, 0));
    assert!(!seq_lt(0, u32::MAX));
}

#[test]
fn a_stream_delivers_across_the_wrap() {
    let cfg = Config::default();
    let mut a = Stream::new(1, cfg, u32::MAX - 2);
    let mut b = Stream::new(1, cfg, u32::MAX - 2);
    let mut sim = Sim::new(10, 0, 0, 0, 0x77);
    let payload = payload_of(2000);
    let got = run_transfer(&mut a, &mut b, &mut sim, &payload, 100_000);
    assert_eq!(got, payload);
}

#[test]
fn a_timeout_doubles_up_to_its_limit() {
    let cfg = Config {
        initial_rto_ms: 100,
        min_rto_ms: 20,
        max_rto_ms: 350,
        ..Config::default()
    };
    let mut a = Stream::new(1, cfg, 0);
    a.write(b"x");
    assert_eq!(a.poll_transmit(0).unwrap().kind, Kind::Data);
    assert_eq!(a.next_deadline(), Some(100));
    assert_eq!(a.poll_transmit(100).unwrap().seq, Some(0));
    assert_eq!(a.rto_ms(), 200);
    assert_eq!(a.poll_transmit(300).unwrap().seq, Some(0));
    assert_eq!(a.rto_ms(), 350);
}

#[test]
fn the_first_round_trip_sets_the_timeout() {
    let cfg = Config { min_rto_ms: 1, ..Config::default() };
    let mut a = Stream::new(1, cfg, 0);
    a.write(b"x");
    a.poll_transmit(0).unwrap();
    a.on_frame(&control(Kind::Ack, Some(1)), 40);
    // The sample, and four times half of it.
    assert_eq!(a.rto_ms(), 120);
}

#[test]
fn a_finished_stream_says_so_and_takes_no_more() {
    let cfg = Config::default();
    let mut a = Stream::new(1, cfg, 0);
    a.close();
    assert_eq!(a.poll_transmit(0).unwrap().kind, Kind::Fin);
    assert_eq!(a.state(), State::FinSent);
    assert!(!a.is_closed());
    a.on_frame(&control(Kind::Ack, Some(1)), 1);
    a.on_frame(&control(Kind::Fin, Some(0)), 2);
    assert!(a.remote_finished());
    assert!(a.is_closed());
}

#[test]
fn a_smaller_segment_takes_effect_at_once() {
    let mut a = Stream::new(1, Config::default(), 0);
    a.set_max_segment(10);
    assert_eq!(a.max_segment(), 10);
    a.write(&payload_of(25));
    let sizes: Vec<usize> = (0..3).map(|_| a.poll_transmit(0).unwrap().payload.len()).collect();
    assert_eq!(sizes, vec![10, 10, 5]);
}

#[test]
fn segments_that_all_arrive_are_all_read_whatever_their_order() {
    let cfg = Config { max_segment: 8, ..Config::default() };
    let mut a = Stream::new(1, cfg, 100);
    let mut b = Stream::new(1, cfg, 100);
    let payload = payload_of(100);
    a.write(&payload);
    a.close();
    let mut frames = Vec::new();
    while let Some(f) = a.poll_transmit(0) {
        frames.push(f);
    }
    assert_eq!(frames.len(), 14);
    for f in frames.iter().rev() {
        b.on_frame(f, 1);
        b.on_frame(f, 2);
    }
    assert_eq!(b.read(), payload);
    assert!(b.remote_finished());
}

#[test]
fn a_segment_beyond_the_receive_window_is_not_kept() {
    let cfg = Config { recv_window: 2, ..Config::default() };
    let mut b = Stream::new(1, cfg, 0);
    let data = |seq: u32| Frame { payload: vec![seq as u8], ..control(Kind::Data, Some(seq)) };
    b.on_frame(&data(2), 0);
    b.on_frame(&data(1), 0);
    b.on_frame(&data(0), 0);
    assert_eq!(b.read(), [0, 1]);
    b.on_frame(&data(2), 1);
    assert_eq!(b.read(), [2]);
}

#[test]
fn a_closed_stream_only_acknowledges() {
    let mut a = Stream::new(1, Config::default(), 0);
    a.close();
    a.poll_transmit(0).unwrap();
    a.on_frame(&control(Kind::Fin, Some(0)), 1);
    a.on_frame(&control(Kind::Ack, Some(1)), 2);
    assert!(a.is_closed());
    let f = a.poll_transmit(3).unwrap();
    assert_eq!((f.kind, f.seq), (Kind::Ack, Some(1)));
    assert!(a.poll_transmit(100_000).is_none());
    // A FIN that comes again is acknowledged again.
    a.on_frame(&control(Kind::Fin, Some(0)), 4);
    assert_eq!(a.poll_transmit(5).unwrap().kind, Kind::Ack);
}

#[test]
fn the_first_segments_are_read_before_the_others_arrive() {
    let mut b = Stream::new(1, Config::default(), 50);
    let data = |seq: u32| Frame { payload: vec![seq as u8; 2], ..control(Kind::Data, Some(seq)) };
    // The fourth never comes.
    for seq in [54, 52, 50, 55, 51] {
        b.on_frame(&data(seq), 0);
    }
    assert_eq!(b.read(), [50, 50, 51, 51, 52, 52]);
    let ack = loop {
        let f = b.poll_transmit(1).unwrap();
        if f.kind == Kind::Ack {
            break f;
        }
    };
    assert_eq!(ack.seq, Some(53));
}

#[test]
fn segments_are_numbered_without_a_gap_and_sized() {
    let cfg = Config { max_segment: 7, send_window: 4, ..Config::default() };
    let base = u32::MAX - 2;
    let mut a = Stream::new(1, cfg, base);
    a.write(&payload_of(50));
    let mut cut: Vec<Vec<u8>> = Vec::new();
    let mut now = 0;
    while cut.len() < 8 {
        // Everything in flight is due again at each turn; what is acknowledged makes room.
        now += 1_000_000;
        while let Some(f) = a.poll_transmit(now) {
            assert_eq!(f.kind, Kind::Data);
            assert!((1..=7).contains(&f.payload.len()));
            let i = f.seq.unwrap().wrapping_sub(base) as usize;
            if i == cut.len() {
                cut.push(f.payload);
            } else {
                assert_eq!(f.payload, cut[i]);
            }
        }
        let acked = base.wrapping_add(cut.len() as u32 - 1);
        a.on_frame(&control(Kind::Ack, Some(acked)), now);
    }
    assert_eq!(cut.concat(), payload_of(50));
}

/// The timeout estimator in floating point.
struct Estimator {
    srtt: Option<f64>,
    rttvar: f64,
}

impl Estimator {
    fn sample(&mut self, r: f64) -> u64 {
        match self.srtt {
            None => {
                self.srtt = Some(r);
                self.rttvar = r / 2.0;
            }
            Some(srtt) => {
                self.rttvar = 0.75 * self.rttvar + 0.25 * (srtt - r).abs();
                self.srtt = Some(0.875 * srtt + 0.125 * r);
            }
        }
        (self.srtt.unwrap_or(r) + 4.0 * self.rttvar).max(1.0) as u64
    }
}

/// Feeds round trips to a stream and checks every timeout.
fn check_round_trips(round_trips: impl Iterator<Item = u64>) {
    let cfg = Config { min_rto_ms: 0, max_rto_ms: u64::MAX, ..Config::default() };
    let mut s = Stream::new(1, cfg, 0);
    let mut want = Estimator { srtt: None, rttvar: 0.0 };
    for (i, r) in round_trips.enumerate() {
        s.write(b"x");
        let seq = s.poll_transmit(0).unwrap().seq.unwrap();
        s.on_frame(&control(Kind::Ack, Some(seq.wrapping_add(1))), r);
        assert_eq!(s.rto_ms(), want.sample(r as f64), "sample {i}: {r}");
    }
}

#[test]
fn timeouts_are_those_of_double_precision() {
    let mut x = 0x9E37_79B9_7F4A_7C15u64;
    let mut rand = move || {
        x ^= x >> 12;
        x ^= x << 25;
        x ^= x >> 27;
        x.wrapping_mul(0x2545_F491_4F6C_DD1D)
    };
    let of_all_sizes: Vec<u64> = (0..20_000).map(|i| rand() >> (i * 7 % 64)).collect();
    check_round_trips(of_all_sizes.iter().copied());
    check_round_trips((0..20_000u64).map(|i| 80 + i % 3));
    check_round_trips([u64::MAX, 0, u64::MAX - 1, (1 << 53) + 1, 1, u64::MAX, 3].into_iter());
}

#[test]
fn timeouts_survive_the_smallest_numbers() {
    // Round trips of zero halve what is kept until nothing is left, and one of a millisecond then is far
    // above it.
    for zeros in [1usize, 60, 400, 3_800, 5_500, 6_000] {
        let start = std::iter::once(123_456_789).chain(std::iter::repeat(0).take(zeros));
        check_round_trips(start.chain([1, 7, 0, 0, 1 << 40, 2]));
    }
}

#[test]
fn the_timeout_of_a_steady_round_trip_is_exact() {
    let mut s = Stream::new(1, Config::default(), 0);
    let mut timeouts = Vec::new();
    for _ in 0..4 {
        s.write(b"x");
        let seq = s.poll_transmit(0).unwrap().seq.unwrap();
        s.on_frame(&control(Kind::Ack, Some(seq + 1)), 301);
        timeouts.push(s.rto_ms());
    }
    // 301 + 4 * 150.5, then the variation shrinks by a quarter each time.
    assert_eq!(timeouts, [903, 752, 639, 554]);
}

#[test]
fn numbers_that_come_round_again_still_have_no_gap() {
    let cfg = Config { max_segment: 1, send_window: 2, ..Config::default() };
    let mut s = Stream::new(1, cfg, u32::MAX);
    s.write(&[1, 2, 3]);
    let seqs: Vec<u32> = (0..2).map(|_| s.poll_transmit(0).unwrap().seq.unwrap()).collect();
    assert_eq!(seqs, [u32::MAX, 0]);
    s.on_frame(&control(Kind::Ack, Some(1)), 5);
    let f = s.poll_transmit(5).unwrap();
    assert_eq!((f.seq, &f.payload[..]), (Some(1), &[3u8][..]));
}
