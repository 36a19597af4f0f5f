//! What waits at a receiver: however its peer numbers what it sends, no more segments are kept out of
//! order than the receive window allows.
use vstd::prelude::*;

use crate::tunnel::arq;
use crate::tunnel::arq::{Config, SeqNo, StreamModel};
use crate::tunnel::delivery;
use crate::tunnel::delivery::{run, Event};
use crate::tunnel::frame::Kind;

verus! {

/// What waits, but for `stale`, lies from `least` on within the receive window.
spec fn ahead(m: StreamModel, least: int, stale: Option<SeqNo>) -> bool {
    &&& m.reorder.dom().finite()
    &&& m.cfg.recv_window == 0 ==> m.reorder.dom() == Set::<SeqNo>::empty()
    &&& stale is Some ==> m.remote_fin_recvd
    &&& forall|k: SeqNo| #[trigger]
        m.reorder.contains_key(k) && stale != Some(k) ==> least <= arq::distance(m.rcv_nxt, k)
            < m.cfg.recv_window
}

proof fn lemma_step_back(q: SeqNo, k: SeqNo)
    requires
        arq::distance(q, k) >= 1,
    ensures
        arq::distance(arq::step(q, 1), k) == arq::distance(q, k) - 1,
{
}

proof fn lemma_apart(q: SeqNo, k: SeqNo)
    ensures
        arq::distance(q, k) == 0 <==> q == k,
        arq::distance(q, k) >= 0,
{
}

proof fn lemma_drained_waits(m: StreamModel, stale: Option<SeqNo>)
    requires
        ahead(m, 0, stale),
    ensures
        ({
            let d = arq::drained(m);
            &&& ahead(d, 1, stale)
            &&& d.cfg == m.cfg
            &&& d.remote_fin_recvd == m.remote_fin_recvd
        }),
    decreases m.reorder.dom().len(),
{
    if m.reorder.contains_key(m.rcv_nxt) {
        let next = StreamModel {
            delivered: m.delivered + m.reorder[m.rcv_nxt],
            reorder: m.reorder.remove(m.rcv_nxt),
            rcv_nxt: arq::step(m.rcv_nxt, 1),
            ..m
        };
        assert forall|k: SeqNo| #[trigger]
            next.reorder.contains_key(k) && stale != Some(k) implies 0 <= arq::distance(
            next.rcv_nxt,
            k,
        ) < m.cfg.recv_window by {
            assert(m.reorder.contains_key(k));
            lemma_apart(m.rcv_nxt, k);
            lemma_step_back(m.rcv_nxt, k);
        }
        lemma_drained_waits(next, stale);
        assert(arq::drained(m) == arq::drained(next));
    } else {
        assert forall|k: SeqNo| #[trigger]
            m.reorder.contains_key(k) && stale != Some(k) implies 1 <= arq::distance(m.rcv_nxt, k)
            < m.cfg.recv_window by {
            lemma_apart(m.rcv_nxt, k);
        }
    }
}

/// The FIN is passed without a look at what waits in its place, so that one segment may be left behind.
proof fn lemma_advanced_waits(m: StreamModel, stale: Option<SeqNo>) -> (left: Option<SeqNo>)
    requires
        ahead(m, 0, stale),
    ensures
        ahead(arq::advanced(m), 1, left),
        arq::advanced(m).cfg == m.cfg,
{
    lemma_drained_waits(m, stale);
    let d = arq::drained(m);
    let a = arq::advanced(m);
    if d.remote_fin_seq == Some(d.rcv_nxt) && !d.remote_fin_recvd {
        assert forall|k: SeqNo| #[trigger]
            a.reorder.contains_key(k) && Some(a.rcv_nxt) != Some(k) implies 1 <= arq::distance(
            a.rcv_nxt,
            k,
        ) < m.cfg.recv_window by {
            assert(d.reorder.contains_key(k));
            lemma_step_back(d.rcv_nxt, k);
            lemma_apart(a.rcv_nxt, k);
        }
        Some(a.rcv_nxt)
    } else {
        stale
    }
}

proof fn lemma_in_window_is_ahead(q: SeqNo, rcv: SeqNo, window: u32)
    requires
        window <= 0x8000_0000,
        !arq::before(q, rcv),
        arq::before(q, arq::step(rcv, window as int)),
    ensures
        0 <= arq::distance(rcv, q) < window,
{
}

proof fn lemma_event_waits(m: StreamModel, e: Event, stale: Option<SeqNo>) -> (left: Option<SeqNo>)
    requires
        ahead(m, 1, stale),
        m.cfg.recv_window <= 0x8000_0000,
    ensures
        ahead(delivery::after(m, e), 1, left),
        delivery::after(m, e).cfg.recv_window == m.cfg.recv_window,
{
    let a = delivery::after(m, e);
    match e {
        Event::Arrive(f, now) => match (f.kind, f.seq) {
            (Kind::Data, Some(q)) => {
                if arq::before(q, m.rcv_nxt) || !arq::before(
                    q,
                    arq::step(m.rcv_nxt, m.cfg.recv_window as int),
                ) {
                    stale
                } else {
                    lemma_in_window_is_ahead(q, m.rcv_nxt, m.cfg.recv_window);
                    if q == m.rcv_nxt {
                        let next = StreamModel {
                            delivered: m.delivered + f.payload,
                            rcv_nxt: arq::step(m.rcv_nxt, 1),
                            ack_pending: true,
                            ..m
                        };
                        assert forall|k: SeqNo| #[trigger]
                            next.reorder.contains_key(k) && stale != Some(k) implies 0
                            <= arq::distance(next.rcv_nxt, k) < m.cfg.recv_window by {
                            assert(m.reorder.contains_key(k));
                            lemma_step_back(m.rcv_nxt, k);
                        }
                        lemma_advanced_waits(next, stale)
                    } else {
                        lemma_apart(m.rcv_nxt, q);
                        assert forall|k: SeqNo| #[trigger]
                            a.reorder.contains_key(k) && stale != Some(k) implies 1
                            <= arq::distance(a.rcv_nxt, k) < m.cfg.recv_window by {
                            if k != q {
                                assert(m.reorder.contains_key(k));
                            }
                        }
                        stale
                    }
                }
            },
            (Kind::Fin, Some(q)) => {
                let next = StreamModel {
                    ack_pending: true,
                    remote_fin_seq: if m.remote_fin_seq is None {
                        Some(q)
                    } else {
                        m.remote_fin_seq
                    },
                    ..m
                };
                lemma_advanced_waits(next, stale)
            },
            (Kind::Rst, _) => None,
            _ => stale,
        },
        Event::Reset => None,
        _ => stale,
    }
}

proof fn lemma_run_waits(m: StreamModel, events: Seq<Event>) -> (left: Option<SeqNo>)
    requires
        ahead(m, 1, None),
        m.cfg.recv_window <= 0x8000_0000,
    ensures
        ahead(run(m, events), 1, left),
        run(m, events).cfg.recv_window == m.cfg.recv_window,
    decreases events.len(),
{
    if events.len() == 0 {
        None
    } else {
        let stale = lemma_run_waits(m, events.drop_last());
        lemma_event_waits(run(m, events.drop_last()), events.last(), stale)
    }
}

/// There are `n` numbers among the `n` after `q`.
proof fn lemma_span(q: SeqNo, n: nat)
    requires
        n <= 0x8000_0000,
    ensures
        ({
            let s = Set::<SeqNo>::new(|k: SeqNo| 1 <= arq::distance(q, k) <= n);
            s.finite() && s.len() == n
        }),
    decreases n,
{
    let s = Set::<SeqNo>::new(|k: SeqNo| 1 <= arq::distance(q, k) <= n);
    if n == 0 {
        assert(s =~= Set::empty());
    } else {
        let t = Set::<SeqNo>::new(|k: SeqNo| 1 <= arq::distance(q, k) <= n - 1);
        lemma_span(q, (n - 1) as nat);
        let last = arq::step(q, n as int);
        delivery::lemma_circle(q, n as int);
        assert forall|k: SeqNo| s.contains(k) <==> t.insert(last).contains(k) by {
            delivery::lemma_back(q, k);
        }
        assert(s =~= t.insert(last));
        assert(!t.contains(last));
        assert(t =~= Set::<SeqNo>::new(|k: SeqNo| 1 <= arq::distance(q, k) <= (n - 1) as nat));
    }
}

/// The receive window bounds what a receiver keeps: whatever frames arrive, no more segments wait out of
/// order than the window allows.
pub proof fn lemma_window_bounds_what_waits(id: u16, cfg: Config, base: SeqNo, events: Seq<Event>)
    requires
        cfg.recv_window <= 0x8000_0000,
    ensures
        run(arq::new_stream(id, cfg, base), events).reorder.dom().finite(),
        run(arq::new_stream(id, cfg, base), events).reorder.dom().len() <= cfg.recv_window,
{
    let m = arq::new_stream(id, cfg, base);
    assert(m.reorder.dom() =~= Set::<SeqNo>::empty());
    let left = lemma_run_waits(m, events);
    let end = run(m, events);
    let kept = end.reorder.dom();
    if cfg.recv_window > 0 {
        let n = (cfg.recv_window - 1) as nat;
        let near = Set::<SeqNo>::new(|k: SeqNo| 1 <= arq::distance(end.rcv_nxt, k) <= n);
        lemma_span(end.rcv_nxt, n);
        let all = match left {
            Some(q) => near.insert(q),
            None => near,
        };
        assert forall|k: SeqNo| kept.contains(k) implies all.contains(k) by {
            assert(end.reorder.contains_key(k));
        }
        vstd::set_lib::lemma_len_subset(kept, all);
    }
}

} // verus!
