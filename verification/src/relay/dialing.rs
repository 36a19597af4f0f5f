//! What dialing does to the streams: each new one is handed out once, those whose target cannot be decoded
//! are ended towards the client, and nothing else changes.
use vstd::prelude::*;

use crate::relay::carrying;
use crate::relay::egress;
use crate::relay::egress::RelayModel;
use crate::table;
use crate::tunnel::addr;
use crate::tunnel::arq::StreamModel;
use crate::tunnel::lanes::LaneModel;
use crate::tunnel::server;
use crate::tunnel::server::SessionModel;
use crate::tunnel::steering;

verus! {

/// Among these streams is `sid` with a target that cannot be decoded.
pub open spec fn undecodable(list: Seq<(u16, Seq<u8>)>, sid: u16) -> bool {
    exists|i: int|
        0 <= i < list.len() && (#[trigger] list[i]).0 == sid && addr::parsed(list[i].1) is Err
}

/// The stream as it is after it was looked at: to be ended where `ended`, and otherwise as it was.
pub open spec fn looked_at(l: LaneModel, ended: bool) -> LaneModel {
    LaneModel { stream: StreamModel { closing: l.stream.closing || ended, ..l.stream }, ..l }
}

proof fn lemma_looking_at_targets(
    m: RelayModel,
    c: Seq<u8>,
    list: Seq<(u16, Seq<u8>)>,
    n: nat,
    sid: u16,
    other: Seq<u8>,
)
    requires
        n <= list.len(),
        table::keyed(m.server.sessions),
        server::has_session_of(m.server, c),
        table::keyed(server::session_of(m.server, c).lanes),
    ensures
        ({
            let p = egress::dialed(m, c, list, n).0.server;
            &&& table::keyed(p.sessions)
            &&& server::has_session_of(p, c)
            &&& table::keyed(server::session_of(p, c).lanes)
            &&& server::has_stream_of(p, c, sid) == server::has_stream_of(m.server, c, sid)
            &&& server::has_stream_of(p, c, sid) ==> server::stream_of(p, c, sid) == looked_at(
                server::stream_of(m.server, c, sid),
                undecodable(list.take(n as int), sid),
            )
            &&& server::session_of(p, c) == (SessionModel {
                lanes: server::session_of(p, c).lanes,
                ..server::session_of(m.server, c)
            })
            &&& server::id_key(other) != server::id_key(c) ==> server::has_session_of(p, other)
                == server::has_session_of(m.server, other) && (server::has_session_of(p, other)
                ==> server::session_of(p, other) == server::session_of(m.server, other))
        }),
    decreases n,
{
    let now = list.take(n as int);
    if n > 0 {
        let before = list.take(n - 1);
        lemma_looking_at_targets(m, c, list, (n - 1) as nat, sid, other);
        let q = egress::dialed(m, c, list, (n - 1) as nat).0.server;
        let (sid0, target) = list[n - 1];
        assert(now[n - 1] == list[n - 1]);
        assert forall|i: int| 0 <= i < n - 1 implies #[trigger] now[i] == before[i] by {}
        if undecodable(before, sid) {
            let i = choose|i: int|
                0 <= i < before.len() && (#[trigger] before[i]).0 == sid && addr::parsed(
                    before[i].1,
                ) is Err;
            assert(now[i] == before[i]);
            assert(undecodable(now, sid));
        }
        if addr::parsed(target) is Err {
            let s = server::session_of(q, c);
            let t = crate::tunnel::lanes::lane_closing(s.lanes, sid0);
            let v = SessionModel { lanes: t, ..s };
            steering::lemma_half_close_drops_nothing(s.lanes, sid0, sid);
            lemma_closing_keyed(s.lanes, sid0);
            table::lemma_with(q.sessions, server::id_key(c), v);
            if server::id_key(other) != server::id_key(c) {
                table::lemma_with_other(
                    q.sessions,
                    server::id_key(c),
                    v,
                    server::id_key(other),
                );
            }
            if sid == sid0 {
                assert(now[n - 1].0 == sid);
                assert(undecodable(now, sid));
            }
        }
        if undecodable(now, sid) && !undecodable(before, sid) {
            let i = choose|i: int|
                0 <= i < now.len() && (#[trigger] now[i]).0 == sid && addr::parsed(now[i].1) is Err;
            if i < n - 1 {
                assert(before[i] == now[i]);
            }
            assert(i == n - 1);
        }
    } else {
        assert(now.len() == 0);
        if server::has_stream_of(m.server, c, sid) {
            let l = server::stream_of(m.server, c, sid);
            assert(looked_at(l, false) == l);
        }
    }
}

proof fn lemma_closing_keyed(s: Seq<(u64, LaneModel)>, sid: u16)
    requires
        table::keyed(s),
    ensures
        table::keyed(crate::tunnel::lanes::lane_closing(s, sid)),
{
    if table::holds(s, sid as u64) {
        let l = table::at(s, sid as u64);
        table::lemma_with(
            s,
            sid as u64,
            LaneModel { stream: StreamModel { closing: true, ..l.stream }, ..l },
        );
    }
}

/// Dialing a session hands out each of its streams once: all are handed out after it, so that dialing
/// again gives none. A stream that was new and whose target cannot be decoded is ended towards the
/// client; nothing else of any stream changes, and no other session does.
pub proof fn lemma_dialing_ends_what_cannot_be_dialed(
    m: RelayModel,
    c: Seq<u8>,
    sid: u16,
    other: Seq<u8>,
)
    requires
        server::server_ok(m.server),
        server::has_session_of(m.server, c),
        server::id_key(other) != server::id_key(c),
    ensures
        ({
            let n = egress::dialed_new(m, c).0.server;
            let (a, b) = (server::stream_of(m.server, c, sid), server::stream_of(n, c, sid));
            &&& server::has_session_of(n, c)
            &&& server::has_stream_of(n, c, sid) == server::has_stream_of(m.server, c, sid)
            &&& server::has_stream_of(n, c, sid) ==> {
                &&& b.dialed
                &&& b.target == a.target
                &&& b.open == a.open
                &&& b.stream.closing <==> a.stream.closing || (!a.dialed && addr::parsed(
                    a.target,
                ) is Err)
                &&& b.stream == (StreamModel { closing: b.stream.closing, ..a.stream })
            }
            &&& server::has_session_of(n, other) == server::has_session_of(m.server, other)
            &&& server::has_session_of(n, other) ==> server::session_of(n, other)
                == server::session_of(m.server, other)
        }),
{
    let s = server::session_of(m.server, c);
    let list = server::undialed(s.lanes);
    let mark = |l: LaneModel| LaneModel { dialed: true, ..l };
    assert(server::session_ok(
        m.server.sessions[table::rank(m.server.sessions, server::id_key(c)) as int],
    ));
    let v = SessionModel { lanes: server::all_dialed(s.lanes), ..s };
    table::lemma_with(m.server.sessions, server::id_key(c), v);
    table::lemma_with_other(m.server.sessions, server::id_key(c), v, server::id_key(other));
    table::lemma_mapped(s.lanes, mark, sid as u64);
    assert(server::all_dialed(s.lanes) =~= table::mapped(s.lanes, mark));
    let taken = RelayModel { server: server::targets_taken(m.server, c), ..m };
    lemma_looking_at_targets(taken, c, list, list.len(), sid, other);
    assert(list.take(list.len() as int) =~= list);
    carrying::lemma_targets_of_new_streams_wait(s.lanes);
    if server::has_stream_of(m.server, c, sid) {
        let l = server::stream_of(m.server, c, sid);
        if undecodable(list, sid) {
            let i = choose|i: int|
                0 <= i < list.len() && (#[trigger] list[i]).0 == sid && addr::parsed(
                    list[i].1,
                ) is Err;
            assert(list.contains((sid, list[i].1)));
        }
        if !l.dialed && addr::parsed(l.target) is Err {
            assert(list.contains((sid, l.target)));
            let i = choose|i: int| 0 <= i < list.len() && list[i] == (sid, l.target);
            assert(list[i].0 == sid);
        }
    }
}

} // verus!
