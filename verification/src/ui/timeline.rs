//! What the timeline of sharing says: when things happened, how long they took, and what kind of failure
//! there was.
use vstd::prelude::*;

use crate::text;
use crate::ui::unbounded_diag as diag;
use crate::ui::unbounded_diag::{ActionModel, DiagModel, EventView, SlotModel};

verus! {

/// Whole milliseconds from one time to another, none where the clock ran back.
pub open spec fn between(from: u64, to: u64) -> int {
    if to >= from {
        to - from
    } else {
        0
    }
}

/// A session's story: the time to connect counts from the start of the attempt, the session lasts from
/// its connect to its end, and its trace is opened with the one and closed, without error, with the
/// other. A peer whose country is not known is reported as such.
pub proof fn lemma_session_is_told_from_start_to_end(
    s: SlotModel,
    session_id: String,
    slot: usize,
    region: Option<Seq<char>>,
    began: u64,
    come: u64,
    gone: u64,
)
    requires
        s.live is None,
    ensures
        ({
            let id = session_id@;
            let start = EventView::AttemptStarted { slot };
            let connect = EventView::PeerConnected { slot, session_id };
            let disconnect = EventView::PeerDisconnected { slot, session_id };
            let end = EventView::SessionEnded { slot, session_id };
            let a = diag::slot_after(start, s, began);
            let b = diag::slot_after(connect, a, come);
            let told = ActionModel::Emit(
                DiagModel::PeerConnected(id, between(began, come) as u64, "unknown"@, region),
            );
            let unplaced = ActionModel::Emit(DiagModel::GeoFailed("resolver_none"@));
            let lasted = between(come, gone) as u64;
            &&& diag::actions_for(start, region, s, began) == seq![
                ActionModel::Emit(DiagModel::AttemptStarted(slot)),
            ]
            &&& region is Some ==> diag::actions_for(connect, region, a, come) == seq![
                ActionModel::SetCtx(id),
                told,
            ]
            &&& region is None ==> diag::actions_for(connect, region, a, come) == seq![
                ActionModel::SetCtx(id),
                told,
                unplaced,
            ]
            &&& diag::actions_for(disconnect, region, b, gone) == seq![
                ActionModel::Emit(DiagModel::PeerDisconnected(id, lasted, 0, "disconnected"@)),
                ActionModel::PushSpans(id, None),
                ActionModel::RemoveCtx(id),
            ]
            &&& diag::actions_for(end, region, b, gone) == seq![
                ActionModel::Emit(DiagModel::PeerDisconnected(id, lasted, 0, "session_ended"@)),
                ActionModel::PushSpans(id, None),
                ActionModel::RemoveCtx(id),
            ]
            &&& diag::slot_after(disconnect, b, gone).live is None
            &&& diag::slot_after(end, b, gone).live is None
        }),
{
    let connect = EventView::PeerConnected { slot, session_id };
    let a = diag::slot_after(EventView::AttemptStarted { slot }, s, began);
    let b = diag::slot_after(connect, a, come);
    let id = session_id@;
    assert(diag::closed_out(a, None) =~= Seq::empty());
    let told = ActionModel::Emit(
        DiagModel::PeerConnected(id, between(began, come) as u64, "unknown"@, region),
    );
    if region is Some {
        assert(diag::actions_for(connect, region, a, come) =~= seq![
            ActionModel::SetCtx(id),
            told,
        ]);
    } else {
        assert(diag::actions_for(connect, region, a, come) =~= seq![
            ActionModel::SetCtx(id),
            told,
            ActionModel::Emit(DiagModel::GeoFailed("resolver_none"@)),
        ]);
    }
    let lasted = between(come, gone) as u64;
    assert(diag::ended_actions(b, id, "disconnected"@, gone) =~= seq![
        ActionModel::Emit(DiagModel::PeerDisconnected(id, lasted, 0, "disconnected"@)),
        ActionModel::PushSpans(id, None),
        ActionModel::RemoveCtx(id),
    ]);
    assert(diag::ended_actions(b, id, "session_ended"@, gone) =~= seq![
        ActionModel::Emit(DiagModel::PeerDisconnected(id, lasted, 0, "session_ended"@)),
        ActionModel::PushSpans(id, None),
        ActionModel::RemoveCtx(id),
    ]);
}

/// A failure is reported as an error of its slot and closes the trace that is open with its kind; a stop
/// closes it without error. Either leaves the slot without a session.
pub proof fn lemma_failure_closes_with_its_kind(
    s: SlotModel,
    slot: usize,
    error: String,
    region: Option<Seq<char>>,
    now: u64,
)
    ensures
        ({
            let failed = EventView::AttemptFailed { slot, error };
            let stopped = EventView::Stopped { slot };
            let kind = diag::error_kind_of(error@);
            let v = diag::actions_for(failed, region, s, now);
            let w = diag::actions_for(stopped, region, s, now);
            &&& v[0] == ActionModel::EmitError(DiagModel::AttemptFailed(slot, kind))
            &&& s.live matches Some((id, _)) ==> v.len() == 3 && v[1] == ActionModel::PushSpans(
                id,
                Some(kind),
            ) && v[2] == ActionModel::RemoveCtx(id)
            &&& s.live is None ==> v.len() == 1
            &&& s.live matches Some((id, _)) ==> w == seq![
                ActionModel::PushSpans(id, None),
                ActionModel::RemoveCtx(id),
            ]
            &&& s.live is None ==> w.len() == 0
            &&& diag::slot_after(failed, s, now).live is None
            &&& diag::slot_after(failed, s, now).attempt_started is None
        }),
{
    let w = diag::actions_for(EventView::Stopped { slot }, region, s, now);
    if let Some((id, _)) = s.live {
        assert(w =~= seq![ActionModel::PushSpans(id, None), ActionModel::RemoveCtx(id)]);
    }
}

proof fn lemma_begins(part: Seq<char>, tail: Seq<char>)
    ensures
        text::begins(part + tail, part),
        text::after(part + tail, part) == Some(tail),
        forall|i: int| 0 <= i < part.len() ==> #[trigger] (part + tail)[i] == part[i],
{
    assert((part + tail).subrange(0, part.len() as int) =~= part);
    assert((part + tail).subrange(part.len() as int, (part + tail).len() as int) =~= tail);
}

proof fn lemma_begins_not(s: Seq<char>, part: Seq<char>, i: int)
    requires
        0 <= i < part.len(),
        i < s.len() ==> s[i] != part[i],
    ensures
        !text::begins(s, part),
        text::after(s, part) is None,
{
    if s.len() >= part.len() {
        assert(s.subrange(0, part.len() as int)[i] == s[i]);
    }
}


/// A failure to find those who need help is told by how its text begins, whatever follows.
pub proof fn lemma_signaling_failures_have_their_kinds(tail: Seq<char>)
    ensures
        diag::signaling_kind_of("invalid Freddie endpoint"@ + tail) == "SignalingError::InvalidEndpoint"@,
        diag::signaling_kind_of("Freddie request failed"@ + tail) == "SignalingError::Transport"@,
        diag::signaling_kind_of("Freddie rejected protocol version"@ + tail) == "SignalingError::ProtocolVersion"@,
        diag::signaling_kind_of("Freddie signaling recipient is no longer available"@ + tail) == "SignalingError::RecipientGone"@,
        diag::signaling_kind_of("Freddie returned HTTP"@ + tail) == "SignalingError::Http"@,
        diag::signaling_kind_of("invalid signaling JSON"@ + tail) == "SignalingError::Decode"@,
{
    reveal_strlit("invalid Freddie endpoint");
    reveal_strlit("Freddie request failed");
    reveal_strlit("Freddie rejected protocol version");
    reveal_strlit("Freddie signaling recipient is no longer available");
    reveal_strlit("Freddie returned HTTP");
    reveal_strlit("invalid signaling JSON");
    lemma_begins("invalid Freddie endpoint"@, tail);
    lemma_begins("Freddie request failed"@, tail);
    lemma_begins_not("Freddie request failed"@ + tail, "invalid Freddie endpoint"@, 0);
    lemma_begins("Freddie rejected protocol version"@, tail);
    lemma_begins_not("Freddie rejected protocol version"@ + tail, "invalid Freddie endpoint"@, 0);
    lemma_begins_not("Freddie rejected protocol version"@ + tail, "Freddie request failed"@, 10);
    lemma_begins("Freddie signaling recipient is no longer available"@, tail);
    lemma_begins_not("Freddie signaling recipient is no longer available"@ + tail, "invalid Freddie endpoint"@, 0);
    lemma_begins_not("Freddie signaling recipient is no longer available"@ + tail, "Freddie request failed"@, 8);
    lemma_begins_not("Freddie signaling recipient is no longer available"@ + tail, "Freddie rejected protocol version"@, 8);
    lemma_begins("Freddie returned HTTP"@, tail);
    lemma_begins_not("Freddie returned HTTP"@ + tail, "invalid Freddie endpoint"@, 0);
    lemma_begins_not("Freddie returned HTTP"@ + tail, "Freddie request failed"@, 10);
    lemma_begins_not("Freddie returned HTTP"@ + tail, "Freddie rejected protocol version"@, 10);
    lemma_begins_not("Freddie returned HTTP"@ + tail, "Freddie signaling recipient is no longer available"@, 8);
    lemma_begins("invalid signaling JSON"@, tail);
    lemma_begins_not("invalid signaling JSON"@ + tail, "invalid Freddie endpoint"@, 8);
    lemma_begins_not("invalid signaling JSON"@ + tail, "Freddie request failed"@, 0);
    lemma_begins_not("invalid signaling JSON"@ + tail, "Freddie rejected protocol version"@, 0);
    lemma_begins_not("invalid signaling JSON"@ + tail, "Freddie signaling recipient is no longer available"@, 0);
    lemma_begins_not("invalid signaling JSON"@ + tail, "Freddie returned HTTP"@, 0);
}

/// A failure to carry help is told by how its text begins, whatever follows.
pub proof fn lemma_egress_failures_have_their_kinds(tail: Seq<char>)
    ensures
        diag::egress_kind_of("invalid egress WebSocket request"@ + tail) == "EgressError::Request"@,
        diag::egress_kind_of("invalid egress WebSocket subprotocol header"@ + tail) == "EgressError::Header"@,
        diag::egress_kind_of("egress WebSocket failed"@ + tail) == "EgressError::WebSocket"@,
        diag::egress_kind_of("timed out after "@ + tail) == "EgressError::ConnectTimeout"@,
        diag::egress_kind_of("egress selected no WebSocket subprotocol"@ + tail) == "EgressError::MissingSubprotocol"@,
        diag::egress_kind_of("egress selected unexpected WebSocket subprotocol"@ + tail) == "EgressError::UnexpectedSubprotocol"@,
        diag::egress_kind_of("consumer session ID "@ + tail) == "EgressError::InvalidConsumerSessionId"@,
        diag::egress_kind_of("egress sent a text message"@ + tail) == "EgressError::TextMessage"@,
{
    reveal_strlit("invalid egress WebSocket request");
    reveal_strlit("invalid egress WebSocket subprotocol header");
    reveal_strlit("egress WebSocket failed");
    reveal_strlit("timed out after ");
    reveal_strlit("egress selected no WebSocket subprotocol");
    reveal_strlit("egress selected unexpected WebSocket subprotocol");
    reveal_strlit("consumer session ID ");
    reveal_strlit("egress sent a text message");
    lemma_begins("invalid egress WebSocket request"@, tail);
    lemma_begins("invalid egress WebSocket subprotocol header"@, tail);
    lemma_begins_not("invalid egress WebSocket subprotocol header"@ + tail, "invalid egress WebSocket request"@, 25);
    lemma_begins("egress WebSocket failed"@, tail);
    lemma_begins_not("egress WebSocket failed"@ + tail, "invalid egress WebSocket request"@, 0);
    lemma_begins_not("egress WebSocket failed"@ + tail, "invalid egress WebSocket subprotocol header"@, 0);
    lemma_begins("timed out after "@, tail);
    lemma_begins_not("timed out after "@ + tail, "invalid egress WebSocket request"@, 0);
    lemma_begins_not("timed out after "@ + tail, "invalid egress WebSocket subprotocol header"@, 0);
    lemma_begins_not("timed out after "@ + tail, "egress WebSocket failed"@, 0);
    lemma_begins("egress selected no WebSocket subprotocol"@, tail);
    lemma_begins_not("egress selected no WebSocket subprotocol"@ + tail, "invalid egress WebSocket request"@, 0);
    lemma_begins_not("egress selected no WebSocket subprotocol"@ + tail, "invalid egress WebSocket subprotocol header"@, 0);
    lemma_begins_not("egress selected no WebSocket subprotocol"@ + tail, "egress WebSocket failed"@, 7);
    lemma_begins_not("egress selected no WebSocket subprotocol"@ + tail, "timed out after "@, 0);
    lemma_begins("egress selected unexpected WebSocket subprotocol"@, tail);
    lemma_begins_not("egress selected unexpected WebSocket subprotocol"@ + tail, "invalid egress WebSocket request"@, 0);
    lemma_begins_not("egress selected unexpected WebSocket subprotocol"@ + tail, "invalid egress WebSocket subprotocol header"@, 0);
    lemma_begins_not("egress selected unexpected WebSocket subprotocol"@ + tail, "egress WebSocket failed"@, 7);
    lemma_begins_not("egress selected unexpected WebSocket subprotocol"@ + tail, "timed out after "@, 0);
    lemma_begins_not("egress selected unexpected WebSocket subprotocol"@ + tail, "egress selected no WebSocket subprotocol"@, 16);
    lemma_begins("consumer session ID "@, tail);
    lemma_begins_not("consumer session ID "@ + tail, "invalid egress WebSocket request"@, 0);
    lemma_begins_not("consumer session ID "@ + tail, "invalid egress WebSocket subprotocol header"@, 0);
    lemma_begins_not("consumer session ID "@ + tail, "egress WebSocket failed"@, 0);
    lemma_begins_not("consumer session ID "@ + tail, "timed out after "@, 0);
    lemma_begins_not("consumer session ID "@ + tail, "egress selected no WebSocket subprotocol"@, 0);
    lemma_begins_not("consumer session ID "@ + tail, "egress selected unexpected WebSocket subprotocol"@, 0);
    lemma_begins("egress sent a text message"@, tail);
    lemma_begins_not("egress sent a text message"@ + tail, "invalid egress WebSocket request"@, 0);
    lemma_begins_not("egress sent a text message"@ + tail, "invalid egress WebSocket subprotocol header"@, 0);
    lemma_begins_not("egress sent a text message"@ + tail, "egress WebSocket failed"@, 7);
    lemma_begins_not("egress sent a text message"@ + tail, "timed out after "@, 0);
    lemma_begins_not("egress sent a text message"@ + tail, "egress selected no WebSocket subprotocol"@, 9);
    lemma_begins_not("egress sent a text message"@ + tail, "egress selected unexpected WebSocket subprotocol"@, 9);
    lemma_begins_not("egress sent a text message"@ + tail, "consumer session ID "@, 0);
}

/// The first words of a failure say where it comes from: the rest is told apart by its own beginning.
pub proof fn lemma_failures_are_told_by_their_source(rest: Seq<char>)
    ensures
        diag::error_kind_of("Freddie signaling failed: "@ + rest) == diag::signaling_kind_of(rest),
        diag::error_kind_of("egress tunnel failed: "@ + rest) == diag::egress_kind_of(rest),
        diag::error_kind_of("packet relay failed after "@ + rest) == diag::relay_kind_of(
            "packet relay failed after "@ + rest,
        ),
{
    reveal_strlit("Freddie signaling failed: ");
    reveal_strlit("egress tunnel failed: ");
    reveal_strlit("packet relay failed after ");
    lemma_begins("Freddie signaling failed: "@, rest);
    lemma_begins("egress tunnel failed: "@, rest);
    lemma_begins("packet relay failed after "@, rest);
    lemma_begins_not("egress tunnel failed: "@ + rest, "Freddie signaling failed: "@, 0);
    lemma_begins_not("packet relay failed after "@ + rest, "Freddie signaling failed: "@, 0);
    lemma_begins_not("packet relay failed after "@ + rest, "egress tunnel failed: "@, 0);
}

/// A failure to relay names the end that failed, wherever in its text that stands.
pub proof fn lemma_relay_failures_name_the_end(a: Seq<char>, b: Seq<char>)
    ensures
        diag::relay_kind_of(a + ": peer transport failed"@ + b) == "RelayError::Peer"@,
        !text::holds_part(
            a + ": egress transport failed"@ + b,
            ": peer transport failed"@,
        ) ==> diag::relay_kind_of(a + ": egress transport failed"@ + b) == "RelayError::Egress"@,
{
    lemma_holds(a, ": peer transport failed"@, b);
    lemma_holds(a, ": egress transport failed"@, b);
}

proof fn lemma_holds(a: Seq<char>, part: Seq<char>, b: Seq<char>)
    ensures
        text::holds_part(a + part + b, part),
{
    let s = a + part + b;
    let at = a.len() as int;
    assert(s.subrange(at, at + part.len() as int) =~= part);
    assert(text::found_at(s, part, at));
}

/// Any other failure is told by how its text begins, or by the whole of it.
pub proof fn lemma_plain_failures_have_their_kinds(tail: Seq<char>)
    ensures
        diag::error_kind_of("WebRTC failed"@ + tail) == "PeerProxyError::WebRtc"@,
        diag::error_kind_of("Freddie returned no "@ + tail) == "PeerProxyError::MissingResponse"@,
        diag::error_kind_of("consumer supplied no session ID"@) == "PeerProxyError::MissingConsumerSessionId"@,
        diag::error_kind_of("consumer supplied a malformed session ID"@) == "PeerProxyError::InvalidConsumerSessionId"@,
        diag::error_kind_of("consumer supplied an invalid ICE candidate"@ + tail) == "PeerProxyError::InvalidIceCandidate"@,
        diag::error_kind_of("timed out waiting for the consumer WebRTC DataChannel"@) == "PeerProxyError::NatTimeout"@,
        diag::error_kind_of("consumer WebRTC DataChannel callback ended"@ + tail) == "PeerProxyError::DataChannelClosed"@,
        diag::error_kind_of("consumer WebRTC connection became "@ + tail) == "PeerProxyError::PeerConnectionEnded"@,
        diag::error_kind_of("peer proxy session cancelled"@) == "PeerProxyError::Cancelled"@,
        !text::begins(tail, "no "@) ==> diag::error_kind_of("Freddie returned "@ + tail)
            == "PeerProxyError::UnexpectedSignal"@,
        diag::error_kind_of("invalid "@ + tail + " signaling payload"@) == "PeerProxyError::Decode"@,
{
    reveal_strlit("WebRTC failed");
    reveal_strlit("invalid ");
    reveal_strlit("Freddie returned no ");
    reveal_strlit("Freddie returned ");
    reveal_strlit("consumer supplied no session ID");
    reveal_strlit("consumer supplied a malformed session ID");
    reveal_strlit("consumer supplied an invalid ICE candidate");
    reveal_strlit("timed out waiting for the consumer WebRTC DataChannel");
    reveal_strlit("consumer WebRTC DataChannel callback ended");
    reveal_strlit("consumer WebRTC connection became ");
    reveal_strlit("peer proxy session cancelled");
    reveal_strlit("Freddie signaling failed: ");
    reveal_strlit("egress tunnel failed: ");
    reveal_strlit("packet relay failed after ");
    lemma_begins("WebRTC failed"@, tail);
    lemma_begins_not(("WebRTC failed"@ + tail), "Freddie signaling failed: "@, 0);
    lemma_begins_not(("WebRTC failed"@ + tail), "egress tunnel failed: "@, 0);
    lemma_begins_not(("WebRTC failed"@ + tail), "packet relay failed after "@, 0);
    lemma_begins("Freddie returned no "@, tail);
    lemma_begins_not(("Freddie returned no "@ + tail), "Freddie signaling failed: "@, 8);
    lemma_begins_not(("Freddie returned no "@ + tail), "egress tunnel failed: "@, 0);
    lemma_begins_not(("Freddie returned no "@ + tail), "packet relay failed after "@, 0);
    lemma_begins_not(("Freddie returned no "@ + tail), "WebRTC failed"@, 0);
    lemma_begins_not(("Freddie returned no "@ + tail), "invalid "@, 0);
    lemma_begins_not("consumer supplied no session ID"@, "Freddie signaling failed: "@, 0);
    lemma_begins_not("consumer supplied no session ID"@, "egress tunnel failed: "@, 0);
    lemma_begins_not("consumer supplied no session ID"@, "packet relay failed after "@, 0);
    lemma_begins_not("consumer supplied no session ID"@, "WebRTC failed"@, 0);
    lemma_begins_not("consumer supplied no session ID"@, "invalid "@, 0);
    lemma_begins_not("consumer supplied no session ID"@, "Freddie returned no "@, 0);
    lemma_begins_not("consumer supplied no session ID"@, "Freddie returned "@, 0);
    lemma_begins_not("consumer supplied a malformed session ID"@, "Freddie signaling failed: "@, 0);
    lemma_begins_not("consumer supplied a malformed session ID"@, "egress tunnel failed: "@, 0);
    lemma_begins_not("consumer supplied a malformed session ID"@, "packet relay failed after "@, 0);
    lemma_begins_not("consumer supplied a malformed session ID"@, "WebRTC failed"@, 0);
    lemma_begins_not("consumer supplied a malformed session ID"@, "invalid "@, 0);
    lemma_begins_not("consumer supplied a malformed session ID"@, "Freddie returned no "@, 0);
    lemma_begins_not("consumer supplied a malformed session ID"@, "Freddie returned "@, 0);
    assert("consumer supplied a malformed session ID"@[18] != "consumer supplied no session ID"@[18]);
    lemma_begins("consumer supplied an invalid ICE candidate"@, tail);
    lemma_begins_not(("consumer supplied an invalid ICE candidate"@ + tail), "Freddie signaling failed: "@, 0);
    lemma_begins_not(("consumer supplied an invalid ICE candidate"@ + tail), "egress tunnel failed: "@, 0);
    lemma_begins_not(("consumer supplied an invalid ICE candidate"@ + tail), "packet relay failed after "@, 0);
    lemma_begins_not(("consumer supplied an invalid ICE candidate"@ + tail), "WebRTC failed"@, 0);
    lemma_begins_not(("consumer supplied an invalid ICE candidate"@ + tail), "invalid "@, 0);
    lemma_begins_not(("consumer supplied an invalid ICE candidate"@ + tail), "Freddie returned no "@, 0);
    lemma_begins_not(("consumer supplied an invalid ICE candidate"@ + tail), "Freddie returned "@, 0);
    assert(("consumer supplied an invalid ICE candidate"@ + tail)[18] != "consumer supplied no session ID"@[18]);
    assert(("consumer supplied an invalid ICE candidate"@ + tail)[19] != "consumer supplied a malformed session ID"@[19]);
    lemma_begins_not("timed out waiting for the consumer WebRTC DataChannel"@, "Freddie signaling failed: "@, 0);
    lemma_begins_not("timed out waiting for the consumer WebRTC DataChannel"@, "egress tunnel failed: "@, 0);
    lemma_begins_not("timed out waiting for the consumer WebRTC DataChannel"@, "packet relay failed after "@, 0);
    lemma_begins_not("timed out waiting for the consumer WebRTC DataChannel"@, "WebRTC failed"@, 0);
    lemma_begins_not("timed out waiting for the consumer WebRTC DataChannel"@, "invalid "@, 0);
    lemma_begins_not("timed out waiting for the consumer WebRTC DataChannel"@, "Freddie returned no "@, 0);
    lemma_begins_not("timed out waiting for the consumer WebRTC DataChannel"@, "Freddie returned "@, 0);
    assert("timed out waiting for the consumer WebRTC DataChannel"@[0] != "consumer supplied no session ID"@[0]);
    assert("timed out waiting for the consumer WebRTC DataChannel"@[0] != "consumer supplied a malformed session ID"@[0]);
    lemma_begins_not("timed out waiting for the consumer WebRTC DataChannel"@, "consumer supplied an invalid ICE candidate"@, 0);
    lemma_begins("consumer WebRTC DataChannel callback ended"@, tail);
    lemma_begins_not(("consumer WebRTC DataChannel callback ended"@ + tail), "Freddie signaling failed: "@, 0);
    lemma_begins_not(("consumer WebRTC DataChannel callback ended"@ + tail), "egress tunnel failed: "@, 0);
    lemma_begins_not(("consumer WebRTC DataChannel callback ended"@ + tail), "packet relay failed after "@, 0);
    lemma_begins_not(("consumer WebRTC DataChannel callback ended"@ + tail), "WebRTC failed"@, 0);
    lemma_begins_not(("consumer WebRTC DataChannel callback ended"@ + tail), "invalid "@, 0);
    lemma_begins_not(("consumer WebRTC DataChannel callback ended"@ + tail), "Freddie returned no "@, 0);
    lemma_begins_not(("consumer WebRTC DataChannel callback ended"@ + tail), "Freddie returned "@, 0);
    assert(("consumer WebRTC DataChannel callback ended"@ + tail)[9] != "consumer supplied no session ID"@[9]);
    assert(("consumer WebRTC DataChannel callback ended"@ + tail)[9] != "consumer supplied a malformed session ID"@[9]);
    lemma_begins_not(("consumer WebRTC DataChannel callback ended"@ + tail), "consumer supplied an invalid ICE candidate"@, 9);
    assert(("consumer WebRTC DataChannel callback ended"@ + tail)[0] != "timed out waiting for the consumer WebRTC DataChannel"@[0]);
    lemma_begins("consumer WebRTC connection became "@, tail);
    lemma_begins_not(("consumer WebRTC connection became "@ + tail), "Freddie signaling failed: "@, 0);
    lemma_begins_not(("consumer WebRTC connection became "@ + tail), "egress tunnel failed: "@, 0);
    lemma_begins_not(("consumer WebRTC connection became "@ + tail), "packet relay failed after "@, 0);
    lemma_begins_not(("consumer WebRTC connection became "@ + tail), "WebRTC failed"@, 0);
    lemma_begins_not(("consumer WebRTC connection became "@ + tail), "invalid "@, 0);
    lemma_begins_not(("consumer WebRTC connection became "@ + tail), "Freddie returned no "@, 0);
    lemma_begins_not(("consumer WebRTC connection became "@ + tail), "Freddie returned "@, 0);
    assert(("consumer WebRTC connection became "@ + tail)[9] != "consumer supplied no session ID"@[9]);
    assert(("consumer WebRTC connection became "@ + tail)[9] != "consumer supplied a malformed session ID"@[9]);
    lemma_begins_not(("consumer WebRTC connection became "@ + tail), "consumer supplied an invalid ICE candidate"@, 9);
    assert(("consumer WebRTC connection became "@ + tail)[0] != "timed out waiting for the consumer WebRTC DataChannel"@[0]);
    lemma_begins_not(("consumer WebRTC connection became "@ + tail), "consumer WebRTC DataChannel callback ended"@, 16);
    lemma_begins_not("peer proxy session cancelled"@, "Freddie signaling failed: "@, 0);
    lemma_begins_not("peer proxy session cancelled"@, "egress tunnel failed: "@, 0);
    lemma_begins_not("peer proxy session cancelled"@, "packet relay failed after "@, 1);
    lemma_begins_not("peer proxy session cancelled"@, "WebRTC failed"@, 0);
    lemma_begins_not("peer proxy session cancelled"@, "invalid "@, 0);
    lemma_begins_not("peer proxy session cancelled"@, "Freddie returned no "@, 0);
    lemma_begins_not("peer proxy session cancelled"@, "Freddie returned "@, 0);
    assert("peer proxy session cancelled"@[0] != "consumer supplied no session ID"@[0]);
    assert("peer proxy session cancelled"@[0] != "consumer supplied a malformed session ID"@[0]);
    lemma_begins_not("peer proxy session cancelled"@, "consumer supplied an invalid ICE candidate"@, 0);
    assert("peer proxy session cancelled"@[0] != "timed out waiting for the consumer WebRTC DataChannel"@[0]);
    lemma_begins_not("peer proxy session cancelled"@, "consumer WebRTC DataChannel callback ended"@, 0);
    lemma_begins_not("peer proxy session cancelled"@, "consumer WebRTC connection became "@, 0);
    let other = "Freddie returned "@ + tail;
    lemma_begins("Freddie returned "@, tail);
    lemma_begins_not(other, "Freddie signaling failed: "@, 8);
    lemma_begins_not(other, "egress tunnel failed: "@, 0);
    lemma_begins_not(other, "packet relay failed after "@, 0);
    lemma_begins_not(other, "WebRTC failed"@, 0);
    lemma_begins_not(other, "invalid "@, 0);
    reveal_strlit("no ");
    if text::begins(other, "Freddie returned no "@) {
        assert(other.subrange(0, 20) =~= "Freddie returned no "@);
        assert forall|i: int| 0 <= i < 3 implies tail[i] == "no "@[i] by {
            assert(tail[i] == other[17 + i]);
            assert(other.subrange(0, 20)[17 + i] == other[17 + i]);
        }
        assert(tail.subrange(0, 3) =~= "no "@);
    }
    let bad = "invalid "@ + tail + " signaling payload"@;
    assert(bad =~= "invalid "@ + (tail + " signaling payload"@));
    lemma_begins("invalid "@, tail + " signaling payload"@);
    lemma_holds("invalid "@ + tail, " signaling payload"@, Seq::empty());
    assert("invalid "@ + tail + " signaling payload"@ + Seq::<char>::empty() =~= bad);
    lemma_begins_not(bad, "Freddie signaling failed: "@, 0);
    lemma_begins_not(bad, "egress tunnel failed: "@, 0);
    lemma_begins_not(bad, "packet relay failed after "@, 0);
    lemma_begins_not(bad, "WebRTC failed"@, 0);
}

} // verus!
