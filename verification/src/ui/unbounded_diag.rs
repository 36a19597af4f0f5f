//! The timeline of sharing: each event of the pool becomes a list of things to report.
use vstd::prelude::*;

use crate::table::{self, Table};
use crate::text;

verus! {

/// How often the pool as a whole is reported (ms).
pub const SNAPSHOT_INTERVAL_MS: u64 = 60_000;

/// What the timeline needs to know of an event of the pool.
#[derive(Debug)]
pub enum EventView {
    /// A slot began an attempt.
    AttemptStarted {
        /// The slot.
        slot: usize,
    },
    /// A peer connected.
    PeerConnected {
        /// The slot.
        slot: usize,
        /// The session.
        session_id: String,
    },
    /// A peer disconnected.
    PeerDisconnected {
        /// The slot.
        slot: usize,
        /// The session.
        session_id: String,
    },
    /// A session ended.
    SessionEnded {
        /// The slot.
        slot: usize,
        /// The session.
        session_id: String,
    },
    /// An attempt failed.
    AttemptFailed {
        /// The slot.
        slot: usize,
        /// What the failure says.
        error: String,
    },
    /// A slot stopped.
    Stopped {
        /// The slot.
        slot: usize,
    },
}

/// What is reported.
#[derive(Debug)]
pub enum DiagEvent {
    /// A slot began an attempt.
    AttemptStarted {
        /// The slot.
        slot: usize,
    },
    /// A peer connected.
    PeerConnected {
        /// The session.
        session: String,
        /// How long it took (ms).
        nat_traversal_ms: u64,
        /// The kind of path, which is not known.
        pair: &'static str,
        /// The peer's country, if it is known.
        region: Option<String>,
    },
    /// The peer's country could not be found.
    GeoFailed {
        /// Why.
        reason: &'static str,
    },
    /// A peer disconnected.
    PeerDisconnected {
        /// The session.
        session: String,
        /// How long it lasted (ms).
        duration_ms: u64,
        /// How much was carried, which is not counted.
        bytes: u64,
        /// Why.
        reason: &'static str,
    },
    /// An attempt failed.
    AttemptFailed {
        /// The slot.
        slot: usize,
        /// The kind of failure: never what the failure says.
        error_kind: &'static str,
    },
}

/// What is reported.
pub enum DiagModel {
    /// A slot began an attempt.
    AttemptStarted(usize),
    /// A peer connected: session, time taken, kind of path, country.
    PeerConnected(Seq<char>, u64, Seq<char>, Option<Seq<char>>),
    /// The peer's country could not be found: why.
    GeoFailed(Seq<char>),
    /// A peer disconnected: session, duration, bytes, why.
    PeerDisconnected(Seq<char>, u64, u64, Seq<char>),
    /// An attempt failed: slot, kind of failure.
    AttemptFailed(usize, Seq<char>),
}

impl View for DiagEvent {
    type V = DiagModel;

    open spec fn view(&self) -> DiagModel {
        match *self {
            DiagEvent::AttemptStarted { slot } => DiagModel::AttemptStarted(slot),
            DiagEvent::PeerConnected { session, nat_traversal_ms, pair, region } =>
            DiagModel::PeerConnected(
                session@,
                nat_traversal_ms,
                pair@,
                match region {
                    Some(r) => Some(r@),
                    None => None,
                },
            ),
            DiagEvent::GeoFailed { reason } => DiagModel::GeoFailed(reason@),
            DiagEvent::PeerDisconnected { session, duration_ms, bytes, reason } =>
            DiagModel::PeerDisconnected(session@, duration_ms, bytes, reason@),
            DiagEvent::AttemptFailed { slot, error_kind } => DiagModel::AttemptFailed(
                slot,
                error_kind@,
            ),
        }
    }
}

/// The names of the reports.
pub open spec fn kind_of(e: DiagModel) -> Seq<char> {
    match e {
        DiagModel::AttemptStarted(_) => "unbounded.attempt_started"@,
        DiagModel::PeerConnected(_, _, _, _) => "unbounded.peer_connected"@,
        DiagModel::GeoFailed(_) => "unbounded.geo_failed"@,
        DiagModel::PeerDisconnected(_, _, _, _) => "unbounded.peer_disconnected"@,
        DiagModel::AttemptFailed(_, _) => "unbounded.attempt_failed"@,
    }
}

impl DiagEvent {
    /// The name of the report.
    pub fn kind(&self) -> (s: &'static str)
        ensures
            s@ == kind_of(self@),
    {
        match self {
            DiagEvent::AttemptStarted { .. } => "unbounded.attempt_started",
            DiagEvent::PeerConnected { .. } => "unbounded.peer_connected",
            DiagEvent::GeoFailed { .. } => "unbounded.geo_failed",
            DiagEvent::PeerDisconnected { .. } => "unbounded.peer_disconnected",
            DiagEvent::AttemptFailed { .. } => "unbounded.attempt_failed",
        }
    }
}

/// One thing to do. The host keeps a trace for each session: a root span, with one span for relaying.
#[derive(Debug)]
pub enum DiagAction {
    /// Open the session's trace and its relaying span, and put the session's records under it.
    SetCtx {
        /// The session.
        session: String,
    },
    /// Report.
    Emit(DiagEvent),
    /// Report an error.
    EmitError(DiagEvent),
    /// Close the relaying span without error, then the root span with this error, and send both.
    PushSpans {
        /// The session.
        session: String,
        /// The kind of failure, if there was one.
        error: Option<&'static str>,
    },
    /// The session's trace takes no more records.
    RemoveCtx {
        /// The session.
        session: String,
    },
}

/// One thing to do.
pub enum ActionModel {
    /// Open the session's trace.
    SetCtx(Seq<char>),
    /// Report.
    Emit(DiagModel),
    /// Report an error.
    EmitError(DiagModel),
    /// Close the session's trace and send it.
    PushSpans(Seq<char>, Option<Seq<char>>),
    /// The session's trace takes no more records.
    RemoveCtx(Seq<char>),
}

impl View for DiagAction {
    type V = ActionModel;

    open spec fn view(&self) -> ActionModel {
        match *self {
            DiagAction::SetCtx { session } => ActionModel::SetCtx(session@),
            DiagAction::Emit(e) => ActionModel::Emit(e@),
            DiagAction::EmitError(e) => ActionModel::EmitError(e@),
            DiagAction::PushSpans { session, error } => ActionModel::PushSpans(
                session@,
                match error {
                    Some(kind) => Some(kind@),
                    None => None,
                },
            ),
            DiagAction::RemoveCtx { session } => ActionModel::RemoveCtx(session@),
        }
    }
}

/// What a list of things to do stands for.
pub open spec fn actions(v: Seq<DiagAction>) -> Seq<ActionModel> {
    Seq::new(v.len(), |i: int| v[i]@)
}

/// A session that is being relayed.
#[derive(Debug)]
pub struct LiveSession {
    /// The session.
    pub session_id: String,
    /// When it began (ms).
    pub started: u64,
}

/// What is known of a slot. A slot makes one attempt at a time, and so relays one session at most.
#[derive(Debug)]
pub struct SlotDiag {
    /// When the present attempt began (ms), until a peer connects.
    pub attempt_started: Option<u64>,
    /// The session that is being relayed.
    pub live: Option<LiveSession>,
}

/// What is known of a slot.
pub struct SlotModel {
    /// When the present attempt began.
    pub attempt_started: Option<u64>,
    /// The session that is being relayed, and when it began.
    pub live: Option<(Seq<char>, u64)>,
}

impl View for SlotDiag {
    type V = SlotModel;

    open spec fn view(&self) -> SlotModel {
        SlotModel {
            attempt_started: self.attempt_started,
            live: match self.live {
                Some(l) => Some((l.session_id@, l.started)),
                None => None,
            },
        }
    }
}

/// What is known of the slots.
#[derive(Debug)]
pub struct PoolDiag {
    slots: Table<SlotDiag>,
}

/// The model of a slot.
pub open spec fn slot_view() -> spec_fn(SlotDiag) -> SlotModel {
    |s: SlotDiag| s@
}

impl View for PoolDiag {
    type V = Seq<(u64, SlotModel)>;

    closed spec fn view(&self) -> Seq<(u64, SlotModel)> {
        table::mapped(self.slots@, slot_view())
    }
}

/// A slot of which nothing is known.
pub open spec fn idle() -> SlotModel {
    SlotModel { attempt_started: None, live: None }
}

/// What is known of a slot.
pub open spec fn slot_of(pool: Seq<(u64, SlotModel)>, slot: usize) -> SlotModel {
    if table::holds(pool, slot as u64) {
        table::at(pool, slot as u64)
    } else {
        idle()
    }
}

/// The end of a session's trace.
pub open spec fn finished(session: Seq<char>, error: Option<Seq<char>>) -> Seq<ActionModel> {
    seq![ActionModel::PushSpans(session, error), ActionModel::RemoveCtx(session)]
}

/// The end of whatever a slot relays.
pub open spec fn closed_out(s: SlotModel, error: Option<Seq<char>>) -> Seq<ActionModel> {
    match s.live {
        Some((session, _)) => finished(session, error),
        None => Seq::empty(),
    }
}

/// Time passed between two readings of a clock that does not run back.
pub open spec fn elapsed(from: u64, now: u64) -> u64 {
    if now >= from {
        (now - from) as u64
    } else {
        0
    }
}

/// What a connected peer leads to.
pub open spec fn connected_actions(
    s: SlotModel,
    session: Seq<char>,
    region: Option<Seq<char>>,
    now: u64,
) -> Seq<ActionModel> {
    let took = match s.attempt_started {
        Some(t) => elapsed(t, now),
        None => 0,
    };
    closed_out(s, None) + seq![
        ActionModel::SetCtx(session),
        ActionModel::Emit(DiagModel::PeerConnected(session, took, "unknown"@, region)),
    ] + if region is None {
        seq![ActionModel::Emit(DiagModel::GeoFailed("resolver_none"@))]
    } else {
        Seq::empty()
    }
}

/// Whether a slot relays a session.
pub open spec fn relays(s: SlotModel, session: Seq<char>) -> bool {
    s.live matches Some((id, _)) && id == session
}

/// The end of a session, where the slot relays it.
pub open spec fn ended_actions(s: SlotModel, session: Seq<char>, reason: Seq<char>, now: u64) -> Seq<
    ActionModel,
> {
    match s.live {
        Some((id, started)) => if id == session {
            seq![
                ActionModel::Emit(
                    DiagModel::PeerDisconnected(session, elapsed(started, now), 0, reason),
                ),
            ] + finished(session, None)
        } else {
            Seq::empty()
        },
        None => Seq::empty(),
    }
}

/// What is to be done about an event, given what is known of its slot.
pub open spec fn actions_for(ev: EventView, region: Option<Seq<char>>, s: SlotModel, now: u64) -> Seq<
    ActionModel,
> {
    match ev {
        EventView::AttemptStarted { slot } => seq![
            ActionModel::Emit(DiagModel::AttemptStarted(slot)),
        ],
        EventView::PeerConnected { session_id, .. } => if relays(s, session_id@) {
            Seq::empty()
        } else {
            connected_actions(s, session_id@, region, now)
        },
        EventView::PeerDisconnected { session_id, .. } => ended_actions(
            s,
            session_id@,
            "disconnected"@,
            now,
        ),
        EventView::SessionEnded { session_id, .. } => ended_actions(
            s,
            session_id@,
            "session_ended"@,
            now,
        ),
        EventView::AttemptFailed { slot, error } => seq![
            ActionModel::EmitError(DiagModel::AttemptFailed(slot, error_kind_of(error@))),
        ] + closed_out(s, Some(error_kind_of(error@))),
        EventView::Stopped { .. } => closed_out(s, None),
    }
}

/// The text of a region, if there is one.
pub open spec fn region_text(region: Option<&str>) -> Option<Seq<char>> {
    match region {
        Some(r) => Some(r@),
        None => None,
    }
}

/// What is known of a slot after an event that concerns it, where the slot goes on.
pub open spec fn slot_after(ev: EventView, s: SlotModel, now: u64) -> SlotModel {
    match ev {
        EventView::AttemptStarted { .. } => SlotModel { attempt_started: Some(now), ..s },
        EventView::PeerConnected { session_id, .. } => if relays(s, session_id@) {
            s
        } else {
            SlotModel { attempt_started: None, live: Some((session_id@, now)) }
        },
        EventView::PeerDisconnected { session_id, .. } | EventView::SessionEnded {
            session_id,
            ..
        } => if relays(s, session_id@) {
            SlotModel { live: None, ..s }
        } else {
            s
        },
        EventView::AttemptFailed { .. } => idle(),
        EventView::Stopped { .. } => s,
    }
}

/// The slot that an event concerns.
pub open spec fn slot_in(ev: EventView) -> usize {
    match ev {
        EventView::AttemptStarted { slot } => slot,
        EventView::PeerConnected { slot, .. } => slot,
        EventView::PeerDisconnected { slot, .. } => slot,
        EventView::SessionEnded { slot, .. } => slot,
        EventView::AttemptFailed { slot, .. } => slot,
        EventView::Stopped { slot } => slot,
    }
}

/// What is known of the slots after an event.
pub open spec fn pool_after(ev: EventView, pool: Seq<(u64, SlotModel)>, now: u64) -> Seq<
    (u64, SlotModel),
> {
    let slot = slot_in(ev);
    if ev is Stopped {
        table::without(pool, slot as u64)
    } else {
        table::with(pool, slot as u64, slot_after(ev, slot_of(pool, slot), now))
    }
}

/// How many slots relay a session.
pub open spec fn filled(pool: Seq<(u64, SlotModel)>) -> nat
    decreases pool.len(),
{
    if pool.len() == 0 {
        0
    } else {
        filled(pool.drop_last()) + if pool.last().1.live is Some {
            1nat
        } else {
            0nat
        }
    }
}

/// The kind of a failure to find those who need help, from what follows its prefix.
pub open spec fn signaling_kind_of(rest: Seq<char>) -> Seq<char> {
    if text::begins(rest, "invalid Freddie endpoint"@) {
        "SignalingError::InvalidEndpoint"@
    } else if text::begins(rest, "Freddie request failed"@) {
        "SignalingError::Transport"@
    } else if text::begins(rest, "Freddie rejected protocol version"@) {
        "SignalingError::ProtocolVersion"@
    } else if text::begins(rest, "Freddie signaling recipient is no longer available"@) {
        "SignalingError::RecipientGone"@
    } else if text::begins(rest, "Freddie returned HTTP"@) {
        "SignalingError::Http"@
    } else if text::begins(rest, "invalid signaling JSON"@) {
        "SignalingError::Decode"@
    } else {
        "PeerProxyError::Signaling"@
    }
}

/// The kind of a failure to carry help, from what follows its prefix.
pub open spec fn egress_kind_of(rest: Seq<char>) -> Seq<char> {
    if text::begins(rest, "invalid egress WebSocket request"@) {
        "EgressError::Request"@
    } else if text::begins(rest, "invalid egress WebSocket subprotocol header"@) {
        "EgressError::Header"@
    } else if text::begins(rest, "egress WebSocket failed"@) {
        "EgressError::WebSocket"@
    } else if text::begins(rest, "timed out after "@) {
        "EgressError::ConnectTimeout"@
    } else if text::begins(rest, "egress selected no WebSocket subprotocol"@) {
        "EgressError::MissingSubprotocol"@
    } else if text::begins(rest, "egress selected unexpected WebSocket subprotocol"@) {
        "EgressError::UnexpectedSubprotocol"@
    } else if text::begins(rest, "consumer session ID "@) {
        "EgressError::InvalidConsumerSessionId"@
    } else if text::begins(rest, "egress sent a text message"@) {
        "EgressError::TextMessage"@
    } else {
        "PeerProxyError::Egress"@
    }
}

/// The kind of a failure to relay.
pub open spec fn relay_kind_of(error: Seq<char>) -> Seq<char> {
    if text::holds_part(error, ": peer transport failed"@) {
        "RelayError::Peer"@
    } else if text::holds_part(error, ": egress transport failed"@) {
        "RelayError::Egress"@
    } else {
        "PeerProxyError::Relay"@
    }
}

/// The kind of a failure that names no deeper one.
pub open spec fn plain_kind_of(error: Seq<char>) -> Seq<char> {
    if text::begins(error, "WebRTC failed"@) {
        "PeerProxyError::WebRtc"@
    } else if text::begins(error, "invalid "@) && text::holds_part(error, " signaling payload"@) {
        "PeerProxyError::Decode"@
    } else if text::begins(error, "Freddie returned no "@) {
        "PeerProxyError::MissingResponse"@
    } else if text::begins(error, "Freddie returned "@) {
        "PeerProxyError::UnexpectedSignal"@
    } else if error == "consumer supplied no session ID"@ {
        "PeerProxyError::MissingConsumerSessionId"@
    } else if error == "consumer supplied a malformed session ID"@ {
        "PeerProxyError::InvalidConsumerSessionId"@
    } else if text::begins(error, "consumer supplied an invalid ICE candidate"@) {
        "PeerProxyError::InvalidIceCandidate"@
    } else if error == "timed out waiting for the consumer WebRTC DataChannel"@ {
        "PeerProxyError::NatTimeout"@
    } else if text::begins(error, "consumer WebRTC DataChannel callback ended"@) {
        "PeerProxyError::DataChannelClosed"@
    } else if text::begins(error, "consumer WebRTC connection became "@) {
        "PeerProxyError::PeerConnectionEnded"@
    } else if error == "peer proxy session cancelled"@ {
        "PeerProxyError::Cancelled"@
    } else {
        "unknown"@
    }
}

/// The kind of a failure, told by how its text begins. What follows may name addresses and is dropped.
pub open spec fn error_kind_of(error: Seq<char>) -> Seq<char> {
    match text::after(error, "Freddie signaling failed: "@) {
        Some(rest) => signaling_kind_of(rest),
        None => match text::after(error, "egress tunnel failed: "@) {
            Some(rest) => egress_kind_of(rest),
            None => if text::begins(error, "packet relay failed after "@) {
                relay_kind_of(error)
            } else {
                plain_kind_of(error)
            },
        },
    }
}

fn signaling_kind(rest: &str) -> (kind: &'static str)
    ensures
        kind@ == signaling_kind_of(rest@),
{
    if text::starts_with(rest, "invalid Freddie endpoint") {
        "SignalingError::InvalidEndpoint"
    } else if text::starts_with(rest, "Freddie request failed") {
        "SignalingError::Transport"
    } else if text::starts_with(rest, "Freddie rejected protocol version") {
        "SignalingError::ProtocolVersion"
    } else if text::starts_with(rest, "Freddie signaling recipient is no longer available") {
        "SignalingError::RecipientGone"
    } else if text::starts_with(rest, "Freddie returned HTTP") {
        "SignalingError::Http"
    } else if text::starts_with(rest, "invalid signaling JSON") {
        "SignalingError::Decode"
    } else {
        "PeerProxyError::Signaling"
    }
}

fn egress_kind(rest: &str) -> (kind: &'static str)
    ensures
        kind@ == egress_kind_of(rest@),
{
    if text::starts_with(rest, "invalid egress WebSocket request") {
        "EgressError::Request"
    } else if text::starts_with(rest, "invalid egress WebSocket subprotocol header") {
        "EgressError::Header"
    } else if text::starts_with(rest, "egress WebSocket failed") {
        "EgressError::WebSocket"
    } else if text::starts_with(rest, "timed out after ") {
        "EgressError::ConnectTimeout"
    } else if text::starts_with(rest, "egress selected no WebSocket subprotocol") {
        "EgressError::MissingSubprotocol"
    } else if text::starts_with(rest, "egress selected unexpected WebSocket subprotocol") {
        "EgressError::UnexpectedSubprotocol"
    } else if text::starts_with(rest, "consumer session ID ") {
        "EgressError::InvalidConsumerSessionId"
    } else if text::starts_with(rest, "egress sent a text message") {
        "EgressError::TextMessage"
    } else {
        "PeerProxyError::Egress"
    }
}

fn relay_kind(error: &str) -> (kind: &'static str)
    ensures
        kind@ == relay_kind_of(error@),
{
    if text::contains(error, ": peer transport failed") {
        "RelayError::Peer"
    } else if text::contains(error, ": egress transport failed") {
        "RelayError::Egress"
    } else {
        "PeerProxyError::Relay"
    }
}

fn plain_kind(error: &str) -> (kind: &'static str)
    ensures
        kind@ == plain_kind_of(error@),
{
    if text::starts_with(error, "WebRTC failed") {
        "PeerProxyError::WebRtc"
    } else if text::starts_with(error, "invalid ") && text::contains(error, " signaling payload") {
        "PeerProxyError::Decode"
    } else if text::starts_with(error, "Freddie returned no ") {
        "PeerProxyError::MissingResponse"
    } else if text::starts_with(error, "Freddie returned ") {
        "PeerProxyError::UnexpectedSignal"
    } else if text::same(error, "consumer supplied no session ID") {
        "PeerProxyError::MissingConsumerSessionId"
    } else if text::same(error, "consumer supplied a malformed session ID") {
        "PeerProxyError::InvalidConsumerSessionId"
    } else if text::starts_with(error, "consumer supplied an invalid ICE candidate") {
        "PeerProxyError::InvalidIceCandidate"
    } else if text::same(error, "timed out waiting for the consumer WebRTC DataChannel") {
        "PeerProxyError::NatTimeout"
    } else if text::starts_with(error, "consumer WebRTC DataChannel callback ended") {
        "PeerProxyError::DataChannelClosed"
    } else if text::starts_with(error, "consumer WebRTC connection became ") {
        "PeerProxyError::PeerConnectionEnded"
    } else if text::same(error, "peer proxy session cancelled") {
        "PeerProxyError::Cancelled"
    } else {
        "unknown"
    }
}

/// The kind of a failure.
pub fn error_kind(error: &str) -> (kind: &'static str)
    ensures
        kind@ == error_kind_of(error@),
{
    if let Some(rest) = text::strip_prefix(error, "Freddie signaling failed: ") {
        return signaling_kind(rest.as_str());
    }
    if let Some(rest) = text::strip_prefix(error, "egress tunnel failed: ") {
        return egress_kind(rest.as_str());
    }
    if text::starts_with(error, "packet relay failed after ") {
        relay_kind(error)
    } else {
        plain_kind(error)
    }
}

fn passed(from: u64, now: u64) -> (ms: u64)
    ensures
        ms == elapsed(from, now),
{
    if now >= from {
        now - from
    } else {
        0
    }
}

fn add_action(out: &mut Vec<DiagAction>, a: DiagAction)
    ensures
        actions(final(out)@) == actions(old(out)@).push(a@),
{
    out.push(a);
    assert(actions(out@) =~= actions(old(out)@).push(a@));
}

fn finish_live(out: &mut Vec<DiagAction>, live: LiveSession, error: Option<&'static str>)
    ensures
        actions(final(out)@) == actions(old(out)@) + finished(
            live.session_id@,
            match error {
                Some(kind) => Some(kind@),
                None => None,
            },
        ),
{
    let ghost before = actions(out@);
    add_action(
        out,
        DiagAction::PushSpans { session: live.session_id.as_str().to_owned(), error },
    );
    add_action(out, DiagAction::RemoveCtx { session: live.session_id });
    assert(actions(out@) =~= before + finished(
        live.session_id@,
        match error {
            Some(kind) => Some(kind@),
            None => None,
        },
    ));
}

fn end_session(
    s: &mut SlotDiag,
    session_id: &str,
    reason: &'static str,
    now: u64,
    out: &mut Vec<DiagAction>,
)
    ensures
        final(s)@ == if relays(old(s)@, session_id@) {
            SlotModel { live: None, ..old(s)@ }
        } else {
            old(s)@
        },
        actions(final(out)@) == actions(old(out)@) + ended_actions(
            old(s)@,
            session_id@,
            reason@,
            now,
        ),
{
    let ghost before = actions(out@);
    let relayed: bool = match &s.live {
        Some(l) => text::same(l.session_id.as_str(), session_id),
        None => false,
    };
    if relayed {
        if let Some(live) = s.live.take() {
            add_action(
                out,
                DiagAction::Emit(
                    DiagEvent::PeerDisconnected {
                        session: session_id.to_owned(),
                        duration_ms: passed(live.started, now),
                        bytes: 0,
                        reason,
                    },
                ),
            );
            finish_live(out, live, None);
        }
        assert(actions(out@) =~= before + ended_actions(old(s)@, session_id@, reason@, now));
    } else {
        assert(actions(out@) =~= before + ended_actions(old(s)@, session_id@, reason@, now));
    }
}

fn connect(
    s: &mut SlotDiag,
    session_id: &str,
    region: Option<&str>,
    now: u64,
    out: &mut Vec<DiagAction>,
)
    requires
        !relays(old(s)@, session_id@),
    ensures
        final(s)@ == (SlotModel { attempt_started: None, live: Some((session_id@, now)) }),
        actions(final(out)@) == actions(old(out)@) + connected_actions(
            old(s)@,
            session_id@,
            region_text(region),
            now,
        ),
{
    let ghost before = actions(out@);
    let ghost was = s@;
    let ghost place = region_text(region);
    if let Some(live) = s.live.take() {
        finish_live(out, live, None);
    }
    assert(actions(out@) =~= before + closed_out(was, None));
    let nat_traversal_ms: u64 = match s.attempt_started.take() {
        Some(t) => passed(t, now),
        None => 0,
    };
    add_action(out, DiagAction::SetCtx { session: session_id.to_owned() });
    let unresolved: bool = region.is_none();
    let region: Option<String> = match region {
        Some(r) => Some(r.to_owned()),
        None => None,
    };
    add_action(
        out,
        DiagAction::Emit(
            DiagEvent::PeerConnected {
                session: session_id.to_owned(),
                nat_traversal_ms,
                pair: "unknown",
                region,
            },
        ),
    );
    if unresolved {
        add_action(out, DiagAction::Emit(DiagEvent::GeoFailed { reason: "resolver_none" }));
    }
    s.live = Some(LiveSession { session_id: session_id.to_owned(), started: now });
    assert(actions(out@) =~= before + connected_actions(was, session_id@, place, now));
}

fn slot_event(
    ev: &EventView,
    s: &mut SlotDiag,
    region: Option<&str>,
    now: u64,
    out: &mut Vec<DiagAction>,
)
    requires
        !(ev is Stopped),
    ensures
        final(s)@ == slot_after(*ev, old(s)@, now),
        actions(final(out)@) == actions(old(out)@) + actions_for(
            *ev,
            region_text(region),
            old(s)@,
            now,
        ),
{
    let ghost before = actions(out@);
    let ghost was = s@;
    match ev {
        EventView::AttemptStarted { slot } => {
            s.attempt_started = Some(now);
            add_action(out, DiagAction::Emit(DiagEvent::AttemptStarted { slot: *slot }));
            assert(actions(out@) =~= before + seq![
                ActionModel::Emit(DiagModel::AttemptStarted(*slot)),
            ]);
        },
        EventView::PeerConnected { slot: _, session_id } => {
            let relayed: bool = match &s.live {
                Some(l) => text::same(l.session_id.as_str(), session_id.as_str()),
                None => false,
            };
            if relayed {
                assert(actions(out@) =~= before + Seq::<ActionModel>::empty());
            } else {
                connect(s, session_id.as_str(), region, now, out);
            }
        },
        EventView::PeerDisconnected { slot: _, session_id } => {
            end_session(s, session_id.as_str(), "disconnected", now, out);
        },
        EventView::SessionEnded { slot: _, session_id } => {
            end_session(s, session_id.as_str(), "session_ended", now, out);
        },
        EventView::AttemptFailed { slot, error } => {
            let kind: &'static str = error_kind(error.as_str());
            add_action(
                out,
                DiagAction::EmitError(DiagEvent::AttemptFailed { slot: *slot, error_kind: kind }),
            );
            s.attempt_started = None;
            if let Some(live) = s.live.take() {
                finish_live(out, live, Some(kind));
            }
            assert(actions(out@) =~= before + (seq![
                ActionModel::EmitError(DiagModel::AttemptFailed(*slot, kind@)),
            ] + closed_out(was, Some(kind@))));
        },
        EventView::Stopped { slot: _ } => {},
    }
}

fn event_slot(ev: &EventView) -> (slot: usize)
    ensures
        slot == slot_in(*ev),
{
    match ev {
        EventView::AttemptStarted { slot } => *slot,
        EventView::PeerConnected { slot, .. } => *slot,
        EventView::PeerDisconnected { slot, .. } => *slot,
        EventView::SessionEnded { slot, .. } => *slot,
        EventView::AttemptFailed { slot, .. } => *slot,
        EventView::Stopped { slot } => *slot,
    }
}

impl PoolDiag {
    /// Whether the slots are in order, each once.
    pub closed spec fn ok(&self) -> bool {
        table::keyed(self.slots@)
    }

    /// The slots of a pool are in order.
    pub proof fn lemma_ok(&self)
        requires
            self.ok(),
        ensures
            table::keyed(self@),
    {
        table::lemma_mapped(self.slots@, slot_view(), 0);
    }

    /// Nothing is known of any slot.
    pub fn new() -> (p: PoolDiag)
        ensures
            p.ok(),
            p@ == Seq::<(u64, SlotModel)>::empty(),
    {
        let p: PoolDiag = PoolDiag { slots: Table::new() };
        assert(p@ =~= Seq::<(u64, SlotModel)>::empty());
        p
    }

    /// How many slots relay a session.
    pub fn slots_filled(&self) -> (n: u64)
        ensures
            n == filled(self@),
    {
        let mut n: u64 = 0;
        let mut i: usize = 0;
        assert(self@.take(0) =~= Seq::empty());
        while i < self.slots.len()
            invariant
                i <= self.slots@.len(),
                self@ == table::mapped(self.slots@, slot_view()),
                n <= i,
                n == filled(self@.take(i as int)),
            decreases self.slots@.len() - i,
        {
            assert(self@.take(i + 1).drop_last() =~= self@.take(i as int));
            assert(self@[i as int].1 == self.slots@[i as int].1@);
            if self.slots.value(i).live.is_some() {
                n = n + 1;
            }
            i = i + 1;
        }
        assert(self@.take(i as int) =~= self@);
        n
    }

    fn take_slot(&mut self, slot: usize) -> (s: SlotDiag)
        requires
            old(self).ok(),
        ensures
            final(self).ok(),
            final(self)@ == table::without(old(self)@, slot as u64),
            s@ == slot_of(old(self)@, slot),
    {
        let ghost t = self.slots@;
        proof {
            table::lemma_mapped(t, slot_view(), slot as u64);
            table::lemma_without(t, slot as u64);
        }
        let r: Option<SlotDiag> = self.slots.remove(slot as u64);
        proof {
            assert(table::mapped(self.slots@, slot_view()) =~= table::without(
                table::mapped(t, slot_view()),
                slot as u64,
            ));
        }
        match r {
            Some(s) => s,
            None => SlotDiag { attempt_started: None, live: None },
        }
    }

    fn put_slot(&mut self, slot: usize, s: SlotDiag)
        requires
            old(self).ok(),
        ensures
            final(self).ok(),
            final(self)@ == table::with(old(self)@, slot as u64, s@),
    {
        let ghost t = self.slots@;
        proof {
            table::lemma_mapped(t, slot_view(), slot as u64);
            table::lemma_with(t, slot as u64, s);
        }
        self.slots.put(slot as u64, s);
        proof {
            assert(table::mapped(self.slots@, slot_view()) =~= table::with(
                table::mapped(t, slot_view()),
                slot as u64,
                s@,
            ));
        }
    }
}

/// What is to be done about an event of the pool, and what is known of the slots after it. `region` is
/// the country of a peer that connected, if it is known; `now` is read from a clock that does not run
/// back (ms). Events that do not fit what is known lead to less being done, never to a failure.
pub fn diag_for_event(
    ev: &EventView,
    peer_region: Option<&str>,
    state: &mut PoolDiag,
    now: u64,
) -> (out: Vec<DiagAction>)
    requires
        old(state).ok(),
    ensures
        final(state).ok(),
        final(state)@ == pool_after(*ev, old(state)@, now),
        actions(out@) == actions_for(
            *ev,
            region_text(peer_region),
            slot_of(old(state)@, slot_in(*ev)),
            now,
        ),
{
    let mut out: Vec<DiagAction> = Vec::new();
    let slot: usize = event_slot(ev);
    let ghost pool = state@;
    assert(actions(out@) =~= Seq::empty());
    let mut s: SlotDiag = state.take_slot(slot);
    let ghost was = s@;
    if let EventView::Stopped { .. } = ev {
        if let Some(live) = s.live.take() {
            finish_live(&mut out, live, None);
        }
        assert(actions(out@) =~= closed_out(was, None));
    } else {
        slot_event(ev, &mut s, peer_region, now, &mut out);
        assert(actions(out@) =~= actions_for(*ev, region_text(peer_region), was, now));
        proof {
            lemma_put_back(pool, slot as u64, s@);
        }
        state.put_slot(slot, s);
    }
    out
}

/// Taking an entry out and putting one back is putting it in.
proof fn lemma_put_back(pool: Seq<(u64, SlotModel)>, k: u64, s: SlotModel)
    requires
        table::keyed(pool),
    ensures
        table::with(table::without(pool, k), k, s) == table::with(pool, k, s),
{
    table::lemma_rank(pool, k);
    let rest = table::without(pool, k);
    table::lemma_without(pool, k);
    table::lemma_rank_is(rest, k, table::rank(pool, k) as int);
    assert(table::with(rest, k, s) =~= table::with(pool, k, s));
}

/// Whether the pool as a whole is due to be reported.
pub fn snapshot_due(last: u64, now: u64) -> (due: bool)
    ensures
        due == (elapsed(last, now) >= SNAPSHOT_INTERVAL_MS),
{
    passed(last, now) >= SNAPSHOT_INTERVAL_MS
}

/// All kinds of failure.
pub open spec fn error_kinds() -> Seq<Seq<char>> {
    seq![
        "SignalingError::InvalidEndpoint"@,
        "SignalingError::Transport"@,
        "SignalingError::ProtocolVersion"@,
        "SignalingError::RecipientGone"@,
        "SignalingError::Http"@,
        "SignalingError::Decode"@,
        "PeerProxyError::Signaling"@,
        "EgressError::Request"@,
        "EgressError::Header"@,
        "EgressError::WebSocket"@,
        "EgressError::ConnectTimeout"@,
        "EgressError::MissingSubprotocol"@,
        "EgressError::UnexpectedSubprotocol"@,
        "EgressError::InvalidConsumerSessionId"@,
        "EgressError::TextMessage"@,
        "PeerProxyError::Egress"@,
        "RelayError::Peer"@,
        "RelayError::Egress"@,
        "PeerProxyError::Relay"@,
        "PeerProxyError::WebRtc"@,
        "PeerProxyError::Decode"@,
        "PeerProxyError::MissingResponse"@,
        "PeerProxyError::UnexpectedSignal"@,
        "PeerProxyError::MissingConsumerSessionId"@,
        "PeerProxyError::InvalidConsumerSessionId"@,
        "PeerProxyError::InvalidIceCandidate"@,
        "PeerProxyError::NatTimeout"@,
        "PeerProxyError::DataChannelClosed"@,
        "PeerProxyError::PeerConnectionEnded"@,
        "PeerProxyError::Cancelled"@,
        "unknown"@,
    ]
}

/// Whatever a failure says, only its kind is reported, and that is one of a fixed list: nothing of the
/// text itself, which may name addresses, gets out.
pub proof fn lemma_failures_are_reported_by_kind(error: Seq<char>)
    ensures
        exists|i: int|
            0 <= i < error_kinds().len() && #[trigger] error_kinds()[i] == error_kind_of(error),
{
    let k = error_kinds();
    assert(k[0] == "SignalingError::InvalidEndpoint"@ && k[1] == "SignalingError::Transport"@
        && k[2] == "SignalingError::ProtocolVersion"@ && k[3] == "SignalingError::RecipientGone"@
        && k[4] == "SignalingError::Http"@ && k[5] == "SignalingError::Decode"@ && k[6]
        == "PeerProxyError::Signaling"@);
    assert(k[7] == "EgressError::Request"@ && k[8] == "EgressError::Header"@ && k[9]
        == "EgressError::WebSocket"@ && k[10] == "EgressError::ConnectTimeout"@ && k[11]
        == "EgressError::MissingSubprotocol"@ && k[12] == "EgressError::UnexpectedSubprotocol"@
        && k[13] == "EgressError::InvalidConsumerSessionId"@ && k[14] == "EgressError::TextMessage"@
        && k[15] == "PeerProxyError::Egress"@);
    assert(k[16] == "RelayError::Peer"@ && k[17] == "RelayError::Egress"@ && k[18]
        == "PeerProxyError::Relay"@ && k[19] == "PeerProxyError::WebRtc"@ && k[20]
        == "PeerProxyError::Decode"@ && k[21] == "PeerProxyError::MissingResponse"@ && k[22]
        == "PeerProxyError::UnexpectedSignal"@);
    assert(k[23] == "PeerProxyError::MissingConsumerSessionId"@ && k[24]
        == "PeerProxyError::InvalidConsumerSessionId"@ && k[25]
        == "PeerProxyError::InvalidIceCandidate"@ && k[26] == "PeerProxyError::NatTimeout"@ && k[27]
        == "PeerProxyError::DataChannelClosed"@ && k[28] == "PeerProxyError::PeerConnectionEnded"@
        && k[29] == "PeerProxyError::Cancelled"@ && k[30] == "unknown"@);
}

/// A session that was closed is not closed a second time, and one that is being relayed is not opened a
/// second time.
pub proof fn lemma_sessions_open_and_close_once(
    s: SlotModel,
    session_id: String,
    slot: usize,
    region: Option<Seq<char>>,
    now: u64,
    later: u64,
)
    ensures
        ({
            let gone = EventView::PeerDisconnected { slot, session_id };
            let ended = EventView::SessionEnded { slot, session_id };
            actions_for(ended, region, slot_after(gone, s, now), later) == Seq::<
                ActionModel,
            >::empty()
        }),
        ({
            let come = EventView::PeerConnected { slot, session_id };
            actions_for(come, region, slot_after(come, s, now), later) == Seq::<
                ActionModel,
            >::empty()
        }),
{
}

/// How many traces a list of things to do opens, less those that it closes.
pub open spec fn opened(v: Seq<ActionModel>) -> int
    decreases v.len(),
{
    if v.len() == 0 {
        0
    } else {
        opened(v.drop_last()) + match v.last() {
            ActionModel::SetCtx(_) => 1int,
            ActionModel::RemoveCtx(_) => -1int,
            _ => 0int,
        }
    }
}

/// What is known of the slots after events, each with the region and the time that went with it.
pub open spec fn pool_run(events: Seq<(EventView, Option<Seq<char>>, u64)>) -> Seq<(u64, SlotModel)>
    decreases events.len(),
{
    if events.len() == 0 {
        Seq::empty()
    } else {
        pool_after(events.last().0, pool_run(events.drop_last()), events.last().2)
    }
}

/// All that is to be done about events.
pub open spec fn all_actions(events: Seq<(EventView, Option<Seq<char>>, u64)>) -> Seq<ActionModel>
    decreases events.len(),
{
    if events.len() == 0 {
        Seq::empty()
    } else {
        let (ev, region, now) = events.last();
        all_actions(events.drop_last()) + actions_for(
            ev,
            region,
            slot_of(pool_run(events.drop_last()), slot_in(ev)),
            now,
        )
    }
}

/// No trace is leaked and none is closed twice: whatever the events, the traces that are open are those
/// of the slots that relay a session.
pub proof fn lemma_open_traces_are_the_filled_slots(
    events: Seq<(EventView, Option<Seq<char>>, u64)>,
)
    ensures
        opened(all_actions(events)) == filled(pool_run(events)),
        table::keyed(pool_run(events)),
    decreases events.len(),
{
    if events.len() > 0 {
        lemma_open_traces_are_the_filled_slots(events.drop_last());
        let pool = pool_run(events.drop_last());
        let (ev, region, now) = events.last();
        let k = slot_in(ev) as u64;
        let s = slot_of(pool, slot_in(ev));
        lemma_opened_add(all_actions(events.drop_last()), actions_for(ev, region, s, now));
        lemma_opened_by(ev, region, s, now);
        lemma_filled(pool, k, slot_after(ev, s, now));
        table::lemma_with(pool, k, slot_after(ev, s, now));
        table::lemma_without(pool, k);
    }
}

proof fn lemma_opened_add(a: Seq<ActionModel>, b: Seq<ActionModel>)
    ensures
        opened(a + b) == opened(a) + opened(b),
    decreases b.len(),
{
    if b.len() == 0 {
        assert(a + b =~= a);
    } else {
        lemma_opened_add(a, b.drop_last());
        assert((a + b).drop_last() =~= a + b.drop_last());
    }
}

/// One for a slot that relays a session.
spec fn fill(s: SlotModel) -> int {
    if s.live is Some {
        1
    } else {
        0
    }
}

proof fn lemma_opened_by(ev: EventView, region: Option<Seq<char>>, s: SlotModel, now: u64)
    ensures
        opened(actions_for(ev, region, s, now)) == if ev is Stopped {
            -fill(s)
        } else {
            fill(slot_after(ev, s, now)) - fill(s)
        },
{
    reveal_with_fuel(opened, 4);
    let error = match ev {
        EventView::AttemptFailed { error, .. } => Some(error_kind_of(error@)),
        _ => None,
    };
    let close = closed_out(s, error);
    assert(opened(close) == -fill(s)) by {
        if let Some((session, _)) = s.live {
            assert(close.drop_last() =~= seq![ActionModel::PushSpans(session, error)]);
            assert(close.drop_last().drop_last() =~= Seq::empty());
        }
    }
    match ev {
        EventView::AttemptStarted { slot } => {
            let v = actions_for(ev, region, s, now);
            assert(v.drop_last() =~= Seq::empty());
        },
        EventView::PeerConnected { session_id, .. } => {
            if !relays(s, session_id@) {
                let took = match s.attempt_started {
                    Some(t) => elapsed(t, now),
                    None => 0,
                };
                let open = seq![
                    ActionModel::SetCtx(session_id@),
                    ActionModel::Emit(
                        DiagModel::PeerConnected(session_id@, took, "unknown"@, region),
                    ),
                ];
                let geo = if region is None {
                    seq![ActionModel::Emit(DiagModel::GeoFailed("resolver_none"@))]
                } else {
                    Seq::empty()
                };
                lemma_opened_add(close, open);
                lemma_opened_add(close + open, geo);
                assert(open.drop_last() =~= seq![ActionModel::SetCtx(session_id@)]);
                assert(open.drop_last().drop_last() =~= Seq::empty());
                if region is None {
                    assert(geo.drop_last() =~= Seq::empty());
                }
            }
        },
        EventView::PeerDisconnected { session_id, .. } => {
            lemma_opened_by_end(s, session_id@, "disconnected"@, now);
        },
        EventView::SessionEnded { session_id, .. } => {
            lemma_opened_by_end(s, session_id@, "session_ended"@, now);
        },
        EventView::AttemptFailed { slot, error } => {
            let head = seq![
                ActionModel::EmitError(DiagModel::AttemptFailed(slot, error_kind_of(error@))),
            ];
            lemma_opened_add(head, close);
            assert(head.drop_last() =~= Seq::empty());
        },
        EventView::Stopped { .. } => {},
    }
}

proof fn lemma_opened_by_end(s: SlotModel, session: Seq<char>, reason: Seq<char>, now: u64)
    ensures
        opened(ended_actions(s, session, reason, now)) == if relays(s, session) {
            -1int
        } else {
            0int
        },
{
    reveal_with_fuel(opened, 4);
    if let Some((id, started)) = s.live {
        if id == session {
            let head = seq![
                ActionModel::Emit(
                    DiagModel::PeerDisconnected(session, elapsed(started, now), 0, reason),
                ),
            ];
            let tail = finished(session, None);
            lemma_opened_add(head, tail);
            assert(head.drop_last() =~= Seq::empty());
            assert(tail.drop_last() =~= seq![ActionModel::PushSpans(session, None)]);
            assert(tail.drop_last().drop_last() =~= Seq::empty());
        }
    }
}

proof fn lemma_filled_add(a: Seq<(u64, SlotModel)>, b: Seq<(u64, SlotModel)>)
    ensures
        filled(a + b) == filled(a) + filled(b),
    decreases b.len(),
{
    if b.len() == 0 {
        assert(a + b =~= a);
    } else {
        lemma_filled_add(a, b.drop_last());
        assert((a + b).drop_last() =~= a + b.drop_last());
    }
}

proof fn lemma_filled_one(k: u64, s: SlotModel)
    ensures
        filled(seq![(k, s)]) == fill(s),
{
    reveal_with_fuel(filled, 2);
    assert(seq![(k, s)].drop_last() =~= Seq::empty());
}

proof fn lemma_filled(pool: Seq<(u64, SlotModel)>, k: u64, s: SlotModel)
    requires
        table::keyed(pool),
    ensures
        filled(table::without(pool, k)) == filled(pool) - fill(slot_of(pool, k as usize)) || k
            > usize::MAX,
        filled(table::with(pool, k, s)) == filled(pool) - fill(slot_of(pool, k as usize)) + fill(s)
            || k > usize::MAX,
{
    table::lemma_rank(pool, k);
    let r = table::rank(pool, k) as int;
    let a = pool.take(r);
    let with = table::with(pool, k, s);
    lemma_filled_one(k, s);
    if table::holds(pool, k) {
        let b = pool.skip(r + 1);
        let was = table::at(pool, k);
        lemma_filled_one(k, was);
        assert(pool =~= a + seq![(k, was)] + b);
        assert(table::without(pool, k) =~= a + b);
        assert(with =~= a + seq![(k, s)] + b);
        lemma_filled_add(a, b);
        lemma_filled_add(a, seq![(k, was)]);
        lemma_filled_add(a + seq![(k, was)], b);
        lemma_filled_add(a, seq![(k, s)]);
        lemma_filled_add(a + seq![(k, s)], b);
    } else {
        let b = pool.skip(r);
        assert(pool =~= a + b);
        assert(with =~= a + seq![(k, s)] + b);
        lemma_filled_add(a, b);
        lemma_filled_add(a, seq![(k, s)]);
        lemma_filled_add(a + seq![(k, s)], b);
    }
}

} // verus!
