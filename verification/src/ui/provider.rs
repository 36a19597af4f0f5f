//! The tunnel as a network extension runs it: the steps that bring it up, the messages it takes, and
//! what its status means.
use vstd::prelude::*;

use crate::json::{self, Json, JsonModel, Leaf, LeafModel};
use crate::text;
use crate::ui::config;
use crate::ui::models::{self, ServerInfo, Status};

verus! {

/// The bundle of the extension.
pub const TUNNEL_SYSEXT_ID: &'static str = "org.getlantern.spark.tunnel";

/// How long the user may take to approve the extension (s).
pub const ACTIVATE_TIMEOUT_SECS: u64 = 150;

/// How long a connect may take, with the user's approval (s).
pub const CONNECT_TIMEOUT_SECS: u64 = 120;

/// How long a disconnect may take (s).
pub const DISCONNECT_TIMEOUT_SECS: u64 = 10;

/// How long the extension may take to answer a message (s).
pub const MESSAGE_TIMEOUT_SECS: u64 = 5;

// ---- status ----

/// The name of a raw status.
pub open spec fn raw_name(raw: int) -> Seq<char> {
    if raw == 0 {
        "invalid"@
    } else if raw == 1 {
        "disconnected"@
    } else if raw == 2 {
        "connecting"@
    } else if raw == 3 {
        "connected"@
    } else if raw == 4 {
        "reasserting"@
    } else if raw == 5 {
        "disconnecting"@
    } else {
        "unknown"@
    }
}

/// The name of a raw status.
pub fn status_name(raw: isize) -> (s: &'static str)
    ensures
        s@ == raw_name(raw as int),
{
    if raw == 0 {
        "invalid"
    } else if raw == 1 {
        "disconnected"
    } else if raw == 2 {
        "connecting"
    } else if raw == 3 {
        "connected"
    } else if raw == 4 {
        "reasserting"
    } else if raw == 5 {
        "disconnecting"
    } else {
        "unknown"
    }
}

/// What the window shows of a raw status: -2 stands for one that was not read in time, -3 for one that
/// could not be read, -1 for none.
pub open spec fn shown_state(raw: int) -> Seq<char> {
    if raw == 3 {
        "connected"@
    } else if raw == 2 || raw == 4 {
        "connecting"@
    } else if raw == -2 || raw == -3 {
        "failed"@
    } else {
        "disconnected"@
    }
}

/// What the window shows of a raw status.
pub fn ui_state(raw: isize) -> (s: &'static str)
    ensures
        s@ == shown_state(raw as int),
{
    if raw == 3 {
        "connected"
    } else if raw == 2 || raw == 4 {
        "connecting"
    } else if raw == -2 || raw == -3 {
        "failed"
    } else {
        "disconnected"
    }
}

/// What came of loading the saved tunnels.
#[derive(Debug)]
pub enum Loaded {
    /// An error.
    Failed(String),
    /// How many there are, and the raw status of the first if there is one.
    Saved {
        /// How many.
        count: usize,
        /// The raw status of the first.
        first: isize,
    },
    /// Nothing, in the time allowed.
    TimedOut,
}

/// How many tunnels are saved, and the raw status of the first.
pub open spec fn first_status(l: Loaded) -> (usize, int) {
    match l {
        Loaded::Failed(_) => (0, -3),
        Loaded::Saved { count, first } => if count > 0 {
            (count, first as int)
        } else {
            (0, -1)
        },
        Loaded::TimedOut => (0, -2),
    }
}

/// How many tunnels are saved, and the raw status of the first.
pub fn load_first_status(l: &Loaded) -> (r: (usize, isize))
    ensures
        (r.0, r.1 as int) == first_status(*l),
{
    match l {
        Loaded::Failed(_) => (0, -3),
        Loaded::Saved { count, first } => if *count > 0 {
            (*count, *first)
        } else {
            (0, -1)
        },
        Loaded::TimedOut => (0, -2),
    }
}

/// The status that the window shows of the first tunnel.
pub fn status(l: &Loaded) -> (s: Status)
    ensures
        s.state@ == shown_state(first_status(*l).1),
        s.protocol@ == "AnyTLS"@,
        !s.fail_open,
{
    let (_, raw) = load_first_status(l);
    Status { state: ui_state(raw).to_owned(), protocol: "AnyTLS".to_owned(), fail_open: false }
}

fn failed_with(what: &str, why: &str) -> (s: String)
    ensures
        s@ == what@ + why@,
{
    let mut s: String = what.to_owned();
    text::append(&mut s, why);
    s
}

// ---- connect ----

/// What came of activating the extension.
#[derive(Debug)]
pub enum Activation {
    /// It is active.
    Finished,
    /// It will be active after a restart; until then an older one runs.
    AfterReboot,
    /// An error.
    Failed(String),
    /// The user did not approve it in the time allowed.
    TimedOut,
}

/// Why an activation does not count; nothing where it does.
pub open spec fn activation_error(a: Activation) -> Option<Seq<char>> {
    match a {
        Activation::Finished => None,
        Activation::AfterReboot => Some(
            "the updated Spark network extension needs a restart to activate — quit Spark, reboot, then open Spark and tap Connect again"@,
        ),
        Activation::Failed(e) => Some("activation failed: "@ + e@),
        Activation::TimedOut => Some(
            "system extension approval timed out — approve Spark in System Settings → General → Login Items & Extensions, then tap Connect again"@,
        ),
    }
}

/// What came of activating the extension. One that takes effect only after a restart is an error: the
/// older one would run instead.
pub fn activation_result(a: Activation) -> (r: Result<(), String>)
    ensures
        match (r, activation_error(a)) {
            (Ok(_), None) => true,
            (Err(e), Some(why)) => e@ == why,
            _ => false,
        },
{
    match a {
        Activation::Finished => Ok(()),
        Activation::AfterReboot => Err(
            "the updated Spark network extension needs a restart to activate — quit Spark, reboot, then open Spark and tap Connect again".to_owned(),
        ),
        Activation::Failed(e) => Err(failed_with("activation failed: ", e.as_str())),
        Activation::TimedOut => Err(
            "system extension approval timed out — approve Spark in System Settings → General → Login Items & Extensions, then tap Connect again".to_owned(),
        ),
    }
}

/// What a connect is waiting for.
#[derive(Debug, PartialEq, Eq, Structural, Clone, Copy)]
pub enum Phase {
    /// The extension's activation.
    Activating,
    /// The saved tunnels.
    Loading,
    /// The tunnel to be saved.
    Saving,
    /// The saved tunnel to be read again.
    Reloading,
    /// The tunnel to start.
    Starting,
    /// Nothing: it is over.
    Over,
}

/// What happens during a connect. An error is told by its text.
#[derive(Debug)]
pub enum ConnectEvent {
    /// The activation came to an end.
    Activated(Activation),
    /// The saved tunnels were loaded: how many there are.
    Loaded(Result<usize, String>),
    /// The tunnel was saved.
    Saved(Option<String>),
    /// The saved tunnel was read again.
    Reloaded(Option<String>),
    /// The tunnel was started.
    Started(Option<String>),
    /// The time allowed is over.
    TimedOut,
}

/// What to do next in a connect.
#[derive(Debug)]
pub enum ConnectStep {
    /// Load the saved tunnels.
    Load,
    /// Configure a tunnel and save it: the first of the saved ones, or a new one where there is none.
    Save {
        /// Whether to use the first of the saved ones.
        reuse: bool,
    },
    /// Read the saved tunnel again.
    Reload,
    /// Start it.
    Start,
    /// It is over.
    Done(Result<(), String>),
    /// Nothing: the event does not belong here.
    Nothing,
}

/// What to do next in a connect.
pub enum StepModel {
    /// Load the saved tunnels.
    Load,
    /// Configure a tunnel and save it.
    Save(bool),
    /// Read the saved tunnel again.
    Reload,
    /// Start it.
    Start,
    /// It is over, with this error if there is one.
    Done(Option<Seq<char>>),
    /// Nothing.
    Nothing,
}

impl View for ConnectStep {
    type V = StepModel;

    open spec fn view(&self) -> StepModel {
        match *self {
            ConnectStep::Load => StepModel::Load,
            ConnectStep::Save { reuse } => StepModel::Save(reuse),
            ConnectStep::Reload => StepModel::Reload,
            ConnectStep::Start => StepModel::Start,
            ConnectStep::Done(Ok(_)) => StepModel::Done(None),
            ConnectStep::Done(Err(e)) => StepModel::Done(Some(e@)),
            ConnectStep::Nothing => StepModel::Nothing,
        }
    }
}

/// The next phase and step of a connect: activate, load, save, read again, start, each only after the
/// one before it succeeded. The first error ends it, and so does the end of the time allowed.
pub open spec fn connect_step(phase: Phase, event: ConnectEvent) -> (Phase, StepModel) {
    match (phase, event) {
        (Phase::Over, _) => (Phase::Over, StepModel::Nothing),
        (Phase::Activating, ConnectEvent::Activated(a)) => match activation_error(a) {
            None => (Phase::Loading, StepModel::Load),
            Some(why) => (Phase::Over, StepModel::Done(Some(why))),
        },
        (Phase::Loading, ConnectEvent::Loaded(Ok(count))) => (
            Phase::Saving,
            StepModel::Save(count > 0),
        ),
        (Phase::Loading, ConnectEvent::Loaded(Err(e))) => (
            Phase::Over,
            StepModel::Done(Some("loadAllFromPreferences failed: "@ + e@)),
        ),
        (Phase::Saving, ConnectEvent::Saved(None)) => (Phase::Reloading, StepModel::Reload),
        (Phase::Saving, ConnectEvent::Saved(Some(e))) => (
            Phase::Over,
            StepModel::Done(Some("save failed: "@ + e@)),
        ),
        (Phase::Reloading, ConnectEvent::Reloaded(None)) => (Phase::Starting, StepModel::Start),
        (Phase::Reloading, ConnectEvent::Reloaded(Some(e))) => (
            Phase::Over,
            StepModel::Done(Some("reload failed: "@ + e@)),
        ),
        (Phase::Starting, ConnectEvent::Started(None)) => (Phase::Over, StepModel::Done(None)),
        (Phase::Starting, ConnectEvent::Started(Some(e))) => (
            Phase::Over,
            StepModel::Done(Some("start failed: "@ + e@)),
        ),
        (Phase::Activating, _) => (Phase::Activating, StepModel::Nothing),
        (p, ConnectEvent::TimedOut) => (
            Phase::Over,
            StepModel::Done(Some("connect timed out"@)),
        ),
        (p, _) => (p, StepModel::Nothing),
    }
}

/// A connect that is under way.
#[derive(Debug)]
pub struct ConnectFlow {
    phase: Phase,
}

impl View for ConnectFlow {
    type V = Phase;

    closed spec fn view(&self) -> Phase {
        self.phase
    }
}

impl ConnectFlow {
    /// A connect: an extension that has to be activated is activated first.
    pub fn new(activates: bool) -> (f: ConnectFlow)
        ensures
            f@ == if activates {
                Phase::Activating
            } else {
                Phase::Loading
            },
    {
        ConnectFlow {
            phase: if activates {
                Phase::Activating
            } else {
                Phase::Loading
            },
        }
    }

    /// The next step of the connect.
    pub fn on_event(&mut self, event: ConnectEvent) -> (step: ConnectStep)
        ensures
            (final(self)@, step@) == connect_step(old(self)@, event),
    {
        match (self.phase, event) {
            (Phase::Over, _) => ConnectStep::Nothing,
            (Phase::Activating, ConnectEvent::Activated(a)) => match activation_result(a) {
                Ok(_) => {
                    self.phase = Phase::Loading;
                    ConnectStep::Load
                },
                Err(e) => {
                    self.phase = Phase::Over;
                    ConnectStep::Done(Err(e))
                },
            },
            (Phase::Loading, ConnectEvent::Loaded(Ok(count))) => {
                self.phase = Phase::Saving;
                ConnectStep::Save { reuse: count > 0 }
            },
            (Phase::Loading, ConnectEvent::Loaded(Err(e))) => {
                self.phase = Phase::Over;
                ConnectStep::Done(Err(failed_with("loadAllFromPreferences failed: ", e.as_str())))
            },
            (Phase::Saving, ConnectEvent::Saved(None)) => {
                self.phase = Phase::Reloading;
                ConnectStep::Reload
            },
            (Phase::Saving, ConnectEvent::Saved(Some(e))) => {
                self.phase = Phase::Over;
                ConnectStep::Done(Err(failed_with("save failed: ", e.as_str())))
            },
            (Phase::Reloading, ConnectEvent::Reloaded(None)) => {
                self.phase = Phase::Starting;
                ConnectStep::Start
            },
            (Phase::Reloading, ConnectEvent::Reloaded(Some(e))) => {
                self.phase = Phase::Over;
                ConnectStep::Done(Err(failed_with("reload failed: ", e.as_str())))
            },
            (Phase::Starting, ConnectEvent::Started(None)) => {
                self.phase = Phase::Over;
                ConnectStep::Done(Ok(()))
            },
            (Phase::Starting, ConnectEvent::Started(Some(e))) => {
                self.phase = Phase::Over;
                ConnectStep::Done(Err(failed_with("start failed: ", e.as_str())))
            },
            (Phase::Activating, _) => ConnectStep::Nothing,
            (_, ConnectEvent::TimedOut) => {
                self.phase = Phase::Over;
                ConnectStep::Done(Err("connect timed out".to_owned()))
            },
            (_, _) => ConnectStep::Nothing,
        }
    }
}

/// The phase after events.
pub open spec fn connect_run(start: Phase, events: Seq<ConnectEvent>) -> Phase
    decreases events.len(),
{
    if events.len() == 0 {
        start
    } else {
        connect_step(connect_run(start, events.drop_last()), events.last()).0
    }
}

proof fn lemma_phase_history(start: Phase, events: Seq<ConnectEvent>)
    requires
        start is Activating || start is Loading,
    ensures
        connect_run(start, events) is Reloading ==> exists|i: int|
            0 <= i < events.len() && #[trigger] events[i] == ConnectEvent::Saved(None),
        connect_run(start, events) is Starting ==> exists|i: int, j: int|
            0 <= i < j < events.len() && #[trigger] events[i] == ConnectEvent::Saved(None)
                && #[trigger] events[j] == ConnectEvent::Reloaded(None),
    decreases events.len(),
{
    if events.len() > 0 {
        let rest = events.drop_last();
        lemma_phase_history(start, rest);
        let n = rest.len() as int;
        let before = connect_run(start, rest);
        let now = connect_run(start, events);
        assert(events[n] == events.last());
        if now is Reloading {
            if before is Reloading {
                let i = choose|i: int|
                    0 <= i < rest.len() && #[trigger] rest[i] == ConnectEvent::Saved(None);
                assert(events[i] == rest[i]);
            } else {
                assert(events[n] == ConnectEvent::Saved(None));
            }
        }
        if now is Starting {
            if before is Starting {
                let (i, j) = choose|i: int, j: int|
                    0 <= i < j < rest.len() && #[trigger] rest[i] == ConnectEvent::Saved(None)
                        && #[trigger] rest[j] == ConnectEvent::Reloaded(None);
                assert(events[i] == rest[i]);
                assert(events[j] == rest[j]);
            } else {
                let i = choose|i: int|
                    0 <= i < rest.len() && #[trigger] rest[i] == ConnectEvent::Saved(None);
                assert(events[i] == rest[i]);
                assert(events[n] == ConnectEvent::Reloaded(None));
            }
        }
    }
}

/// A connect that succeeds has saved the tunnel, read it again after that and started it after that, and
/// none of these failed.
pub proof fn lemma_connected_means_started(
    start: Phase,
    events: Seq<ConnectEvent>,
    last: ConnectEvent,
)
    requires
        start is Activating || start is Loading,
        connect_step(connect_run(start, events), last).1 == StepModel::Done(None),
    ensures
        last == ConnectEvent::Started(None),
        exists|i: int, j: int|
            0 <= i < j < events.len() && #[trigger] events[i] == ConnectEvent::Saved(None)
                && #[trigger] events[j] == ConnectEvent::Reloaded(None),
{
    lemma_phase_history(start, events);
}

/// A connect that is over stays over, and says nothing more.
pub proof fn lemma_connect_ends_once(event: ConnectEvent)
    ensures
        connect_step(Phase::Over, event) == (Phase::Over, StepModel::Nothing),
{
}

// ---- what the extension is handed ----

/// An entry of the extension's configuration.
pub open spec fn entries(v: Seq<(&'static str, String)>) -> Seq<(Seq<char>, Seq<char>)> {
    Seq::new(v.len(), |i: int| (v[i].0@, v[i].1@))
}

/// What a setting that is not given stands for.
pub open spec fn or_blank(s: Option<Seq<char>>) -> Seq<char> {
    match s {
        Some(s) => s,
        None => ""@,
    }
}

/// A switch in words.
pub open spec fn switch_text(on: bool) -> Seq<char> {
    if on {
        "true"@
    } else {
        "false"@
    }
}

/// The settings that the extension is handed.
#[derive(Debug)]
pub struct ProviderSettings {
    /// The configuration that was set on purpose, if one was.
    pub config: Option<String>,
    /// What bypasses the tunnel.
    pub split_tunnel: Option<String>,
    /// The routing mode.
    pub routing_mode: Option<String>,
    /// The apps that bypass the tunnel.
    pub app_bypass: Option<String>,
    /// Whether advertisements are blocked.
    pub ad_block: bool,
    /// Whether the user allows diagnostics.
    pub diagnostics: bool,
    /// Who the user is: without it the extension does not start.
    pub identity: Option<String>,
}

/// The extension's configuration: all settings, and the configuration only where one was set.
pub open spec fn provider_entries(s: ProviderSettings) -> Seq<(Seq<char>, Seq<char>)> {
    (match s.config {
        Some(c) => seq![("config"@, c@)],
        None => Seq::empty(),
    }) + seq![
        ("splitTunnel"@, or_blank(config::seen_string(s.split_tunnel))),
        ("routingMode"@, or_blank(config::seen_string(s.routing_mode))),
        ("appBypass"@, or_blank(config::seen_string(s.app_bypass))),
        ("adBlock"@, switch_text(s.ad_block)),
        ("diagnostics"@, switch_text(s.diagnostics)),
        ("identity"@, or_blank(config::seen_string(s.identity))),
    ]
}

fn add_entry(v: &mut Vec<(&'static str, String)>, key: &'static str, value: String)
    ensures
        entries(final(v)@) == entries(old(v)@).push((key@, value@)),
{
    v.push((key, value));
    assert(entries(v@) =~= entries(old(v)@).push((key@, value@)));
}

fn text_or_blank(s: Option<String>) -> (r: String)
    ensures
        r@ == or_blank(config::seen_string(s)),
{
    match s {
        Some(s) => s,
        None => "".to_owned(),
    }
}

fn switch(on: bool) -> (s: String)
    ensures
        s@ == switch_text(on),
{
    if on {
        "true".to_owned()
    } else {
        "false".to_owned()
    }
}

/// The extension's configuration.
pub fn provider_configuration(s: ProviderSettings) -> (v: Vec<(&'static str, String)>)
    ensures
        entries(v@) == provider_entries(s),
{
    let mut v: Vec<(&'static str, String)> = Vec::new();
    assert(entries(v@) =~= Seq::empty());
    if let Some(c) = s.config {
        add_entry(&mut v, "config", c);
    }
    add_entry(&mut v, "splitTunnel", text_or_blank(s.split_tunnel));
    add_entry(&mut v, "routingMode", text_or_blank(s.routing_mode));
    add_entry(&mut v, "appBypass", text_or_blank(s.app_bypass));
    add_entry(&mut v, "adBlock", switch(s.ad_block));
    add_entry(&mut v, "diagnostics", switch(s.diagnostics));
    add_entry(&mut v, "identity", text_or_blank(s.identity));
    assert(entries(v@) =~= provider_entries(s));
    v
}

/// The settings that a connect hands the extension, from what is kept: blank texts are not given.
pub fn connect_settings(
    config: Option<String>,
    split_tunnel: &str,
    routing_mode: &str,
    app_bypass: &str,
    ad_block: bool,
    diagnostics: bool,
    identity: Option<String>,
) -> (s: ProviderSettings)
    ensures
        s.config == config,
        config::seen_string(s.split_tunnel) == config::non_blank(split_tunnel@),
        config::seen_string(s.routing_mode) == config::non_blank(routing_mode@),
        config::seen_string(s.app_bypass) == config::non_blank(app_bypass@),
        s.ad_block == ad_block,
        s.diagnostics == diagnostics,
        s.identity == identity,
{
    ProviderSettings {
        config,
        split_tunnel: config::given_text(Some(split_tunnel)),
        routing_mode: config::given_text(Some(routing_mode)),
        app_bypass: config::given_text(Some(app_bypass)),
        ad_block,
        diagnostics,
        identity,
    }
}

/// The text that a member holds, if it holds one.
pub open spec fn text_in(member: Result<Option<LeafModel>, Seq<char>>) -> Option<Seq<char>> {
    match member {
        Ok(Some(LeafModel::Text(s))) => Some(s),
        _ => None,
    }
}

fn member_text(member: Result<Option<Leaf>, String>) -> (s: Option<String>)
    ensures
        config::seen_string(s) == text_in(json::member_view(member)),
{
    match member {
        Ok(Some(Leaf::Text(s))) => Some(s),
        _ => None,
    }
}

/// Who the user is, as JSON.
pub open spec fn identity_model(device: Seq<char>, user: Seq<char>, token: Seq<char>) -> JsonModel {
    JsonModel::Object(
        seq![
            ("device_id"@, JsonModel::Text(device)),
            ("pro_token"@, JsonModel::Text(token)),
            ("user_id"@, JsonModel::Text(user)),
        ],
    )
}

/// Who the user is: nothing unless device, user and token are all there, and the user is not the one
/// that stands for none.
pub open spec fn identity_in(
    device: Seq<char>,
    user: Option<Seq<char>>,
    token: Option<Seq<char>>,
) -> Option<Seq<char>> {
    match (user, token) {
        (Some(user), Some(token)) => {
            let device = text::trimmed(device);
            if device.len() == 0 || user.len() == 0 || user == "0"@ || token.len() == 0 {
                None
            } else {
                Some(json::json_text(identity_model(device, user, token)))
            }
        },
        _ => None,
    }
}

/// Who the user is, from the kept device and what the kept account says.
pub fn identity_of(device: &str, user: Option<&str>, token: Option<&str>) -> (r: Option<String>)
    ensures
        config::seen_string(r) == identity_in(device@, config::seen(user), config::seen(token)),
{
    match (user, token) {
        (Some(user), Some(token)) => {
            let device: &str = text::trim(device);
            if device.is_empty() || user.is_empty() || text::same(user, "0") || token.is_empty() {
                return None;
            }
            let mut v: Vec<(String, Json)> = Vec::new();
            assert(models::members_view(v@) =~= Seq::empty());
            models::add_member(&mut v, "device_id", models::text_json(device));
            models::add_member(&mut v, "pro_token", models::text_json(token));
            models::add_member(&mut v, "user_id", models::text_json(user));
            assert(models::members_view(v@) =~= identity_model(
                device@,
                user@,
                token@,
            )->Object_0);
            Some(json::to_text(&models::object_json(v)))
        },
        _ => None,
    }
}

/// Who the user is, from the two files in which the app keeps it.
pub fn identity_json(device_file: Option<&str>, user_file: Option<&str>) -> (r: Option<String>)
    ensures
        config::seen_string(r) == match (device_file, user_file) {
            (Some(device), Some(account)) => identity_in(
                device@,
                text_in(json::json_member_of(account@, "user_id"@)),
                text_in(json::json_member_of(account@, "pro_token"@)),
            ),
            _ => None,
        },
{
    match (device_file, user_file) {
        (Some(device), Some(account)) => {
            let user: Option<String> = member_text(json::member(account, "user_id"));
            let token: Option<String> = member_text(json::member(account, "pro_token"));
            match (&user, &token) {
                (Some(u), Some(t)) => identity_of(device, Some(u.as_str()), Some(t.as_str())),
                _ => None,
            }
        },
        _ => None,
    }
}

// ---- messages ----

/// What a message to the extension is waiting for.
#[derive(Debug, PartialEq, Eq, Structural, Clone, Copy)]
pub enum MessagePhase {
    /// The saved tunnels.
    Loading,
    /// The message to be sent.
    Sending,
    /// The answer.
    Answering,
    /// Nothing: it is over.
    Over,
}

/// What happens to a message.
#[derive(Debug)]
pub enum SendEvent {
    /// The saved tunnels were loaded: how many there are, and whether the first takes messages.
    Loaded(Result<(usize, bool), String>),
    /// The message was sent, or was not: what the platform says, which may be nothing.
    Sent(bool, String),
    /// The answer came: nothing where the extension gave none.
    Answer(Option<Vec<u8>>),
    /// The time allowed is over.
    TimedOut,
}

/// What to do next about a message.
#[derive(Debug)]
pub enum SendStep {
    /// Send it.
    Send,
    /// Wait for the answer.
    Wait,
    /// It is over.
    Done(Result<String, String>),
    /// Nothing: the event does not belong here.
    Nothing,
}

/// What to do next about a message.
pub enum SendModel {
    /// Send it.
    Send,
    /// Wait for the answer.
    Wait,
    /// It is over.
    Done(Result<Seq<char>, Seq<char>>),
    /// Nothing.
    Nothing,
}

impl View for SendStep {
    type V = SendModel;

    open spec fn view(&self) -> SendModel {
        match *self {
            SendStep::Send => SendModel::Send,
            SendStep::Wait => SendModel::Wait,
            SendStep::Done(Ok(s)) => SendModel::Done(Ok(s@)),
            SendStep::Done(Err(e)) => SendModel::Done(Err(e@)),
            SendStep::Nothing => SendModel::Nothing,
        }
    }
}

/// The end of a message with an error.
pub open spec fn send_failed(why: Seq<char>) -> (MessagePhase, SendModel) {
    (MessagePhase::Over, SendModel::Done(Err(why)))
}

/// What an answer means: none at all is an error, so that a dead channel is not taken for an empty
/// answer.
pub open spec fn answered(answer: Option<Vec<u8>>) -> (MessagePhase, SendModel) {
    match answer {
        Some(bytes) => (MessagePhase::Over, SendModel::Done(Ok(text::utf8_lossy_of(bytes@)))),
        None => send_failed("provider sent no response"@),
    }
}

/// The next phase and step of a message. An answer may come before the platform says that the message
/// was sent.
pub open spec fn send_step(phase: MessagePhase, event: SendEvent) -> (MessagePhase, SendModel) {
    match (phase, event) {
        (MessagePhase::Over, _) => (MessagePhase::Over, SendModel::Nothing),
        (_, SendEvent::TimedOut) => send_failed("provider message timed out"@),
        (MessagePhase::Loading, SendEvent::Loaded(Err(e))) => send_failed(
            "loadAllFromPreferences failed: "@ + e@,
        ),
        (MessagePhase::Loading, SendEvent::Loaded(Ok((count, session)))) => if count == 0 {
            send_failed("no active tunnel manager — connect first"@)
        } else if !session {
            send_failed("tunnel connection is not a provider session"@)
        } else {
            (MessagePhase::Sending, SendModel::Send)
        },
        (MessagePhase::Sending, SendEvent::Sent(ok, said)) => if ok {
            (MessagePhase::Answering, SendModel::Wait)
        } else if said@.len() == 0 {
            send_failed("sendProviderMessage failed"@)
        } else {
            send_failed(said@)
        },
        (MessagePhase::Sending, SendEvent::Answer(answer)) => answered(answer),
        (MessagePhase::Answering, SendEvent::Answer(answer)) => answered(answer),
        (p, _) => (p, SendModel::Nothing),
    }
}

/// A message that is under way.
#[derive(Debug)]
pub struct SendFlow {
    phase: MessagePhase,
}

impl View for SendFlow {
    type V = MessagePhase;

    closed spec fn view(&self) -> MessagePhase {
        self.phase
    }
}

impl SendFlow {
    /// A message.
    pub fn new() -> (f: SendFlow)
        ensures
            f@ == MessagePhase::Loading,
    {
        SendFlow { phase: MessagePhase::Loading }
    }

    fn fail(&mut self, why: &str) -> (step: SendStep)
        ensures
            (final(self)@, step@) == send_failed(why@),
    {
        self.phase = MessagePhase::Over;
        SendStep::Done(Err(why.to_owned()))
    }

    fn answer(&mut self, answer: Option<Vec<u8>>) -> (step: SendStep)
        ensures
            (final(self)@, step@) == answered(answer),
    {
        match answer {
            Some(bytes) => {
                self.phase = MessagePhase::Over;
                SendStep::Done(Ok(text::utf8_lossy(bytes.as_slice())))
            },
            None => self.fail("provider sent no response"),
        }
    }

    /// The next step of the message.
    pub fn on_event(&mut self, event: SendEvent) -> (step: SendStep)
        ensures
            (final(self)@, step@) == send_step(old(self)@, event),
    {
        match (self.phase, event) {
            (MessagePhase::Over, _) => SendStep::Nothing,
            (_, SendEvent::TimedOut) => self.fail("provider message timed out"),
            (MessagePhase::Loading, SendEvent::Loaded(Err(e))) => {
                let why: String = failed_with("loadAllFromPreferences failed: ", e.as_str());
                self.fail(why.as_str())
            },
            (MessagePhase::Loading, SendEvent::Loaded(Ok((count, session)))) => if count == 0 {
                self.fail("no active tunnel manager — connect first")
            } else if !session {
                self.fail("tunnel connection is not a provider session")
            } else {
                self.phase = MessagePhase::Sending;
                SendStep::Send
            },
            (MessagePhase::Sending, SendEvent::Sent(ok, said)) => if ok {
                self.phase = MessagePhase::Answering;
                SendStep::Wait
            } else if said.as_str().is_empty() {
                self.fail("sendProviderMessage failed")
            } else {
                self.fail(said.as_str())
            },
            (MessagePhase::Sending, SendEvent::Answer(answer)) => self.answer(answer),
            (MessagePhase::Answering, SendEvent::Answer(answer)) => self.answer(answer),
            (_, _) => SendStep::Nothing,
        }
    }
}

/// A message that is over stays over: there is one outcome.
pub proof fn lemma_message_ends_once(phase: MessagePhase, event: SendEvent, later: SendEvent)
    requires
        send_step(phase, event).1 is Done,
    ensures
        send_step(send_step(phase, event).0, later) == (MessagePhase::Over, SendModel::Nothing),
{
}

/// What came of a disconnect, which stops the first of the saved tunnels.
pub fn disconnect_result(l: &Loaded) -> (r: Result<(), String>)
    ensures
        match *l {
            Loaded::Failed(e) => r matches Err(s) && s@ == "loadAllFromPreferences failed: "@ + e@,
            Loaded::Saved { count, .. } => if count > 0 {
                r is Ok
            } else {
                r matches Err(s) && s@ == "no tunnel configured"@
            },
            Loaded::TimedOut => r matches Err(s) && s@ == "disconnect timed out"@,
        },
{
    match l {
        Loaded::Failed(e) => Err(failed_with("loadAllFromPreferences failed: ", e.as_str())),
        Loaded::Saved { count, first: _ } => if *count > 0 {
            Ok(())
        } else {
            Err("no tunnel configured".to_owned())
        },
        Loaded::TimedOut => Err("disconnect timed out".to_owned()),
    }
}

/// A change of settings that a running tunnel takes at once.
#[derive(Debug)]
pub enum Change<'a> {
    /// What bypasses the tunnel.
    SplitTunnel(&'a str),
    /// The routing mode.
    RoutingMode(&'a str),
    /// Whether advertisements are blocked.
    AdBlock(bool),
    /// The apps that bypass the tunnel.
    AppBypass(&'a str),
}

/// The message for a change, as JSON.
pub open spec fn change_json(c: Change) -> JsonModel {
    JsonModel::Object(
        match c {
            Change::SplitTunnel(list) => seq![
                ("cmd"@, JsonModel::Text("splitTunnel"@)),
                ("list"@, JsonModel::Text(list@)),
            ],
            Change::RoutingMode(mode) => seq![
                ("cmd"@, JsonModel::Text("routingMode"@)),
                ("mode"@, JsonModel::Text(mode@)),
            ],
            Change::AdBlock(on) => seq![
                ("cmd"@, JsonModel::Text("adBlock"@)),
                ("enabled"@, JsonModel::Flag(on)),
            ],
            Change::AppBypass(list) => seq![
                ("cmd"@, JsonModel::Text("appBypass"@)),
                ("list"@, JsonModel::Text(list@)),
            ],
        },
    )
}

fn command(cmd: &str, key: &str, value: Json) -> (s: String)
    ensures
        s@ == json::json_text(
            JsonModel::Object(seq![("cmd"@, JsonModel::Text(cmd@)), (key@, value@)]),
        ),
{
    let mut v: Vec<(String, Json)> = Vec::new();
    assert(models::members_view(v@) =~= Seq::empty());
    models::add_member(&mut v, "cmd", models::text_json(cmd));
    models::add_member(&mut v, key, value);
    assert(models::members_view(v@) =~= seq![("cmd"@, JsonModel::Text(cmd@)), (key@, value@)]);
    json::to_text(&models::object_json(v))
}

/// The message for a change.
pub fn change_message(c: &Change) -> (s: String)
    ensures
        s@ == json::json_text(change_json(*c)),
{
    match c {
        Change::SplitTunnel(list) => command("splitTunnel", "list", models::text_json(list)),
        Change::RoutingMode(mode) => command("routingMode", "mode", models::text_json(mode)),
        Change::AdBlock(on) => command("adBlock", "enabled", models::flag_json(*on)),
        Change::AppBypass(list) => command("appBypass", "list", models::text_json(list)),
    }
}

/// The message for a change, where the tunnel is up to take it; else it counts from the next connect on.
pub fn live_push(l: &Loaded, c: &Change) -> (r: Option<String>)
    ensures
        match r {
            Some(s) => shown_state(first_status(*l).1) == "connected"@ && s@ == json::json_text(
                change_json(*c),
            ),
            None => shown_state(first_status(*l).1) != "connected"@,
        },
{
    let (_, raw) = load_first_status(l);
    if text::same(ui_state(raw), "connected") {
        Some(change_message(c))
    } else {
        None
    }
}

/// The message that chooses a server.
pub fn select_message(index: i32) -> (s: String)
    ensures
        s@ == "{\"cmd\":\"select\",\"index\":"@ + text::signed_decimal(index as int) + "}"@,
{
    let mut s: String = "{\"cmd\":\"select\",\"index\":".to_owned();
    let n: String = text::signed_decimal_of(index);
    text::append(&mut s, n.as_str());
    text::append(&mut s, "}");
    s
}

/// Why a server was not chosen.
#[derive(Debug)]
pub enum SelectError {
    /// The answer is not JSON.
    Unreadable(String),
    /// The tunnel did not take it.
    NotApplied,
}

/// Whether a server was chosen, by what was read of the answer's member `ok`.
pub fn select_result(member: Result<Option<Leaf>, String>) -> (r: Result<(), SelectError>)
    ensures
        match json::member_view(member) {
            Ok(Some(LeafModel::Flag(true))) => r is Ok,
            Ok(_) => r matches Err(SelectError::NotApplied),
            Err(why) => r matches Err(SelectError::Unreadable(s)) && s@ == why,
        },
{
    match member {
        Ok(Some(Leaf::Flag(true))) => Ok(()),
        Ok(_) => Err(SelectError::NotApplied),
        Err(why) => Err(SelectError::Unreadable(why)),
    }
}

/// Whether a server was chosen, by the extension's answer.
pub fn select_reply(answer: &str) -> (r: Result<(), SelectError>)
    ensures
        match json::json_member_of(answer@, "ok"@) {
            Ok(Some(LeafModel::Flag(true))) => r is Ok,
            Ok(_) => r matches Err(SelectError::NotApplied),
            Err(why) => r matches Err(SelectError::Unreadable(s)) && s@ == why,
        },
{
    select_result(json::member(answer, "ok"))
}

/// The pool to show: the running tunnel's own where it has one, else the configuration's, else the kept
/// one. They are never mixed, since their orders may differ.
pub fn choose_servers(
    connected: bool,
    live: Option<Vec<ServerInfo>>,
    from_config: Vec<ServerInfo>,
    from_cache: Vec<ServerInfo>,
) -> (r: Vec<ServerInfo>)
    ensures
        r@ == if connected && (live matches Some(v) && v@.len() > 0) {
            live->0@
        } else if from_config@.len() > 0 {
            from_config@
        } else {
            from_cache@
        },
{
    if connected {
        if let Some(v) = live {
            if v.len() > 0 {
                return v;
            }
        }
    }
    if from_config.len() > 0 {
        from_config
    } else {
        from_cache
    }
}

/// The kept pool, with the time of the file that it was made from.
#[derive(Debug)]
pub struct ServersCache {
    kept: Option<(i128, Vec<ServerInfo>)>,
}

impl View for ServersCache {
    type V = Option<(i128, Seq<ServerInfo>)>;

    closed spec fn view(&self) -> Option<(i128, Seq<ServerInfo>)> {
        match self.kept {
            Some((at, v)) => Some((at, v@)),
            None => None,
        }
    }
}

impl ServersCache {
    /// Nothing is kept.
    pub fn new() -> (c: ServersCache)
        ensures
            c@ is None,
    {
        ServersCache { kept: None }
    }

    /// The kept pool, if the file is as old as it was. A file whose time cannot be read is always read
    /// again.
    pub fn lookup(&self, at: Option<i128>) -> (r: Option<&Vec<ServerInfo>>)
        ensures
            match r {
                Some(v) => self@ == Some((at->0, v@)) && at is Some,
                None => at is None || self@ is None || (self@ matches Some((kept, _)) && kept
                    != at->0),
            },
    {
        match (&self.kept, at) {
            (Some((kept, v)), Some(now)) => if *kept == now {
                Some(v)
            } else {
                None
            },
            _ => None,
        }
    }

    /// Keeps a pool, an empty one too.
    pub fn store(&mut self, at: Option<i128>, pool: Vec<ServerInfo>)
        ensures
            final(self)@ == match at {
                Some(at) => Some((at, pool@)),
                None => old(self)@,
            },
    {
        if let Some(at) = at {
            self.kept = Some((at, pool));
        }
    }
}

// ---- what holds of a connect and of a message ----

/// A connect goes on step by step: each success asks for the next step, and each failure ends it with
/// its reason. A saved tunnel is used again just where there is one.
pub proof fn lemma_connect_goes_on_step_by_step(count: usize, why: String, a: Activation)
    ensures
        connect_step(Phase::Activating, ConnectEvent::Activated(Activation::Finished)) == (
            Phase::Loading,
            StepModel::Load,
        ),
        !(a is Finished) ==> connect_step(Phase::Activating, ConnectEvent::Activated(a)).0
            == Phase::Over && (connect_step(Phase::Activating, ConnectEvent::Activated(a)).1
            matches StepModel::Done(Some(_))),
        connect_step(Phase::Loading, ConnectEvent::Loaded(Ok(count))) == (
            Phase::Saving,
            StepModel::Save(count >= 1),
        ),
        connect_step(Phase::Saving, ConnectEvent::Saved(None)) == (
            Phase::Reloading,
            StepModel::Reload,
        ),
        connect_step(Phase::Reloading, ConnectEvent::Reloaded(None)) == (
            Phase::Starting,
            StepModel::Start,
        ),
        connect_step(Phase::Starting, ConnectEvent::Started(None)) == (
            Phase::Over,
            StepModel::Done(None),
        ),
        connect_step(Phase::Loading, ConnectEvent::Loaded(Err(why))) == (
            Phase::Over,
            StepModel::Done(Some("loadAllFromPreferences failed: "@ + why@)),
        ),
        connect_step(Phase::Saving, ConnectEvent::Saved(Some(why))) == (
            Phase::Over,
            StepModel::Done(Some("save failed: "@ + why@)),
        ),
        connect_step(Phase::Reloading, ConnectEvent::Reloaded(Some(why))) == (
            Phase::Over,
            StepModel::Done(Some("reload failed: "@ + why@)),
        ),
        connect_step(Phase::Starting, ConnectEvent::Started(Some(why))) == (
            Phase::Over,
            StepModel::Done(Some("start failed: "@ + why@)),
        ),
{
}

/// What a phase of a connect waits for.
pub open spec fn awaits(phase: Phase, event: ConnectEvent) -> bool {
    match phase {
        Phase::Activating => event is Activated,
        Phase::Loading => event is Loaded,
        Phase::Saving => event is Saved,
        Phase::Reloading => event is Reloaded,
        Phase::Starting => event is Started,
        Phase::Over => false,
    }
}

/// An event that a connect does not wait for changes nothing, but for the end of the time allowed, which
/// ends a connect that is past its activation.
pub proof fn lemma_stray_events_change_nothing(phase: Phase, event: ConnectEvent)
    requires
        !awaits(phase, event),
    ensures
        !(event is TimedOut) || phase is Activating || phase is Over ==> connect_step(phase, event)
            == (phase, StepModel::Nothing),
        event is TimedOut && !(phase is Activating) && !(phase is Over) ==> connect_step(
            phase,
            event,
        ) == (Phase::Over, StepModel::Done(Some("connect timed out"@))),
{
}

/// A message that is under way ends with the answer, whether or not the platform has said that it was
/// sent, and with an error where there is none, where it cannot be sent, or where time runs out.
pub proof fn lemma_message_ends_with_its_answer(
    phase: MessagePhase,
    bytes: Vec<u8>,
    count: usize,
    why: String,
)
    ensures
        phase is Sending || phase is Answering ==> send_step(phase, SendEvent::Answer(Some(bytes)))
            == (
            MessagePhase::Over,
            SendModel::Done(Ok::<Seq<char>, Seq<char>>(text::utf8_lossy_of(bytes@))),
        ),
        phase is Sending || phase is Answering ==> send_step(phase, SendEvent::Answer(None)) == (
            MessagePhase::Over,
            SendModel::Done(Err::<Seq<char>, Seq<char>>("provider sent no response"@)),
        ),
        !(phase is Over) ==> send_step(phase, SendEvent::TimedOut) == (
            MessagePhase::Over,
            SendModel::Done(Err::<Seq<char>, Seq<char>>("provider message timed out"@)),
        ),
        count > 0 ==> send_step(MessagePhase::Loading, SendEvent::Loaded(Ok((count, true)))) == (
            MessagePhase::Sending,
            SendModel::Send,
        ),
        send_step(MessagePhase::Loading, SendEvent::Loaded(Ok((0, true)))).1 is Done,
        send_step(MessagePhase::Loading, SendEvent::Loaded(Ok((count, false)))).1 is Done,
        send_step(MessagePhase::Sending, SendEvent::Sent(true, why)) == (
            MessagePhase::Answering,
            SendModel::Wait,
        ),
        why@.len() > 0 ==> send_step(MessagePhase::Sending, SendEvent::Sent(false, why)) == (
            MessagePhase::Over,
            SendModel::Done(Err::<Seq<char>, Seq<char>>(why@)),
        ),
        phase is Loading || phase is Answering ==> send_step(phase, SendEvent::Sent(true, why)) == (
            phase,
            SendModel::Nothing,
        ),
{
}

/// The name of a raw status and what the window shows of it agree: what is named connected is shown so,
/// what is named connecting or reasserting is shown as connecting, and nothing else is.
pub proof fn lemma_shown_state_agrees_with_the_name(raw: int)
    ensures
        raw_name(0) == "invalid"@,
        raw_name(1) == "disconnected"@,
        raw_name(2) == "connecting"@,
        raw_name(3) == "connected"@,
        raw_name(4) == "reasserting"@,
        raw_name(5) == "disconnecting"@,
        raw < 0 || raw > 5 ==> raw_name(raw) == "unknown"@,
        shown_state(raw) == "connected"@ <==> raw_name(raw) == "connected"@,
        shown_state(raw) == "connecting"@ <==> raw_name(raw) == "connecting"@ || raw_name(raw)
            == "reasserting"@,
        shown_state(raw) == "failed"@ <==> raw == -2 || raw == -3,
        0 <= raw <= 5 && !(2 <= raw <= 4) ==> shown_state(raw) == "disconnected"@,
{
    reveal_strlit("invalid");
    reveal_strlit("disconnected");
    reveal_strlit("connecting");
    reveal_strlit("connected");
    reveal_strlit("reasserting");
    reveal_strlit("disconnecting");
    reveal_strlit("unknown");
    reveal_strlit("failed");
    assert("invalid"@.len() == 7 && "disconnected"@.len() == 12 && "connecting"@.len() == 10
        && "connected"@.len() == 9 && "reasserting"@.len() == 11 && "disconnecting"@.len() == 13
        && "unknown"@.len() == 7 && "failed"@.len() == 6);
}

/// Who the user is is whole or not there: it takes a device, a user other than the one that stands for
/// none, and a token, none of them empty.
pub proof fn lemma_identity_is_whole(device: Seq<char>, user: Option<Seq<char>>, token: Option<Seq<char>>)
    ensures
        identity_in(device, user, token) is Some <==> {
            &&& text::trimmed(device).len() > 0
            &&& user matches Some(u) && u.len() > 0 && u != "0"@
            &&& token matches Some(t) && t.len() > 0
        },
        identity_in(device, user, token) matches Some(s) ==> s == json::json_text(
            JsonModel::Object(
                seq![
                    ("device_id"@, JsonModel::Text(text::trimmed(device))),
                    ("pro_token"@, JsonModel::Text(token->0)),
                    ("user_id"@, JsonModel::Text(user->0)),
                ],
            ),
        ),
{
}

/// The extension is handed each setting under its own key.
pub proof fn lemma_extension_is_handed_each_setting(s: ProviderSettings)
    ensures
        ({
            let v = provider_entries(s);
            let n = v.len() - 6;
            &&& n == if s.config is Some {
                1int
            } else {
                0int
            }
            &&& s.config matches Some(c) ==> v[0] == ("config"@, c@)
            &&& v[n] == ("splitTunnel"@, or_blank(config::seen_string(s.split_tunnel)))
            &&& v[n + 1] == ("routingMode"@, or_blank(config::seen_string(s.routing_mode)))
            &&& v[n + 2] == ("appBypass"@, or_blank(config::seen_string(s.app_bypass)))
            &&& v[n + 3] == ("adBlock"@, if s.ad_block {
                "true"@
            } else {
                "false"@
            })
            &&& v[n + 4] == ("diagnostics"@, if s.diagnostics {
                "true"@
            } else {
                "false"@
            })
            &&& v[n + 5] == ("identity"@, or_blank(config::seen_string(s.identity)))
        }),
{
}

} // verus!
