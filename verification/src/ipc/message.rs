//! What the client and the service say to each other.
use vstd::prelude::*;

use crate::text;
use crate::text::{append, decimal_of};

verus! {

/// A version of the protocol. It changes with every breaking change to these types.
pub type ProtocolVersion = u32;

/// The version that is spoken here.
pub const PROTOCOL_VERSION: ProtocolVersion = 4;

/// The oldest version that is still understood.
pub const MIN_SUPPORTED_VERSION: ProtocolVersion = 1;

/// Ties a response to its request.
pub type ReqId = u64;

/// A request of the client. It has no `Debug`: what it carries may be secret. See [`Request::redacted`].
#[derive(Clone, PartialEq, Eq)]
pub struct Request {
    /// Echoed by the response.
    pub req_id: ReqId,
    /// What is asked for.
    pub payload: RequestPayload,
}

/// What a request asks for.
#[derive(Clone, PartialEq, Eq)]
pub enum RequestPayload {
    /// The version handshake, first on every connection.
    Hello {
        /// The client's version.
        client_version: ProtocolVersion,
    },
    /// Bring the tunnel up.
    Connect,
    /// Tear the tunnel down.
    Disconnect,
    /// The status.
    GetStatus,
    /// Ask for pushes.
    Subscribe {
        /// Events.
        events: bool,
        /// Log lines.
        logs: bool,
    },
    /// What the service supports.
    GetCapabilities,
    /// A richer status.
    GetDetails,
    /// The counters.
    GetMetrics,
    /// The stored profiles.
    ListProfiles,
    /// One profile, without its secrets.
    GetProfile {
        /// The profile's name.
        name: String,
    },
    /// Create or replace a profile. A blank secret keeps the stored one.
    SetProfile {
        /// The profile's name.
        name: String,
        /// The profile as TOML.
        toml: String,
    },
    /// Delete a profile.
    DeleteProfile {
        /// The profile's name.
        name: String,
    },
    /// Select the active profile.
    SetActiveProfile {
        /// The profile's name.
        name: String,
    },
    /// Validate a profile without storing it.
    ValidateProfile {
        /// The profile as TOML.
        toml: String,
    },
    /// Where diagnostics go. It is never read back.
    SetTelemetry(TelemetryConfig),
    /// Apply a configuration that the client fetched, without a reconnect.
    ApplyConfig {
        /// The configuration. It holds credentials.
        raw: String,
    },
}

/// A response of the service.
#[derive(Debug, Clone, PartialEq, Eq)]
pub struct Response {
    /// The request that it answers.
    pub req_id: ReqId,
    /// The answer.
    pub payload: ResponsePayload,
}

/// What a response says.
#[derive(Debug, Clone, PartialEq, Eq)]
pub enum ResponsePayload {
    /// The answer to the handshake.
    Hello {
        /// The service's version.
        service_version: ProtocolVersion,
        /// The version that both will use.
        negotiated: ProtocolVersion,
    },
    /// The status.
    Status(TunnelStatus),
    /// What the service supports.
    Capabilities(Capabilities),
    /// A richer status.
    Details(Details),
    /// The counters.
    Metrics(Metrics),
    /// The stored profiles.
    Profiles(Vec<ProfileSummary>),
    /// One profile.
    Profile(ProfileDoc),
    /// The outcome of a validation.
    Validated(Validation),
    /// Done.
    Ack,
    /// Failed.
    Error {
        /// The category.
        code: ErrorCode,
        /// What went wrong, without secrets.
        message: String,
    },
}

/// Everything that the service sends: responses and pushes share a connection.
#[derive(Debug, Clone, PartialEq, Eq)]
pub enum ServerMessage {
    /// A response.
    Response(Response),
    /// A push.
    Push(Push),
}

/// What the service sends unasked, after a subscription.
#[derive(Debug, Clone, PartialEq, Eq)]
pub enum Push {
    /// An event.
    Event(TunnelEvent),
    /// A log line.
    Log(LogLine),
    /// Items were dropped, since the client is slow.
    Dropped {
        /// How many.
        count: u64,
    },
}

/// The state of the tunnel.
#[derive(Debug, Clone, Copy, PartialEq, Eq, Structural)]
pub enum TunnelState {
    /// No tunnel.
    Disconnected,
    /// Coming up.
    Connecting,
    /// Up.
    Connected,
    /// Going down.
    Disconnecting,
    /// Failed.
    Failed,
}

/// A status.
#[derive(Debug, Clone, Copy, PartialEq, Eq, Structural)]
pub struct TunnelStatus {
    /// The state.
    pub state: TunnelState,
    /// Traffic goes direct, since the tunnel failed open.
    pub direct_fallback: bool,
}

/// A transport.
#[derive(Debug, Clone, Copy, PartialEq, Eq, Structural)]
pub enum TransportKind {
    /// No tunnel: flows are dialed directly.
    Direct,
    /// The plain tunnel server.
    Plain,
    /// AnyTLS over TLS.
    Anytls,
    /// A transport delivered as a module.
    Wasm,
}

impl Default for TransportKind {
    fn default() -> (k: TransportKind)
        ensures
            k == TransportKind::Direct,
    {
        TransportKind::Direct
    }
}

/// A network stack.
#[derive(Debug, Clone, Copy, PartialEq, Eq, Structural)]
pub enum NetStack {
    /// In user space.
    Userspace,
    /// The kernel's.
    System,
}

impl Default for NetStack {
    fn default() -> (s: NetStack)
        ensures
            s == NetStack::Userspace,
    {
        NetStack::Userspace
    }
}

/// What happens to traffic when the tunnel drops.
#[derive(Debug, Clone, Copy, PartialEq, Eq, Structural)]
pub enum KillSwitchMode {
    /// It goes direct.
    FailOpen,
    /// It is blocked.
    FailClosed,
}

impl Default for KillSwitchMode {
    fn default() -> (k: KillSwitchMode)
        ensures
            k == KillSwitchMode::FailOpen,
    {
        KillSwitchMode::FailOpen
    }
}

/// A loaded module.
#[derive(Debug, Clone, PartialEq, Eq)]
pub struct ModuleInfo {
    /// Its name.
    pub name: String,
    /// Its version.
    pub version: u32,
}

/// What the service supports.
#[derive(Debug, Clone, PartialEq, Eq)]
pub struct Capabilities {
    /// The service's version of the protocol.
    pub protocol_version: ProtocolVersion,
    /// Its build version.
    pub build_version: String,
    /// The transports.
    pub transports: Vec<TransportKind>,
    /// The network stacks.
    pub stacks: Vec<NetStack>,
    /// System and architecture.
    pub platform: String,
}

impl Default for Capabilities {
    fn default() -> (c: Capabilities)
        ensures
            c.protocol_version == 0,
            c.build_version@.len() == 0,
            c.transports@.len() == 0,
            c.stacks@.len() == 0,
            c.platform@.len() == 0,
    {
        Capabilities {
            protocol_version: 0,
            build_version: String::new(),
            transports: Vec::new(),
            stacks: Vec::new(),
            platform: String::new(),
        }
    }
}

/// A stored profile in one line, without secrets.
#[derive(Debug, Clone, PartialEq, Eq)]
pub struct ProfileSummary {
    /// Its name.
    pub name: String,
    /// Its transport.
    pub transport: TransportKind,
    /// Its network stack.
    pub stack: NetStack,
    /// A password is stored.
    pub has_password: bool,
    /// It is the active one.
    pub active: bool,
}

/// A profile as TOML, its secrets blanked.
#[derive(Debug, Clone, PartialEq, Eq)]
pub struct ProfileDoc {
    /// Its name.
    pub name: String,
    /// The profile.
    pub toml: String,
}

/// The outcome of a validation.
#[derive(Debug, Clone, PartialEq, Eq)]
pub struct Validation {
    /// The profile is valid.
    pub valid: bool,
    /// What is wrong with it.
    pub error: Option<String>,
}

/// Counters since the service started.
#[derive(Debug, Clone, Copy, PartialEq, Eq, Structural)]
pub struct Metrics {
    /// Bytes sent.
    pub bytes_up: u64,
    /// Bytes received.
    pub bytes_down: u64,
    /// Flows that are open.
    pub sessions_active: u64,
    /// Flows that were opened.
    pub sessions_total: u64,
}

impl Default for Metrics {
    fn default() -> (m: Metrics)
        ensures
            m == (Metrics { bytes_up: 0, bytes_down: 0, sessions_active: 0, sessions_total: 0 }),
    {
        Metrics { bytes_up: 0, bytes_down: 0, sessions_active: 0, sessions_total: 0 }
    }
}

/// A richer status.
#[derive(Debug, Clone, PartialEq, Eq)]
pub struct Details {
    /// The state.
    pub state: TunnelState,
    /// Traffic goes direct.
    pub direct_fallback: bool,
    /// The selected transport.
    pub selected_transport: TransportKind,
    /// The selected network stack.
    pub selected_stack: NetStack,
    /// The loaded module.
    pub module: Option<ModuleInfo>,
    /// What happens when the tunnel drops.
    pub kill_switch: KillSwitchMode,
    /// The last error.
    pub last_error: Option<String>,
}

/// Where the service sends its diagnostics. It has no `Debug`: header values are keys. See
/// [`TelemetryConfig::redacted`].
#[derive(Clone, PartialEq, Eq)]
pub struct TelemetryConfig {
    /// Host and port of the collector; empty for none.
    pub endpoint: String,
    /// Headers of every upload.
    pub headers: Vec<(String, String)>,
    /// How many devices in a million report.
    pub sample_rate_ppm: u32,
    /// Logs are uploaded. Without this nothing is.
    pub logs_enabled: bool,
    /// Traces are uploaded.
    pub traces_enabled: bool,
    /// The device's id.
    pub device_id: String,
    /// The country that the server sees.
    pub country: String,
}

/// An event of the tunnel.
#[derive(Debug, Clone, Copy, PartialEq, Eq, Structural)]
pub enum TunnelEvent {
    /// A new state.
    StateChanged(TunnelState),
    /// The tunnel failed open, and traffic goes direct.
    FellOpenToDirect,
}

/// A log line.
#[derive(Debug, Clone, PartialEq, Eq)]
pub struct LogLine {
    /// Its level.
    pub level: LogLevel,
    /// Its text, without addresses.
    pub message: String,
}

/// The level of a log line.
#[derive(Debug, Clone, Copy, PartialEq, Eq, Structural)]
pub enum LogLevel {
    /// Error.
    Error,
    /// Warning.
    Warn,
    /// Information.
    Info,
    /// Debug.
    Debug,
    /// Trace.
    Trace,
}

/// The category of an error.
#[derive(Debug, Clone, Copy, PartialEq, Eq, Structural)]
pub enum ErrorCode {
    /// The peer may not control the service.
    Unauthorized,
    /// There is no common version.
    UnsupportedVersion,
    /// The request is wrong, or wrong now.
    InvalidRequest,
    /// There is no tunnel.
    NotConnected,
    /// Something else.
    Internal,
}

/// The version that both sides use: the lower one, where both are supported.
pub open spec fn negotiated(ours: ProtocolVersion, theirs: ProtocolVersion) -> Option<
    ProtocolVersion,
> {
    let lower = if ours <= theirs {
        ours
    } else {
        theirs
    };
    if lower >= MIN_SUPPORTED_VERSION {
        Some(lower)
    } else {
        None
    }
}

/// The version that both sides use: the lower one, where both are supported.
pub fn negotiate(ours: ProtocolVersion, theirs: ProtocolVersion) -> (r: Option<ProtocolVersion>)
    ensures
        r == negotiated(ours, theirs),
{
    let lower: ProtocolVersion = if ours <= theirs {
        ours
    } else {
        theirs
    };
    if lower >= MIN_SUPPORTED_VERSION {
        Some(lower)
    } else {
        None
    }
}

/// Both sides arrive at the same version, which neither of them exceeds.
pub proof fn lemma_negotiation_is_symmetric(a: ProtocolVersion, b: ProtocolVersion)
    ensures
        negotiated(a, b) == negotiated(b, a),
        negotiated(a, b) matches Some(v) ==> MIN_SUPPORTED_VERSION <= v <= a && v <= b,
{
}

// ---- requests without their secrets ----

/// A boolean in words.
pub open spec fn flag_text(b: bool) -> Seq<char> {
    if b {
        "true"@
    } else {
        "false"@
    }
}

/// What stands for a secret text: its length.
pub open spec fn secret_text(s: Seq<char>) -> Seq<char> {
    "[redacted "@ + crate::text::decimal(vstd::utf8::encode_utf8(s).len()) + " bytes]"@
}

/// The names of the first `n` headers.
pub open spec fn headers_text(h: Seq<(String, String)>, n: nat) -> Seq<char>
    decreases n,
{
    if n == 0 || n > h.len() {
        Seq::empty()
    } else {
        let last = "("@ + text::debug_text_of(h[n - 1].0@) + ", \"[redacted]\")"@;
        if n == 1 {
            last
        } else {
            headers_text(h, (n - 1) as nat) + ", "@ + last
        }
    }
}

/// Settings of diagnostics without header values.
pub open spec fn telemetry_text(t: TelemetryConfig) -> Seq<char> {
    "TelemetryConfig { endpoint: "@ + text::debug_text_of(t.endpoint@) + ", headers: ["@ + headers_text(
        t.headers@,
        t.headers@.len(),
    ) + "], sample_rate_ppm: "@ + crate::text::decimal(t.sample_rate_ppm as nat)
        + ", logs_enabled: "@ + flag_text(t.logs_enabled) + ", traces_enabled: "@ + flag_text(
        t.traces_enabled,
    ) + ", device_id: "@ + text::debug_text_of(t.device_id@) + ", country: "@ + text::debug_text_of(t.country@)
        + " }"@
}

/// What a request asks for, without secrets.
pub open spec fn payload_text(p: RequestPayload) -> Seq<char> {
    match p {
        RequestPayload::Hello { client_version } => "Hello { client_version: "@
            + crate::text::decimal(client_version as nat) + " }"@,
        RequestPayload::Connect => "Connect"@,
        RequestPayload::Disconnect => "Disconnect"@,
        RequestPayload::GetStatus => "GetStatus"@,
        RequestPayload::Subscribe { events, logs } => "Subscribe { events: "@ + flag_text(events)
            + ", logs: "@ + flag_text(logs) + " }"@,
        RequestPayload::GetCapabilities => "GetCapabilities"@,
        RequestPayload::GetDetails => "GetDetails"@,
        RequestPayload::GetMetrics => "GetMetrics"@,
        RequestPayload::ListProfiles => "ListProfiles"@,
        RequestPayload::GetProfile { name } => "GetProfile { name: "@ + text::debug_text_of(name@)
            + " }"@,
        RequestPayload::SetProfile { name, toml } => "SetProfile { name: "@ + text::debug_text_of(name@)
            + ", toml: "@ + secret_text(toml@) + " }"@,
        RequestPayload::DeleteProfile { name } => "DeleteProfile { name: "@ + text::debug_text_of(name@)
            + " }"@,
        RequestPayload::SetActiveProfile { name } => "SetActiveProfile { name: "@ + text::debug_text_of(
            name@,
        ) + " }"@,
        RequestPayload::ValidateProfile { toml } => "ValidateProfile { toml: "@ + secret_text(
            toml@,
        ) + " }"@,
        RequestPayload::SetTelemetry(t) => "SetTelemetry("@ + telemetry_text(t) + ")"@,
        RequestPayload::ApplyConfig { raw } => "ApplyConfig { raw: "@ + secret_text(raw@) + " }"@,
    }
}

/// A text made of three parts.
fn three(a: &str, b: &str, c: &str) -> (s: String)
    ensures
        s@ == a@ + b@ + c@,
{
    let mut s: String = a.to_owned();
    append(&mut s, b);
    append(&mut s, c);
    s
}

fn flag(b: bool) -> (s: &'static str)
    ensures
        s@ == flag_text(b),
{
    if b {
        "true"
    } else {
        "false"
    }
}

fn secret(s: &str) -> (r: String)
    ensures
        r@ == secret_text(s@),
{
    let n: usize = s.as_bytes().len();
    three("[redacted ", decimal_of(n as u128).as_str(), " bytes]")
}

impl TelemetryConfig {
    /// The settings in words, with the names of the headers but not their values.
    pub fn redacted(&self) -> (s: String)
        ensures
            s@ == telemetry_text(*self),
    {
        let mut s: String = "TelemetryConfig { endpoint: ".to_owned();
        append(&mut s, text::debug_text(self.endpoint.as_str()).as_str());
        append(&mut s, ", headers: [");
        let ghost head = s@;
        let mut i: usize = 0;
        assert(s@ =~= head + headers_text(self.headers@, 0));
        while i < self.headers.len()
            invariant
                i <= self.headers@.len(),
                s@ == head + headers_text(self.headers@, i as nat),
            decreases self.headers@.len() - i,
        {
            let ghost was = s@;
            if i > 0 {
                append(&mut s, ", ");
            }
            let name: String = text::debug_text(self.headers[i].0.as_str());
            append(&mut s, "(");
            append(&mut s, name.as_str());
            append(&mut s, ", \"[redacted]\")");
            assert(s@ =~= head + headers_text(self.headers@, (i + 1) as nat));
            i = i + 1;
        }
        append(&mut s, "], sample_rate_ppm: ");
        append(&mut s, decimal_of(self.sample_rate_ppm as u128).as_str());
        append(&mut s, ", logs_enabled: ");
        append(&mut s, flag(self.logs_enabled));
        append(&mut s, ", traces_enabled: ");
        append(&mut s, flag(self.traces_enabled));
        append(&mut s, ", device_id: ");
        append(&mut s, text::debug_text(self.device_id.as_str()).as_str());
        append(&mut s, ", country: ");
        append(&mut s, text::debug_text(self.country.as_str()).as_str());
        append(&mut s, " }");
        assert(s@ =~= telemetry_text(*self));
        s
    }
}

impl RequestPayload {
    /// What is asked for, in words: secrets are replaced by their length, which is what a diagnosis needs.
    pub fn redacted(&self) -> (s: String)
        ensures
            s@ == payload_text(*self),
    {
        match self {
            RequestPayload::Hello { client_version } => three(
                "Hello { client_version: ",
                decimal_of(*client_version as u128).as_str(),
                " }",
            ),
            RequestPayload::Connect => "Connect".to_owned(),
            RequestPayload::Disconnect => "Disconnect".to_owned(),
            RequestPayload::GetStatus => "GetStatus".to_owned(),
            RequestPayload::Subscribe { events, logs } => {
                let mut s: String = three("Subscribe { events: ", flag(*events), ", logs: ");
                append(&mut s, flag(*logs));
                append(&mut s, " }");
                s
            },
            RequestPayload::GetCapabilities => "GetCapabilities".to_owned(),
            RequestPayload::GetDetails => "GetDetails".to_owned(),
            RequestPayload::GetMetrics => "GetMetrics".to_owned(),
            RequestPayload::ListProfiles => "ListProfiles".to_owned(),
            RequestPayload::GetProfile { name } => three(
                "GetProfile { name: ",
                text::debug_text(name.as_str()).as_str(),
                " }",
            ),
            RequestPayload::SetProfile { name, toml } => {
                let mut s: String = three(
                    "SetProfile { name: ",
                    text::debug_text(name.as_str()).as_str(),
                    ", toml: ",
                );
                append(&mut s, secret(toml.as_str()).as_str());
                append(&mut s, " }");
                s
            },
            RequestPayload::DeleteProfile { name } => three(
                "DeleteProfile { name: ",
                text::debug_text(name.as_str()).as_str(),
                " }",
            ),
            RequestPayload::SetActiveProfile { name } => three(
                "SetActiveProfile { name: ",
                text::debug_text(name.as_str()).as_str(),
                " }",
            ),
            RequestPayload::ValidateProfile { toml } => three(
                "ValidateProfile { toml: ",
                secret(toml.as_str()).as_str(),
                " }",
            ),
            RequestPayload::SetTelemetry(t) => three("SetTelemetry(", t.redacted().as_str(), ")"),
            RequestPayload::ApplyConfig { raw } => three(
                "ApplyConfig { raw: ",
                secret(raw.as_str()).as_str(),
                " }",
            ),
        }
    }
}

impl Request {
    /// The request in words, without secrets.
    pub fn redacted(&self) -> (s: String)
        ensures
            s@ == "Request { req_id: "@ + crate::text::decimal(self.req_id as nat) + ", payload: "@
                + payload_text(self.payload) + " }"@,
    {
        let mut s: String = three(
            "Request { req_id: ",
            decimal_of(self.req_id as u128).as_str(),
            ", payload: ",
        );
        append(&mut s, self.payload.redacted().as_str());
        append(&mut s, " }");
        s
    }
}

/// Two secrets of one length look alike: a configuration or a profile is never shown.
pub proof fn lemma_secrets_are_not_shown(a: String, b: String, name: String)
    requires
        vstd::utf8::encode_utf8(a@).len() == vstd::utf8::encode_utf8(b@).len(),
    ensures
        payload_text((RequestPayload::ApplyConfig { raw: a })) == payload_text(
            (RequestPayload::ApplyConfig { raw: b }),
        ),
        payload_text((RequestPayload::SetProfile { name, toml: a })) == payload_text(
            (RequestPayload::SetProfile { name, toml: b }),
        ),
        payload_text((RequestPayload::ValidateProfile { toml: a })) == payload_text(
            (RequestPayload::ValidateProfile { toml: b }),
        ),
{
}

/// Settings that differ in header values alone look alike: a key is never shown.
pub proof fn lemma_header_values_are_not_shown(a: Seq<(String, String)>, b: Seq<(String, String)>, n: nat)
    requires
        a.len() == b.len(),
        n <= a.len(),
        forall|i: int| 0 <= i < a.len() ==> (#[trigger] a[i]).0@ == b[i].0@,
    ensures
        headers_text(a, n) == headers_text(b, n),
    decreases n,
{
    if n > 0 {
        lemma_header_values_are_not_shown(a, b, (n - 1) as nat);
        assert(a[n - 1].0@ == b[n - 1].0@);
    }
}

/// The text begins with this.
pub open spec fn begins_with(s: Seq<char>, part: Seq<char>) -> bool {
    s.len() >= part.len() && s.take(part.len() as int) == part
}

proof fn lemma_begins(a: Seq<char>, b: Seq<char>)
    ensures
        begins_with(a + b, a),
{
    assert((a + b).take(a.len() as int) =~= a);
}

/// A request in words begins with its own name, and names the profile that it is about.
pub proof fn lemma_words_name_the_request(p: RequestPayload)
    ensures
        begins_with(
            payload_text(p),
            match p {
                RequestPayload::Hello { .. } => "Hello { client_version: "@,
                RequestPayload::Connect => "Connect"@,
                RequestPayload::Disconnect => "Disconnect"@,
                RequestPayload::GetStatus => "GetStatus"@,
                RequestPayload::Subscribe { .. } => "Subscribe { events: "@,
                RequestPayload::GetCapabilities => "GetCapabilities"@,
                RequestPayload::GetDetails => "GetDetails"@,
                RequestPayload::GetMetrics => "GetMetrics"@,
                RequestPayload::ListProfiles => "ListProfiles"@,
                RequestPayload::GetProfile { name } => "GetProfile { name: "@
                    + text::debug_text_of(name@),
                RequestPayload::SetProfile { name, .. } => "SetProfile { name: "@
                    + text::debug_text_of(name@),
                RequestPayload::DeleteProfile { name } => "DeleteProfile { name: "@
                    + text::debug_text_of(name@),
                RequestPayload::SetActiveProfile { name } => "SetActiveProfile { name: "@
                    + text::debug_text_of(name@),
                RequestPayload::ValidateProfile { .. } => "ValidateProfile { toml: [redacted "@,
                RequestPayload::SetTelemetry(_) => "SetTelemetry(TelemetryConfig { endpoint: "@,
                RequestPayload::ApplyConfig { .. } => "ApplyConfig { raw: [redacted "@,
            },
        ),
{
    reveal_strlit("ValidateProfile { toml: [redacted ");
    reveal_strlit("ValidateProfile { toml: ");
    reveal_strlit("[redacted ");
    reveal_strlit("SetTelemetry(TelemetryConfig { endpoint: ");
    reveal_strlit("SetTelemetry(");
    reveal_strlit("TelemetryConfig { endpoint: ");
    reveal_strlit("ApplyConfig { raw: [redacted ");
    reveal_strlit("ApplyConfig { raw: ");
    let t = payload_text(p);
    match p {
        RequestPayload::ValidateProfile { .. } => {
            let part = "ValidateProfile { toml: [redacted "@;
            assert("ValidateProfile { toml: "@ + "[redacted "@ =~= part);
            assert(t.take(part.len() as int) =~= part);
        },
        RequestPayload::ApplyConfig { .. } => {
            let part = "ApplyConfig { raw: [redacted "@;
            assert("ApplyConfig { raw: "@ + "[redacted "@ =~= part);
            assert(t.take(part.len() as int) =~= part);
        },
        RequestPayload::SetTelemetry(_) => {
            let part = "SetTelemetry(TelemetryConfig { endpoint: "@;
            assert("SetTelemetry("@ + "TelemetryConfig { endpoint: "@ =~= part);
            assert(t.take(part.len() as int) =~= part);
        },
        RequestPayload::Hello { client_version } => {
            lemma_begins(
                "Hello { client_version: "@,
                crate::text::decimal(client_version as nat) + " }"@,
            );
            assert(t =~= "Hello { client_version: "@ + (crate::text::decimal(client_version as nat)
                + " }"@));
        },
        RequestPayload::Subscribe { events, logs } => {
            let rest = flag_text(events) + ", logs: "@ + flag_text(logs) + " }"@;
            lemma_begins("Subscribe { events: "@, rest);
            assert(t =~= "Subscribe { events: "@ + rest);
        },
        RequestPayload::GetProfile { name } => {
            lemma_begins("GetProfile { name: "@ + text::debug_text_of(name@), " }"@);
        },
        RequestPayload::DeleteProfile { name } => {
            lemma_begins("DeleteProfile { name: "@ + text::debug_text_of(name@), " }"@);
        },
        RequestPayload::SetActiveProfile { name } => {
            lemma_begins("SetActiveProfile { name: "@ + text::debug_text_of(name@), " }"@);
        },
        RequestPayload::SetProfile { name, toml } => {
            let head = "SetProfile { name: "@ + text::debug_text_of(name@);
            let rest = ", toml: "@ + secret_text(toml@) + " }"@;
            lemma_begins(head, rest);
            assert(t =~= head + rest);
        },
        _ => {
            assert(t.take(t.len() as int) =~= t);
        },
    }
}

} // verus!
