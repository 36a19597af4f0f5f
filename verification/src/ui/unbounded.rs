//! Sharing one's connection with others: when it may start, what a stop undoes, what is shown of it.
use vstd::prelude::*;

use crate::json::{Json, JsonModel};
use crate::ui::models;

verus! {

/// Where someone is: the country, and a place on the map that the host draws.
#[derive(Debug)]
pub struct Geo<P> {
    /// The country's two letters.
    pub country_code: String,
    /// The place on the map.
    pub at: P,
}

/// Someone who is being helped.
#[derive(Debug)]
pub struct PeerView<P> {
    /// The session.
    pub session_id: String,
    /// Where they are, if it is known.
    pub geo: Option<Geo<P>>,
}

/// Who is being helped right now.
#[derive(Debug)]
pub struct SharingStatus<P> {
    /// How many.
    pub helping_now: usize,
    /// Who.
    pub peers: Vec<PeerView<P>>,
}

/// A change in who is being helped.
#[derive(Debug)]
pub enum SharingDelta<P> {
    /// Someone came.
    Joined(PeerView<P>),
    /// A session went.
    Left(String),
}

/// How many were helped after a change: one more for each who came.
pub open spec fn total_after<P>(total: int, delta: SharingDelta<P>) -> int {
    if delta is Joined {
        total + 1
    } else {
        total
    }
}

/// Counts those who came.
pub fn on_delta<P>(total: &mut u64, delta: &SharingDelta<P>)
    requires
        *old(total) < u64::MAX,
    ensures
        *final(total) == total_after(*old(total) as int, *delta),
{
    if let SharingDelta::Joined(_) = delta {
        *total = *total + 1;
    }
}

/// The country of someone who came, if it is known.
pub fn region_of<P>(delta: &Option<SharingDelta<P>>) -> (r: Option<&str>)
    ensures
        match *delta {
            Some(SharingDelta::Joined(p)) => match p.geo {
                Some(g) => r matches Some(s) && s@ == g.country_code@,
                None => r is None,
            },
            _ => r is None,
        },
{
    match delta {
        Some(SharingDelta::Joined(p)) => match &p.geo {
            Some(g) => Some(g.country_code.as_str()),
            None => None,
        },
        _ => None,
    }
}

/// How long to wait before the sessions' attempts to place us on the map (s), and when to give up.
pub open spec fn origin_delay(attempt: int) -> Option<u64> {
    if attempt == 0 {
        Some(0)
    } else if attempt == 1 {
        Some(5)
    } else if attempt == 2 {
        Some(20)
    } else if attempt == 3 {
        Some(60)
    } else if attempt == 4 {
        Some(180)
    } else {
        None
    }
}

/// How long to wait before an attempt to place us on the map (s): nothing once it is time to give up.
pub fn delay_before(attempt: usize) -> (r: Option<u64>)
    ensures
        r == origin_delay(attempt as int),
{
    match attempt {
        0 => Some(0),
        1 => Some(5),
        2 => Some(20),
        3 => Some(60),
        4 => Some(180),
        _ => None,
    }
}

/// What the server's configuration says of sharing.
#[derive(Debug)]
pub struct UnboundedConfig {
    /// The server allows it, and says where to dial.
    pub available: bool,
    /// Where help is carried to.
    pub egress_url: String,
    /// Where those who need help are found.
    pub signaling_url: String,
    /// How many may be helped at once.
    pub concurrent_sessions: usize,
}

/// How sharing is run.
#[derive(Debug)]
pub struct SharingConfig {
    /// Where help is carried to.
    pub egress_url: String,
    /// The servers that tell our outside address. Filled in before sharing starts.
    pub stun_urls: Vec<String>,
    /// How many may be helped at once: one at least.
    pub concurrent_sessions: usize,
    /// How long a peer may take to connect (s).
    pub nat_timeout_secs: u64,
    /// The first wait after a failure (s).
    pub initial_backoff_secs: u64,
    /// The longest wait after failures (s).
    pub max_backoff_secs: u64,
    /// How long a session lasts before it counts as stable (s).
    pub stable_session_secs: u64,
    /// Whether to use IPv6.
    pub enable_ipv6: bool,
    /// Whether to vary the handshake.
    pub randomize_dtls: bool,
}

/// Why sharing did not start.
#[derive(Debug, PartialEq, Eq, Structural, Clone, Copy)]
pub enum StartError {
    /// The server does not allow it, or does not say where to dial.
    Unavailable,
    /// The user has not seen what sharing means.
    NoConsent,
    /// A stop came while the start was being prepared.
    Superseded,
}

/// What the errors say.
pub open spec fn start_error_text(e: StartError) -> Seq<char> {
    match e {
        StartError::Unavailable => "unbounded not available"@,
        StartError::NoConsent => "unbounded consent not given (disclosure not yet acknowledged)"@,
        StartError::Superseded => "unbounded start superseded by a stop while preparing"@,
    }
}

impl StartError {
    /// What the error says.
    pub fn text(&self) -> (s: &'static str)
        ensures
            s@ == start_error_text(*self),
    {
        match self {
            StartError::Unavailable => "unbounded not available",
            StartError::NoConsent => "unbounded consent not given (disclosure not yet acknowledged)",
            StartError::Superseded => "unbounded start superseded by a stop while preparing",
        }
    }
}

/// Whether sharing is run so under the server's configuration.
pub open spec fn runs_as(c: UnboundedConfig, cfg: SharingConfig, signaling: String) -> bool {
    &&& c.available
    &&& cfg.egress_url == c.egress_url
    &&& signaling == c.signaling_url
    &&& cfg.concurrent_sessions == if c.concurrent_sessions == 0 {
        1
    } else {
        c.concurrent_sessions
    }
    &&& cfg.initial_backoff_secs == 1
    &&& cfg.max_backoff_secs == 30
    &&& cfg.stable_session_secs == 30
}

/// How sharing is run under the server's configuration, and where those who need help are found:
/// nothing where it is not available.
pub fn build_sharing_config(c: UnboundedConfig) -> (r: Result<(SharingConfig, String), StartError>)
    ensures
        !c.available ==> r == Err::<(SharingConfig, String), StartError>(StartError::Unavailable),
        c.available ==> match r {
            Ok((cfg, signaling)) => {
                &&& cfg.egress_url == c.egress_url
                &&& signaling == c.signaling_url
                &&& cfg.stun_urls@.len() == 0
                &&& cfg.concurrent_sessions == if c.concurrent_sessions == 0 {
                    1
                } else {
                    c.concurrent_sessions
                }
                &&& cfg.nat_timeout_secs == 10
                &&& cfg.initial_backoff_secs == 1
                &&& cfg.max_backoff_secs == 30
                &&& cfg.stable_session_secs == 30
                &&& !cfg.enable_ipv6
                &&& cfg.randomize_dtls
            },
            Err(_) => false,
        },
        r matches Ok((cfg, signaling)) ==> runs_as(c, cfg, signaling),
{
    if !c.available {
        return Err(StartError::Unavailable);
    }
    let cfg: SharingConfig = SharingConfig {
        egress_url: c.egress_url,
        stun_urls: Vec::new(),
        concurrent_sessions: if c.concurrent_sessions == 0 {
            1
        } else {
            c.concurrent_sessions
        },
        nat_timeout_secs: 10,
        initial_backoff_secs: 1,
        max_backoff_secs: 30,
        stable_session_secs: 30,
        enable_ipv6: false,
        randomize_dtls: true,
    };
    Ok((cfg, c.signaling_url))
}

/// The state of sharing. The host runs the pool; which one it runs is told by its generation.
#[derive(Debug)]
pub struct Unbounded<P> {
    running: bool,
    looping: bool,
    latest: Option<SharingStatus<P>>,
    origin: Option<Geo<P>>,
    generation: u64,
    stop_epoch: u64,
    available: bool,
}

/// The state of sharing.
#[verifier::ext_equal]
pub struct UnboundedModel<P> {
    /// A pool is running.
    pub running: bool,
    /// Its events are being followed.
    pub looping: bool,
    /// Who was being helped when that last changed.
    pub latest: Option<SharingStatus<P>>,
    /// Where we are, once it was found.
    pub origin: Option<Geo<P>>,
    /// How many pools were started.
    pub generation: u64,
    /// How many stops there were.
    pub stop_epoch: u64,
    /// The server allows sharing.
    pub available: bool,
}

impl<P> View for Unbounded<P> {
    type V = UnboundedModel<P>;

    closed spec fn view(&self) -> UnboundedModel<P> {
        UnboundedModel {
            running: self.running,
            looping: self.looping,
            latest: self.latest,
            origin: self.origin,
            generation: self.generation,
            stop_epoch: self.stop_epoch,
            available: self.available,
        }
    }
}

/// The next count, which starts anew after the last.
pub open spec fn next_count(n: u64) -> u64 {
    if n == u64::MAX {
        0
    } else {
        (n + 1) as u64
    }
}

/// Nothing is running.
pub open spec fn torn_down<P>(s: UnboundedModel<P>) -> UnboundedModel<P> {
    UnboundedModel { running: false, looping: false, latest: None, origin: None, ..s }
}

/// A pool has been started.
pub open spec fn spawned<P>(s: UnboundedModel<P>) -> UnboundedModel<P> {
    UnboundedModel { running: true, looping: true, generation: next_count(s.generation), ..s }
}

/// A stop: nothing is running, and starts that are being prepared can tell.
pub open spec fn stopped<P>(s: UnboundedModel<P>) -> UnboundedModel<P> {
    UnboundedModel { stop_epoch: next_count(s.stop_epoch), ..torn_down(s) }
}

/// Whether a start that was prepared from `ticket` on may start a pool.
pub open spec fn may_spawn<P>(s: UnboundedModel<P>, ticket: u64) -> bool {
    !s.running && s.stop_epoch == ticket
}

/// A start that was prepared from `ticket` on: it starts a pool where none is running and no stop came
/// in between.
pub open spec fn start_finished<P>(s: UnboundedModel<P>, ticket: u64) -> UnboundedModel<P> {
    if may_spawn(s, ticket) {
        spawned(s)
    } else {
        s
    }
}

/// The end of a pool's events without a stop: nothing is running, unless another pool was started.
pub open spec fn pool_ended<P>(s: UnboundedModel<P>, generation: u64) -> UnboundedModel<P> {
    if s.generation == generation {
        UnboundedModel { running: false, latest: None, origin: None, ..s }
    } else {
        s
    }
}

/// The answer to writing down that sharing is on: where that failed, nothing is left running.
pub open spec fn start_recorded<P>(s: UnboundedModel<P>, written: bool) -> UnboundedModel<P> {
    if written {
        s
    } else {
        torn_down(s)
    }
}

/// Where we are was found, by a search that began at `ticket`: it counts unless a stop came since.
pub open spec fn origin_found<P>(s: UnboundedModel<P>, ticket: u64, geo: Geo<P>) -> UnboundedModel<
    P,
> {
    if s.stop_epoch == ticket {
        UnboundedModel { origin: Some(geo), ..s }
    } else {
        s
    }
}

/// What to do first when sharing is to start.
#[derive(Debug, PartialEq, Eq, Structural, Clone, Copy)]
pub enum Begin {
    /// Nothing: a pool is running.
    Running,
    /// Refuse.
    Refused(StartError),
    /// Prepare, and finish with this ticket.
    Prepare(u64),
}

/// What to do once a start is prepared.
#[derive(Debug, PartialEq, Eq, Structural, Clone, Copy)]
pub enum Finish {
    /// Nothing: a pool is running.
    Running,
    /// Refuse.
    Refused(StartError),
    /// Start the pool of this generation.
    Spawn(u64),
}

/// What is shown of sharing.
#[derive(Debug)]
pub struct UnboundedSnapshot<'a, P> {
    /// A pool is running.
    pub enabled: bool,
    /// How many are being helped.
    pub helping_now: usize,
    /// How many were ever helped.
    pub total_helped: u64,
    /// Who is being helped, where anyone is.
    pub peers: Option<&'a Vec<PeerView<P>>>,
    /// Where we are, once it was found.
    pub origin: Option<&'a Geo<P>>,
}

/// How many are being helped in a status.
pub open spec fn helping_in<P>(latest: Option<SharingStatus<P>>) -> usize {
    match latest {
        Some(s) => s.helping_now,
        None => 0,
    }
}

/// Whether a snapshot shows a status: without one, nobody is being helped.
pub open spec fn shows<P>(
    snap: UnboundedSnapshot<P>,
    enabled: bool,
    latest: Option<SharingStatus<P>>,
    total: u64,
    origin: Option<Geo<P>>,
) -> bool {
    &&& snap.enabled == enabled
    &&& snap.total_helped == total
    &&& snap.helping_now == helping_in(latest)
    &&& match latest {
        Some(s) => snap.peers matches Some(v) && *v == s.peers,
        None => snap.peers is None,
    }
    &&& match origin {
        Some(g) => snap.origin matches Some(r) && *r == g,
        None => snap.origin is None,
    }
}

/// A place on the map, its coordinates as JSON writes them.
#[derive(Debug, Clone)]
pub struct Place {
    /// Latitude.
    pub lat: String,
    /// Longitude.
    pub lon: String,
}

/// A place as JSON; nothing where it is not known.
pub open spec fn geo_json(g: Option<Geo<Place>>) -> JsonModel {
    match g {
        Some(g) => JsonModel::Object(
            seq![
                ("countryCode"@, JsonModel::Text(g.country_code@)),
                ("lat"@, JsonModel::Numeral(g.at.lat@)),
                ("lon"@, JsonModel::Numeral(g.at.lon@)),
            ],
        ),
        None => JsonModel::Null,
    }
}

/// Someone who is being helped, as JSON.
pub open spec fn peer_json(p: PeerView<Place>) -> JsonModel {
    JsonModel::Object(
        seq![("sessionId"@, JsonModel::Text(p.session_id@)), ("geo"@, geo_json(p.geo))],
    )
}

/// Those who are being helped, as JSON.
pub open spec fn peers_json(peers: Seq<PeerView<Place>>) -> JsonModel {
    JsonModel::List(Seq::new(peers.len(), |i: int| peer_json(peers[i])))
}

/// What is shown of sharing, as JSON. The names of the members are fixed: the window knows them.
pub open spec fn snapshot_json(
    enabled: bool,
    helping: usize,
    total: u64,
    peers: Seq<PeerView<Place>>,
    origin: Option<Geo<Place>>,
) -> JsonModel {
    JsonModel::Object(
        seq![
            ("enabled"@, JsonModel::Flag(enabled)),
            ("helpingNow"@, JsonModel::Number(helping as u64)),
            ("totalHelped"@, JsonModel::Number(total)),
            ("peers"@, peers_json(peers)),
            ("origin"@, geo_json(origin)),
        ],
    )
}

fn place_json(g: Option<&Geo<Place>>) -> (j: Json)
    ensures
        match g {
            Some(g) => j@ == geo_json(Some(*g)),
            None => j@ == geo_json(None),
        },
{
    match g {
        Some(g) => {
            let mut v: Vec<(String, Json)> = Vec::new();
            assert(models::members_view(v@) =~= Seq::empty());
            models::add_member(&mut v, "countryCode", models::text_json(g.country_code.as_str()));
            models::add_member(&mut v, "lat", Json::Numeral(g.at.lat.as_str().to_owned()));
            models::add_member(&mut v, "lon", Json::Numeral(g.at.lon.as_str().to_owned()));
            assert(models::members_view(v@) =~= geo_json(Some(*g))->Object_0);
            models::object_json(v)
        },
        None => Json::Null,
    }
}

fn peers_list(peers: &Vec<PeerView<Place>>) -> (j: Json)
    ensures
        j@ == peers_json(peers@),
{
    let mut out: Vec<Json> = Vec::new();
    let mut i: usize = 0;
    while i < peers.len()
        invariant
            i <= peers@.len(),
            out@.len() == i,
            forall|k: int| 0 <= k < i ==> (#[trigger] out@[k])@ == peer_json(peers@[k]),
        decreases peers@.len() - i,
    {
        let p: &PeerView<Place> = &peers[i];
        let mut v: Vec<(String, Json)> = Vec::new();
        assert(models::members_view(v@) =~= Seq::empty());
        models::add_member(&mut v, "sessionId", models::text_json(p.session_id.as_str()));
        models::add_member(&mut v, "geo", place_json(p.geo.as_ref()));
        assert(models::members_view(v@) =~= peer_json(*p)->Object_0);
        out.push(models::object_json(v));
        i = i + 1;
    }
    let j: Json = Json::List(out);
    assert(j@->List_0 =~= peers_json(peers@)->List_0);
    j
}

impl<'a> UnboundedSnapshot<'a, Place> {
    /// What is shown of sharing, as JSON. No peers are an empty list, and an unknown place is null.
    pub fn to_json(&self) -> (j: Json)
        ensures
            j@ == snapshot_json(
                self.enabled,
                self.helping_now,
                self.total_helped,
                match self.peers {
                    Some(v) => v@,
                    None => Seq::empty(),
                },
                match self.origin {
                    Some(g) => Some(*g),
                    None => None,
                },
            ),
    {
        let mut v: Vec<(String, Json)> = Vec::new();
        assert(models::members_view(v@) =~= Seq::empty());
        models::add_member(&mut v, "enabled", models::flag_json(self.enabled));
        models::add_member(&mut v, "helpingNow", models::number_json(self.helping_now as u64));
        models::add_member(&mut v, "totalHelped", models::number_json(self.total_helped));
        let peers: Json = match self.peers {
            Some(list) => peers_list(list),
            None => {
                let j: Json = Json::List(Vec::new());
                assert(j@->List_0 =~= peers_json(Seq::empty())->List_0);
                j
            },
        };
        models::add_member(&mut v, "peers", peers);
        models::add_member(&mut v, "origin", place_json(self.origin));
        let ghost want = snapshot_json(
            self.enabled,
            self.helping_now,
            self.total_helped,
            match self.peers {
                Some(v) => v@,
                None => Seq::empty(),
            },
            match self.origin {
                Some(g) => Some(*g),
                None => None,
            },
        );
        assert(models::members_view(v@) =~= want->Object_0);
        models::object_json(v)
    }
}

impl<P> Unbounded<P> {
    /// Nothing is running, and nothing is known of the server.
    pub fn new() -> (s: Unbounded<P>)
        ensures
            s@ == (UnboundedModel::<P> {
                running: false,
                looping: false,
                latest: None,
                origin: None,
                generation: 0,
                stop_epoch: 0,
                available: false,
            }),
    {
        Unbounded {
            running: false,
            looping: false,
            latest: None,
            origin: None,
            generation: 0,
            stop_epoch: 0,
            available: false,
        }
    }

    /// The first step of a start: nothing is prepared, and nothing asked of the network, before the
    /// user has seen what sharing means.
    pub fn begin_start(&self, welcome_seen: bool) -> (b: Begin)
        ensures
            b == if self@.running {
                Begin::Running
            } else if !welcome_seen {
                Begin::Refused(StartError::NoConsent)
            } else {
                Begin::Prepare(self@.stop_epoch)
            },
    {
        if self.running {
            Begin::Running
        } else if !welcome_seen {
            Begin::Refused(StartError::NoConsent)
        } else {
            Begin::Prepare(self.stop_epoch)
        }
    }

    /// The second step of a start, once it is prepared.
    pub fn finish_start(&mut self, ticket: u64) -> (f: Finish)
        ensures
            final(self)@ == start_finished(old(self)@, ticket),
            f == if old(self)@.running {
                Finish::Running
            } else if old(self)@.stop_epoch != ticket {
                Finish::Refused(StartError::Superseded)
            } else {
                Finish::Spawn(next_count(old(self)@.generation))
            },
    {
        if self.running {
            return Finish::Running;
        }
        if self.stop_epoch != ticket {
            return Finish::Refused(StartError::Superseded);
        }
        self.running = true;
        self.looping = true;
        self.generation = if self.generation == u64::MAX {
            0
        } else {
            self.generation + 1
        };
        Finish::Spawn(self.generation)
    }

    /// The last step of a start: whether it was written down that sharing is on.
    pub fn record_start(&mut self, written: bool)
        ensures
            final(self)@ == start_recorded(old(self)@, written),
    {
        if !written {
            self.running = false;
            self.looping = false;
            self.latest = None;
            self.origin = None;
        }
    }

    /// A stop. Gives whether a pool was running, and whether its events were being followed.
    pub fn stop(&mut self) -> (was: (bool, bool))
        ensures
            final(self)@ == stopped(old(self)@),
            was == (old(self)@.running, old(self)@.looping),
    {
        let was: (bool, bool) = (self.running, self.looping);
        self.stop_epoch = if self.stop_epoch == u64::MAX {
            0
        } else {
            self.stop_epoch + 1
        };
        self.running = false;
        self.looping = false;
        self.latest = None;
        self.origin = None;
        was
    }

    /// The events of a pool ended without a stop. Gives whether it was the current one, so that what is
    /// shown has to change. That sharing was turned on stays written down.
    pub fn end_pool(&mut self, generation: u64) -> (current: bool)
        ensures
            final(self)@ == pool_ended(old(self)@, generation),
            current == (old(self)@.generation == generation),
    {
        if self.generation != generation {
            return false;
        }
        self.running = false;
        self.latest = None;
        self.origin = None;
        true
    }

    /// Who is being helped has changed.
    pub fn set_status(&mut self, status: SharingStatus<P>)
        ensures
            final(self)@ == (UnboundedModel { latest: Some(status), ..old(self)@ }),
    {
        self.latest = Some(status);
    }

    /// The ticket of a search for where we are.
    pub fn origin_ticket(&self) -> (ticket: u64)
        ensures
            ticket == self@.stop_epoch,
    {
        self.stop_epoch
    }

    /// Whether no stop came since a search began.
    pub fn still_this_session(&self, ticket: u64) -> (b: bool)
        ensures
            b == (self@.stop_epoch == ticket),
    {
        self.stop_epoch == ticket
    }

    /// Where we are was found.
    pub fn set_origin(&mut self, ticket: u64, geo: Geo<P>)
        ensures
            final(self)@ == origin_found(old(self)@, ticket, geo),
    {
        if self.stop_epoch == ticket {
            self.origin = Some(geo);
        }
    }

    /// Whether the server allows sharing was read.
    pub fn set_available(&mut self, available: bool)
        ensures
            final(self)@ == (UnboundedModel { available, ..old(self)@ }),
    {
        self.available = available;
    }

    /// Whether the server allows sharing: not before that was read.
    pub fn unbounded_available_sync(&self) -> (b: bool)
        ensures
            b == self@.available,
    {
        self.available
    }

    /// Whether a pool is running, and how many are being helped.
    pub fn live_view(&self) -> (r: (bool, usize))
        ensures
            r == (self@.running, helping_in(self@.latest)),
    {
        let helping: usize = match &self.latest {
            Some(s) => s.helping_now,
            None => 0,
        };
        (self.running, helping)
    }

    /// What is shown when asked: of a pool that is not running, nobody.
    pub fn status(&self, total: u64) -> (snap: UnboundedSnapshot<'_, P>)
        ensures
            shows(
                snap,
                self@.running,
                if self@.running {
                    self@.latest
                } else {
                    None
                },
                total,
                self@.origin,
            ),
    {
        match (&self.latest, self.running) {
            (Some(s), true) => self.payload(true, Some(s), total),
            (_, running) => self.payload(running, None, total),
        }
    }

    /// What is shown of a status.
    pub fn payload<'a>(
        &'a self,
        enabled: bool,
        status: Option<&'a SharingStatus<P>>,
        total: u64,
    ) -> (snap: UnboundedSnapshot<'a, P>)
        ensures
            shows(
                snap,
                enabled,
                match status {
                    Some(s) => Some(*s),
                    None => None,
                },
                total,
                self@.origin,
            ),
    {
        let helping_now: usize = match status {
            Some(s) => s.helping_now,
            None => 0,
        };
        let peers: Option<&'a Vec<PeerView<P>>> = match status {
            Some(s) => Some(&s.peers),
            None => None,
        };
        let origin: Option<&'a Geo<P>> = match &self.origin {
            Some(g) => Some(g),
            None => None,
        };
        UnboundedSnapshot { enabled, helping_now, total_helped: total, peers, origin }
    }
}

/// The settings of sharing that are kept.
#[derive(Debug, PartialEq, Eq, Structural, Clone, Copy)]
pub enum Setting {
    /// Start sharing when the program starts.
    AutoEnable,
    /// Do not show sharing.
    Hidden,
    /// The user has seen what sharing means.
    WelcomeSeen,
}

/// A change of settings: only what is given is written.
#[derive(Debug, Clone, Copy)]
pub struct UnboundedSettingsPatch {
    /// Start sharing when the program starts.
    pub auto_enable: Option<bool>,
    /// Do not show sharing.
    pub hidden: Option<bool>,
    /// The user has seen what sharing means.
    pub welcome_seen: Option<bool>,
}

/// A write that is made only where a value is given.
pub open spec fn one_write(setting: Setting, value: Option<bool>) -> Seq<(Setting, bool)> {
    match value {
        Some(b) => seq![(setting, b)],
        None => Seq::empty(),
    }
}

/// The writes that a change of settings asks for, in order.
pub open spec fn writes_of(patch: UnboundedSettingsPatch) -> Seq<(Setting, bool)> {
    one_write(Setting::AutoEnable, patch.auto_enable) + one_write(Setting::Hidden, patch.hidden)
        + one_write(Setting::WelcomeSeen, patch.welcome_seen)
}

/// The writes that a change of settings asks for, in order.
pub fn settings_writes(patch: UnboundedSettingsPatch) -> (v: Vec<(Setting, bool)>)
    ensures
        v@ == one_write(Setting::AutoEnable, patch.auto_enable) + one_write(
            Setting::Hidden,
            patch.hidden,
        ) + one_write(Setting::WelcomeSeen, patch.welcome_seen),
        v@ == writes_of(patch),
{
    let mut v: Vec<(Setting, bool)> = Vec::new();
    if let Some(b) = patch.auto_enable {
        v.push((Setting::AutoEnable, b));
    }
    if let Some(b) = patch.hidden {
        v.push((Setting::Hidden, b));
    }
    if let Some(b) = patch.welcome_seen {
        v.push((Setting::WelcomeSeen, b));
    }
    assert(v@ =~= one_write(Setting::AutoEnable, patch.auto_enable) + one_write(
        Setting::Hidden,
        patch.hidden,
    ) + one_write(Setting::WelcomeSeen, patch.welcome_seen));
    v
}

/// The settings as JSON.
pub open spec fn settings_model(auto_enable: bool, hidden: bool, welcome_seen: bool) -> JsonModel {
    JsonModel::Object(
        seq![
            ("autoEnable"@, JsonModel::Flag(auto_enable)),
            ("hidden"@, JsonModel::Flag(hidden)),
            ("welcomeSeen"@, JsonModel::Flag(welcome_seen)),
        ],
    )
}

/// The settings as JSON.
pub fn settings_json(auto_enable: bool, hidden: bool, welcome_seen: bool) -> (j: Json)
    ensures
        j@ == settings_model(auto_enable, hidden, welcome_seen),
{
    let mut v: Vec<(String, Json)> = Vec::new();
    assert(models::members_view(v@) =~= Seq::empty());
    models::add_member(&mut v, "autoEnable", models::flag_json(auto_enable));
    models::add_member(&mut v, "hidden", models::flag_json(hidden));
    models::add_member(&mut v, "welcomeSeen", models::flag_json(welcome_seen));
    assert(models::members_view(v@) =~= settings_model(
        auto_enable,
        hidden,
        welcome_seen,
    )->Object_0);
    models::object_json(v)
}

/// What to do about sharing when the program starts.
#[derive(Debug, PartialEq, Eq, Structural, Clone, Copy)]
pub enum Resume {
    /// Nothing.
    Nothing,
    /// Write down that sharing is off.
    Clear,
    /// Start, where the server allows it.
    Start,
}

/// What to do about sharing when the program starts: it was on and is to start by itself, or it was on
/// and is not.
pub fn resume_at_startup(enabled: bool, auto_enable: bool) -> (r: Resume)
    ensures
        r == if !enabled {
            Resume::Nothing
        } else if auto_enable {
            Resume::Start
        } else {
            Resume::Clear
        },
{
    if !enabled {
        Resume::Nothing
    } else if auto_enable {
        Resume::Start
    } else {
        Resume::Clear
    }
}

/// What can happen to sharing.
pub ghost enum Event<P> {
    /// A start that was prepared is finished.
    Finish(u64),
    /// It was, or was not, written down that sharing is on.
    Recorded(bool),
    /// A stop.
    Stop,
    /// The events of a pool ended.
    Ended(u64),
    /// Who is being helped has changed.
    Status(SharingStatus<P>),
    /// Where we are was found.
    Origin(u64, Geo<P>),
    /// Whether the server allows sharing was read.
    Available(bool),
}

/// The state after an event.
pub open spec fn step<P>(s: UnboundedModel<P>, e: Event<P>) -> UnboundedModel<P> {
    match e {
        Event::Finish(ticket) => start_finished(s, ticket),
        Event::Recorded(written) => start_recorded(s, written),
        Event::Stop => stopped(s),
        Event::Ended(generation) => pool_ended(s, generation),
        Event::Status(status) => UnboundedModel { latest: Some(status), ..s },
        Event::Origin(ticket, geo) => origin_found(s, ticket, geo),
        Event::Available(available) => UnboundedModel { available, ..s },
    }
}

/// The state after events.
pub open spec fn run<P>(s: UnboundedModel<P>, events: Seq<Event<P>>) -> UnboundedModel<P>
    decreases events.len(),
{
    if events.len() == 0 {
        s
    } else {
        step(run(s, events.drop_last()), events.last())
    }
}

/// How many of the events are stops.
pub open spec fn stops<P>(events: Seq<Event<P>>) -> nat
    decreases events.len(),
{
    if events.len() == 0 {
        0
    } else if events.last() is Stop {
        stops(events.drop_last()) + 1
    } else {
        stops(events.drop_last())
    }
}

/// How many of the events started a pool.
pub open spec fn starts<P>(s: UnboundedModel<P>, events: Seq<Event<P>>) -> nat
    decreases events.len(),
{
    if events.len() == 0 {
        0
    } else {
        let before = run(s, events.drop_last());
        match events.last() {
            Event::Finish(ticket) => if may_spawn(before, ticket) {
                starts(s, events.drop_last()) + 1
            } else {
                starts(s, events.drop_last())
            },
            _ => starts(s, events.drop_last()),
        }
    }
}

/// A count after `n` more.
pub open spec fn counted(from: u64, n: nat) -> int {
    (from as int + n as int) % 0x1_0000_0000_0000_0000
}

proof fn lemma_counts<P>(s: UnboundedModel<P>, events: Seq<Event<P>>)
    ensures
        run(s, events).stop_epoch == counted(s.stop_epoch, stops(events)),
        run(s, events).generation == counted(s.generation, starts(s, events)),
    decreases events.len(),
{
    if events.len() > 0 {
        lemma_counts(s, events.drop_last());
        let before = run(s, events.drop_last());
        lemma_next_count(s.stop_epoch, stops(events.drop_last()), before.stop_epoch);
        lemma_next_count(s.generation, starts(s, events.drop_last()), before.generation);
    }
}

proof fn lemma_next_count(from: u64, n: nat, at: u64)
    requires
        at == counted(from, n),
    ensures
        next_count(at) == counted(from, (n + 1) as nat),
{
}

proof fn lemma_count_moves(from: u64, n: nat)
    requires
        0 < n < 0x1_0000_0000_0000_0000,
    ensures
        counted(from, n) != from,
{
}

/// A stop wins over a start that was being prepared: whatever else happens in between, a start that
/// was prepared from before the stop on starts no pool. (After as many stops as a 64-bit count has
/// values, the count could be the same again.)
pub proof fn lemma_stop_wins<P>(s: UnboundedModel<P>, events: Seq<Event<P>>)
    requires
        0 < stops(events) < 0x1_0000_0000_0000_0000,
    ensures
        !may_spawn(run(s, events), s.stop_epoch),
        start_finished(run(s, events), s.stop_epoch) == run(s, events),
{
    lemma_counts(s, events);
    lemma_count_moves(s.stop_epoch, stops(events));
}

/// A search for where we are that began before a stop finds nothing: its answer is dropped.
pub proof fn lemma_stop_ends_the_search<P>(s: UnboundedModel<P>, events: Seq<Event<P>>, geo: Geo<P>)
    requires
        0 < stops(events) < 0x1_0000_0000_0000_0000,
    ensures
        origin_found(run(s, events), s.stop_epoch, geo) == run(s, events),
{
    lemma_counts(s, events);
    lemma_count_moves(s.stop_epoch, stops(events));
}

/// The end of an earlier pool's events changes nothing once another pool was started.
pub proof fn lemma_old_pool_cannot_end_a_new_one<P>(s: UnboundedModel<P>, events: Seq<Event<P>>)
    requires
        0 < starts(s, events) < 0x1_0000_0000_0000_0000,
    ensures
        pool_ended(run(s, events), s.generation) == run(s, events),
{
    lemma_counts(s, events);
    lemma_count_moves(s.generation, starts(s, events));
}

/// After a stop nothing is running, nobody is shown and we are not on the map, until a pool is started
/// or a later search finds us.
pub proof fn lemma_stop_leaves_nothing<P>(s: UnboundedModel<P>)
    ensures
        !stopped(s).running,
        !stopped(s).looping,
        stopped(s).latest is None,
        stopped(s).origin is None,
        stopped(s).generation == s.generation,
{
}

/// A start that says that it succeeded left a pool running, and a second one changes nothing.
pub proof fn lemma_start_is_idempotent<P>(s: UnboundedModel<P>, ticket: u64, other: u64)
    requires
        s.running || may_spawn(s, ticket),
    ensures
        start_finished(s, ticket).running,
        start_finished(start_finished(s, ticket), other) == start_finished(s, ticket),
{
}

/// Sharing runs as the server says: as many are helped at once as it allows, and never none; help is
/// carried to where it says, and those who need help are looked for where it says. A wait after a
/// failure never exceeds its limit.
pub proof fn lemma_sharing_runs_as_the_server_says(
    c: UnboundedConfig,
    cfg: SharingConfig,
    signaling: String,
)
    requires
        runs_as(c, cfg, signaling),
    ensures
        c.available,
        c.concurrent_sessions > 0 ==> cfg.concurrent_sessions == c.concurrent_sessions,
        cfg.concurrent_sessions > 0,
        cfg.egress_url == c.egress_url,
        signaling == c.signaling_url,
        0 < cfg.initial_backoff_secs <= cfg.max_backoff_secs,
        cfg.max_backoff_secs == 30,
        cfg.initial_backoff_secs == 1,
        cfg.stable_session_secs == 30,
{
}

/// A search for where we are waits longer before each attempt, and is given up after five.
pub proof fn lemma_searches_wait_longer(a: int, b: int)
    requires
        0 <= a < b,
    ensures
        b <= 4 ==> (origin_delay(a) matches Some(x) && (origin_delay(b) matches Some(y) && x < y)),
        b >= 5 ==> origin_delay(b) is None,
        origin_delay(0) == Some(0u64),
        origin_delay(1) == Some(5u64),
        origin_delay(2) == Some(20u64),
        origin_delay(3) == Some(60u64),
        origin_delay(4) == Some(180u64),
{
}

/// The end of the running pool leaves nobody shown and us off the map; the end of another one changes
/// nothing. What the server allows, and the counts, stay.
pub proof fn lemma_end_of_a_pool_leaves_nobody<P>(s: UnboundedModel<P>, generation: u64)
    ensures
        ({
            let n = pool_ended(s, generation);
            &&& generation == s.generation ==> !n.running && n.latest is None && n.origin is None
            &&& generation != s.generation ==> n == s
            &&& n.available == s.available
            &&& n.generation == s.generation
            &&& n.stop_epoch == s.stop_epoch
        }),
{
}

/// A pool that is started runs under a new generation and is followed; where we are, who was helped and
/// what the server allows are as they were.
pub proof fn lemma_start_runs_a_new_pool<P>(s: UnboundedModel<P>, ticket: u64)
    ensures
        ({
            let n = start_finished(s, ticket);
            let starts = !s.running && s.stop_epoch == ticket;
            &&& starts ==> n.running && n.looping && n.generation != s.generation
            &&& !starts ==> n == s
            &&& n.available == s.available
            &&& n.stop_epoch == s.stop_epoch
            &&& n.latest == s.latest
            &&& n.origin == s.origin
        }),
{
}

/// A start that could not be written down is undone; one that could is left as it is.
pub proof fn lemma_unwritten_start_is_undone<P>(s: UnboundedModel<P>)
    ensures
        start_recorded(s, true) == s,
        !start_recorded(s, false).running,
        !start_recorded(s, false).looping,
        start_recorded(s, false).latest is None,
        start_recorded(s, false).origin is None,
        start_recorded(s, false).generation == s.generation,
        start_recorded(s, false).stop_epoch == s.stop_epoch,
        start_recorded(s, false).available == s.available,
{
}

/// A change of settings writes what it gives, each setting its own value, and nothing else.
pub proof fn lemma_settings_write_what_is_given(patch: UnboundedSettingsPatch, on: bool)
    ensures
        writes_of(patch).contains((Setting::AutoEnable, on)) <==> patch.auto_enable == Some(on),
        writes_of(patch).contains((Setting::Hidden, on)) <==> patch.hidden == Some(on),
        writes_of(patch).contains((Setting::WelcomeSeen, on)) <==> patch.welcome_seen == Some(on),
{
    let w = writes_of(patch);
    let a = one_write(Setting::AutoEnable, patch.auto_enable);
    let b = one_write(Setting::Hidden, patch.hidden);
    let c = one_write(Setting::WelcomeSeen, patch.welcome_seen);
    assert forall|i: int| 0 <= i < w.len() implies #[trigger] w[i] == if i < a.len() {
        a[i]
    } else if i < a.len() + b.len() {
        b[i - a.len()]
    } else {
        c[i - a.len() - b.len()]
    } by {}
    if let Some(x) = patch.auto_enable {
        assert(w[0] == (Setting::AutoEnable, x));
    }
    if let Some(x) = patch.hidden {
        assert(w[a.len() as int] == (Setting::Hidden, x));
    }
    if let Some(x) = patch.welcome_seen {
        assert(w[(a.len() + b.len()) as int] == (Setting::WelcomeSeen, x));
    }
}

} // verus!
