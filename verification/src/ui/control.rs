//! The tunnel as the user interface drives it.
use vstd::prelude::*;

use crate::ui::models::{ServerInfo, Status};

verus! {

/// Why the tunnel did not do what it was asked.
#[derive(Debug)]
pub enum Error {
    /// No router is running.
    NoTunnel,
    /// The user did not allow it.
    Consent,
    /// What the platform said.
    Platform(String),
    /// What the file system said.
    Io(String),
    /// What is wrong with a JSON text.
    Serde(String),
}

/// What an error says.
pub open spec fn error_text(e: Error) -> Seq<char> {
    match e {
        Error::NoTunnel =>
        "no active tunnel router to update (not connected, or running without smart-routing)"@,
        Error::Consent => "VPN consent was not granted"@,
        Error::Platform(s) => s@,
        Error::Io(s) => s@,
        Error::Serde(s) => s@,
    }
}

impl Error {
    /// What the error says.
    pub fn text(&self) -> (s: &str)
        ensures
            s@ == error_text(*self),
    {
        match self {
            Error::NoTunnel =>
            "no active tunnel router to update (not connected, or running without smart-routing)",
            Error::Consent => "VPN consent was not granted",
            Error::Platform(s) => s.as_str(),
            Error::Io(s) => s.as_str(),
            Error::Serde(s) => s.as_str(),
        }
    }
}

/// The tunnel, as each platform runs it.
pub trait TunnelControl: Send + Sync {
    /// Brings the tunnel up.
    fn connect(&self) -> Result<(), Error>;

    /// Brings the tunnel down.
    fn disconnect(&self) -> Result<(), Error>;

    /// The status.
    fn status(&self) -> Result<Status, Error>;

    /// The pool.
    fn servers(&self) -> Result<Vec<ServerInfo>, Error>;

    /// Uses a server: its place in the pool, or a negative number for the best one.
    fn select_server(&self, index: i32) -> Result<(), Error>;

    /// Hands a fetched configuration to a running tunnel. A tunnel that is down takes it from the cache
    /// when it starts, so that is no failure.
    fn push_config(&self, raw: &str) -> Result<(), Error>;

    /// What bypasses the tunnel, as JSON.
    fn get_split_tunnel(&self) -> Result<String, Error>;

    /// Sets what bypasses the tunnel.
    fn set_split_tunnel(&self, json: &str) -> Result<(), Error>;

    /// The routing mode.
    fn get_routing_mode(&self) -> Result<String, Error>;

    /// Sets the routing mode.
    fn set_routing_mode(&self, mode: &str) -> Result<(), Error>;

    /// Whether advertisements are blocked.
    fn get_ad_block_enabled(&self) -> Result<bool, Error>;

    /// Sets whether advertisements are blocked.
    fn set_ad_block_enabled(&self, enabled: bool) -> Result<(), Error>;

    /// The installed apps, as JSON.
    fn list_installed_apps(&self) -> Result<String, Error>;

    /// The apps that bypass the tunnel, as JSON.
    fn get_excluded_apps(&self) -> Result<String, Error>;

    /// Sets the apps that bypass the tunnel.
    fn set_excluded_apps(&self, json: &str) -> Result<(), Error>;
}

} // verus!
