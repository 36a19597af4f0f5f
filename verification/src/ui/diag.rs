//! What the diagnostics of the app say about where it runs.
use vstd::prelude::*;

use crate::json::{self, Leaf, LeafModel};
use crate::text;

verus! {

/// How the platform is named to the server.
pub open spec fn platform_of(os: Seq<char>) -> Seq<char> {
    if os == "macos"@ {
        "darwin"@
    } else {
        os
    }
}

/// How the platform is named to the server.
pub fn lantern_platform(os: &str) -> (p: &str)
    ensures
        p@ == platform_of(os@),
{
    if text::same(os, "macos") {
        "darwin"
    } else {
        os
    }
}

/// The country in what was read of the member `country`: nothing where it is missing, or no string.
pub open spec fn country_in(member: Result<Option<LeafModel>, Seq<char>>) -> Seq<char> {
    match member {
        Ok(Some(LeafModel::Text(s))) => s,
        _ => ""@,
    }
}

/// The country in what was read of the member `country`.
pub fn country_of(member: Result<Option<Leaf>, String>) -> (s: String)
    ensures
        s@ == country_in(json::member_view(member)),
{
    match member {
        Ok(Some(Leaf::Text(s))) => s,
        _ => "".to_owned(),
    }
}

/// The country that the server saw, from the kept configuration: nothing where that is missing, or does
/// not say.
pub fn country_from_cache(file: Option<&str>) -> (s: String)
    ensures
        match file {
            Some(raw) => s@ == country_in(json::json_member_of(raw@, "country"@)),
            None => s@ == ""@,
        },
{
    match file {
        Some(raw) => country_of(json::member(raw, "country")),
        None => "".to_owned(),
    }
}

/// Which servers are used.
pub fn environment(var: Option<&str>) -> (s: &'static str)
    ensures
        s@ == if var matches Some(v) && v@ == "staging"@ {
            "staging"@
        } else {
            "prod"@
        },
{
    match var {
        Some(v) => if text::same(v, "staging") {
            "staging"
        } else {
            "prod"
        },
        None => "prod",
    }
}

/// Whether diagnostics run at all: the user turned them on, and nothing turned them off for this run.
/// Nothing is captured or kept otherwise.
pub fn diagnostics_run(var: Option<&str>, enabled: bool) -> (r: bool)
    ensures
        r == (enabled && !(var matches Some(v) && v@ == "off"@)),
{
    let off: bool = match var {
        Some(v) => text::same(v, "off"),
        None => false,
    };
    enabled && !off
}

} // verus!
