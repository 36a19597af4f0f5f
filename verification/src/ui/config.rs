//! The configuration of the app: where it comes from, and who fetches it.
use vstd::prelude::*;

use crate::text;

verus! {

/// Whether the tunnel fetches its configuration itself while it is up. The service is handed its
/// configuration, so it does not.
pub const TUNNEL_SELF_FETCHES: bool = false;

/// How often the state is looked at after a disconnect before fetching is given up.
pub const RESUME_POLLS: usize = 10;

/// A text without the white space around it, unless nothing is left.
pub open spec fn non_blank(s: Seq<char>) -> Option<Seq<char>> {
    if text::trimmed(s).len() == 0 {
        None
    } else {
        Some(text::trimmed(s))
    }
}

/// What a text holds, if it is there and not blank.
pub open spec fn given(s: Option<Seq<char>>) -> Option<Seq<char>> {
    match s {
        Some(s) => non_blank(s),
        None => None,
    }
}

/// The view of an optional text.
pub open spec fn seen(s: Option<&str>) -> Option<Seq<char>> {
    match s {
        Some(s) => Some(s@),
        None => None,
    }
}

/// The view of an optional text.
pub open spec fn seen_string(s: Option<String>) -> Option<Seq<char>> {
    match s {
        Some(s) => Some(s@),
        None => None,
    }
}

/// What a text holds, if it is there and not blank.
pub fn given_text(s: Option<&str>) -> (r: Option<String>)
    ensures
        seen_string(r) == given(seen(s)),
{
    match s {
        Some(s) => {
            let t: &str = text::trim(s);
            if t.is_empty() {
                None
            } else {
                Some(t.to_owned())
            }
        },
        None => None,
    }
}

/// The configuration that was set on purpose: the baked one, else the proxy, else none, which means
/// that it is to be fetched. Blank ones do not count.
pub open spec fn resolved(baked: Option<Seq<char>>, proxy: Option<Seq<char>>) -> Option<Seq<char>> {
    match given(baked) {
        Some(s) => Some(s),
        None => given(proxy),
    }
}

/// The configuration that was set on purpose.
pub fn resolve_with(baked: Option<&str>, proxy: Option<&str>) -> (r: Option<String>)
    ensures
        seen_string(r) == resolved(seen(baked), seen(proxy)),
{
    match given_text(baked) {
        Some(s) => Some(s),
        None => given_text(proxy),
    }
}

/// Where the app keeps the configuration that it fetched.
pub fn app_config_cache_dir(base: &str) -> (dir: String)
    ensures
        dir@ == text::path_in(base@, "config"@),
{
    text::join_path(base, "config")
}

/// What a file held.
pub open spec fn bytes_of(v: Option<Vec<u8>>) -> Option<Seq<u8>> {
    match v {
        Some(v) => Some(v@),
        None => None,
    }
}

fn same_bytes(a: &Vec<u8>, b: &Vec<u8>) -> (r: bool)
    ensures
        r == (a@ == b@),
{
    if a.len() != b.len() {
        return false;
    }
    let mut i: usize = 0;
    while i < a.len()
        invariant
            i <= a@.len(),
            a@.len() == b@.len(),
            forall|j: int| 0 <= j < i ==> #[trigger] a@[j] == b@[j],
        decreases a@.len() - i,
    {
        if a[i] != b[i] {
            return false;
        }
        i = i + 1;
    }
    assert(a@ =~= b@);
    true
}

/// Whether the kept configuration changed between two readings. A file may be missing.
pub fn config_changed(before: &Option<Vec<u8>>, after: &Option<Vec<u8>>) -> (r: bool)
    ensures
        r == (bytes_of(*before) != bytes_of(*after)),
{
    match (before, after) {
        (Some(a), Some(b)) => !same_bytes(a, b),
        (None, None) => false,
        _ => true,
    }
}

/// The kept configuration as text: nothing where the file is missing or is not UTF-8.
pub fn cached_config(file: Option<Vec<u8>>) -> (r: Option<String>)
    ensures
        r is Some <==> (file matches Some(v) && vstd::utf8::valid_utf8(v@)),
        r matches Some(s) ==> vstd::utf8::encode_utf8(s@) == file->0@,
{
    match file {
        Some(bytes) => text::from_utf8(bytes),
        None => None,
    }
}

/// Who fetches the configuration: the app, unless the tunnel does so itself and is not down. A tunnel
/// whose state cannot be read is not up.
pub open spec fn app_fetches(self_fetches: bool, state: Option<Seq<char>>) -> bool {
    match state {
        Some(s) => !self_fetches || s == "disconnected"@ || s == "failed"@,
        None => true,
    }
}

/// Whether the app is to fetch the configuration.
pub fn app_owns_fetching(self_fetches: bool, state: Option<&str>) -> (r: bool)
    ensures
        r == app_fetches(self_fetches, seen(state)),
{
    match state {
        Some(s) => !self_fetches || text::same(s, "disconnected") || text::same(s, "failed"),
        None => true,
    }
}

/// Whether the app is to fetch the configuration, where the service runs the tunnel.
pub fn app_owns_fetching_in(state: &str) -> (r: bool)
    ensures
        r == app_fetches(TUNNEL_SELF_FETCHES, Some(state@)),
{
    app_owns_fetching(TUNNEL_SELF_FETCHES, Some(state))
}

/// What to do after a disconnect.
#[derive(Debug, PartialEq, Eq, Structural, Clone, Copy)]
pub enum Resume {
    /// Look again in a while.
    Wait,
    /// Fetch.
    Fetch,
    /// Leave it: the tunnel is still up.
    GiveUp,
}

/// What to do after a disconnect, having looked `polls` times before: fetch as soon as the app may, and
/// not at all where the tunnel stays up.
pub fn resume_fetching(self_fetches: bool, state: Option<&str>, polls: usize) -> (r: Resume)
    ensures
        r == if app_fetches(self_fetches, seen(state)) {
            Resume::Fetch
        } else if polls < RESUME_POLLS {
            Resume::Wait
        } else {
            Resume::GiveUp
        },
{
    if app_owns_fetching(self_fetches, state) {
        Resume::Fetch
    } else if polls < RESUME_POLLS {
        Resume::Wait
    } else {
        Resume::GiveUp
    }
}

/// One fetcher at a time: while a tunnel that fetches for itself is coming up, up or going down, the app
/// does not fetch, and the app fetches whenever no tunnel does.
pub proof fn lemma_one_fetcher(state: Seq<char>)
    ensures
        app_fetches(false, Some(state)),
        state == "connected"@ || state == "connecting"@ || state == "disconnecting"@
            ==> !app_fetches(true, Some(state)),
        state == "disconnected"@ || state == "failed"@ ==> app_fetches(true, Some(state)),
{
    reveal_strlit("connected");
    reveal_strlit("connecting");
    reveal_strlit("disconnecting");
    reveal_strlit("disconnected");
    reveal_strlit("failed");
    assert("connected"@.len() == 9);
    assert("connecting"@.len() == 10);
    assert("disconnecting"@.len() == 13);
    assert("disconnected"@.len() == 12);
    assert("failed"@.len() == 6);
}

} // verus!
