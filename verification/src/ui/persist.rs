//! The settings that are kept in files: what a file's contents mean, and what is written.
use vstd::prelude::*;

use crate::json::{self, Json, JsonModel};
use crate::text;
use crate::ui::models;

verus! {

/// The file of the split tunnelling lists.
pub const SPLIT_TUNNEL_FILE: &'static str = "split_tunnel.json";

/// The file of the routing mode.
pub const ROUTING_MODE_FILE: &'static str = "routing_mode.txt";

/// The file of the apps that bypass the tunnel.
pub const EXCLUDED_APPS_FILE: &'static str = "excluded_apps.json";

/// The file of the switch for blocking advertisements.
pub const AD_BLOCK_FILE: &'static str = "ad_block.txt";

/// What bypasses the tunnel.
#[derive(Debug)]
pub struct SplitTunnelShape {
    /// Whether anything does.
    pub enabled: bool,
    /// Domains.
    pub domains: Vec<String>,
    /// Addresses.
    pub ips: Vec<String>,
}

/// What bypasses the tunnel, as JSON.
pub open spec fn split_tunnel_json(s: SplitTunnelShape) -> JsonModel {
    JsonModel::Object(
        seq![
            ("enabled"@, JsonModel::Flag(s.enabled)),
            ("domains"@, json::strings_json(json::texts(s.domains@))),
            ("ips"@, json::strings_json(json::texts(s.ips@))),
        ],
    )
}

/// What is written of the split tunnelling lists.
pub fn split_tunnel_text(s: &SplitTunnelShape) -> (r: String)
    ensures
        r@ == json::json_text(split_tunnel_json(*s)),
{
    let mut v: Vec<(String, Json)> = Vec::new();
    assert(models::members_view(v@) =~= Seq::empty());
    models::add_member(&mut v, "enabled", models::flag_json(s.enabled));
    models::add_member(&mut v, "domains", json::list_of(&s.domains));
    models::add_member(&mut v, "ips", json::list_of(&s.ips));
    assert(models::members_view(v@) =~= split_tunnel_json(*s)->Object_0);
    json::to_text(&models::object_json(v))
}

/// What is read of the split tunnelling lists: nothing bypasses the tunnel where the file is missing or
/// does not hold them.
pub fn load_split_tunnel(file: Option<SplitTunnelShape>) -> (r: String)
    ensures
        match file {
            Some(s) => r@ == json::json_text(split_tunnel_json(s)),
            None => r@ == "{\"enabled\":false,\"domains\":[],\"ips\":[]}"@,
        },
{
    match &file {
        Some(s) => split_tunnel_text(s),
        None => "{\"enabled\":false,\"domains\":[],\"ips\":[]}".to_owned(),
    }
}

/// Whether a text is a routing mode.
pub open spec fn is_mode(s: Seq<char>) -> bool {
    s == "smart"@ || s == "full"@
}

/// The routing mode that a file's contents give: smart, unless they name another.
pub open spec fn mode_in(file: Option<Seq<char>>) -> Seq<char> {
    match file {
        Some(s) => if is_mode(text::trimmed(s)) {
            text::trimmed(s)
        } else {
            "smart"@
        },
        None => "smart"@,
    }
}

fn known_mode(s: &str) -> (r: bool)
    ensures
        r == is_mode(s@),
{
    text::same(s, "smart") || text::same(s, "full")
}

/// The routing mode that a file's contents give.
pub fn load_routing_mode(file: Option<&str>) -> (mode: String)
    ensures
        mode@ == mode_in(
            match file {
                Some(s) => Some(s@),
                None => None,
            },
        ),
{
    if let Some(s) = file {
        let mode: &str = text::trim(s);
        if known_mode(mode) {
            return mode.to_owned();
        }
    }
    "smart".to_owned()
}

/// What is written of a routing mode, or why it is refused. Nothing is written of a refused one.
pub fn save_routing_mode(mode: &str) -> (r: Result<String, String>)
    ensures
        match r {
            Ok(s) => is_mode(text::trimmed(mode@)) && s@ == text::trimmed(mode@),
            Err(e) => !is_mode(text::trimmed(mode@)) && e@ == "invalid routing mode: "@
                + text::debug_text_of(mode@) + " (expected \"smart\" or \"full\")"@,
        },
{
    let m: &str = text::trim(mode);
    if known_mode(m) {
        return Ok(m.to_owned());
    }
    let mut e: String = "invalid routing mode: ".to_owned();
    let shown: String = text::debug_text(mode);
    text::append(&mut e, shown.as_str());
    text::append(&mut e, " (expected \"smart\" or \"full\")");
    Err(e)
}

/// Whether advertisements are blocked by what a file holds: unless it says `false`.
pub open spec fn ad_block_in(file: Option<Seq<char>>) -> bool {
    match file {
        Some(s) => text::lowered(text::trimmed(s)) != text::lowered("false"@),
        None => true,
    }
}

/// Whether advertisements are blocked by what a file holds.
pub fn load_ad_block_enabled(file: Option<&str>) -> (on: bool)
    ensures
        on == ad_block_in(
            match file {
                Some(s) => Some(s@),
                None => None,
            },
        ),
{
    match file {
        Some(s) => !text::same_ignoring_case(text::trim(s), "false"),
        None => true,
    }
}

/// What is written of a switch.
pub open spec fn switch_text(on: bool) -> Seq<char> {
    if on {
        "true"@
    } else {
        "false"@
    }
}

/// What is written of the switch for blocking advertisements.
pub fn save_ad_block_enabled(enabled: bool) -> (s: &'static str)
    ensures
        s@ == switch_text(enabled),
{
    if enabled {
        "true"
    } else {
        "false"
    }
}

/// Whether a list holds a text.
pub open spec fn listed(v: Seq<Seq<char>>, s: Seq<char>) -> bool {
    exists|i: int| 0 <= i < v.len() && #[trigger] v[i] == s
}

/// A list with each entry trimmed, without blanks, and each entry once, where it came first.
pub open spec fn canonical(list: Seq<Seq<char>>) -> Seq<Seq<char>>
    decreases list.len(),
{
    if list.len() == 0 {
        Seq::empty()
    } else {
        let before = canonical(list.drop_last());
        let s = text::trimmed(list.last());
        if s.len() == 0 || listed(before, s) {
            before
        } else {
            before.push(s)
        }
    }
}

fn has_text(v: &Vec<String>, s: &str) -> (r: bool)
    ensures
        r == listed(json::texts(v@), s@),
{
    let mut i: usize = 0;
    while i < v.len()
        invariant
            i <= v@.len(),
            forall|j: int| 0 <= j < i ==> (#[trigger] v@[j])@ != s@,
        decreases v@.len() - i,
    {
        if text::same(v[i].as_str(), s) {
            assert(json::texts(v@)[i as int] == s@);
            return true;
        }
        i = i + 1;
    }
    assert forall|j: int| 0 <= j < json::texts(v@).len() implies #[trigger] json::texts(v@)[j]
        != s@ by {
        assert(v@[j]@ != s@);
    }
    false
}

/// The list of apps that bypass the tunnel, in its canonical form.
pub fn canonicalize_excluded(list: Vec<String>) -> (out: Vec<String>)
    ensures
        json::texts(out@) == canonical(json::texts(list@)),
{
    let mut out: Vec<String> = Vec::new();
    let ghost all = json::texts(list@);
    let mut i: usize = 0;
    assert(all.take(0) =~= Seq::empty());
    assert(json::texts(out@) =~= Seq::empty());
    while i < list.len()
        invariant
            i <= list@.len(),
            all == json::texts(list@),
            json::texts(out@) == canonical(all.take(i as int)),
        decreases list@.len() - i,
    {
        let s: &str = text::trim(list[i].as_str());
        assert(all.take(i + 1).drop_last() =~= all.take(i as int));
        assert(all.take(i + 1).last() == list@[i as int]@);
        if !s.is_empty() && !has_text(&out, s) {
            let ghost before = out@;
            out.push(s.to_owned());
            assert(json::texts(out@) =~= json::texts(before).push(s@));
        }
        i = i + 1;
    }
    assert(all.take(i as int) =~= all);
    out
}

/// What is written of a list of apps.
pub fn excluded_apps_text(list: Vec<String>) -> (s: String)
    ensures
        s@ == json::json_text(json::strings_json(canonical(json::texts(list@)))),
{
    let out: Vec<String> = canonicalize_excluded(list);
    json::to_text(&json::list_of(&out))
}

/// What is read of the list of apps, given what the file's JSON holds.
pub open spec fn excluded_in(file: Option<Seq<char>>) -> Seq<char> {
    match file {
        Some(s) => match json::json_strings_of(s) {
            Ok(list) => json::json_text(json::strings_json(canonical(list))),
            Err(_) => "[]"@,
        },
        None => "[]"@,
    }
}

/// What is read of the list of apps: an empty list where the file is missing or holds no list of
/// strings.
pub fn load_excluded_apps(file: Option<&str>) -> (r: String)
    ensures
        r@ == excluded_in(
            match file {
                Some(s) => Some(s@),
                None => None,
            },
        ),
{
    match file {
        Some(s) => match json::strings_in(s) {
            Ok(list) => excluded_apps_text(list),
            Err(_) => "[]".to_owned(),
        },
        None => "[]".to_owned(),
    }
}

/// What is written of a list of apps given as JSON, or why it is refused. Nothing is written of a
/// refused one.
pub fn save_excluded_apps(json: &str) -> (r: Result<String, String>)
    ensures
        match json::json_strings_of(json@) {
            Ok(list) => r matches Ok(s) && s@ == json::json_text(
                json::strings_json(canonical(list)),
            ),
            Err(why) => r matches Err(e) && e@ == "invalid excluded-apps JSON: "@ + why,
        },
{
    match json::strings_in(json) {
        Ok(list) => Ok(excluded_apps_text(list)),
        Err(why) => {
            let mut e: String = "invalid excluded-apps JSON: ".to_owned();
            text::append(&mut e, why.as_str());
            Err(e)
        },
    }
}

/// What a list is refused with that is not the split tunnelling shape.
pub fn split_tunnel_error(why: &str) -> (e: String)
    ensures
        e@ == "invalid split-tunnel JSON: "@ + why@,
{
    let mut e: String = "invalid split-tunnel JSON: ".to_owned();
    text::append(&mut e, why);
    e
}

/// A routing mode that was written is read back as it was.
pub proof fn lemma_mode_round_trip(mode: Seq<char>)
    requires
        is_mode(text::trimmed(mode)),
    ensures
        mode_in(Some(text::trimmed(mode))) == text::trimmed(mode),
{
    text::lemma_trim_twice(mode);
}

/// The switch for blocking advertisements is read back as it was written.
pub proof fn lemma_ad_block_round_trip(on: bool)
    ensures
        ad_block_in(Some(switch_text(on))) == on,
{
    reveal_strlit("true");
    reveal_strlit("false");
    let s = switch_text(on);
    text::lemma_trim_of_letters(s);
    assert(text::lowered("true"@).len() == 4);
    assert(text::lowered("false"@).len() == 5);
}

/// No entry of a canonical list is blank, has white space around it, or occurs twice.
pub proof fn lemma_canonical_entries(list: Seq<Seq<char>>)
    ensures
        forall|i: int|
            0 <= i < canonical(list).len() ==> (#[trigger] canonical(list)[i]).len() > 0
                && text::trimmed(canonical(list)[i]) == canonical(list)[i],
        forall|i: int, j: int|
            0 <= i < j < canonical(list).len() ==> #[trigger] canonical(list)[i]
                != #[trigger] canonical(list)[j],
    decreases list.len(),
{
    if list.len() > 0 {
        lemma_canonical_entries(list.drop_last());
        let before = canonical(list.drop_last());
        let s = text::trimmed(list.last());
        text::lemma_trim_twice(list.last());
        if !(s.len() == 0 || listed(before, s)) {
            let now = canonical(list);
            assert forall|i: int, j: int| 0 <= i < j < now.len() implies #[trigger] now[i]
                != #[trigger] now[j] by {
                if j == now.len() - 1 {
                    assert(now[i] == before[i]);
                }
            }
        }
    }
}

/// Every entry that is not blank is still there, trimmed, and nothing else is.
pub proof fn lemma_canonical_keeps(list: Seq<Seq<char>>, s: Seq<char>)
    ensures
        listed(canonical(list), s) <==> s.len() > 0 && exists|i: int|
            0 <= i < list.len() && text::trimmed(#[trigger] list[i]) == s,
    decreases list.len(),
{
    if list.len() > 0 {
        let rest = list.drop_last();
        lemma_canonical_keeps(rest, s);
        let before = canonical(rest);
        let t = text::trimmed(list.last());
        let now = canonical(list);
        if listed(now, s) {
            let i = choose|i: int| 0 <= i < now.len() && #[trigger] now[i] == s;
            if i < before.len() {
                assert(before[i] == s);
                let k = choose|k: int| 0 <= k < rest.len() && text::trimmed(#[trigger] rest[k]) == s;
                assert(list[k] == rest[k]);
            } else {
                assert(list[list.len() - 1] == list.last());
            }
        }
        if s.len() > 0 && (exists|i: int|
            0 <= i < list.len() && text::trimmed(#[trigger] list[i]) == s) {
            let i = choose|i: int| 0 <= i < list.len() && text::trimmed(#[trigger] list[i]) == s;
            if i < rest.len() {
                assert(rest[i] == list[i]);
                let k = choose|k: int| 0 <= k < before.len() && #[trigger] before[k] == s;
                assert(now[k] == s);
            } else if listed(before, t) {
                let k = choose|k: int| 0 <= k < before.len() && #[trigger] before[k] == t;
                assert(now[k] == s);
            } else {
                assert(now[now.len() - 1] == s);
            }
        }
    }
}

/// A canonical list is its own canonical form: what was written and read back is written the same.
pub proof fn lemma_canonical_is_stable(list: Seq<Seq<char>>)
    ensures
        canonical(canonical(list)) == canonical(list),
{
    lemma_canonical_entries(list);
    lemma_clean_is_canonical(canonical(list));
}

proof fn lemma_clean_is_canonical(list: Seq<Seq<char>>)
    requires
        forall|i: int|
            0 <= i < list.len() ==> (#[trigger] list[i]).len() > 0 && text::trimmed(list[i])
                == list[i],
        forall|i: int, j: int|
            0 <= i < j < list.len() ==> #[trigger] list[i] != #[trigger] list[j],
    ensures
        canonical(list) == list,
    decreases list.len(),
{
    if list.len() > 0 {
        let rest = list.drop_last();
        assert forall|i: int| 0 <= i < rest.len() implies (#[trigger] rest[i]).len() > 0
            && text::trimmed(rest[i]) == rest[i] by {
            assert(rest[i] == list[i]);
        }
        assert forall|i: int, j: int| 0 <= i < j < rest.len() implies #[trigger] rest[i]
            != #[trigger] rest[j] by {
            assert(list[i] != list[j]);
        }
        lemma_clean_is_canonical(rest);
        let last = list[list.len() - 1];
        if listed(rest, last) {
            let k = choose|k: int| 0 <= k < rest.len() && #[trigger] rest[k] == last;
            assert(list[k] != list[list.len() - 1]);
        }
        assert(canonical(list) =~= list);
    } else {
        assert(canonical(list) =~= list);
    }
}

} // verus!
