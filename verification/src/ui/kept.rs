//! What is read of files, of the platform and of the service, told by what was read: which source goes
//! first, what a missing one means, and which order is kept.
use vstd::prelude::*;

use crate::ipc::message::{TunnelState, TunnelStatus};
use crate::json;
use crate::json::LeafModel;
use crate::platform;
use crate::text;
use crate::ui::apps;
use crate::ui::config;
use crate::ui::diag;
use crate::ui::labels;
use crate::ui::models;
use crate::ui::models::{PoolEntry, ServerInfo, Status};
use crate::ui::persist;
use crate::ui::provider;
use crate::ui::provider::Loaded;
use crate::ui::service;
use crate::ui::unbounded;
use crate::ui::unbounded::{Geo, SharingStatus, UnboundedSnapshot};
use crate::ui::unbounded_diag;
use crate::ui::unbounded_diag::DiagModel;

verus! {

/// What an app says of itself is read under the names that property lists have for it; a list that
/// cannot be read says nothing.
pub proof fn lemma_facts_are_read_under_their_names(plist: Seq<char>)
    ensures
        ({
            let f = apps::facts_in(plist);
            &&& json::json_member_of(plist, "CFBundleIdentifier"@) matches Ok(l) ==> f.identifier == l
            &&& json::json_member_of(plist, "LSUIElement"@) matches Ok(l) ==> f.ui_element == l
            &&& json::json_member_of(plist, "LSBackgroundOnly"@) matches Ok(l) ==> f.background_only
                == l
            &&& json::json_member_of(plist, "CFBundleExecutable"@) matches Ok(l) ==> f.executable
                == l
            &&& json::json_member_of(plist, "CFBundleDisplayName"@) matches Ok(l)
                ==> f.display_name == l
            &&& json::json_member_of(plist, "CFBundleName"@) matches Ok(l) ==> f.bundle_name == l
            &&& json::json_member_of(plist, "CFBundleExecutable"@) is Err ==> !apps::offered(f)
        }),
{
}

/// Apps are looked for where the system keeps them and, where the user is known, in the directories of
/// the user too: a home adds its own directories and takes none away.
pub proof fn lemma_home_adds_its_own_directories(home: Seq<char>)
    requires
        home.len() > 0,
        home.last() != '/',
    ensures
        ({
            let (without, with) = (apps::roots(None), apps::roots(Some(home)));
            &&& without == seq![
                "/Applications"@,
                "/Applications/Utilities"@,
                "/System/Applications"@,
                "/System/Applications/Utilities"@,
            ]
            &&& with == without + seq![
                home + "/"@ + "Applications"@ + "/"@ + "Utilities"@,
                home + "/"@ + "Applications"@,
            ]
        }),
{
    reveal_strlit("Applications");
    let apps_dir = text::path_in(home, "Applications"@);
    assert(apps_dir.last() == 's');
}

/// The icon that an app names is looked for first, with its extension added where it has none, and the
/// usual one after it.
pub proof fn lemma_named_icon_goes_first(name: Seq<char>)
    ensures
        apps::icon_names(None, false) == seq!["AppIcon.icns"@],
        apps::icon_names(Some(name), true) == seq![name, "AppIcon.icns"@],
        apps::icon_names(Some(name), false) == seq![name + ".icns"@, "AppIcon.icns"@],
{
}

/// A configuration that was baked in goes before the proxy, and both count only where they are not
/// blank; white space around them does not.
pub proof fn lemma_baked_configuration_goes_first(
    baked: Option<Seq<char>>,
    proxy: Option<Seq<char>>,
)
    ensures
        ({
            let r = config::resolved(baked, proxy);
            let some = |s: Option<Seq<char>>| s matches Some(t) && text::trimmed(t).len() > 0;
            &&& some(baked) ==> r == Some(text::trimmed(baked->0))
            &&& !some(baked) && some(proxy) ==> r == Some(text::trimmed(proxy->0))
            &&& !some(baked) && !some(proxy) ==> r is None
        }),
{
}

/// The platform goes by its own name, but for one that the server knows by another.
pub proof fn lemma_platform_goes_by_its_name(os: Seq<char>)
    ensures
        os == "macos"@ ==> diag::platform_of(os) == "darwin"@,
        os != "macos"@ ==> diag::platform_of(os) == os,
{
}

/// The country is the text that was read; anything else says nothing.
pub proof fn lemma_country_is_what_was_read(s: Seq<char>, on: bool, why: Seq<char>)
    ensures
        diag::country_in(Ok(Some(LeafModel::Text(s)))) == s,
        diag::country_in(Ok(Some(LeafModel::Flag(on)))) == ""@,
        diag::country_in(Ok(Some(LeafModel::Other))) == ""@,
        diag::country_in(Ok(None)) == ""@,
        diag::country_in(Err(why)) == ""@,
{
}

/// What the service says is shown by its own name, and no two states are shown alike; a tunnel that
/// failed open is shown so.
pub proof fn lemma_service_states_are_shown_apart(
    a: TunnelStatus,
    shown_a: Status,
    b: TunnelStatus,
    shown_b: Status,
)
    requires
        service::shows(a, shown_a),
        service::shows(b, shown_b),
    ensures
        shown_a.state@ == shown_b.state@ <==> a.state == b.state,
        shown_a.fail_open == a.direct_fallback,
        a.state == TunnelState::Connected ==> shown_a.state@ == "connected"@,
        a.state == TunnelState::Connecting ==> shown_a.state@ == "connecting"@,
        a.state == TunnelState::Disconnected ==> shown_a.state@ == "disconnected"@,
        a.state == TunnelState::Disconnecting ==> shown_a.state@ == "disconnecting"@,
        a.state == TunnelState::Failed ==> shown_a.state@ == "failed"@,
{
    reveal_strlit("connected");
    reveal_strlit("connecting");
    reveal_strlit("disconnecting");
    reveal_strlit("disconnected");
    reveal_strlit("failed");
    assert("connected"@.len() == 9);
    assert("connecting"@.len() == 10);
    assert("disconnecting"@.len() == 13);
    assert("disconnected"@.len() == 12);
    assert("failed"@.len() == 6);
}

/// What is saved is told with the first one's status; where nothing is saved the tunnel is shown as
/// disconnected, and where that could not be found out as failed.
pub proof fn lemma_nothing_saved_is_not_connected(l: Loaded)
    ensures
        ({
            let (count, raw) = provider::first_status(l);
            match l {
                Loaded::Saved { count: n, first } => if n > 0 {
                    count == n && raw == first
                } else {
                    count == 0 && provider::shown_state(raw) == "disconnected"@
                },
                Loaded::Failed(_) => count == 0 && provider::shown_state(raw) == "failed"@,
                Loaded::TimedOut => count == 0 && provider::shown_state(raw) == "failed"@,
            }
        }),
        provider::first_status(Loaded::TimedOut).1 != provider::first_status(
            Loaded::Saved { count: 0, first: 0 },
        ).1,
{
}

/// The apps that bypass the tunnel keep the order in which they were first named: naming more of them
/// adds behind those that there are.
pub proof fn lemma_excluded_apps_keep_their_order(a: Seq<Seq<char>>, b: Seq<Seq<char>>)
    ensures
        persist::canonical(a).len() <= persist::canonical(a + b).len(),
        persist::canonical(a + b).take(persist::canonical(a).len() as int) == persist::canonical(a),
    decreases b.len(),
{
    let first = persist::canonical(a);
    if b.len() == 0 {
        assert(a + b =~= a);
        assert(first.take(first.len() as int) =~= first);
    } else {
        let c = b.drop_last();
        lemma_excluded_apps_keep_their_order(a, c);
        assert((a + b).drop_last() =~= a + c);
        assert((a + b).last() == b.last());
        let (before, now) = (persist::canonical(a + c), persist::canonical(a + b));
        assert(now.take(first.len() as int) =~= before.take(first.len() as int));
    }
}

/// A missing file, and one that holds no list of strings, bypass nothing.
pub proof fn lemma_unreadable_list_is_empty(file: Seq<char>)
    ensures
        persist::excluded_in(None) == "[]"@,
        json::json_strings_of(file) is Err ==> persist::excluded_in(Some(file)) == "[]"@,
        json::json_strings_of(file) matches Ok(list) ==> persist::excluded_in(Some(file))
            == json::json_text(json::strings_json(persist::canonical(list))),
{
}

/// What is shown of sharing is what was last heard, with the count and the place beside it; without
/// news nobody is shown.
pub proof fn lemma_snapshot_shows_what_was_heard<P>(
    snap: UnboundedSnapshot<P>,
    enabled: bool,
    heard: SharingStatus<P>,
    total: u64,
    origin: Option<Geo<P>>,
)
    ensures
        unbounded::shows(snap, enabled, Some(heard), total, origin) ==> {
            &&& snap.enabled == enabled
            &&& snap.helping_now == heard.helping_now
            &&& snap.total_helped == total
            &&& snap.peers matches Some(v) && *v == heard.peers
        },
        unbounded::shows(snap, enabled, None, total, origin) ==> {
            &&& snap.enabled == enabled
            &&& snap.helping_now == 0
            &&& snap.total_helped == total
            &&& snap.peers is None
        },
{
}

/// A path in a directory is the directory, one slash and the name, whether or not the directory ends
/// with a slash.
pub proof fn lemma_path_has_one_slash(dir: Seq<char>, name: Seq<char>)
    requires
        dir.len() > 0,
        dir.last() != '/',
    ensures
        text::path_in(dir, name) == dir + seq!['/'] + name,
        text::path_in(dir + seq!['/'], name) == dir + seq!['/'] + name,
        text::path_in(Seq::empty(), name) == name,
{
    reveal_strlit("/");
    assert("/"@ =~= seq!['/']);
}

/// A number with its sign reads back: a minus stands before the digits of a negative one alone.
pub proof fn lemma_signed_number_reads_back(n: u32)
    requires
        0 < n,
    ensures
        text::signed_decimal(n as int) == text::decimal(n as nat),
        text::signed_decimal(-(n as int)) == seq!['-'] + text::decimal(n as nat),
        text::number_in(text::decimal(n as nat), u64::MAX) == Some(n as u64),
{
    reveal_strlit("-");
    assert("-"@ =~= seq!['-']);
    text::lemma_decimal_reads_back(n as u64, u64::MAX);
}

/// The four parts of an address make it up, the first one highest.
pub proof fn lemma_address_is_made_of_its_parts(addr: u32)
    ensures
        ({
            let p = platform::address_parts(addr);
            &&& p.len() == 4
            &&& addr == p[0] * 0x100_0000 + p[1] * 0x1_0000 + p[2] * 0x100 + p[3]
        }),
{
    assert(addr == ((addr >> 24) as u8) * 0x100_0000 + ((addr >> 16) as u8) * 0x1_0000 + ((addr
        >> 8) as u8) * 0x100 + (addr as u8)) by (bit_vector);
}

/// A server of a configuration is shown with what the configuration says of it, each thing in its own
/// place, and with nothing that only a running tunnel knows.
pub proof fn lemma_configured_server_says_what_was_configured(e: PoolEntry, i: int, s: ServerInfo)
    requires
        models::listed(e, i, s),
    ensures
        s.index == i,
        s.name == e.name,
        s.country == e.country,
        s.country_code == e.country_code,
        s.city == e.city,
        s.protocol == e.protocol,
        s.latency_ms is None,
        !(s.healthy || s.is_current || s.is_pinned),
{
}

/// The label of a server begins with its flag, where it has one, names the country, or says that it is
/// not known, and ends with the city, where that is known.
pub proof fn lemma_label_names_the_place(s: ServerInfo)
    ensures
        ({
            let label = labels::label_of(s);
            let flag = match s.country_code {
                Some(code) => labels::flag_of(code@),
                None => labels::flag_of(Seq::empty()),
            };
            let country = match s.country {
                Some(name) => name@,
                None => "Unknown"@,
            };
            let place = if flag.len() > 0 {
                flag + " "@ + country
            } else {
                country
            };
            &&& s.city matches Some(city) ==> label == place + " — "@ + city@
            &&& s.city is None ==> label == place
        }),
{
}

/// Every report has a name of its own.
pub proof fn lemma_reports_have_their_names(
    slot: usize,
    a: Seq<char>,
    b: Seq<char>,
    n: u64,
    m: u64,
    region: Option<Seq<char>>,
)
    ensures
        unbounded_diag::kind_of(DiagModel::AttemptStarted(slot)) == "unbounded.attempt_started"@,
        unbounded_diag::kind_of(DiagModel::PeerConnected(a, n, b, region))
            == "unbounded.peer_connected"@,
        unbounded_diag::kind_of(DiagModel::GeoFailed(a)) == "unbounded.geo_failed"@,
        unbounded_diag::kind_of(DiagModel::PeerDisconnected(a, n, m, b))
            == "unbounded.peer_disconnected"@,
        unbounded_diag::kind_of(DiagModel::AttemptFailed(slot, a)) == "unbounded.attempt_failed"@,
{
}

} // verus!
