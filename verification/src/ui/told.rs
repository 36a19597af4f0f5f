//! What the window and the tunnel are told: every value under its own name, every change as its own
//! command, and the chosen location by its own label.
use vstd::prelude::*;

use crate::json::{self, JsonModel};
use crate::text;
use crate::ui::apps;
use crate::ui::apps::AppModel;
use crate::ui::labels;
use crate::ui::models::{self, ServerInfo};
use crate::ui::persist;
use crate::ui::persist::SplitTunnelShape;
use crate::ui::provider;
use crate::ui::provider::Change;
use crate::ui::tray;
use crate::ui::tray::{Click, EntryModel, Sharing, ShownModel};
use crate::ui::unbounded;
use crate::ui::unbounded::{Geo, PeerView, Place, SharingDelta};

verus! {

/// What is shown of sharing is told under its own names: whether it is on, how many are being helped,
/// how many ever were, who, and where we are.
pub proof fn lemma_sharing_is_told_under_its_names(
    enabled: bool,
    helping: usize,
    total: u64,
    peers: Seq<PeerView<Place>>,
    origin: Option<Geo<Place>>,
)
    ensures
        unbounded::snapshot_json(enabled, helping, total, peers, origin) matches JsonModel::Object(v)
            && ({
            &&& models::tells(v, "enabled"@, JsonModel::Flag(enabled))
            &&& models::tells(v, "helpingNow"@, JsonModel::Number(helping as u64))
            &&& models::tells(v, "totalHelped"@, JsonModel::Number(total))
            &&& models::tells(v, "peers"@, unbounded::peers_json(peers))
            &&& models::tells(v, "origin"@, unbounded::geo_json(origin))
            &&& v.len() == 5
        }),
{
    reveal_strlit("enabled");
    reveal_strlit("helpingNow");
    reveal_strlit("totalHelped");
    reveal_strlit("peers");
    reveal_strlit("origin");
    let v = unbounded::snapshot_json(enabled, helping, total, peers, origin)->Object_0;
    assert(v[0].0.len() == 7 && v[1].0.len() == 10 && v[2].0.len() == 11 && v[3].0.len() == 5
        && v[4].0.len() == 6);
    assert(v[0] == ("enabled"@, JsonModel::Flag(enabled)));
    assert(v[1] == ("helpingNow"@, JsonModel::Number(helping as u64)));
    assert(v[2] == ("totalHelped"@, JsonModel::Number(total)));
    assert(v[3] == ("peers"@, unbounded::peers_json(peers)));
    assert(v[4] == ("origin"@, unbounded::geo_json(origin)));
}

/// A place is told with its country, its latitude and its longitude, each under its own name, and a
/// place that is not known is told as null.
pub proof fn lemma_place_is_told_under_its_names(g: Geo<Place>)
    ensures
        unbounded::geo_json(None) == JsonModel::Null,
        unbounded::geo_json(Some(g)) matches JsonModel::Object(v) && ({
            &&& models::tells(v, "countryCode"@, JsonModel::Text(g.country_code@))
            &&& models::tells(v, "lat"@, JsonModel::Numeral(g.at.lat@))
            &&& models::tells(v, "lon"@, JsonModel::Numeral(g.at.lon@))
            &&& v.len() == 3
        }),
{
    reveal_strlit("countryCode");
    reveal_strlit("lat");
    reveal_strlit("lon");
    let v = unbounded::geo_json(Some(g))->Object_0;
    assert(v[0].0.len() == 11 && v[1].0.len() == 3 && v[2].0.len() == 3);
    assert(v[1].0[1] == 'a' && v[2].0[1] == 'o');
    assert(v[0] == ("countryCode"@, JsonModel::Text(g.country_code@)));
    assert(v[1] == ("lat"@, JsonModel::Numeral(g.at.lat@)));
    assert(v[2] == ("lon"@, JsonModel::Numeral(g.at.lon@)));
}

/// Everyone who is being helped is told, in order, with the session and the place of each.
pub proof fn lemma_peers_are_told_one_by_one(peers: Seq<PeerView<Place>>, i: int)
    requires
        0 <= i < peers.len(),
    ensures
        unbounded::peers_json(peers) matches JsonModel::List(all) && all.len() == peers.len() && (
        all[i] matches JsonModel::Object(v) && ({
            &&& models::tells(v, "sessionId"@, JsonModel::Text(peers[i].session_id@))
            &&& models::tells(v, "geo"@, unbounded::geo_json(peers[i].geo))
            &&& v.len() == 2
        })),
{
    reveal_strlit("sessionId");
    reveal_strlit("geo");
    let v = unbounded::peer_json(peers[i])->Object_0;
    assert(v[0].0.len() == 9 && v[1].0.len() == 3);
    assert(v[0] == ("sessionId"@, JsonModel::Text(peers[i].session_id@)));
    assert(v[1] == ("geo"@, unbounded::geo_json(peers[i].geo)));
}

/// Whoever comes is counted once; whoever goes is not taken off what was counted.
pub proof fn lemma_those_who_came_are_counted<P>(total: int, came: PeerView<P>, went: String)
    ensures
        unbounded::total_after(total, SharingDelta::Joined(came)) == total + 1,
        unbounded::total_after(total, SharingDelta::<P>::Left(went)) == total,
{
}

/// The settings of sharing are told under their own names.
pub proof fn lemma_settings_are_told_under_their_names(
    auto_enable: bool,
    hidden: bool,
    welcome_seen: bool,
)
    ensures
        unbounded::settings_model(auto_enable, hidden, welcome_seen) matches JsonModel::Object(v) && ({
            &&& models::tells(v, "autoEnable"@, JsonModel::Flag(auto_enable))
            &&& models::tells(v, "hidden"@, JsonModel::Flag(hidden))
            &&& models::tells(v, "welcomeSeen"@, JsonModel::Flag(welcome_seen))
            &&& v.len() == 3
        }),
{
    reveal_strlit("autoEnable");
    reveal_strlit("hidden");
    reveal_strlit("welcomeSeen");
    let v = unbounded::settings_model(auto_enable, hidden, welcome_seen)->Object_0;
    assert(v[0].0.len() == 10 && v[1].0.len() == 6 && v[2].0.len() == 11);
    assert(v[0] == ("autoEnable"@, JsonModel::Flag(auto_enable)));
    assert(v[1] == ("hidden"@, JsonModel::Flag(hidden)));
    assert(v[2] == ("welcomeSeen"@, JsonModel::Flag(welcome_seen)));
}

/// What bypasses the tunnel is told under its own names: whether anything does, the domains, and the
/// addresses.
pub proof fn lemma_bypass_is_told_under_its_names(s: SplitTunnelShape)
    ensures
        persist::split_tunnel_json(s) matches JsonModel::Object(v) && ({
            &&& models::tells(v, "enabled"@, JsonModel::Flag(s.enabled))
            &&& models::tells(v, "domains"@, json::strings_json(json::texts(s.domains@)))
            &&& models::tells(v, "ips"@, json::strings_json(json::texts(s.ips@)))
            &&& v.len() == 3
        }),
{
    reveal_strlit("enabled");
    reveal_strlit("domains");
    reveal_strlit("ips");
    let v = persist::split_tunnel_json(s)->Object_0;
    assert(v[0].0.len() == 7 && v[1].0.len() == 7 && v[2].0.len() == 3);
    assert(v[0].0[0] == 'e' && v[1].0[0] == 'd');
    assert(v[0] == ("enabled"@, JsonModel::Flag(s.enabled)));
    assert(v[1] == ("domains"@, json::strings_json(json::texts(s.domains@))));
    assert(v[2] == ("ips"@, json::strings_json(json::texts(s.ips@))));
}

/// An app of the list is told under its own names, and one without an icon is told so.
pub proof fn lemma_app_is_told_under_its_names(a: AppModel)
    ensures
        apps::app_json(a) matches JsonModel::Object(v) && ({
            &&& models::tells(v, "id"@, JsonModel::Text(a.id))
            &&& models::tells(v, "name"@, JsonModel::Text(a.name))
            &&& a.icon matches Some(s) ==> models::tells(v, "icon"@, JsonModel::Text(s))
            &&& a.icon is None ==> models::tells(v, "icon"@, JsonModel::Null)
            &&& v.len() == 3
        }),
{
    reveal_strlit("id");
    reveal_strlit("name");
    reveal_strlit("icon");
    let v = apps::app_json(a)->Object_0;
    assert(v[0].0.len() == 2 && v[1].0.len() == 4 && v[2].0.len() == 4);
    assert(v[1].0[0] == 'n' && v[2].0[0] == 'i');
    assert(v[0] == ("id"@, JsonModel::Text(a.id)));
    assert(v[1] == ("name"@, JsonModel::Text(a.name)));
    assert(v[2].0 == "icon"@);
}

/// A list of texts is told text by text.
pub proof fn lemma_texts_are_told_in_order(v: Seq<Seq<char>>, i: int)
    requires
        0 <= i < v.len(),
    ensures
        json::strings_json(v) matches JsonModel::List(all) && all.len() == v.len() && all[i]
            == JsonModel::Text(v[i]),
{
}

/// The order of the list goes by the names alone, whatever their case: apps whose names differ in case
/// only stay as they were.
pub proof fn lemma_alike_names_keep_their_order(v: Seq<AppModel>, name: Seq<char>)
    ensures
        apps::in_order(v).filter(|a: AppModel| apps::lowercase_of(a.name) == name) == v.filter(
            |a: AppModel| apps::lowercase_of(a.name) == name,
        ),
    decreases v.len(),
{
    let p = |a: AppModel| apps::lowercase_of(a.name) == name;
    reveal(Seq::filter);
    if v.len() > 0 {
        let a = v.last();
        let before = apps::in_order(v.drop_last());
        let at = apps::place_for(before, a);
        lemma_alike_names_keep_their_order(v.drop_last(), name);
        lemma_place_is_behind(before, a);
        let (front, back) = (before.take(at), before.skip(at));
        assert(before =~= front + back);
        assert(before.insert(at, a) =~= front + seq![a] + back);
        Seq::filter_distributes_over_add(front, back, p);
        Seq::filter_distributes_over_add(front + seq![a], back, p);
        Seq::filter_distributes_over_add(front, seq![a], p);
        assert(seq![a].drop_last() =~= Seq::empty());
        if p(a) {
            assert forall|i: int| 0 <= i < back.len() implies !p(#[trigger] back[i]) by {
                assert(back[i] == before[at + i]);
            }
            lemma_none_left(back, p);
            assert(seq![a].filter(p) =~= seq![a]);
            assert(v.filter(p) == v.drop_last().filter(p).push(a));
        } else {
            assert(seq![a].last() == a);
            assert(seq![a].filter(p) == seq![a].drop_last().filter(p));
            lemma_none_left(seq![a].drop_last(), p);
        }
        assert(apps::in_order(v).filter(p) =~= v.filter(p));
    }
}

proof fn lemma_none_left(s: Seq<AppModel>, p: spec_fn(AppModel) -> bool)
    requires
        forall|i: int| 0 <= i < s.len() ==> !p(#[trigger] s[i]),
    ensures
        s.filter(p) == Seq::<AppModel>::empty(),
    decreases s.len(),
{
    reveal(Seq::filter);
    if s.len() > 0 {
        let d = s.drop_last();
        assert forall|i: int| 0 <= i < d.len() implies !p(#[trigger] d[i]) by {
            assert(d[i] == s[i]);
        }
        lemma_none_left(d, p);
        assert(s.last() == s[s.len() - 1]);
    }
}

proof fn lemma_place_is_behind(v: Seq<AppModel>, a: AppModel)
    ensures
        0 <= apps::place_for(v, a) <= v.len(),
        forall|i: int|
            apps::place_for(v, a) <= i < v.len() ==> apps::lowercase_of((#[trigger] v[i]).name)
                != apps::lowercase_of(a.name),
    decreases v.len(),
{
    if v.len() > 0 && !apps::app_le(v.last(), a) {
        let d = v.drop_last();
        lemma_place_is_behind(d, a);
        lemma_text_le_itself(apps::lowercase_of(a.name));
        assert forall|i: int|
            apps::place_for(v, a) <= i < v.len() implies apps::lowercase_of((#[trigger] v[i]).name)
            != apps::lowercase_of(a.name) by {
            if i < d.len() {
                assert(v[i] == d[i]);
            } else {
                assert(v[i] == v.last());
            }
        }
    }
}

proof fn lemma_text_le_itself(a: Seq<char>)
    ensures
        apps::text_le(a, a),
    decreases a.len(),
{
    if a.len() > 0 {
        lemma_text_le_itself(a.drop_first());
    }
}

/// A change is told to the tunnel as its own command, with its value: no two kinds of change are told
/// alike.
pub proof fn lemma_change_is_told_as_its_command(c: Change)
    ensures
        provider::change_json(c) matches JsonModel::Object(v) && v.len() == 2 && match c {
            Change::SplitTunnel(list) => {
                &&& models::tells(v, "cmd"@, JsonModel::Text("splitTunnel"@))
                &&& models::tells(v, "list"@, JsonModel::Text(list@))
            },
            Change::RoutingMode(mode) => {
                &&& models::tells(v, "cmd"@, JsonModel::Text("routingMode"@))
                &&& models::tells(v, "mode"@, JsonModel::Text(mode@))
            },
            Change::AdBlock(on) => {
                &&& models::tells(v, "cmd"@, JsonModel::Text("adBlock"@))
                &&& models::tells(v, "enabled"@, JsonModel::Flag(on))
            },
            Change::AppBypass(list) => {
                &&& models::tells(v, "cmd"@, JsonModel::Text("appBypass"@))
                &&& models::tells(v, "list"@, JsonModel::Text(list@))
            },
        },
{
    reveal_strlit("cmd");
    reveal_strlit("list");
    reveal_strlit("mode");
    reveal_strlit("enabled");
    let v = provider::change_json(c)->Object_0;
    assert(v[0].0.len() == 3 && v[1].0.len() > 3);
    assert(v.contains(v[0]) && v.contains(v[1]));
}

/// The flag of a country is that of its two letters in either case, with or without white space around
/// them: one symbol for each letter, in the order of the alphabet. A code of one letter or of three has
/// no flag.
pub proof fn lemma_flag_spells_the_country(
    before: Seq<char>,
    a: char,
    b: char,
    after: Seq<char>,
)
    requires
        forall|i: int| 0 <= i < before.len() ==> text::white_space(#[trigger] before[i]),
        forall|i: int| 0 <= i < after.len() ==> text::white_space(#[trigger] after[i]),
        'A' <= a <= 'Z',
        'A' <= b <= 'Z',
    ensures
        ({
            let lower = seq![(a as u32 + 32) as char, (b as u32 + 32) as char];
            let flag = seq![
                ((a as u32 - 65 + 0x1f1e6) as u32) as char,
                ((b as u32 - 65 + 0x1f1e6) as u32) as char,
            ];
            &&& labels::flag_of(before + seq![a, b] + after) == flag
            &&& labels::flag_of(before + lower + after) == flag
            &&& labels::flag_of(before + seq![a] + after).len() == 0
            &&& labels::flag_of(before + seq![a, b, a] + after).len() == 0
        }),
{
    text::lemma_trimmed_around(before, seq![a, b], after);
    text::lemma_trimmed_around(
        before,
        seq![(a as u32 + 32) as char, (b as u32 + 32) as char],
        after,
    );
    text::lemma_trimmed_around(before, seq![a], after);
    text::lemma_trimmed_around(before, seq![a, b, a], after);
}

/// The head of the menu names the chosen server by its label, wherever in the pool it stands; without a
/// choice it says so, and where the chosen server is gone it says that one is chosen.
pub proof fn lemma_head_names_the_chosen_server(
    state: Seq<char>,
    servers: Seq<ServerInfo>,
    index: usize,
    i: int,
)
    requires
        0 <= i < servers.len(),
    ensures
        labels::header_of(state, servers, None) == labels::state_text(state) + " · "@
            + "Smart Location"@,
        servers[i].index == index && (forall|j: int|
            0 <= j < i ==> (#[trigger] servers[j]).index != index) ==> labels::header_of(
            state,
            servers,
            Some(index),
        ) == labels::state_text(state) + " · "@ + labels::label_of(servers[i]),
        (forall|j: int| 0 <= j < servers.len() ==> (#[trigger] servers[j]).index != index)
            ==> labels::header_of(state, servers, Some(index)) == labels::state_text(state) + " · "@
            + "Selected location"@,
{
    if servers[i].index == index && (forall|j: int|
        0 <= j < i ==> (#[trigger] servers[j]).index != index) {
        lemma_first_place(servers, index, i);
    }
    if forall|j: int| 0 <= j < servers.len() ==> (#[trigger] servers[j]).index != index {
        lemma_no_place(servers, index);
    }
}

proof fn lemma_first_place(servers: Seq<ServerInfo>, index: usize, i: int)
    requires
        0 <= i < servers.len(),
        servers[i].index == index,
        forall|j: int| 0 <= j < i ==> (#[trigger] servers[j]).index != index,
    ensures
        labels::place_of(servers, index) == Some(i),
    decreases servers.len(),
{
    if i > 0 {
        assert(servers[0].index != index);
        let d = servers.drop_first();
        assert forall|j: int| 0 <= j < i - 1 implies (#[trigger] d[j]).index != index by {
            assert(d[j] == servers[j + 1]);
        }
        assert(d[i - 1] == servers[i]);
        lemma_first_place(d, index, i - 1);
    }
}

proof fn lemma_no_place(servers: Seq<ServerInfo>, index: usize)
    requires
        forall|j: int| 0 <= j < servers.len() ==> (#[trigger] servers[j]).index != index,
    ensures
        labels::place_of(servers, index) is None,
    decreases servers.len(),
{
    if servers.len() > 0 {
        assert(servers[0].index != index);
        let d = servers.drop_first();
        assert forall|j: int| 0 <= j < d.len() implies (#[trigger] d[j]).index != index by {
            assert(d[j] == servers[j + 1]);
        }
        lemma_no_place(d, index);
    }
}

/// The line on sharing tells how many are being helped, in decimal: two different numbers are told
/// differently. Sharing that is off, and sharing that is not to be had, are told so.
pub proof fn lemma_sharing_line_tells_the_number(available: bool, helping: u64)
    ensures
        labels::sharing_status(false, available, helping as nat) == "Unbounded: unavailable"@,
        labels::sharing_status(true, false, helping as nat) == "Unbounded: off"@,
        labels::sharing_status(true, true, helping as nat) == "Unbounded: helping "@ + text::decimal(
            helping as nat,
        ),
        text::number_in(text::decimal(helping as nat), u64::MAX) == Some(helping),
{
    text::lemma_decimal_reads_back(helping, u64::MAX);
}

/// The menu has an item that reads so, can be clicked or not, and asks for this when it is.
pub open spec fn reads(m: Seq<EntryModel>, label: Seq<char>, enabled: bool, click: Click) -> bool {
    exists|i: int| 0 <= i < m.len() && #[trigger] text_at(m[i], label, enabled, click)
}

/// The entry reads so, can be clicked or not, and asks for this when it is.
pub open spec fn text_at(e: EntryModel, label: Seq<char>, enabled: bool, click: Click) -> bool {
    match e {
        EntryModel::Text { id, label: l, enabled: on } => {
            l == label && on == enabled && tray::click_of(id) == click
        },
        _ => false,
    }
}

/// The menu has a submenu that reads so, with an item that reads so, is marked or not, and asks for this
/// when it is clicked.
pub open spec fn lists(
    m: Seq<EntryModel>,
    title: Seq<char>,
    label: Seq<char>,
    checked: bool,
    click: Click,
) -> bool {
    exists|i: int, k: int|
        0 <= i < m.len() && 0 <= k && #[trigger] item_at(m[i], k, title, label, checked, click)
}

/// The entry is a submenu that reads so, and its item `k` reads so, is marked or not, and asks for this.
pub open spec fn item_at(
    e: EntryModel,
    k: int,
    title: Seq<char>,
    label: Seq<char>,
    checked: bool,
    click: Click,
) -> bool {
    match e {
        EntryModel::Submenu { label: l, items, .. } => {
            &&& l == title
            &&& 0 <= k < items.len()
            &&& items[k].label == label
            &&& items[k].checked == checked
            &&& tray::click_of(items[k].id) == click
        },
        _ => false,
    }
}

/// Every item of the menu does what it reads: the two routing modes, each marked where it is in force,
/// the window, its split tunnelling page, the end of the program, connecting and disconnecting, each
/// server under its own label, and sharing where the block is shown.
pub proof fn lemma_items_do_what_they_read(
    s: ShownModel,
    sharing: Sharing,
    shown: bool,
    i: int,
)
    requires
        0 <= i < s.servers.len(),
    ensures
        ({
            let m = tray::menu_of(s, sharing, shown);
            &&& lists(m, "Routing Mode"@, "Smart"@, s.routing == "smart"@, Click::RouteSmart)
            &&& lists(m, "Routing Mode"@, "Full"@, s.routing == "full"@, Click::RouteFull)
            &&& lists(
                m,
                "Select Location"@,
                "Smart Location"@,
                s.selected is None,
                Click::Select(None),
            )
            &&& lists(
                m,
                "Select Location"@,
                labels::label_of(s.servers[i]),
                s.selected == Some(s.servers[i].index),
                Click::Select(Some(s.servers[i].index)),
            )
            &&& reads(m, "Show Spark"@, true, Click::Show)
            &&& reads(m, "Quit Spark"@, true, Click::Quit)
            &&& reads(m, "Split Tunneling…"@, true, Click::Split)
            &&& s.state == "connected"@ ==> reads(m, "Disconnect"@, true, Click::Toggle)
            &&& s.state == "connecting"@ ==> reads(m, "Connecting…"@, false, Click::Toggle)
            &&& s.state == "disconnecting"@ ==> reads(m, "Disconnecting…"@, false, Click::Toggle)
            &&& s.state == "disconnected"@ ==> reads(m, "Connect"@, true, Click::Toggle)
            &&& shown && sharing.enabled ==> reads(
                m,
                "Disable Unbounded"@,
                sharing.available,
                Click::Sharing,
            )
            &&& shown && !sharing.enabled ==> reads(
                m,
                "Enable Unbounded"@,
                sharing.available,
                Click::Sharing,
            )
        }),
{
    let m = tray::menu_of(s, sharing, shown);
    let all = tray::locations_of(s.servers, s.selected);
    let n = m.len();
    lemma_ids_have_their_clicks();
    lemma_states_differ();
    lemma_location_is_selected(None);
    lemma_location_is_selected(Some(s.servers[i].index));
    assert(m[1] == tray::toggle_entry(s));
    assert(m[3] == tray::location_entry(all));
    assert(m[4] == tray::routing_entry(s.routing == "smart"@, s.routing == "full"@));
    assert(m[6] == tray::plain("split"@, "Split Tunneling…"@));
    assert(m[n - 2] == tray::plain("show"@, "Show Spark"@));
    assert(m[n - 1] == tray::plain("quit"@, "Quit Spark"@));
    assert(item_at(
        m[4],
        0,
        "Routing Mode"@,
        "Smart"@,
        s.routing == "smart"@,
        Click::RouteSmart,
    ));
    assert(item_at(m[4], 1, "Routing Mode"@, "Full"@, s.routing == "full"@, Click::RouteFull));
    assert(tray::pins_of(s.servers)[0] is None);
    assert(tray::pins_of(s.servers)[i + 1] == Some(s.servers[i].index));
    assert(tray::location_labels(s.servers)[0] == "Smart Location"@);
    assert(tray::location_labels(s.servers)[i + 1] == labels::label_of(s.servers[i]));
    assert(item_at(
        m[3],
        0,
        "Select Location"@,
        "Smart Location"@,
        s.selected is None,
        Click::Select(None),
    ));
    assert(item_at(
        m[3],
        i + 1,
        "Select Location"@,
        labels::label_of(s.servers[i]),
        s.selected == Some(s.servers[i].index),
        Click::Select(Some(s.servers[i].index)),
    ));
    assert(text_at(m[n - 2], "Show Spark"@, true, Click::Show));
    assert(text_at(m[n - 1], "Quit Spark"@, true, Click::Quit));
    assert(text_at(m[6], "Split Tunneling…"@, true, Click::Split));
    let (label, _, enabled) = labels::toggle_of(s.state);
    assert(text_at(m[1], label, enabled, Click::Toggle));
    if shown {
        assert(m[9] == tray::block(sharing)[2]);
        assert(text_at(
            m[9],
            labels::sharing_toggle(sharing.enabled),
            sharing.available,
            Click::Sharing,
        ));
    }
}

proof fn lemma_states_differ()
    ensures
        "connected"@ != "connecting"@,
        "connected"@ != "disconnecting"@,
        "connected"@ != "disconnected"@,
        "connecting"@ != "disconnecting"@,
        "connecting"@ != "disconnected"@,
        "disconnecting"@ != "disconnected"@,
{
    reveal_strlit("connected");
    reveal_strlit("connecting");
    reveal_strlit("disconnecting");
    reveal_strlit("disconnected");
    assert("connected"@.len() == 9);
    assert("connecting"@.len() == 10);
    assert("disconnecting"@.len() == 13);
    assert("disconnected"@.len() == 12);
}

proof fn lemma_ids_have_their_clicks()
    ensures
        tray::click_of("show"@) == Click::Show,
        tray::click_of("split"@) == Click::Split,
        tray::click_of("quit"@) == Click::Quit,
        tray::click_of("toggle"@) == Click::Toggle,
        tray::click_of("routing:smart"@) == Click::RouteSmart,
        tray::click_of("routing:full"@) == Click::RouteFull,
        tray::click_of("unbounded_toggle"@) == Click::Sharing,
{
    reveal_strlit("show");
    reveal_strlit("split");
    reveal_strlit("quit");
    reveal_strlit("toggle");
    reveal_strlit("routing:smart");
    reveal_strlit("routing:full");
    reveal_strlit("adblock");
    reveal_strlit("unbounded_toggle");
    assert("show"@.len() == 4 && "show"@[0] == 's');
    assert("quit"@.len() == 4 && "quit"@[0] == 'q');
    assert("split"@.len() == 5);
    assert("toggle"@.len() == 6);
    assert("routing:smart"@.len() == 13);
    assert("routing:full"@.len() == 12);
    assert("adblock"@.len() == 7);
    assert("unbounded_toggle"@.len() == 16);
}

proof fn lemma_location_is_selected(pin: Option<usize>)
    ensures
        tray::click_of(labels::loc_id(pin)) == Click::Select(pin),
{
    labels::lemma_loc_id_round_trip(pin);
    reveal_strlit("show");
    reveal_strlit("split");
    reveal_strlit("quit");
    reveal_strlit("toggle");
    reveal_strlit("routing:smart");
    reveal_strlit("routing:full");
    reveal_strlit("adblock");
    reveal_strlit("unbounded_toggle");
    reveal_strlit("loc:");
    reveal_strlit("loc:smart");
    let id = labels::loc_id(pin);
    assert(id[0] == 'l');
    assert("show"@[0] == 's' && "split"@[0] == 's' && "quit"@[0] == 'q' && "toggle"@[0] == 't'
        && "routing:smart"@[0] == 'r' && "routing:full"@[0] == 'r' && "adblock"@[0] == 'a'
        && "unbounded_toggle"@[0] == 'u');
}

} // verus!
