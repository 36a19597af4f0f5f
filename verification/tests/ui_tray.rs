//! The tray and what it shows.
use spark::json::{to_text, Json};
use spark::ui::labels::{
    connect_item, flag_emoji, header_label, header_text, loc_menu_id, parse_loc_menu_id,
    server_label, server_sig, unbounded_status_text, unbounded_toggle_label, unbounded_tray_label,
    unbounded_tray_visible,
};
use spark::ui::models::{servers_from_entries, PoolEntry, ServerInfo, Status};
use spark::ui::pins::{pin_from_snapshot, tray_pin, tray_pin_to_i32, SelectedServer};
use spark::ui::tray::{
    build_location_items, build_menu, call_for, failure_text, on_menu_event, read_state, Call,
    Click, LocationPatch, MenuEntry, Sharing, TrayState, UNBOUNDED_BLOCK_AT,
};

fn status(state: &str) -> Status {
    Status {
        state: state.into(),
        protocol: String::new(),
        fail_open: false,
    }
}

fn member(index: usize, is_current: bool, is_pinned: bool) -> ServerInfo {
    ServerInfo {
        index,
        name: None,
        country: None,
        country_code: None,
        city: None,
        protocol: None,
        latency_ms: None,
        healthy: true,
        is_current,
        is_pinned,
    }
}

fn place(index: usize, code: &str, country: &str, city: &str) -> ServerInfo {
    ServerInfo {
        country: Some(country.into()),
        country_code: Some(code.into()),
        city: Some(city.into()),
        ..member(index, false, false)
    }
}

fn state(servers: Vec<ServerInfo>, selected: Option<usize>) -> TrayState {
    TrayState {
        status: status("connected"),
        servers,
        routing: "smart".into(),
        adblock: true,
        selected,
    }
}

fn off() -> Sharing {
    Sharing { available: false, enabled: false, helping: 0 }
}

fn on(helping: usize) -> Sharing {
    Sharing { available: true, enabled: true, helping }
}

// ---- labels ----

#[test]
fn unbounded_tray_shows_only_when_available_and_not_hidden() {
    assert!(unbounded_tray_visible(true, || false));
    assert!(!unbounded_tray_visible(true, || true), "hidden wins");
    assert!(
        !unbounded_tray_visible(false, || false),
        "server gate off ⇒ nothing surfaced"
    );
    assert!(!unbounded_tray_visible(false, || true));

    // Reading the hidden preference touches the disk, and this runs on the 1.5s tray poll — so it
    // must not be consulted at all when the feature isn't available (the common case).
    let mut consulted = false;
    assert!(!unbounded_tray_visible(false, || {
        consulted = true;
        false
    }));
    assert!(
        !consulted,
        "hidden must not be read when the feature is unavailable"
    );
}

#[test]
fn flag_emoji_maps_valid_two_letter_codes() {
    assert_eq!(flag_emoji("US"), "🇺🇸");
    assert_eq!(flag_emoji("au"), "🇦🇺");
    assert_eq!(flag_emoji(" GB "), "🇬🇧");
}

#[test]
fn flag_emoji_rejects_bad_codes() {
    assert_eq!(flag_emoji("USA"), "");
    assert_eq!(flag_emoji(""), "");
    assert_eq!(flag_emoji("1A"), "");
    assert_eq!(flag_emoji("U"), "");
    assert_eq!(flag_emoji("é"), "");
}

#[test]
fn pin_round_trips_through_i32() {
    assert_eq!(tray_pin(-1), None);
    assert_eq!(tray_pin(0), Some(0));
    assert_eq!(tray_pin(5), Some(5));
    assert_eq!(tray_pin_to_i32(None), -1);
    assert_eq!(tray_pin_to_i32(Some(5)), 5);
    // Out-of-range pin (can't happen with a real pool index) falls back to auto, never wraps.
    assert_eq!(tray_pin_to_i32(Some(usize::MAX)), -1);
}

#[test]
fn loc_menu_id_round_trips() {
    assert_eq!(loc_menu_id(None), "loc:smart");
    assert_eq!(loc_menu_id(Some(3)), "loc:3");
    assert_eq!(parse_loc_menu_id("loc:smart"), Some(None));
    assert_eq!(parse_loc_menu_id("loc:3"), Some(Some(3)));
    assert_eq!(parse_loc_menu_id("routing:full"), None);
    assert_eq!(parse_loc_menu_id("loc:x"), None);
    assert_eq!(
        parse_loc_menu_id(&loc_menu_id(Some(usize::MAX))),
        Some(Some(usize::MAX))
    );
}

#[test]
fn unbounded_tray_label_reflects_state() {
    assert_eq!(unbounded_tray_label(false, 0), "Unbounded: off");
    assert_eq!(unbounded_tray_label(true, 9), "Unbounded: helping 9");
    assert_eq!(unbounded_tray_label(true, 0), "Unbounded: helping 0");
}

#[test]
fn the_status_line_says_when_sharing_is_unavailable() {
    assert_eq!(unbounded_status_text(false, true, 9), "Unbounded: unavailable");
    assert_eq!(unbounded_status_text(true, true, 9), "Unbounded: helping 9");
    assert_eq!(unbounded_toggle_label(true), "Disable Unbounded");
    assert_eq!(unbounded_toggle_label(false), "Enable Unbounded");
}

#[test]
fn header_and_connect_item_track_state() {
    assert_eq!(header_text("connected"), "Connected");
    assert_eq!(header_text("disconnected"), "Disconnected");
    assert_eq!(header_text("weird"), "Disconnected");
    assert_eq!(connect_item("disconnected"), ("Connect", "connect", true));
    assert_eq!(
        connect_item("connected"),
        ("Disconnect", "disconnect", true)
    );
    assert!(!connect_item("connecting").2);
}

#[test]
fn header_label_distinguishes_smart_from_manual() {
    // No pin → Spark auto-choosing ("Smart Location").
    assert_eq!(
        header_label(&status("disconnected"), &[], None),
        "Disconnected · Smart Location"
    );
    // A manual pin shows that location — never "Smart Location".
    let s = ServerInfo {
        index: 2,
        name: None,
        country: Some("U.S.A.".into()),
        country_code: Some("US".into()),
        city: Some("Ashburn".into()),
        protocol: None,
        latency_ms: None,
        healthy: true,
        is_current: false,
        is_pinned: true,
    };
    let label = header_label(&status("connected"), &[s], Some(2));
    assert_eq!(label, "Connected · 🇺🇸 U.S.A. — Ashburn");
    assert!(!label.contains("Smart"));
}

#[test]
fn a_pin_that_is_not_in_the_pool_is_still_no_smart_location() {
    assert_eq!(
        header_label(&status("connecting"), &[member(0, false, false)], Some(7)),
        "Connecting… · Selected location"
    );
}

#[test]
fn labels_leave_out_what_is_not_known() {
    assert_eq!(server_label(&member(0, false, false)), "Unknown");
    let no_flag = ServerInfo {
        country: Some("Nowhere".into()),
        country_code: Some("xyz".into()),
        ..member(0, false, false)
    };
    assert_eq!(server_label(&no_flag), "Nowhere");
    assert_eq!(server_sig(&place(4, "AU", "Australia", "Melbourne")), "4|AU|Melbourne");
    assert_eq!(server_sig(&member(4, false, false)), "4||");
}

// ---- pins ----

#[test]
fn selected_server_defaults_to_auto() {
    let s = SelectedServer::default();
    assert_eq!(s.0, None);
}

#[test]
fn pin_follows_the_snapshot_to_its_new_index() {
    // The whole point: the pinned server moved to index 2 after a config refresh, so the cached
    // index must move with it rather than keep naming whatever now sits in the old slot.
    let snap = [
        member(0, false, false),
        member(1, false, false),
        member(2, true, true),
    ];
    assert_eq!(pin_from_snapshot(&snap), Some(2));
    let mut pin = SelectedServer(Some(0));
    pin.sync(&snap);
    assert_eq!(pin.0, Some(2));
}

#[test]
fn no_pin_in_the_snapshot_leaves_the_cache_alone() {
    // Both an auto tunnel and a pre-connect list look like this, and one of them (a pick the tunnel
    // hasn't taken up yet) is an intent worth keeping — so this must not read as "clear the pin".
    let live_on_auto = [member(0, true, false), member(1, false, false)];
    assert_eq!(pin_from_snapshot(&live_on_auto), None);
    assert_eq!(pin_from_snapshot(&[]), None);
    let mut pin = SelectedServer(Some(1));
    pin.sync(&live_on_auto);
    assert_eq!(pin.0, Some(1));
}

#[test]
fn a_selection_is_recorded_only_once_it_took() {
    let mut pin = SelectedServer::default();
    pin.record(Some(3), false);
    assert_eq!(pin.0, None);
    pin.record(Some(3), true);
    assert_eq!(pin.0, Some(3));
}

// ---- models ----

#[test]
fn status_serializes_to_camel_case() {
    let s = Status {
        state: "disconnected".into(),
        protocol: "AnyTLS".into(),
        fail_open: false,
    };
    let json = to_text(&s.to_json());
    assert_eq!(
        json,
        r#"{"state":"disconnected","protocol":"AnyTLS","failOpen":false}"#
    );
}

#[test]
fn a_server_leaves_out_what_is_not_known() {
    let s = ServerInfo { latency_ms: Some(12), ..place(1, "DE", "Germany", "Frankfurt") };
    assert_eq!(
        to_text(&s.to_json()),
        r#"{"index":1,"country":"Germany","countryCode":"DE","city":"Frankfurt","latencyMs":12,"healthy":true,"isCurrent":false,"isPinned":false}"#
    );
}

#[test]
fn entries_become_servers_in_order() {
    let entry = |city: &str| PoolEntry {
        name: None,
        country: Some("U.S.A.".into()),
        country_code: Some("US".into()),
        city: Some(city.into()),
        protocol: None,
    };
    let list = servers_from_entries(vec![entry("Ashburn"), entry("Denver")]);
    assert_eq!(list.len(), 2);
    assert_eq!(list[0].index, 0);
    assert_eq!(list[1].index, 1);
    assert_eq!(list[1].city.as_deref(), Some("Denver"));
    assert!(!list[0].healthy && !list[0].is_current && !list[0].is_pinned);
    assert!(list[0].latency_ms.is_none());
}

// ---- the menu ----

fn ids(menu: &[MenuEntry]) -> Vec<String> {
    menu.iter()
        .map(|e| match e {
            MenuEntry::Text { id, .. } | MenuEntry::Submenu { id, .. } => id.clone(),
            MenuEntry::Check(c) => c.id.clone(),
            MenuEntry::Separator => "-".to_string(),
        })
        .collect()
}

#[test]
fn the_menu_holds_the_sharing_block_only_where_it_is_shown() {
    let s = state(vec![place(2, "US", "U.S.A.", "Ashburn")], Some(2));
    let (hidden, _) = build_menu(&s, off(), false);
    assert_eq!(
        ids(&hidden),
        [
            "header", "toggle", "-", "submenu-location", "submenu-routing", "adblock", "split",
            "-", "show", "quit"
        ]
    );
    let (shown, tray) = build_menu(&s, on(3), true);
    assert_eq!(
        &ids(&shown)[UNBOUNDED_BLOCK_AT..],
        ["-", "unbounded_status", "unbounded_toggle", "-", "show", "quit"]
    );
    assert!(tray.shown());
    assert!(matches!(
        &shown[8],
        MenuEntry::Text { label, enabled: false, .. } if label == "Unbounded: helping 3"
    ));
}

#[test]
fn one_location_is_marked() {
    let servers = [place(0, "US", "U.S.A.", "Ashburn"), place(5, "DE", "Germany", "Frankfurt")];
    let items = build_location_items(&servers, Some(5));
    let marked: Vec<&str> = items.iter().filter(|i| i.checked).map(|i| i.id.as_str()).collect();
    assert_eq!(marked, ["loc:5"]);
    assert!(build_location_items(&servers, None)[0].checked);
    assert_eq!(items[0].label, "Smart Location");
}

#[test]
fn a_refresh_marks_in_place_while_the_pool_stays() {
    let pool = || vec![place(0, "US", "U.S.A.", "Ashburn"), place(1, "DE", "Germany", "Frankfurt")];
    let (_, tray) = build_menu(&state(pool(), None), off(), false);
    let patch = tray.refresh(&state(pool(), Some(1)), off(), false);
    assert_eq!(patch.header, "Connected · 🇩🇪 Germany — Frankfurt");
    assert_eq!(patch.block, None);
    match patch.locations {
        LocationPatch::Marks(marks) => assert_eq!(marks, [false, false, true]),
        other => panic!("expected marks, got {other:?}"),
    }
}

#[test]
fn a_refresh_rebuilds_when_the_pool_changes() {
    let (_, mut tray) = build_menu(&state(vec![place(0, "US", "U.S.A.", "Ashburn")], None), off(), false);
    let next = vec![place(0, "JP", "Japan", "Tokyo")];
    let patch = tray.refresh(&state(next.clone(), None), off(), false);
    match patch.locations {
        LocationPatch::Rebuild(items) => {
            assert_eq!(items.len(), 2);
            assert_eq!(items[1].label, "🇯🇵 Japan — Tokyo");
        }
        other => panic!("expected a rebuild, got {other:?}"),
    }
    tray.locations_rebuilt(&next);
    let again = tray.refresh(&state(next, None), off(), false);
    assert!(matches!(again.locations, LocationPatch::Marks(_)));
}

#[test]
fn a_block_that_could_not_be_moved_is_tried_again() {
    let s = state(Vec::new(), None);
    let (_, mut tray) = build_menu(&s, off(), false);
    assert_eq!(tray.refresh(&s, on(0), true).block, Some(true));
    tray.block_moved(true, false);
    assert_eq!(tray.refresh(&s, on(0), true).block, Some(true));
    tray.block_moved(true, true);
    assert_eq!(tray.refresh(&s, on(0), true).block, None);
    assert_eq!(tray.refresh(&s, off(), false).block, Some(false));
}

#[test]
fn an_optimistic_mark_moves_to_the_clicked_location() {
    let pool = vec![place(0, "US", "U.S.A.", "Ashburn"), place(1, "DE", "Germany", "Frankfurt")];
    let (_, tray) = build_menu(&state(pool, None), off(), false);
    assert_eq!(tray.marks_for(Some(0)), [false, true, false]);
    assert_eq!(tray.marks_for(None), [true, false, false]);
}

#[test]
fn what_cannot_be_read_has_a_default() {
    let mut pin = SelectedServer(Some(4));
    let s = read_state(None, None, None, None, &mut pin);
    assert_eq!(s.status.state, "disconnected");
    assert!(s.servers.is_empty());
    assert_eq!(s.routing, "smart");
    assert!(s.adblock);
    assert_eq!(s.selected, Some(4));
}

// ---- clicks ----

#[test]
fn every_id_has_its_click() {
    assert!(matches!(on_menu_event("show"), Click::Show));
    assert!(matches!(on_menu_event("split"), Click::Split));
    assert!(matches!(on_menu_event("quit"), Click::Quit));
    assert!(matches!(on_menu_event("toggle"), Click::Toggle));
    assert!(matches!(on_menu_event("routing:smart"), Click::RouteSmart));
    assert!(matches!(on_menu_event("routing:full"), Click::RouteFull));
    assert!(matches!(on_menu_event("adblock"), Click::AdBlock));
    assert!(matches!(on_menu_event("unbounded_toggle"), Click::Sharing));
    assert!(matches!(on_menu_event("loc:smart"), Click::Select(None)));
    assert!(matches!(on_menu_event("loc:12"), Click::Select(Some(12))));
    assert!(matches!(on_menu_event("header"), Click::Nothing));
}

#[test]
fn a_click_leads_to_one_call() {
    let call = |c: &Click| call_for(c, Some("connected"), Some(true), Some(false));
    assert!(matches!(call(&Click::Toggle), Call::Disconnect));
    assert!(matches!(call_for(&Click::Toggle, None, None, None), Call::Connect));
    assert!(matches!(call(&Click::AdBlock), Call::SetAdBlock(false)));
    assert!(matches!(call_for(&Click::AdBlock, None, None, None), Call::Unread));
    assert!(matches!(call(&Click::Sharing), Call::StartSharing));
    assert!(matches!(call(&Click::Select(None)), Call::SelectServer(-1)));
    assert!(matches!(call(&Click::Select(Some(3))), Call::SelectServer(3)));
    assert!(matches!(call(&Click::RouteFull), Call::SetRoutingMode("full")));
    assert!(matches!(call(&Click::Show), Call::Nothing));
}

#[test]
fn failures_are_reported_with_their_action() {
    assert_eq!(
        failure_text(&Click::Toggle, &Call::Connect, "no route").as_deref(),
        Some("connect failed: no route")
    );
    assert_eq!(
        failure_text(&Click::AdBlock, &Call::Unread, "x").as_deref(),
        Some("read ad-block failed: x")
    );
    assert_eq!(failure_text(&Click::Quit, &Call::Disconnect, "x"), None);
}

// ---- what patching and building have in common ----

fn shape(menu: &[MenuEntry]) -> Vec<String> {
    menu.iter().map(|e| format!("{e:?}")).collect()
}

#[test]
fn separators_stand_apart() {
    let s = state(Vec::new(), None);
    for (sharing, shown) in [(off(), false), (on(1), true)] {
        let ids = ids(&build_menu(&s, sharing, shown).0);
        assert_ne!(ids[0], "-");
        assert_ne!(ids[ids.len() - 1], "-");
        assert!(ids.windows(2).all(|w| w != ["-", "-"]));
    }
}

#[test]
fn a_block_that_is_moved_in_is_the_one_that_would_be_built() {
    let s = state(vec![place(2, "US", "U.S.A.", "Ashburn")], Some(2));
    let built = build_menu(&s, on(3), true).0;
    let mut moved = build_menu(&s, on(3), false).0;
    let block: Vec<MenuEntry> = build_menu(&s, on(3), true)
        .0
        .into_iter()
        .skip(UNBOUNDED_BLOCK_AT)
        .take(3)
        .collect();
    for (i, e) in block.into_iter().enumerate() {
        moved.insert(UNBOUNDED_BLOCK_AT + i, e);
    }
    assert_eq!(shape(&moved), shape(&built));
}

#[test]
fn a_patched_menu_is_the_one_that_would_be_built() {
    let pool = || vec![place(0, "US", "U.S.A.", "Ashburn"), place(1, "DE", "Germany", "Frankfurt")];
    let (_, tray) = build_menu(&state(pool(), None), on(0), true);
    let now = state(pool(), Some(0));
    let patch = tray.refresh(&now, on(5), true);
    let built = build_menu(&now, on(5), true).0;
    assert!(matches!(&built[0], MenuEntry::Text { label, .. } if *label == patch.header));
    assert!(matches!(&built[1], MenuEntry::Text { label, .. } if label == patch.toggle));
    assert!(matches!(&built[8], MenuEntry::Text { label, .. } if *label == patch.sharing_status));
    assert!(matches!(&built[9], MenuEntry::Text { label, .. } if label == patch.sharing_toggle));
    let LocationPatch::Marks(marks) = patch.locations else {
        panic!("the pool did not change");
    };
    assert!(matches!(
        &built[3],
        MenuEntry::Submenu { items, .. }
            if items.iter().map(|i| i.checked).collect::<Vec<bool>>() == marks
    ));
}

#[test]
fn json_strings_are_escaped() {
    let text = |s: &str| to_text(&Json::Text(s.to_string()));
    assert_eq!(text("plain"), "\"plain\"");
    assert_eq!(text("a\"b\\c/"), "\"a\\\"b\\\\c/\"");
    assert_eq!(text("\u{8}\t\n\u{c}\r"), "\"\\b\\t\\n\\f\\r\"");
    assert_eq!(text("\u{0}\u{1f}\u{b}"), "\"\\u0000\\u001f\\u000b\"");
    assert_eq!(text("\u{7f}\u{e9}\u{1f600}"), "\"\u{7f}\u{e9}\u{1f600}\"");
}
