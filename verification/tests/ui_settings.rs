//! What the app keeps, where its configuration comes from, and the apps that bypass the tunnel.
use spark::json::Leaf;
use spark::tunnel::crypto::base64_encode;
use spark::ui::apps::{
    cache_file, catalog_text, entry_for_bundle, icns_names, icns_usable, icon_file, is_bundle,
    is_stale_cache, offered_name, scan_roots, sips_png_data_url, AppEntry, BundleFacts, Listing, Refresh, CACHE_BASENAME,
    CACHE_VERSION,
};
use spark::ui::config::{
    app_config_cache_dir, app_owns_fetching, app_owns_fetching_in, cached_config, config_changed,
    resolve_with, resume_fetching, Resume, TUNNEL_SELF_FETCHES,
};
use spark::ui::diag::{
    country_from_cache, country_of, diagnostics_run, environment, lantern_platform,
};
use spark::ui::persist::{
    canonicalize_excluded, load_ad_block_enabled, load_excluded_apps, load_routing_mode,
    load_split_tunnel, save_ad_block_enabled, save_excluded_apps, save_routing_mode,
    split_tunnel_error, split_tunnel_text, SplitTunnelShape,
};

// ---- configuration ----

#[test]
fn baked_wins_over_proxy() {
    let r = resolve_with(Some("baked"), Some("1.2.3.4:443"));
    assert_eq!(r.as_deref(), Some("baked"));
}

#[test]
fn proxy_is_last_resort() {
    let r = resolve_with(None, Some("1.2.3.4:443"));
    assert_eq!(r.as_deref(), Some("1.2.3.4:443"));
}

#[test]
fn empty_and_whitespace_are_skipped() {
    // an empty/whitespace baked override falls through to the proxy
    let r = resolve_with(Some("   "), Some("1.2.3.4:443"));
    assert_eq!(r.as_deref(), Some("1.2.3.4:443"));
}

#[test]
fn none_means_daemon_fetch() {
    // No explicit override → None → the extension self-fetches its config.
    assert_eq!(resolve_with(None, None), None);
    assert_eq!(resolve_with(Some(""), None), None);
}

#[test]
fn the_fetcher_is_whoever_can_reach_the_api_directly() {
    // True everywhere: a tunnel that is down neither fetches nor routes us.
    assert!(app_owns_fetching_in("disconnected"));
    assert!(app_owns_fetching_in("failed"));

    if TUNNEL_SELF_FETCHES {
        assert!(!app_owns_fetching_in("connected"));
        // Control transfers at the connect ATTEMPT: a fetch racing a bringup could land after
        // the tunnel is already carrying it, which is the case this rule exists to prevent.
        assert!(!app_owns_fetching_in("connecting"));
        assert!(!app_owns_fetching_in("something-new"));
    } else {
        for state in ["connected", "connecting", "disconnecting", "something-new"] {
            assert!(
                app_owns_fetching_in(state),
                "{state}: nothing else fetches here, so the app must not stand down"
            );
        }
    }
}

#[test]
fn a_tunnel_that_fetches_keeps_the_app_from_it_while_it_is_up() {
    for state in ["connected", "connecting", "disconnecting", "something-new"] {
        assert!(!app_owns_fetching(true, Some(state)), "{state}");
    }
    assert!(app_owns_fetching(true, Some("failed")));
    assert!(app_owns_fetching(true, None));
}

#[test]
fn fetching_resumes_once_the_tunnel_is_down() {
    assert_eq!(resume_fetching(true, Some("connected"), 0), Resume::Wait);
    assert_eq!(resume_fetching(true, Some("disconnected"), 3), Resume::Fetch);
    assert_eq!(resume_fetching(true, Some("connected"), 10), Resume::GiveUp);
}

#[test]
fn detects_change_and_no_change() {
    let a = Some(b"{\"servers\":[]}".to_vec());
    let b = Some(b"{\"servers\":[{\"country\":\"US\"}]}".to_vec());
    assert!(config_changed(&None, &a)); // first fetch: absent -> present
    assert!(config_changed(&a, &b)); // body changed
    assert!(!config_changed(&a, &a)); // unchanged (304)
    assert!(!config_changed(&None, &None)); // fetch failed, still nothing
}

#[test]
fn a_kept_configuration_is_text() {
    assert_eq!(cached_config(Some(b"{}".to_vec())).as_deref(), Some("{}"));
    assert_eq!(cached_config(Some(vec![0xff])), None);
    assert_eq!(cached_config(None), None);
    assert_eq!(app_config_cache_dir("/base"), "/base/config");
    assert_eq!(app_config_cache_dir("/base/"), "/base/config");
}

// ---- settings ----

#[test]
fn routing_mode_rejects_invalid_values() {
    assert!(save_routing_mode("bogus").is_err());
    assert!(save_routing_mode("").is_err());
    assert!(save_routing_mode("Smart").is_err());
    assert_eq!(
        save_routing_mode("bogus"),
        Err("invalid routing mode: \"bogus\" (expected \"smart\" or \"full\")".to_string())
    );
}

#[test]
fn routing_mode_round_trip() {
    let full = save_routing_mode("full").expect("save_routing_mode(full)");
    assert_eq!(load_routing_mode(Some(&full)), "full");
    let smart = save_routing_mode(" smart\n").expect("save_routing_mode(smart)");
    assert_eq!(load_routing_mode(Some(&smart)), "smart");
    assert_eq!(load_routing_mode(Some("sideways")), "smart");
}

#[test]
fn ad_block_round_trip() {
    assert!(!load_ad_block_enabled(Some(save_ad_block_enabled(false))));
    assert!(load_ad_block_enabled(Some(save_ad_block_enabled(true))));
    assert!(!load_ad_block_enabled(Some(" FALSE\n")));
    assert!(load_ad_block_enabled(Some("no")));
}

#[test]
fn split_tunnel_round_trip() {
    let shape = SplitTunnelShape {
        enabled: true,
        domains: vec!["x.com".into()],
        ips: Vec::new(),
    };
    assert_eq!(
        split_tunnel_text(&shape),
        r#"{"enabled":true,"domains":["x.com"],"ips":[]}"#
    );
    let loaded = load_split_tunnel(Some(shape));
    assert!(loaded.contains("\"enabled\":true"), "{loaded}");
    assert!(loaded.contains("\"x.com\""), "{loaded}");
    assert_eq!(split_tunnel_error("eof"), "invalid split-tunnel JSON: eof");
}

#[test]
fn load_returns_defaults_on_missing_dir() {
    assert_eq!(
        load_split_tunnel(None),
        "{\"enabled\":false,\"domains\":[],\"ips\":[]}"
    );
    assert_eq!(load_routing_mode(None), "smart");
    assert_eq!(load_excluded_apps(None), "[]");
    assert!(load_ad_block_enabled(None));
}

#[test]
fn excluded_apps_round_trip() {
    let written = save_excluded_apps(r#"["/Applications/Firefox.app"]"#).expect("save");
    let loaded = load_excluded_apps(Some(&written));
    assert!(loaded.contains("/Applications/Firefox.app"), "{loaded}");
    assert_eq!(loaded, written);
}

#[test]
fn excluded_apps_canonicalizes() {
    // "  b  " trims to "b"; the trailing "a"/"" are a dup and a blank.
    let written = save_excluded_apps(r#"["a", "  b  ", "a", ""]"#).expect("save");
    assert_eq!(load_excluded_apps(Some(&written)), r#"["a","b"]"#);
}

#[test]
fn excluded_apps_rejects_non_array() {
    assert!(save_excluded_apps(r#"{"not":"an array"}"#).is_err());
    assert!(save_excluded_apps(r#"[1, 2, 3]"#).is_err());
    let e = save_excluded_apps("not json").unwrap_err();
    assert!(e.starts_with("invalid excluded-apps JSON: "), "{e}");
    assert_eq!(load_excluded_apps(Some("not json")), "[]");
}

#[test]
fn a_canonical_list_stays_as_it_is() {
    let list = || vec![" a ".to_string(), "b".into(), "a".into(), "\t".into()];
    let once = canonicalize_excluded(list());
    assert_eq!(once, ["a", "b"]);
    assert_eq!(canonicalize_excluded(once.clone()), once);
}

// ---- diagnostics ----

#[test]
fn country_from_cache_best_effort() {
    assert_eq!(country_from_cache(None), "", "absent file → empty");
    assert_eq!(
        country_from_cache(Some(r#"{ "country": "US", "options": { "outbounds": [] } }"#)),
        "US"
    );
    assert_eq!(
        country_from_cache(Some(r#"{ "options": { "outbounds": [] } }"#)),
        "",
        "no country field → empty"
    );
    assert_eq!(country_from_cache(Some("not json")), "");
    assert_eq!(country_of(Ok(Some(Leaf::Text("DE".into())))), "DE");
    assert_eq!(country_of(Ok(Some(Leaf::Other))), "");
}

#[test]
fn platform_maps_macos_to_darwin() {
    assert_eq!(lantern_platform("macos"), "darwin");
    assert_eq!(lantern_platform("linux"), "linux");
    assert_eq!(lantern_platform("windows"), "windows");
}

#[test]
fn diagnostics_are_opt_in() {
    assert!(!diagnostics_run(None, false));
    assert!(diagnostics_run(None, true));
    assert!(!diagnostics_run(Some("off"), true));
    assert!(diagnostics_run(Some("on"), true));
    assert_eq!(environment(Some("staging")), "staging");
    assert_eq!(environment(Some("Staging")), "prod");
    assert_eq!(environment(None), "prod");
}

// ---- apps ----

#[test]
fn cache_file_is_version_tagged() {
    let expected = format!("{CACHE_BASENAME}.v{CACHE_VERSION}.json");
    assert_eq!(cache_file("/some/base"), format!("/some/base/{expected}"));
}

#[test]
fn prune_removes_old_versions_keeps_current() {
    assert!(!is_stale_cache(&format!("{CACHE_BASENAME}.v{CACHE_VERSION}.json")));
    assert!(is_stale_cache(&format!("{CACHE_BASENAME}.v1.json")));
    assert!(is_stale_cache(&format!("{CACHE_BASENAME}.json")));
    assert!(!is_stale_cache("split_tunnel.json"));
}

#[test]
fn base64_matches_rfc4648_vectors() {
    // RFC 4648 §10 test vectors — including the three padding cases (0/1/2 pad chars).
    assert_eq!(base64_encode(b""), "");
    assert_eq!(base64_encode(b"f"), "Zg==");
    assert_eq!(base64_encode(b"fo"), "Zm8=");
    assert_eq!(base64_encode(b"foo"), "Zm9v");
    assert_eq!(base64_encode(b"foob"), "Zm9vYg==");
    assert_eq!(base64_encode(b"fooba"), "Zm9vYmE=");
    assert_eq!(base64_encode(b"foobar"), "Zm9vYmFy");
}

#[test]
fn base64_encodes_all_byte_values() {
    // Exercises every 6-bit index (0x2b/'+' and 0x2f/'/' among them) via the full byte range.
    let all: Vec<u8> = (0u8..=255).collect();
    let encoded = base64_encode(&all);
    // 256 bytes → ceil(256/3)=86 groups → 344 chars, and it must contain both '+' and '/'.
    assert_eq!(encoded.len(), 344);
    assert!(encoded.contains('+') && encoded.contains('/'));
}

#[test]
fn a_picture_becomes_a_data_url() {
    assert_eq!(sips_png_data_url(b"foo"), "data:image/png;base64,Zm9v");
    assert!(icns_usable(Some(4096)));
    assert!(!icns_usable(Some(4095)));
    assert!(!icns_usable(None));
}

#[test]
fn helpers_and_this_app_are_not_offered() {
    let name = |plist: &str| entry_for_bundle(plist, Some("Stem"), "/A.app");
    assert_eq!(
        name(r#"{"CFBundleExecutable":"x","CFBundleDisplayName":"Shown","CFBundleName":"n"}"#).as_deref(),
        Some("Shown")
    );
    assert_eq!(
        name(r#"{"CFBundleExecutable":"x","CFBundleDisplayName":"","CFBundleName":"Plain"}"#).as_deref(),
        Some("Plain")
    );
    assert_eq!(name(r#"{"CFBundleExecutable":"x"}"#).as_deref(), Some("Stem"));
    assert_eq!(
        entry_for_bundle(r#"{"CFBundleExecutable":"x"}"#, None, "/A.app").as_deref(),
        Some("/A.app")
    );
    assert_eq!(name(r#"{"CFBundleName":"no program"}"#), None);
    assert_eq!(name(r#"{"CFBundleExecutable":"x","LSUIElement":true}"#), None);
    assert_eq!(name(r#"{"CFBundleExecutable":"x","LSBackgroundOnly":"1"}"#), None);
    assert_eq!(
        name(r#"{"CFBundleExecutable":"x","CFBundleIdentifier":"com.apple.Safari"}"#),
        None
    );
    assert_eq!(
        name(r#"{"CFBundleExecutable":"x","CFBundleIdentifier":"org.getlantern.spark"}"#),
        None
    );
    assert_eq!(name("not json"), None);
}

#[test]
fn facts_decide_without_a_property_list() {
    let facts = BundleFacts {
        identifier: None,
        ui_element: Some(Leaf::Text("0".into())),
        background_only: Some(Leaf::Flag(false)),
        executable: Some(Leaf::Text("x".into())),
        display_name: None,
        bundle_name: None,
    };
    assert_eq!(offered_name(&facts, Some("S"), "/S.app").as_deref(), Some("S"));
}

#[test]
fn apps_are_listed_by_name_whatever_its_case() {
    let app = |id: &str, name: &str, icon: Option<&str>| AppEntry {
        id: id.into(),
        name: name.into(),
        icon: icon.map(String::from),
    };
    let list = vec![
        app("/3", "beta", None),
        app("/1", "Alpha", Some("i")),
        app("/2", "ALPHA", None),
        app("/4", "Ärger", None),
    ];
    assert_eq!(
        catalog_text(list),
        r#"[{"id":"/1","name":"Alpha","icon":"i"},{"id":"/2","name":"ALPHA","icon":null},{"id":"/3","name":"beta","icon":null},{"id":"/4","name":"Ärger","icon":null}]"#
    );
    assert_eq!(catalog_text(Vec::new()), "[]");
}

#[test]
fn one_list_is_made_at_a_time() {
    let mut r = Refresh { in_flight: false };
    assert_eq!(r.list_installed_apps(None), Listing::Scan);
    assert_eq!(r.list_installed_apps(Some("{}")), Listing::Scan);
    assert_eq!(r.list_installed_apps(Some("[]")), Listing::KeptAndRefresh);
    assert_eq!(r.list_installed_apps(Some("[]")), Listing::Kept);
    r.done();
    assert_eq!(r.list_installed_apps(Some("[]")), Listing::KeptAndRefresh);
}

#[test]
fn apps_are_looked_for_in_the_users_directory_too() {
    assert_eq!(scan_roots(None).len(), 4);
    let roots = scan_roots(Some("/Users/u"));
    assert_eq!(roots[4], "/Users/u/Applications/Utilities");
    assert_eq!(roots[5], "/Users/u/Applications");
}

#[test]
fn an_icon_is_looked_for_by_its_name_and_then_by_the_usual_one() {
    let named = icon_file(r#"{"CFBundleIconFile":"Firefox"}"#);
    assert_eq!(named.as_deref(), Some("Firefox"));
    assert_eq!(icns_names(named, false), ["Firefox.icns", "AppIcon.icns"]);
    assert_eq!(icns_names(Some("a.png".into()), true), ["a.png", "AppIcon.icns"]);
    assert_eq!(icon_file(r#"{"CFBundleIconFile":""}"#), None);
    assert_eq!(icns_names(None, false), ["AppIcon.icns"]);
    assert!(is_bundle(Some("app")));
    assert!(!is_bundle(Some("App")));
    assert!(!is_bundle(None));
}
