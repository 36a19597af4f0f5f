//! The list of installed apps from which the user picks those that bypass the tunnel.
use vstd::prelude::*;

use crate::json::{self, Json, JsonModel, Leaf, LeafModel};
use crate::text;
use crate::tunnel::crypto;
use crate::ui::config;
use crate::ui::models;

verus! {

/// How the files of the kept list begin.
pub const CACHE_BASENAME: &'static str = "installed_apps_cache";

/// The version of the kept list. It changes with what is listed, so that a list that an older version
/// kept is not shown.
pub const CACHE_VERSION: u32 = 5;

/// An icon file below this size is a placeholder.
pub const MIN_USABLE_ICNS_BYTES: u64 = 4096;

/// The name of the file of the kept list.
pub open spec fn cache_name() -> Seq<char> {
    CACHE_BASENAME@ + ".v"@ + text::decimal(CACHE_VERSION as nat) + ".json"@
}

/// The name of the file of the kept list.
pub fn cache_file_name() -> (s: String)
    ensures
        s@ == cache_name(),
{
    let mut s: String = CACHE_BASENAME.to_owned();
    text::append(&mut s, ".v");
    let n: String = text::decimal_of(CACHE_VERSION as u128);
    text::append(&mut s, n.as_str());
    text::append(&mut s, ".json");
    s
}

/// The file of the kept list.
pub fn cache_file(base: &str) -> (path: String)
    ensures
        path@ == text::path_in(base@, cache_name()),
{
    let name: String = cache_file_name();
    text::join_path(base, name.as_str())
}

/// Whether a file holds a list that another version kept.
pub open spec fn stale(name: Seq<char>) -> bool {
    text::begins(name, CACHE_BASENAME@) && text::ends(name, ".json"@) && name != cache_name()
}

/// Whether a file holds a list that another version kept, and is to be removed.
pub fn is_stale_cache(name: &str) -> (r: bool)
    ensures
        r == stale(name@),
{
    let keep: String = cache_file_name();
    text::starts_with(name, CACHE_BASENAME) && text::ends_with(name, ".json") && !text::same(
        name,
        keep.as_str(),
    )
}

/// The list that is in use is never removed.
pub proof fn lemma_current_list_is_kept()
    ensures
        !stale(cache_name()),
{
}

/// Where apps are looked for, as far as it does not depend on the user.
pub open spec fn fixed_roots() -> Seq<Seq<char>> {
    seq![
        "/Applications"@,
        "/Applications/Utilities"@,
        "/System/Applications"@,
        "/System/Applications/Utilities"@,
    ]
}

/// Where apps are looked for.
pub open spec fn roots(home: Option<Seq<char>>) -> Seq<Seq<char>> {
    match home {
        Some(home) => {
            let apps = text::path_in(home, "Applications"@);
            fixed_roots() + seq![text::path_in(apps, "Utilities"@), apps]
        },
        None => fixed_roots(),
    }
}

/// Where apps are looked for.
pub fn scan_roots(home: Option<&str>) -> (v: Vec<String>)
    ensures
        json::texts(v@) == roots(config::seen(home)),
{
    let mut v: Vec<String> = Vec::new();
    v.push("/Applications".to_owned());
    v.push("/Applications/Utilities".to_owned());
    v.push("/System/Applications".to_owned());
    v.push("/System/Applications/Utilities".to_owned());
    if let Some(home) = home {
        let apps: String = text::join_path(home, "Applications");
        v.push(text::join_path(apps.as_str(), "Utilities"));
        v.push(apps);
    }
    assert(json::texts(v@) =~= roots(config::seen(home)));
    v
}

/// What an app says of itself.
#[derive(Debug)]
pub struct BundleFacts {
    /// Its identifier.
    pub identifier: Option<Leaf>,
    /// Whether it has no window of its own.
    pub ui_element: Option<Leaf>,
    /// Whether it runs in the background only.
    pub background_only: Option<Leaf>,
    /// Its program.
    pub executable: Option<Leaf>,
    /// The name that is shown.
    pub display_name: Option<Leaf>,
    /// Its name.
    pub bundle_name: Option<Leaf>,
}

/// What an app says of itself.
pub struct FactsModel {
    /// Its identifier.
    pub identifier: Option<LeafModel>,
    /// Whether it has no window of its own.
    pub ui_element: Option<LeafModel>,
    /// Whether it runs in the background only.
    pub background_only: Option<LeafModel>,
    /// Its program.
    pub executable: Option<LeafModel>,
    /// The name that is shown.
    pub display_name: Option<LeafModel>,
    /// Its name.
    pub bundle_name: Option<LeafModel>,
}

/// The model of an optional member.
pub open spec fn leaf_view(l: Option<Leaf>) -> Option<LeafModel> {
    match l {
        Some(l) => Some(l@),
        None => None,
    }
}

impl View for BundleFacts {
    type V = FactsModel;

    open spec fn view(&self) -> FactsModel {
        FactsModel {
            identifier: leaf_view(self.identifier),
            ui_element: leaf_view(self.ui_element),
            background_only: leaf_view(self.background_only),
            executable: leaf_view(self.executable),
            display_name: leaf_view(self.display_name),
            bundle_name: leaf_view(self.bundle_name),
        }
    }
}

/// The text in a member.
pub open spec fn leaf_text(l: Option<LeafModel>) -> Option<Seq<char>> {
    match l {
        Some(LeafModel::Text(s)) => Some(s),
        _ => None,
    }
}

/// The text in a member, unless it is empty.
pub open spec fn full_text(l: Option<LeafModel>) -> Option<Seq<char>> {
    match leaf_text(l) {
        Some(s) => if s.len() == 0 {
            None
        } else {
            Some(s)
        },
        None => None,
    }
}

/// Whether a member says yes, as a boolean or in words.
pub open spec fn says_yes(l: Option<LeafModel>) -> bool {
    match l {
        Some(LeafModel::Flag(b)) => b,
        Some(LeafModel::Text(s)) => s == "1"@ || s == "true"@,
        _ => false,
    }
}

/// Whether an app is offered: it has a program, is no helper, and is neither Safari, whose traffic does
/// not come from it, nor this one.
pub open spec fn offered(f: FactsModel) -> bool {
    &&& leaf_text(f.identifier) != Some("com.apple.Safari"@)
    &&& leaf_text(f.identifier) != Some("org.getlantern.spark"@)
    &&& !says_yes(f.ui_element)
    &&& !says_yes(f.background_only)
    &&& full_text(f.executable) is Some
}

/// The name of an app: the one that is shown, else its own, else that of its directory, else its id.
pub open spec fn app_name(f: FactsModel, stem: Option<Seq<char>>, id: Seq<char>) -> Seq<char> {
    match full_text(f.display_name) {
        Some(s) => s,
        None => match full_text(f.bundle_name) {
            Some(s) => s,
            None => match stem {
                Some(s) => s,
                None => id,
            },
        },
    }
}

fn text_of_leaf(l: &Option<Leaf>) -> (r: Option<&str>)
    ensures
        config::seen(r) == leaf_text(leaf_view(*l)),
{
    match l {
        Some(Leaf::Text(s)) => Some(s.as_str()),
        _ => None,
    }
}

fn full_leaf(l: &Option<Leaf>) -> (r: Option<&str>)
    ensures
        config::seen(r) == full_text(leaf_view(*l)),
{
    match l {
        Some(Leaf::Text(s)) => if s.as_str().is_empty() {
            None
        } else {
            Some(s.as_str())
        },
        _ => None,
    }
}

fn yes(l: &Option<Leaf>) -> (r: bool)
    ensures
        r == says_yes(leaf_view(*l)),
{
    match l {
        Some(Leaf::Flag(b)) => *b,
        Some(Leaf::Text(s)) => text::same(s.as_str(), "1") || text::same(s.as_str(), "true"),
        _ => false,
    }
}

/// The name under which an app is offered; nothing where it is not.
pub fn offered_name(f: &BundleFacts, stem: Option<&str>, id: &str) -> (r: Option<String>)
    ensures
        config::seen_string(r) == if offered(f@) {
            Some(app_name(f@, config::seen(stem), id@))
        } else {
            None
        },
{
    if let Some(s) = text_of_leaf(&f.identifier) {
        if text::same(s, "com.apple.Safari") || text::same(s, "org.getlantern.spark") {
            return None;
        }
    }
    if yes(&f.ui_element) || yes(&f.background_only) || full_leaf(&f.executable).is_none() {
        return None;
    }
    let name: &str = match full_leaf(&f.display_name) {
        Some(s) => s,
        None => match full_leaf(&f.bundle_name) {
            Some(s) => s,
            None => match stem {
                Some(s) => s,
                None => id,
            },
        },
    };
    Some(name.to_owned())
}

/// What a property list says under a key: nothing where it is not JSON.
pub open spec fn fact(plist: Seq<char>, key: Seq<char>) -> Option<LeafModel> {
    match json::json_member_of(plist, key) {
        Ok(l) => l,
        Err(_) => None,
    }
}

fn read_fact(plist: &str, key: &str) -> (l: Option<Leaf>)
    ensures
        leaf_view(l) == fact(plist@, key@),
{
    match json::member(plist, key) {
        Ok(l) => l,
        Err(_) => None,
    }
}

/// What a property list says of an app.
pub open spec fn facts_in(plist: Seq<char>) -> FactsModel {
    FactsModel {
        identifier: fact(plist, "CFBundleIdentifier"@),
        ui_element: fact(plist, "LSUIElement"@),
        background_only: fact(plist, "LSBackgroundOnly"@),
        executable: fact(plist, "CFBundleExecutable"@),
        display_name: fact(plist, "CFBundleDisplayName"@),
        bundle_name: fact(plist, "CFBundleName"@),
    }
}

/// What a property list, given as JSON, says of an app.
pub fn read_facts(plist: &str) -> (f: BundleFacts)
    ensures
        f@ == facts_in(plist@),
{
    BundleFacts {
        identifier: read_fact(plist, "CFBundleIdentifier"),
        ui_element: read_fact(plist, "LSUIElement"),
        background_only: read_fact(plist, "LSBackgroundOnly"),
        executable: read_fact(plist, "CFBundleExecutable"),
        display_name: read_fact(plist, "CFBundleDisplayName"),
        bundle_name: read_fact(plist, "CFBundleName"),
    }
}

/// The name under which an app is offered, from its property list.
pub fn entry_for_bundle(plist: &str, stem: Option<&str>, id: &str) -> (r: Option<String>)
    ensures
        config::seen_string(r) == if offered(facts_in(plist@)) {
            Some(app_name(facts_in(plist@), config::seen(stem), id@))
        } else {
            None
        },
{
    offered_name(&read_facts(plist), stem, id)
}

/// Whether a directory is an app, by the extension of its name.
pub fn is_bundle(extension: Option<&str>) -> (r: bool)
    ensures
        r == (config::seen(extension) == Some("app"@)),
{
    match extension {
        Some(e) => text::same(e, "app"),
        None => false,
    }
}

/// The icon file that a property list names.
pub fn icon_file(plist: &str) -> (r: Option<String>)
    ensures
        config::seen_string(r) == full_text(fact(plist@, "CFBundleIconFile"@)),
{
    let l: Option<Leaf> = read_fact(plist, "CFBundleIconFile");
    match full_leaf(&l) {
        Some(s) => Some(s.to_owned()),
        None => None,
    }
}

/// The icon files that are looked for, the first that is there being the one: the file that the property
/// list names, which has its extension added where it has none, and the usual one.
pub open spec fn icon_names(named: Option<Seq<char>>, has_extension: bool) -> Seq<Seq<char>> {
    match named {
        Some(s) => seq![
            if has_extension {
                s
            } else {
                s + ".icns"@
            },
            "AppIcon.icns"@,
        ],
        None => seq!["AppIcon.icns"@],
    }
}

/// The icon files that are looked for, in order.
pub fn icns_names(named: Option<String>, has_extension: bool) -> (v: Vec<String>)
    ensures
        json::texts(v@) == icon_names(config::seen_string(named), has_extension),
{
    let mut v: Vec<String> = Vec::new();
    let ghost before = config::seen_string(named);
    if let Some(s) = named {
        let mut s: String = s;
        if !has_extension {
            text::append(&mut s, ".icns");
        }
        v.push(s);
    }
    v.push("AppIcon.icns".to_owned());
    assert(json::texts(v@) =~= icon_names(before, has_extension));
    v
}

/// Whether an icon file is worth converting, by its size if that could be read.
pub fn icns_usable(size: Option<u64>) -> (r: bool)
    ensures
        r == (size matches Some(n) && n >= MIN_USABLE_ICNS_BYTES),
{
    match size {
        Some(n) => n >= MIN_USABLE_ICNS_BYTES,
        None => false,
    }
}

/// A picture as text that a window can show.
pub fn sips_png_data_url(png: &[u8]) -> (s: String)
    ensures
        s@ == "data:image/png;base64,"@ + crypto::as_chars(crypto::b64_text(png@)),
{
    let mut s: String = "data:image/png;base64,".to_owned();
    let data: String = crypto::base64_encode(png);
    text::append(&mut s, data.as_str());
    s
}

/// One app of the list.
#[derive(Debug)]
pub struct AppEntry {
    /// Its directory, by which its traffic is told.
    pub id: String,
    /// Its name.
    pub name: String,
    /// Its icon, if it has one.
    pub icon: Option<String>,
}

/// One app of the list.
pub struct AppModel {
    /// Its directory.
    pub id: Seq<char>,
    /// Its name.
    pub name: Seq<char>,
    /// Its icon.
    pub icon: Option<Seq<char>>,
}

impl View for AppEntry {
    type V = AppModel;

    open spec fn view(&self) -> AppModel {
        AppModel { id: self.id@, name: self.name@, icon: config::seen_string(self.icon) }
    }
}

/// The apps of a list.
pub open spec fn apps(v: Seq<AppEntry>) -> Seq<AppModel> {
    Seq::new(v.len(), |i: int| v[i]@)
}

/// A text in lower case, as Unicode has it.
pub uninterp spec fn lowercase_of(s: Seq<char>) -> Seq<char>;

/// `str::to_lowercase`: the text in lower case. It depends on the text alone.
#[verifier::external_body]
fn lowercase(s: &str) -> (r: String)
    ensures
        r@ == lowercase_of(s@),
{
    s.to_lowercase()
}

/// Whether a text comes before another, or is the same, by their characters' numbers.
pub open spec fn text_le(a: Seq<char>, b: Seq<char>) -> bool
    decreases a.len(),
{
    if a.len() == 0 {
        true
    } else if b.len() == 0 {
        false
    } else if a[0] != b[0] {
        a[0] < b[0]
    } else {
        text_le(a.drop_first(), b.drop_first())
    }
}

fn not_after(a: &Vec<char>, b: &Vec<char>) -> (r: bool)
    ensures
        r == text_le(a@, b@),
{
    let mut i: usize = 0;
    assert(a@.skip(0) =~= a@);
    assert(b@.skip(0) =~= b@);
    while i < a.len() && i < b.len()
        invariant
            i <= a@.len(),
            i <= b@.len(),
            text_le(a@, b@) == text_le(a@.skip(i as int), b@.skip(i as int)),
        decreases a@.len() - i,
    {
        assert(a@.skip(i as int).drop_first() =~= a@.skip(i + 1));
        assert(b@.skip(i as int).drop_first() =~= b@.skip(i + 1));
        if a[i] != b[i] {
            return a[i] < b[i];
        }
        i = i + 1;
    }
    i == a.len()
}

/// Whether an app may stand before another.
pub open spec fn app_le(a: AppModel, b: AppModel) -> bool {
    text_le(lowercase_of(a.name), lowercase_of(b.name))
}

/// How many of the first apps may stand before one, counted from the end of the list backwards.
pub open spec fn place_for(v: Seq<AppModel>, a: AppModel) -> int
    decreases v.len(),
{
    if v.len() == 0 {
        0
    } else if app_le(v.last(), a) {
        v.len() as int
    } else {
        place_for(v.drop_last(), a)
    }
}

/// The list in the order of the names, whatever their case. Apps with the same name stay as they were.
pub open spec fn in_order(v: Seq<AppModel>) -> Seq<AppModel>
    decreases v.len(),
{
    if v.len() == 0 {
        Seq::empty()
    } else {
        let before = in_order(v.drop_last());
        before.insert(place_for(before, v.last()), v.last())
    }
}

proof fn lemma_place(v: Seq<AppModel>, a: AppModel)
    ensures
        0 <= place_for(v, a) <= v.len(),
        place_for(v, a) > 0 ==> app_le(v[place_for(v, a) - 1], a),
        forall|i: int| place_for(v, a) <= i < v.len() ==> !app_le(#[trigger] v[i], a),
    decreases v.len(),
{
    if v.len() > 0 && !app_le(v.last(), a) {
        let rest = v.drop_last();
        lemma_place(rest, a);
        assert forall|i: int| place_for(v, a) <= i < v.len() implies !app_le(#[trigger] v[i], a) by {
            if i < rest.len() {
                assert(v[i] == rest[i]);
            }
        }
        if place_for(v, a) > 0 {
            assert(rest[place_for(v, a) - 1] == v[place_for(v, a) - 1]);
        }
    }
}

fn find_place(keys: &Vec<Vec<char>>, key: &Vec<char>, Ghost(v): Ghost<Seq<AppModel>>, Ghost(a): Ghost<
    AppModel,
>) -> (at: usize)
    requires
        keys@.len() == v.len(),
        forall|i: int|
            0 <= i < v.len() ==> (#[trigger] keys@[i])@ == lowercase_of(v[i].name),
        key@ == lowercase_of(a.name),
    ensures
        at == place_for(v, a),
        at <= v.len(),
{
    let mut at: usize = keys.len();
    assert(v.take(at as int) =~= v);
    while at > 0
        invariant
            at <= v.len(),
            keys@.len() == v.len(),
            forall|i: int|
                0 <= i < v.len() ==> (#[trigger] keys@[i])@ == lowercase_of(v[i].name),
            key@ == lowercase_of(a.name),
            place_for(v, a) == place_for(v.take(at as int), a),
        decreases at,
    {
        assert(v.take(at as int).drop_last() =~= v.take(at - 1));
        assert(v.take(at as int).last() == v[at - 1]);
        assert(keys@[at - 1]@ == lowercase_of(v[at - 1].name));
        if not_after(&keys[at - 1], key) {
            return at;
        }
        at = at - 1;
    }
    at
}

/// Puts the list in the order of the names.
pub fn sort_apps(list: Vec<AppEntry>) -> (out: Vec<AppEntry>)
    ensures
        apps(out@) == in_order(apps(list@)),
{
    let ghost all = apps(list@);
    let mut rest: Vec<AppEntry> = list;
    let n: usize = rest.len();
    let mut out: Vec<AppEntry> = Vec::new();
    let mut keys: Vec<Vec<char>> = Vec::new();
    let mut i: usize = 0;
    assert(all.take(0) =~= Seq::empty());
    assert(apps(out@) =~= Seq::empty());
    assert(rest@ =~= list@.skip(0));
    while i < n
        invariant
            i <= n,
            n == list@.len(),
            all == apps(list@),
            rest@ == list@.skip(i as int),
            apps(out@) == in_order(all.take(i as int)),
            out@.len() == i,
            keys@.len() == i,
            forall|j: int|
                0 <= j < i ==> (#[trigger] keys@[j])@ == lowercase_of(apps(out@)[j].name),
        decreases n - i,
    {
        let e: AppEntry = rest.remove(0);
        assert(e == list@[i as int]);
        assert(rest@ =~= list@.skip(i + 1));
        assert(all.take(i + 1).drop_last() =~= all.take(i as int));
        assert(all.take(i + 1).last() == e@);
        let lower: String = lowercase(e.name.as_str());
        let key: Vec<char> = text::chars_of(lower.as_str());
        let ghost before = apps(out@);
        let at: usize = find_place(&keys, &key, Ghost(before), Ghost(e@));
        keys.insert(at, key);
        let ghost model = e@;
        out.insert(at, e);
        assert(apps(out@) =~= before.insert(at as int, model));
        i = i + 1;
    }
    assert(all.take(i as int) =~= all);
    out
}

/// The list of apps as JSON.
pub open spec fn apps_json(v: Seq<AppModel>) -> JsonModel {
    JsonModel::List(Seq::new(v.len(), |i: int| app_json(v[i])))
}

/// An app as JSON.
pub open spec fn app_json(a: AppModel) -> JsonModel {
    JsonModel::Object(
        seq![
            ("id"@, JsonModel::Text(a.id)),
            ("name"@, JsonModel::Text(a.name)),
            (
                "icon"@,
                match a.icon {
                    Some(s) => JsonModel::Text(s),
                    None => JsonModel::Null,
                },
            ),
        ],
    )
}

fn entry_json(e: &AppEntry) -> (j: Json)
    ensures
        j@ == app_json(e@),
{
    let mut v: Vec<(String, Json)> = Vec::new();
    assert(models::members_view(v@) =~= Seq::empty());
    models::add_member(&mut v, "id", models::text_json(e.id.as_str()));
    models::add_member(&mut v, "name", models::text_json(e.name.as_str()));
    let icon: Json = match &e.icon {
        Some(s) => models::text_json(s.as_str()),
        None => Json::Null,
    };
    models::add_member(&mut v, "icon", icon);
    assert(models::members_view(v@) =~= app_json(e@)->Object_0);
    models::object_json(v)
}

/// The list of apps, in order, as text.
pub fn catalog_text(list: Vec<AppEntry>) -> (s: String)
    ensures
        s@ == json::json_text(apps_json(in_order(apps(list@)))),
{
    let sorted: Vec<AppEntry> = sort_apps(list);
    let mut v: Vec<Json> = Vec::new();
    let mut i: usize = 0;
    while i < sorted.len()
        invariant
            i <= sorted@.len(),
            v@.len() == i,
            forall|k: int| 0 <= k < i ==> (#[trigger] v@[k])@ == app_json(sorted@[k]@),
        decreases sorted@.len() - i,
    {
        v.push(entry_json(&sorted[i]));
        i = i + 1;
    }
    let j: Json = Json::List(v);
    assert(j@->List_0 =~= apps_json(apps(sorted@))->List_0);
    json::to_text(&j)
}

/// What to do when the list is asked for.
#[derive(Debug, PartialEq, Eq, Structural, Clone, Copy)]
pub enum Listing {
    /// Show the kept list, and make a new one for the next time.
    KeptAndRefresh,
    /// Show the kept list; a new one is being made.
    Kept,
    /// Make the list now.
    Scan,
}

/// Whether a list is being made for the next time.
#[derive(Debug)]
pub struct Refresh {
    /// One is.
    pub in_flight: bool,
}

impl Refresh {
    /// What to do when the list is asked for, given whether there is a kept one: one new list is made at
    /// a time.
    pub fn listing(&mut self, kept: bool) -> (r: Listing)
        ensures
            r == if !kept {
                Listing::Scan
            } else if old(self).in_flight {
                Listing::Kept
            } else {
                Listing::KeptAndRefresh
            },
            final(self).in_flight == (old(self).in_flight || kept),
    {
        if !kept {
            Listing::Scan
        } else if self.in_flight {
            Listing::Kept
        } else {
            self.in_flight = true;
            Listing::KeptAndRefresh
        }
    }

    /// The new list is made.
    pub fn done(&mut self)
        ensures
            !final(self).in_flight,
    {
        self.in_flight = false;
    }

    /// What to do when the list is asked for, given what the file of the kept one holds: what is not a
    /// JSON array is no list.
    pub fn list_installed_apps(&mut self, file: Option<&str>) -> (r: Listing)
        ensures
            ({
                let kept = file matches Some(s) && json::json_is_list(s@);
                &&& r == if !kept {
                    Listing::Scan
                } else if old(self).in_flight {
                    Listing::Kept
                } else {
                    Listing::KeptAndRefresh
                }
                &&& final(self).in_flight == (old(self).in_flight || kept)
            }),
    {
        let kept: bool = match file {
            Some(s) => json::is_list(s),
            None => false,
        };
        self.listing(kept)
    }
}

/// The names of a list that is in order do not fall.
pub proof fn lemma_names_do_not_fall(v: Seq<AppModel>)
    ensures
        forall|i: int, j: int|
            0 <= i < j < in_order(v).len() ==> app_le(
                #[trigger] in_order(v)[i],
                #[trigger] in_order(v)[j],
            ),
        in_order(v).len() == v.len(),
    decreases v.len(),
{
    if v.len() > 0 {
        lemma_names_do_not_fall(v.drop_last());
        let before = in_order(v.drop_last());
        let a = v.last();
        let at = place_for(before, a);
        lemma_place(before, a);
        let now = in_order(v);
        assert forall|i: int, j: int| 0 <= i < j < now.len() implies app_le(
            #[trigger] now[i],
            #[trigger] now[j],
        ) by {
            let p = if i < at {
                i
            } else {
                i - 1
            };
            let q = if j < at {
                j
            } else {
                j - 1
            };
            if i == at {
                assert(!app_le(before[q], a));
                lemma_text_total(lowercase_of(a.name), lowercase_of(before[q].name));
            } else if j == at {
                assert(now[i] == before[i]);
                if i < at - 1 {
                    assert(app_le(before[i], before[at - 1]));
                    lemma_text_transitive(
                        lowercase_of(before[i].name),
                        lowercase_of(before[at - 1].name),
                        lowercase_of(a.name),
                    );
                }
            } else {
                assert(app_le(before[p], before[q]));
            }
        }
    }
}

/// Putting a list in order loses no app and adds none.
pub proof fn lemma_order_keeps_the_apps(v: Seq<AppModel>)
    ensures
        in_order(v).to_multiset() == v.to_multiset(),
    decreases v.len(),
{
    broadcast use vstd::seq_lib::group_to_multiset_ensures;

    if v.len() > 0 {
        lemma_order_keeps_the_apps(v.drop_last());
        let before = in_order(v.drop_last());
        lemma_place(before, v.last());
        let at = place_for(before, v.last());
        assert(v =~= v.drop_last().push(v.last()));
        vstd::seq_lib::to_multiset_insert(before, at, v.last());
    }
}

proof fn lemma_text_total(a: Seq<char>, b: Seq<char>)
    ensures
        text_le(a, b) || text_le(b, a),
    decreases a.len(),
{
    if a.len() > 0 && b.len() > 0 && a[0] == b[0] {
        lemma_text_total(a.drop_first(), b.drop_first());
    }
}

proof fn lemma_text_transitive(a: Seq<char>, b: Seq<char>, c: Seq<char>)
    requires
        text_le(a, b),
        text_le(b, c),
    ensures
        text_le(a, c),
    decreases a.len(),
{
    if a.len() > 0 && b.len() > 0 && c.len() > 0 && a[0] == b[0] && b[0] == c[0] {
        lemma_text_transitive(a.drop_first(), b.drop_first(), c.drop_first());
    }
}

/// A property says yes where it is true, or spells a yes.
pub open spec fn means_yes(l: Option<LeafModel>) -> bool {
    ||| l == Some(LeafModel::Flag(true))
    ||| l == Some(LeafModel::Text("1"@))
    ||| l == Some(LeafModel::Text("true"@))
}

/// An app is offered just where it has a program and is none of these: a helper without a window, one
/// that runs in the background, Safari, and this app. What its property list says of anything else does
/// not matter.
pub proof fn lemma_offered_apps_can_be_told(f: FactsModel)
    ensures
        offered(f) <==> {
            &&& !means_yes(f.ui_element)
            &&& !means_yes(f.background_only)
            &&& f.identifier != Some(LeafModel::Text("com.apple.Safari"@))
            &&& f.identifier != Some(LeafModel::Text("org.getlantern.spark"@))
            &&& f.executable matches Some(LeafModel::Text(s)) && s.len() > 0
        },
{
}

/// The name of an app is the one that it shows; without one its own; without one that of its directory;
/// and at last its id. Empty names and other kinds of values do not count.
pub proof fn lemma_app_has_the_first_name(f: FactsModel, stem: Option<Seq<char>>, id: Seq<char>)
    ensures
        ({
            let name = app_name(f, stem, id);
            let shown = f.display_name matches Some(LeafModel::Text(s)) && s.len() > 0;
            let own = f.bundle_name matches Some(LeafModel::Text(s)) && s.len() > 0;
            &&& shown ==> f.display_name == Some(LeafModel::Text(name))
            &&& !shown && own ==> f.bundle_name == Some(LeafModel::Text(name))
            &&& !shown && !own && stem is Some ==> stem == Some(name)
            &&& !shown && !own && stem is None ==> name == id
        }),
{
}

} // verus!
