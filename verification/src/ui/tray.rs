//! The menu in the system tray: how it is built, how it follows the tunnel, what a click asks for.
use vstd::prelude::*;

use crate::json;
use crate::text;
use crate::ui::labels;
use crate::ui::models::{ServerInfo, Status};
use crate::ui::pins::{self, SelectedServer};

verus! {

/// How often the menu is brought up to date (ms).
pub const TRAY_POLL_MS: u64 = 1500;

/// The place of the sharing block in the menu: a separator, a status line and a toggle.
pub const UNBOUNDED_BLOCK_AT: usize = 7;

/// An item with a check mark.
#[derive(Debug)]
pub struct CheckItem {
    /// Its id.
    pub id: String,
    /// Its label.
    pub label: String,
    /// Whether it is marked.
    pub checked: bool,
}

/// What an item with a check mark shows.
pub struct CheckModel {
    /// Its id.
    pub id: Seq<char>,
    /// Its label.
    pub label: Seq<char>,
    /// Whether it is marked.
    pub checked: bool,
}

impl View for CheckItem {
    type V = CheckModel;

    open spec fn view(&self) -> CheckModel {
        CheckModel { id: self.id@, label: self.label@, checked: self.checked }
    }
}

/// One entry of the menu.
#[derive(Debug)]
pub enum MenuEntry {
    /// An item that can be clicked where it is enabled.
    Text {
        /// Its id.
        id: String,
        /// Its label.
        label: String,
        /// Whether it can be clicked.
        enabled: bool,
    },
    /// An item with a check mark.
    Check(CheckItem),
    /// A line between groups.
    Separator,
    /// A menu of items with check marks.
    Submenu {
        /// Its id.
        id: String,
        /// Its label.
        label: String,
        /// Its items.
        items: Vec<CheckItem>,
    },
}

/// What an entry of the menu shows.
pub enum EntryModel {
    /// An item that can be clicked where it is enabled.
    Text {
        /// Its id.
        id: Seq<char>,
        /// Its label.
        label: Seq<char>,
        /// Whether it can be clicked.
        enabled: bool,
    },
    /// An item with a check mark.
    Check(CheckModel),
    /// A line between groups.
    Separator,
    /// A menu of items with check marks.
    Submenu {
        /// Its id.
        id: Seq<char>,
        /// Its label.
        label: Seq<char>,
        /// Its items.
        items: Seq<CheckModel>,
    },
}

/// What items with check marks show.
pub open spec fn checks(v: Seq<CheckItem>) -> Seq<CheckModel> {
    Seq::new(v.len(), |i: int| v[i]@)
}

impl View for MenuEntry {
    type V = EntryModel;

    open spec fn view(&self) -> EntryModel {
        match *self {
            MenuEntry::Text { id, label, enabled } => EntryModel::Text {
                id: id@,
                label: label@,
                enabled,
            },
            MenuEntry::Check(item) => EntryModel::Check(item@),
            MenuEntry::Separator => EntryModel::Separator,
            MenuEntry::Submenu { id, label, items } => EntryModel::Submenu {
                id: id@,
                label: label@,
                items: checks(items@),
            },
        }
    }
}

/// What the entries of a menu show.
pub open spec fn entries(v: Seq<MenuEntry>) -> Seq<EntryModel> {
    Seq::new(v.len(), |i: int| v[i]@)
}

/// What the tray shows of the tunnel.
#[derive(Debug)]
pub struct TrayState {
    /// The status.
    pub status: Status,
    /// The pool.
    pub servers: Vec<ServerInfo>,
    /// The routing mode.
    pub routing: String,
    /// Whether advertisements are blocked.
    pub adblock: bool,
    /// The chosen server.
    pub selected: Option<usize>,
}

/// What the tray shows of sharing.
#[derive(Debug, Clone, Copy)]
pub struct Sharing {
    /// The server allows it.
    pub available: bool,
    /// It is on.
    pub enabled: bool,
    /// How many are being helped.
    pub helping: usize,
}

/// The state from what could be read: what could not is taken to be disconnected, without servers,
/// routed smartly, with advertisements blocked. The remembered pin follows the servers first.
pub fn read_state(
    status: Option<Status>,
    servers: Option<Vec<ServerInfo>>,
    routing: Option<String>,
    adblock: Option<bool>,
    pin: &mut SelectedServer,
) -> (state: TrayState)
    ensures
        match status {
            Some(s) => state.status == s,
            None => state.status.state@ == "disconnected"@ && state.status.protocol@ == ""@
                && !state.status.fail_open,
        },
        state.servers@ == match servers {
            Some(v) => v@,
            None => Seq::empty(),
        },
        match routing {
            Some(r) => state.routing == r,
            None => state.routing@ == "smart"@,
        },
        state.adblock == match adblock {
            Some(b) => b,
            None => true,
        },
        final(pin).0 == pins::synced(old(pin).0, state.servers@),
        state.selected == final(pin).0,
{
    let status: Status = match status {
        Some(s) => s,
        None => Status {
            state: "disconnected".to_owned(),
            protocol: "".to_owned(),
            fail_open: false,
        },
    };
    let servers: Vec<ServerInfo> = match servers {
        Some(v) => v,
        None => Vec::new(),
    };
    let routing: String = match routing {
        Some(r) => r,
        None => "smart".to_owned(),
    };
    let adblock: bool = match adblock {
        Some(b) => b,
        None => true,
    };
    pin.sync(servers.as_slice());
    TrayState { status, servers, routing, adblock, selected: pin.0 }
}

/// The pins of the location items: automatic first, then the pool in order.
pub open spec fn pins_of(servers: Seq<ServerInfo>) -> Seq<Option<usize>> {
    seq![None] + Seq::new(servers.len(), |i: int| Some(servers[i].index))
}

/// The labels of the location items.
pub open spec fn location_labels(servers: Seq<ServerInfo>) -> Seq<Seq<char>> {
    seq!["Smart Location"@] + Seq::new(servers.len(), |i: int| labels::label_of(servers[i]))
}

/// The location items: the one whose pin is chosen is marked.
pub open spec fn locations_of(servers: Seq<ServerInfo>, selected: Option<usize>) -> Seq<CheckModel> {
    Seq::new(
        servers.len() + 1,
        |i: int|
            CheckModel {
                id: labels::loc_id(pins_of(servers)[i]),
                label: location_labels(servers)[i],
                checked: pins_of(servers)[i] == selected,
            },
    )
}

/// What tells the servers of a pool apart.
pub open spec fn sigs_of(servers: Seq<ServerInfo>) -> Seq<Seq<char>> {
    Seq::new(servers.len(), |i: int| labels::sig_of(servers[i]))
}

/// The location items.
pub fn build_location_items(servers: &[ServerInfo], selected: Option<usize>) -> (items: Vec<
    CheckItem,
>)
    ensures
        checks(items@) == locations_of(servers@, selected),
{
    let mut items: Vec<CheckItem> = Vec::new();
    items.push(
        CheckItem {
            id: labels::loc_menu_id(None),
            label: "Smart Location".to_owned(),
            checked: selected.is_none(),
        },
    );
    let ghost all = locations_of(servers@, selected);
    let mut i: usize = 0;
    assert(checks(items@) =~= all.take(1));
    while i < servers.len()
        invariant
            i <= servers@.len(),
            all == locations_of(servers@, selected),
            checks(items@) == all.take(i + 1),
        decreases servers@.len() - i,
    {
        let s: &ServerInfo = &servers[i];
        let checked: bool = match selected {
            Some(chosen) => chosen == s.index,
            None => false,
        };
        let ghost before = items@;
        items.push(
            CheckItem {
                id: labels::loc_menu_id(Some(s.index)),
                label: labels::server_label(s),
                checked,
            },
        );
        assert(checks(items@) =~= checks(before).push(items@.last()@));
        assert(items@.last()@ == all[i + 1]);
        assert(checks(items@) =~= all.take(i + 2));
        i = i + 1;
    }
    assert(all.take(i + 1) =~= all);
    items
}

fn server_sigs(servers: &[ServerInfo]) -> (v: Vec<String>)
    ensures
        json::texts(v@) == sigs_of(servers@),
{
    let mut v: Vec<String> = Vec::new();
    let mut i: usize = 0;
    while i < servers.len()
        invariant
            i <= servers@.len(),
            v@.len() == i,
            forall|j: int| 0 <= j < i ==> (#[trigger] v@[j])@ == labels::sig_of(servers@[j]),
        decreases servers@.len() - i,
    {
        v.push(labels::server_sig(&servers[i]));
        i = i + 1;
    }
    assert(json::texts(v@) =~= sigs_of(servers@));
    v
}

fn server_pins(servers: &[ServerInfo]) -> (v: Vec<Option<usize>>)
    ensures
        v@ == pins_of(servers@),
{
    let mut v: Vec<Option<usize>> = Vec::new();
    v.push(None);
    let mut i: usize = 0;
    while i < servers.len()
        invariant
            i <= servers@.len(),
            v@ == pins_of(servers@).take(i + 1),
        decreases servers@.len() - i,
    {
        v.push(Some(servers[i].index));
        assert(v@ =~= pins_of(servers@).take(i + 2));
        i = i + 1;
    }
    assert(pins_of(servers@).take(i + 1) =~= pins_of(servers@));
    v
}

/// What the menu shows of the tunnel.
pub struct ShownModel {
    /// The state of the tunnel.
    pub state: Seq<char>,
    /// The pool.
    pub servers: Seq<ServerInfo>,
    /// The routing mode.
    pub routing: Seq<char>,
    /// Whether advertisements are blocked.
    pub adblock: bool,
    /// The chosen server.
    pub selected: Option<usize>,
}

impl View for TrayState {
    type V = ShownModel;

    open spec fn view(&self) -> ShownModel {
        ShownModel {
            state: self.status.state@,
            servers: self.servers@,
            routing: self.routing@,
            adblock: self.adblock,
            selected: self.selected,
        }
    }
}

/// An item that can always be clicked.
pub open spec fn plain(id: Seq<char>, label: Seq<char>) -> EntryModel {
    EntryModel::Text { id, label, enabled: true }
}

/// The head of the menu, which cannot be clicked.
pub open spec fn header_entry(s: ShownModel) -> EntryModel {
    EntryModel::Text {
        id: "header"@,
        label: labels::header_of(s.state, s.servers, s.selected),
        enabled: false,
    }
}

/// The item that connects and disconnects.
pub open spec fn toggle_entry(s: ShownModel) -> EntryModel {
    let (label, _, enabled) = labels::toggle_of(s.state);
    EntryModel::Text { id: "toggle"@, label, enabled }
}

/// The menu of locations.
pub open spec fn location_entry(items: Seq<CheckModel>) -> EntryModel {
    EntryModel::Submenu { id: "submenu-location"@, label: "Select Location"@, items }
}

/// The menu of routing modes.
pub open spec fn routing_entry(smart: bool, full: bool) -> EntryModel {
    EntryModel::Submenu {
        id: "submenu-routing"@,
        label: "Routing Mode"@,
        items: seq![
            CheckModel { id: "routing:smart"@, label: "Smart"@, checked: smart },
            CheckModel { id: "routing:full"@, label: "Full"@, checked: full },
        ],
    }
}

/// The item for blocking advertisements.
pub open spec fn adblock_entry(checked: bool) -> EntryModel {
    EntryModel::Check(CheckModel { id: "adblock"@, label: "Ad Blocking"@, checked })
}

/// What comes before the sharing block.
pub open spec fn top(s: ShownModel) -> Seq<EntryModel> {
    seq![
        header_entry(s),
        toggle_entry(s),
        EntryModel::Separator,
        location_entry(locations_of(s.servers, s.selected)),
        routing_entry(s.routing == "smart"@, s.routing == "full"@),
        adblock_entry(s.adblock),
        plain("split"@, "Split Tunneling…"@),
    ]
}

/// The sharing block: a separator, a status line and a toggle, which can be clicked where the server
/// allows sharing.
pub open spec fn block(sharing: Sharing) -> Seq<EntryModel> {
    seq![
        EntryModel::Separator,
        EntryModel::Text {
            id: "unbounded_status"@,
            label: labels::sharing_status(
                sharing.available,
                sharing.enabled,
                sharing.helping as nat,
            ),
            enabled: false,
        },
        EntryModel::Text {
            id: "unbounded_toggle"@,
            label: labels::sharing_toggle(sharing.enabled),
            enabled: sharing.available,
        },
    ]
}

/// What comes after the sharing block.
pub open spec fn bottom() -> Seq<EntryModel> {
    seq![EntryModel::Separator, plain("show"@, "Show Spark"@), plain("quit"@, "Quit Spark"@)]
}

/// The whole menu.
pub open spec fn menu_of(s: ShownModel, sharing: Sharing, shown: bool) -> Seq<EntryModel> {
    if shown {
        top(s) + block(sharing) + bottom()
    } else {
        top(s) + bottom()
    }
}

/// What the tray remembers of the menu that is up: whether it holds the sharing block, and which pool
/// its locations were made from.
#[derive(Debug)]
pub struct Tray {
    shown: bool,
    sig: Vec<String>,
    pins: Vec<Option<usize>>,
}

/// What the tray remembers.
#[verifier::ext_equal]
pub struct TrayModel {
    /// Whether the menu holds the sharing block.
    pub shown: bool,
    /// What tells the servers of its pool apart.
    pub sig: Seq<Seq<char>>,
    /// The pins of its location items.
    pub pins: Seq<Option<usize>>,
}

impl View for Tray {
    type V = TrayModel;

    closed spec fn view(&self) -> TrayModel {
        TrayModel { shown: self.shown, sig: json::texts(self.sig@), pins: self.pins@ }
    }
}

/// What the tray remembers of a menu.
pub open spec fn remembered(servers: Seq<ServerInfo>, shown: bool) -> TrayModel {
    TrayModel { shown, sig: sigs_of(servers), pins: pins_of(servers) }
}

fn text_entry(id: &str, label: &str, enabled: bool) -> (e: MenuEntry)
    ensures
        e@ == (EntryModel::Text { id: id@, label: label@, enabled }),
{
    MenuEntry::Text { id: id.to_owned(), label: label.to_owned(), enabled }
}

fn check_item(id: &str, label: &str, checked: bool) -> (e: CheckItem)
    ensures
        e@ == (CheckModel { id: id@, label: label@, checked }),
{
    CheckItem { id: id.to_owned(), label: label.to_owned(), checked }
}

fn submenu(id: &str, label: &str, items: Vec<CheckItem>) -> (e: MenuEntry)
    ensures
        e@ == (EntryModel::Submenu { id: id@, label: label@, items: checks(items@) }),
{
    MenuEntry::Submenu { id: id.to_owned(), label: label.to_owned(), items }
}

fn add_entry(menu: &mut Vec<MenuEntry>, e: MenuEntry)
    ensures
        entries(final(menu)@) == entries(old(menu)@).push(e@),
{
    menu.push(e);
    assert(entries(menu@) =~= entries(old(menu)@).push(e@));
}

fn add_top(menu: &mut Vec<MenuEntry>, s: &TrayState)
    ensures
        entries(final(menu)@) == entries(old(menu)@) + top(s@),
{
    let ghost before = entries(menu@);
    let header: String = labels::header_label(&s.status, s.servers.as_slice(), s.selected);
    add_entry(menu, text_entry("header", header.as_str(), false));
    let (label, _, enabled) = labels::connect_item(s.status.state.as_str());
    add_entry(menu, text_entry("toggle", label, enabled));
    add_entry(menu, MenuEntry::Separator);
    let items: Vec<CheckItem> = build_location_items(s.servers.as_slice(), s.selected);
    add_entry(menu, submenu("submenu-location", "Select Location", items));
    let mut modes: Vec<CheckItem> = Vec::new();
    modes.push(check_item("routing:smart", "Smart", text::same(s.routing.as_str(), "smart")));
    modes.push(check_item("routing:full", "Full", text::same(s.routing.as_str(), "full")));
    assert(checks(modes@) =~= routing_entry(
        s.routing@ == "smart"@,
        s.routing@ == "full"@,
    )->Submenu_items);
    add_entry(menu, submenu("submenu-routing", "Routing Mode", modes));
    add_entry(menu, MenuEntry::Check(check_item("adblock", "Ad Blocking", s.adblock)));
    add_entry(menu, text_entry("split", "Split Tunneling…", true));
    assert(entries(menu@) =~= before + top(s@));
}

fn add_block(menu: &mut Vec<MenuEntry>, sharing: Sharing)
    ensures
        entries(final(menu)@) == entries(old(menu)@) + block(sharing),
{
    let ghost before = entries(menu@);
    add_entry(menu, MenuEntry::Separator);
    let status: String = labels::unbounded_status_text(
        sharing.available,
        sharing.enabled,
        sharing.helping,
    );
    add_entry(menu, text_entry("unbounded_status", status.as_str(), false));
    add_entry(
        menu,
        text_entry(
            "unbounded_toggle",
            labels::unbounded_toggle_label(sharing.enabled),
            sharing.available,
        ),
    );
    assert(entries(menu@) =~= before + block(sharing));
}

/// Builds the menu, and what the tray remembers of it.
pub fn build_menu(s: &TrayState, sharing: Sharing, shown: bool) -> (r: (Vec<MenuEntry>, Tray))
    ensures
        entries(r.0@) == menu_of(s@, sharing, shown),
        r.1@ == remembered(s.servers@, shown),
{
    let mut menu: Vec<MenuEntry> = Vec::new();
    assert(entries(menu@) =~= Seq::empty());
    add_top(&mut menu, s);
    assert(entries(menu@) =~= top(s@));
    if shown {
        add_block(&mut menu, sharing);
    }
    let ghost before = entries(menu@);
    add_entry(&mut menu, MenuEntry::Separator);
    add_entry(&mut menu, text_entry("show", "Show Spark", true));
    add_entry(&mut menu, text_entry("quit", "Quit Spark", true));
    assert(entries(menu@) =~= before + bottom());
    assert(entries(menu@) =~= menu_of(s@, sharing, shown));
    let tray: Tray = Tray {
        shown,
        sig: server_sigs(s.servers.as_slice()),
        pins: server_pins(s.servers.as_slice()),
    };
    (menu, tray)
}

/// What is to become of the location items.
#[derive(Debug)]
pub enum LocationPatch {
    /// The items stay; these are their marks.
    Marks(Vec<bool>),
    /// The pool has changed; these items replace the others.
    Rebuild(Vec<CheckItem>),
}

/// What is to become of the location items.
pub enum LocationPatchModel {
    /// The items stay; these are their marks.
    Marks(Seq<bool>),
    /// The pool has changed; these items replace the others.
    Rebuild(Seq<CheckModel>),
}

impl View for LocationPatch {
    type V = LocationPatchModel;

    open spec fn view(&self) -> LocationPatchModel {
        match *self {
            LocationPatch::Marks(v) => LocationPatchModel::Marks(v@),
            LocationPatch::Rebuild(v) => LocationPatchModel::Rebuild(checks(v@)),
        }
    }
}

/// What brings the menu that is up to date.
#[derive(Debug)]
pub struct Patch {
    /// The text of the head.
    pub header: String,
    /// The label of the item that connects and disconnects.
    pub toggle: &'static str,
    /// Whether it can be clicked.
    pub toggle_enabled: bool,
    /// Whether smart routing is marked.
    pub routing_smart: bool,
    /// Whether full routing is marked.
    pub routing_full: bool,
    /// Whether blocking of advertisements is marked.
    pub adblock: bool,
    /// Whether the sharing block is to be put in or taken out, where that has changed.
    pub block: Option<bool>,
    /// The status line of sharing.
    pub sharing_status: String,
    /// The label of the item that starts and stops sharing.
    pub sharing_toggle: &'static str,
    /// Whether it can be clicked.
    pub sharing_enabled: bool,
    /// The location items.
    pub locations: LocationPatch,
}

/// The marks of location items.
pub open spec fn marks(pins: Seq<Option<usize>>, selected: Option<usize>) -> Seq<bool> {
    Seq::new(pins.len(), |i: int| pins[i] == selected)
}

/// What brings a menu of the remembered shape up to date: the block moves only where its presence has
/// changed, and the locations are made anew only where the pool has.
pub open spec fn patch_of(
    tray: TrayModel,
    s: ShownModel,
    sharing: Sharing,
    shown: bool,
    p: Patch,
) -> bool {
    &&& p.header@ == labels::header_of(s.state, s.servers, s.selected)
    &&& (p.toggle@, p.toggle_enabled) == (labels::toggle_of(s.state).0, labels::toggle_of(
        s.state,
    ).2)
    &&& p.routing_smart == (s.routing == "smart"@)
    &&& p.routing_full == (s.routing == "full"@)
    &&& p.adblock == s.adblock
    &&& p.block == if tray.shown != shown {
        Some(shown)
    } else {
        None
    }
    &&& p.sharing_status@ == labels::sharing_status(
        sharing.available,
        sharing.enabled,
        sharing.helping as nat,
    )
    &&& p.sharing_toggle@ == labels::sharing_toggle(sharing.enabled)
    &&& p.sharing_enabled == sharing.available
    &&& p.locations@ == if tray.sig == sigs_of(s.servers) {
        LocationPatchModel::Marks(marks(tray.pins, s.selected))
    } else {
        LocationPatchModel::Rebuild(locations_of(s.servers, s.selected))
    }
}

fn same_texts(a: &Vec<String>, b: &Vec<String>) -> (r: bool)
    ensures
        r == (json::texts(a@) == json::texts(b@)),
{
    if a.len() != b.len() {
        assert(json::texts(a@).len() != json::texts(b@).len());
        return false;
    }
    let mut i: usize = 0;
    while i < a.len()
        invariant
            i <= a@.len(),
            a@.len() == b@.len(),
            forall|j: int| 0 <= j < i ==> (#[trigger] a@[j])@ == b@[j]@,
        decreases a@.len() - i,
    {
        if !text::same(a[i].as_str(), b[i].as_str()) {
            assert(json::texts(a@)[i as int] != json::texts(b@)[i as int]);
            return false;
        }
        i = i + 1;
    }
    assert(json::texts(a@) =~= json::texts(b@));
    true
}

fn same_pin(a: Option<usize>, b: Option<usize>) -> (r: bool)
    ensures
        r == (a == b),
{
    match (a, b) {
        (Some(x), Some(y)) => x == y,
        (None, None) => true,
        _ => false,
    }
}

impl Tray {
    /// Whether the menu holds the sharing block.
    pub fn shown(&self) -> (b: bool)
        ensures
            b == self@.shown,
    {
        self.shown
    }

    /// The marks of the location items once a location is chosen.
    pub fn marks_for(&self, selected: Option<usize>) -> (v: Vec<bool>)
        ensures
            v@ == marks(self@.pins, selected),
    {
        let mut v: Vec<bool> = Vec::new();
        let mut i: usize = 0;
        while i < self.pins.len()
            invariant
                i <= self.pins@.len(),
                v@ == marks(self.pins@, selected).take(i as int),
            decreases self.pins@.len() - i,
        {
            v.push(same_pin(self.pins[i], selected));
            assert(v@ =~= marks(self.pins@, selected).take(i + 1));
            i = i + 1;
        }
        assert(v@ =~= marks(self.pins@, selected));
        v
    }

    /// What brings the menu up to date. The tray's memory changes only once that was done.
    pub fn refresh(&self, s: &TrayState, sharing: Sharing, shown: bool) -> (p: Patch)
        ensures
            patch_of(self@, s@, sharing, shown, p),
    {
        let header: String = labels::header_label(&s.status, s.servers.as_slice(), s.selected);
        let (toggle, _, toggle_enabled) = labels::connect_item(s.status.state.as_str());
        let sig: Vec<String> = server_sigs(s.servers.as_slice());
        let locations: LocationPatch = if same_texts(&self.sig, &sig) {
            LocationPatch::Marks(self.marks_for(s.selected))
        } else {
            LocationPatch::Rebuild(build_location_items(s.servers.as_slice(), s.selected))
        };
        Patch {
            header,
            toggle,
            toggle_enabled,
            routing_smart: text::same(s.routing.as_str(), "smart"),
            routing_full: text::same(s.routing.as_str(), "full"),
            adblock: s.adblock,
            block: if self.shown != shown {
                Some(shown)
            } else {
                None
            },
            sharing_status: labels::unbounded_status_text(
                sharing.available,
                sharing.enabled,
                sharing.helping,
            ),
            sharing_toggle: labels::unbounded_toggle_label(sharing.enabled),
            sharing_enabled: sharing.available,
            locations,
        }
    }

    /// The answer to moving the sharing block: where it failed nothing is remembered, so that the next
    /// refresh tries again.
    pub fn block_moved(&mut self, shown: bool, done: bool)
        ensures
            final(self)@ == (TrayModel {
                shown: if done {
                    shown
                } else {
                    old(self)@.shown
                },
                ..old(self)@
            }),
    {
        if done {
            self.shown = shown;
        }
    }

    /// The locations were made anew from this pool.
    pub fn locations_rebuilt(&mut self, servers: &[ServerInfo])
        ensures
            final(self)@ == remembered(servers@, old(self)@.shown),
    {
        self.sig = server_sigs(servers);
        self.pins = server_pins(servers);
    }
}

/// What a click asks for.
#[derive(Debug)]
pub enum Click {
    /// Shows the window.
    Show,
    /// Shows the window at the split tunnelling page.
    Split,
    /// Disconnects and leaves.
    Quit,
    /// Connects or disconnects.
    Toggle,
    /// Routes smartly.
    RouteSmart,
    /// Routes everything.
    RouteFull,
    /// Turns blocking of advertisements over.
    AdBlock,
    /// Starts or stops sharing.
    Sharing,
    /// Chooses a location.
    Select(Option<usize>),
    /// Nothing.
    Nothing,
}

/// What a click on an item asks for.
pub open spec fn click_of(id: Seq<char>) -> Click {
    if id == "show"@ {
        Click::Show
    } else if id == "split"@ {
        Click::Split
    } else if id == "quit"@ {
        Click::Quit
    } else if id == "toggle"@ {
        Click::Toggle
    } else if id == "routing:smart"@ {
        Click::RouteSmart
    } else if id == "routing:full"@ {
        Click::RouteFull
    } else if id == "adblock"@ {
        Click::AdBlock
    } else if id == "unbounded_toggle"@ {
        Click::Sharing
    } else {
        match labels::pin_in(id) {
            Some(pin) => Click::Select(pin),
            None => Click::Nothing,
        }
    }
}

/// What a click on an item asks for.
pub fn on_menu_event(id: &str) -> (c: Click)
    ensures
        c == click_of(id@),
{
    if text::same(id, "show") {
        Click::Show
    } else if text::same(id, "split") {
        Click::Split
    } else if text::same(id, "quit") {
        Click::Quit
    } else if text::same(id, "toggle") {
        Click::Toggle
    } else if text::same(id, "routing:smart") {
        Click::RouteSmart
    } else if text::same(id, "routing:full") {
        Click::RouteFull
    } else if text::same(id, "adblock") {
        Click::AdBlock
    } else if text::same(id, "unbounded_toggle") {
        Click::Sharing
    } else {
        match labels::parse_loc_menu_id(id) {
            Some(pin) => Click::Select(pin),
            None => Click::Nothing,
        }
    }
}

/// What the tunnel is asked to do.
#[derive(Debug)]
pub enum Call {
    /// To connect.
    Connect,
    /// To disconnect.
    Disconnect,
    /// To route in this mode.
    SetRoutingMode(&'static str),
    /// To block advertisements, or not.
    SetAdBlock(bool),
    /// To use a server: its place in the pool, or a negative number for the best one.
    SelectServer(i32),
    /// To start sharing.
    StartSharing,
    /// To stop sharing.
    StopSharing,
    /// Nothing is asked: what had to be known first could not be read.
    Unread,
    /// Nothing is asked.
    Nothing,
}

/// Whether a call is what a click leads to, given what was read just before: the tunnel's state, the
/// setting for advertisements and that for sharing, each as far as it could be read.
pub open spec fn call_of(
    click: Click,
    state: Option<Seq<char>>,
    adblock: Option<bool>,
    sharing: Option<bool>,
    call: Call,
) -> bool {
    match click {
        Click::Quit => call is Disconnect,
        Click::Toggle => if state == Some("connected"@) {
            call is Disconnect
        } else {
            call is Connect
        },
        Click::RouteSmart => call matches Call::SetRoutingMode(mode) && mode@ == "smart"@,
        Click::RouteFull => call matches Call::SetRoutingMode(mode) && mode@ == "full"@,
        Click::AdBlock => match adblock {
            Some(on) => call matches Call::SetAdBlock(b) && b == !on,
            None => call is Unread,
        },
        Click::Sharing => match sharing {
            Some(on) => if on {
                call is StopSharing
            } else {
                call is StartSharing
            },
            None => call is Unread,
        },
        Click::Select(pin) => call matches Call::SelectServer(i) && i == pins::number_of(pin),
        _ => call is Nothing,
    }
}

/// What a click leads to.
pub fn call_for(
    click: &Click,
    state: Option<&str>,
    adblock: Option<bool>,
    sharing: Option<bool>,
) -> (call: Call)
    ensures
        call_of(
            *click,
            match state {
                Some(s) => Some(s@),
                None => None,
            },
            adblock,
            sharing,
            call,
        ),
{
    match click {
        Click::Quit => Call::Disconnect,
        Click::Toggle => {
            let connected: bool = match state {
                Some(s) => text::same(s, "connected"),
                None => false,
            };
            if connected {
                Call::Disconnect
            } else {
                Call::Connect
            }
        },
        Click::RouteSmart => Call::SetRoutingMode("smart"),
        Click::RouteFull => Call::SetRoutingMode("full"),
        Click::AdBlock => match adblock {
            Some(on) => Call::SetAdBlock(!on),
            None => Call::Unread,
        },
        Click::Sharing => match sharing {
            Some(on) => if on {
                Call::StopSharing
            } else {
                Call::StartSharing
            },
            None => Call::Unread,
        },
        Click::Select(pin) => Call::SelectServer(pins::tray_pin_to_i32(*pin)),
        _ => Call::Nothing,
    }
}

/// What an action is called where its failure is reported; nothing where it is not.
pub open spec fn action_of(click: Click, call: Call) -> Option<Seq<char>> {
    match (click, call) {
        (Click::Quit, _) => None,
        (_, Call::Connect) => Some("connect"@),
        (_, Call::Disconnect) => Some("disconnect"@),
        (_, Call::SetRoutingMode(_)) => Some("set routing mode"@),
        (_, Call::SetAdBlock(_)) => Some("set ad-block"@),
        (_, Call::SelectServer(_)) => Some("select server"@),
        (_, Call::StartSharing) => Some("toggle unbounded"@),
        (_, Call::StopSharing) => Some("toggle unbounded"@),
        (Click::AdBlock, Call::Unread) => Some("read ad-block"@),
        _ => None,
    }
}

/// The report of a failed action, where it is reported: leaving is not held up by a failure.
pub fn failure_text(click: &Click, call: &Call, error: &str) -> (r: Option<String>)
    ensures
        match (r, action_of(*click, *call)) {
            (Some(s), Some(action)) => s@ == action + " failed: "@ + error@,
            (None, None) => true,
            _ => false,
        },
{
    let action: &str = match (click, call) {
        (Click::Quit, _) => {
            return None;
        },
        (_, Call::Connect) => "connect",
        (_, Call::Disconnect) => "disconnect",
        (_, Call::SetRoutingMode(_)) => "set routing mode",
        (_, Call::SetAdBlock(_)) => "set ad-block",
        (_, Call::SelectServer(_)) => "select server",
        (_, Call::StartSharing) => "toggle unbounded",
        (_, Call::StopSharing) => "toggle unbounded",
        (Click::AdBlock, Call::Unread) => "read ad-block",
        _ => {
            return None;
        },
    };
    let mut s: String = action.to_owned();
    text::append(&mut s, " failed: ");
    text::append(&mut s, error);
    Some(s)
}

/// Exactly one separator stands above the items that show and quit, with or without the sharing
/// block: the one before it is not a neighbour, and no two separators are.
pub proof fn lemma_separators_stand_apart(s: ShownModel, sharing: Sharing, shown: bool)
    ensures
        ({
            let m = menu_of(s, sharing, shown);
            &&& m[m.len() - 3] is Separator
            &&& m[m.len() - 2] == plain("show"@, "Show Spark"@)
            &&& m[m.len() - 1] == plain("quit"@, "Quit Spark"@)
            &&& forall|i: int|
                0 <= i < m.len() - 1 ==> !(#[trigger] m[i] is Separator && m[i + 1] is Separator)
        }),
{
    let m = menu_of(s, sharing, shown);
    assert forall|i: int| 0 <= i < m.len() - 1 implies !(#[trigger] m[i] is Separator && m[i
        + 1] is Separator) by {
        if shown {
            assert(m.len() == 13);
        } else {
            assert(m.len() == 10);
        }
        assert(m[i] is Separator ==> i == 2 || i == 7 || (shown && i == 10));
    }
}

/// The menu with the sharing block put in, entry by entry, at its place.
pub open spec fn with_block(m: Seq<EntryModel>, sharing: Sharing) -> Seq<EntryModel> {
    let b = block(sharing);
    let at = UNBOUNDED_BLOCK_AT as int;
    m.insert(at, b[0]).insert(at + 1, b[1]).insert(at + 2, b[2])
}

/// The menu with the sharing block taken out, last entry first.
pub open spec fn without_block(m: Seq<EntryModel>) -> Seq<EntryModel> {
    let at = UNBOUNDED_BLOCK_AT as int;
    m.remove(at + 2).remove(at + 1).remove(at)
}

/// Moving the sharing block in or out of the menu that is up gives the menu that would be built.
pub proof fn lemma_moved_block_is_the_built_one(s: ShownModel, sharing: Sharing)
    ensures
        with_block(menu_of(s, sharing, false), sharing) == menu_of(s, sharing, true),
        without_block(menu_of(s, sharing, true)) == menu_of(s, sharing, false),
{
    assert(with_block(menu_of(s, sharing, false), sharing) =~= menu_of(s, sharing, true));
    assert(without_block(menu_of(s, sharing, true)) =~= menu_of(s, sharing, false));
}

/// The location items with other marks.
pub open spec fn marked(items: Seq<CheckModel>, marks: Seq<bool>) -> Seq<CheckModel> {
    Seq::new(items.len(), |i: int| CheckModel { checked: marks[i], ..items[i] })
}

/// The menu that is up after a patch.
pub open spec fn patched(m: Seq<EntryModel>, shown: bool, p: Patch) -> Seq<EntryModel> {
    let items = match p.locations@ {
        LocationPatchModel::Marks(v) => marked(m[3]->items, v),
        LocationPatchModel::Rebuild(v) => v,
    };
    let top = m.take(7).update(
        0,
        EntryModel::Text { id: "header"@, label: p.header@, enabled: false },
    ).update(
        1,
        EntryModel::Text { id: "toggle"@, label: p.toggle@, enabled: p.toggle_enabled },
    ).update(3, location_entry(items)).update(
        4,
        routing_entry(p.routing_smart, p.routing_full),
    ).update(5, adblock_entry(p.adblock));
    let now = match p.block {
        Some(b) => b,
        None => shown,
    };
    let end = m.skip(m.len() - 3);
    if now {
        top + seq![
            EntryModel::Separator,
            EntryModel::Text {
                id: "unbounded_status"@,
                label: p.sharing_status@,
                enabled: false,
            },
            EntryModel::Text {
                id: "unbounded_toggle"@,
                label: p.sharing_toggle@,
                enabled: p.sharing_enabled,
            },
        ] + end
    } else {
        top + end
    }
}

/// A menu that was brought up to date is the menu that would be built: patching in place and building
/// anew show the same. A country that was renamed while index, code and city stayed shows only when
/// the locations are next made anew, so such a pool is left out.
pub proof fn lemma_refresh_reaches_the_built_menu(
    before: ShownModel,
    sharing_before: Sharing,
    shown_before: bool,
    s: ShownModel,
    sharing: Sharing,
    shown: bool,
    p: Patch,
)
    requires
        patch_of(remembered(before.servers, shown_before), s, sharing, shown, p),
        sigs_of(before.servers) == sigs_of(s.servers) ==> location_labels(before.servers)
            == location_labels(s.servers),
    ensures
        patched(menu_of(before, sharing_before, shown_before), shown_before, p) == menu_of(
            s,
            sharing,
            shown,
        ),
{
    let m = menu_of(before, sharing_before, shown_before);
    let r = patched(m, shown_before, p);
    assert(m.skip(m.len() - 3) =~= bottom());
    assert(m[3] == location_entry(locations_of(before.servers, before.selected)));
    if sigs_of(before.servers) == sigs_of(s.servers) {
        lemma_sigs_tell_pins(before.servers, s.servers);
        assert(marked(m[3]->items, marks(pins_of(before.servers), s.selected)) =~= locations_of(
            s.servers,
            s.selected,
        ));
    }
    assert(m.take(7) =~= top(before));
    assert(r =~= menu_of(s, sharing, shown));
}

/// Pools that the menu cannot tell apart have the same pins.
pub proof fn lemma_sigs_tell_pins(a: Seq<ServerInfo>, b: Seq<ServerInfo>)
    requires
        sigs_of(a) == sigs_of(b),
    ensures
        pins_of(a) == pins_of(b),
{
    assert(sigs_of(a).len() == a.len());
    assert(sigs_of(b).len() == b.len());
    assert forall|i: int| 0 <= i < a.len() implies (#[trigger] a[i]).index == b[i].index by {
        assert(sigs_of(a)[i] == labels::sig_of(a[i]));
        assert(sigs_of(b)[i] == labels::sig_of(b[i]));
        lemma_sig_tells_index(a[i], b[i]);
    }
    assert(pins_of(a) =~= pins_of(b));
}

proof fn lemma_sig_tells_index(a: ServerInfo, b: ServerInfo)
    requires
        labels::sig_of(a) == labels::sig_of(b),
    ensures
        a.index == b.index,
{
    reveal_strlit("|");
    let x = text::decimal(a.index as nat);
    let y = text::decimal(b.index as nat);
    text::lemma_decimal_is_digits(a.index as nat);
    text::lemma_decimal_is_digits(b.index as nat);
    let s = labels::sig_of(a);
    assert(s[x.len() as int] == '|');
    assert(labels::sig_of(b)[y.len() as int] == '|');
    assert forall|i: int| 0 <= i < x.len() implies #[trigger] x[i] == s[i] by {}
    assert forall|i: int| 0 <= i < y.len() implies #[trigger] y[i] == s[i] by {}
    if x.len() < y.len() {
        assert(y[x.len() as int] == '|');
    }
    if y.len() < x.len() {
        assert(x[y.len() as int] == '|');
    }
    assert(x =~= y);
    text::lemma_decimal_reads_back(a.index as u64, u64::MAX);
    text::lemma_decimal_reads_back(b.index as u64, u64::MAX);
}

/// Whether an entry can be clicked.
pub open spec fn clickable(e: EntryModel) -> bool {
    match e {
        EntryModel::Text { enabled, .. } => enabled,
        EntryModel::Check(_) => true,
        _ => false,
    }
}

/// The id of an entry that can be clicked.
pub open spec fn entry_id(e: EntryModel) -> Seq<char> {
    match e {
        EntryModel::Text { id, .. } => id,
        EntryModel::Check(item) => item.id,
        _ => Seq::empty(),
    }
}

/// Every item that can be clicked does something, and each location chooses its own pin.
pub proof fn lemma_every_item_acts(s: ShownModel, sharing: Sharing, shown: bool)
    ensures
        ({
            let m = menu_of(s, sharing, shown);
            forall|i: int|
                0 <= i < m.len() && clickable(#[trigger] m[i]) ==> !(click_of(
                    entry_id(m[i]),
                ) is Nothing)
        }),
        forall|i: int|
            0 <= i <= s.servers.len() ==> #[trigger] click_of(
                locations_of(s.servers, s.selected)[i].id,
            ) == Click::Select(pins_of(s.servers)[i]),
        click_of("routing:smart"@) is RouteSmart,
        click_of("routing:full"@) is RouteFull,
{
    lemma_fixed_ids();
    let m = menu_of(s, sharing, shown);
    assert forall|i: int| 0 <= i < m.len() && clickable(#[trigger] m[i]) implies !(click_of(
        entry_id(m[i]),
    ) is Nothing) by {
        if i < 7 {
            assert(m[i] == top(s)[i]);
        } else if shown && i < 10 {
            assert(m[i] == block(sharing)[i - 7]);
        } else {
            assert(m[i] == bottom()[i - (m.len() - 3)]);
        }
    }
    assert forall|i: int| 0 <= i <= s.servers.len() implies #[trigger] click_of(
        locations_of(s.servers, s.selected)[i].id,
    ) == Click::Select(pins_of(s.servers)[i]) by {
        let pin = pins_of(s.servers)[i];
        labels::lemma_loc_id_round_trip(pin);
        lemma_location_is_no_fixed_id(pin);
    }
}

proof fn lemma_location_is_no_fixed_id(pin: Option<usize>)
    ensures
        click_of(labels::loc_id(pin)) == (match labels::pin_in(labels::loc_id(pin)) {
            Some(pin) => Click::Select(pin),
            None => Click::Nothing,
        }),
{
    reveal_strlit("loc:");
    reveal_strlit("loc:smart");
    reveal_strlit("show");
    reveal_strlit("split");
    reveal_strlit("quit");
    reveal_strlit("toggle");
    reveal_strlit("routing:smart");
    reveal_strlit("routing:full");
    reveal_strlit("adblock");
    reveal_strlit("unbounded_toggle");
    let id = labels::loc_id(pin);
    assert(id[0] == 'l');
}

proof fn lemma_fixed_ids()
    ensures
        click_of("show"@) is Show,
        click_of("split"@) is Split,
        click_of("quit"@) is Quit,
        click_of("toggle"@) is Toggle,
        click_of("routing:smart"@) is RouteSmart,
        click_of("routing:full"@) is RouteFull,
        click_of("adblock"@) is AdBlock,
        click_of("unbounded_toggle"@) is Sharing,
{
    reveal_strlit("show");
    reveal_strlit("split");
    reveal_strlit("quit");
    reveal_strlit("toggle");
    reveal_strlit("routing:smart");
    reveal_strlit("routing:full");
    reveal_strlit("adblock");
    reveal_strlit("unbounded_toggle");
    assert("show"@[1] == 'h');
    assert("split"@[1] == 'p');
    assert("quit"@[0] == 'q');
    assert("toggle"@[0] == 't');
    assert("routing:smart"@[8] == 's');
    assert("routing:full"@[8] == 'f');
    assert("adblock"@[0] == 'a');
    assert("unbounded_toggle"@[0] == 'u');
}

/// With distinct indices in the pool, exactly one location is marked where the chosen one is in the
/// pool or none is chosen.
pub proof fn lemma_one_location_is_marked(servers: Seq<ServerInfo>, selected: Option<usize>)
    requires
        forall|i: int, j: int|
            0 <= i < j < servers.len() ==> (#[trigger] servers[i]).index != (
            #[trigger] servers[j]).index,
        selected matches Some(index) ==> labels::place_of(servers, index) is Some,
    ensures
        exists|i: int|
            0 <= i <= servers.len() && (#[trigger] locations_of(servers, selected)[i]).checked && (
            forall|j: int|
                0 <= j <= servers.len() && j != i ==> !(#[trigger] locations_of(
                    servers,
                    selected,
                )[j]).checked),
{
    let items = locations_of(servers, selected);
    match selected {
        None => {
            assert(items[0].checked);
        },
        Some(index) => {
            lemma_place_of(servers, index);
            let i = labels::place_of(servers, index)->0;
            assert(items[i + 1].checked);
            assert forall|j: int| 0 <= j <= servers.len() && j != i + 1 implies !(
            #[trigger] items[j]).checked by {
                if j > 0 {
                    let k = j - 1;
                    assert(servers[k].index != servers[i].index);
                }
            }
        },
    }
}

proof fn lemma_place_of(servers: Seq<ServerInfo>, index: usize)
    ensures
        labels::place_of(servers, index) matches Some(i) ==> 0 <= i < servers.len()
            && servers[i].index == index,
    decreases servers.len(),
{
    if servers.len() > 0 && servers[0].index != index {
        lemma_place_of(servers.drop_first(), index);
    }
}

} // verus!
