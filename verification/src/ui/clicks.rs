//! What a click in the tray menu comes to: the menu that is built afterwards shows what was clicked, and
//! an item does what its label says.
use vstd::prelude::*;

use crate::ui::labels;
use crate::ui::models::ServerInfo;
use crate::ui::pins;
use crate::ui::tray;
use crate::ui::tray::{Call, CheckModel, Click, EntryModel, Sharing, ShownModel};

verus! {

/// The menu holds a marked item of this id.
pub open spec fn shows_marked(m: Seq<EntryModel>, id: Seq<char>) -> bool {
    exists|i: int, item: CheckModel|
        {
            &&& 0 <= i < m.len()
            &&& #[trigger] has_item(m[i], item)
            &&& item.id == id
            &&& item.checked
        }
}

/// The menu holds an item of this id that is not marked.
pub open spec fn shows_unmarked(m: Seq<EntryModel>, id: Seq<char>) -> bool {
    exists|i: int, item: CheckModel|
        {
            &&& 0 <= i < m.len()
            &&& #[trigger] has_item(m[i], item)
            &&& item.id == id
            &&& !item.checked
        }
}

/// The entry is this item with a check mark, or a menu that holds it.
pub open spec fn has_item(e: EntryModel, item: CheckModel) -> bool {
    match e {
        EntryModel::Check(x) => x == item,
        EntryModel::Submenu { items, .. } => items.contains(item),
        _ => false,
    }
}

/// The entry is an item of this id that can be clicked, with this label.
pub open spec fn offers(e: EntryModel, id: Seq<char>, label: Seq<char>) -> bool {
    e == (EntryModel::Text { id, label, enabled: true })
}

/// Where every item with a check mark stands.
proof fn lemma_items(s: ShownModel, sharing: Sharing, shown: bool, i: int, item: CheckModel)
    requires
        0 <= i < tray::menu_of(s, sharing, shown).len(),
        has_item(tray::menu_of(s, sharing, shown)[i], item),
    ensures
        ({
            ||| exists|k: int|
                0 <= k <= s.servers.len() && #[trigger] tray::locations_of(
                    s.servers,
                    s.selected,
                )[k] == item
            ||| item == (CheckModel {
                id: "routing:smart"@,
                label: "Smart"@,
                checked: s.routing == "smart"@,
            })
            ||| item == (CheckModel {
                id: "routing:full"@,
                label: "Full"@,
                checked: s.routing == "full"@,
            })
            ||| item == (CheckModel {
                id: "adblock"@,
                label: "Ad Blocking"@,
                checked: s.adblock,
            })
        }),
{
    let m = tray::menu_of(s, sharing, shown);
    if i < 7 {
        assert(m[i] == tray::top(s)[i]);
        if i == 3 {
            let items = tray::locations_of(s.servers, s.selected);
            let k = choose|k: int| 0 <= k < items.len() && items[k] == item;
            assert(items[k] == item);
        }
    } else if shown && i < 10 {
        assert(m[i] == tray::block(sharing)[i - 7]);
    } else {
        assert(m[i] == tray::bottom()[i - (m.len() - 3)]);
    }
}

proof fn lemma_ids_differ()
    ensures
        "routing:smart"@ != "routing:full"@,
        "routing:smart"@ != "adblock"@,
        "routing:full"@ != "adblock"@,
        "smart"@ != "full"@,
        forall|pin: Option<usize>|
            #![trigger labels::loc_id(pin)]
            labels::loc_id(pin) != "routing:smart"@ && labels::loc_id(pin) != "routing:full"@
                && labels::loc_id(pin) != "adblock"@,
{
    reveal_strlit("routing:smart");
    reveal_strlit("routing:full");
    reveal_strlit("adblock");
    reveal_strlit("smart");
    reveal_strlit("full");
    reveal_strlit("loc:");
    reveal_strlit("loc:smart");
    assert("routing:smart"@.len() == 13 && "routing:full"@.len() == 12 && "adblock"@.len() == 7);
    assert("smart"@.len() == 5 && "full"@.len() == 4);
    assert forall|pin: Option<usize>|
        #![trigger labels::loc_id(pin)]
        labels::loc_id(pin) != "routing:smart"@ && labels::loc_id(pin) != "routing:full"@
            && labels::loc_id(pin) != "adblock"@ by {
        assert(labels::loc_id(pin)[0] == 'l');
        assert("routing:smart"@[0] == 'r' && "routing:full"@[0] == 'r' && "adblock"@[0] == 'a');
    }
}

proof fn lemma_routing_items(s: ShownModel, sharing: Sharing, shown: bool)
    ensures
        ({
            let m = tray::menu_of(s, sharing, shown);
            &&& shows_marked(m, "routing:smart"@) == (s.routing == "smart"@)
            &&& shows_unmarked(m, "routing:smart"@) == (s.routing != "smart"@)
            &&& shows_marked(m, "routing:full"@) == (s.routing == "full"@)
            &&& shows_unmarked(m, "routing:full"@) == (s.routing != "full"@)
            &&& shows_marked(m, "adblock"@) == s.adblock
            &&& shows_unmarked(m, "adblock"@) == !s.adblock
        }),
{
    lemma_ids_differ();
    let m = tray::menu_of(s, sharing, shown);
    let smart = CheckModel {
        id: "routing:smart"@,
        label: "Smart"@,
        checked: s.routing == "smart"@,
    };
    let full = CheckModel { id: "routing:full"@, label: "Full"@, checked: s.routing == "full"@ };
    let ads = CheckModel { id: "adblock"@, label: "Ad Blocking"@, checked: s.adblock };
    assert(m[4] == tray::top(s)[4]);
    assert(m[5] == tray::top(s)[5]);
    let items = m[4]->items;
    assert(items[0] == smart && items[1] == full);
    assert(has_item(m[4], smart));
    assert(has_item(m[4], full));
    assert(has_item(m[5], ads));
    assert forall|i: int, item: CheckModel|
        0 <= i < m.len() && #[trigger] has_item(m[i], item) implies (item.id == "routing:smart"@
        ==> item == smart) && (item.id == "routing:full"@ ==> item == full) && (item.id
        == "adblock"@ ==> item == ads) by {
        lemma_items(s, sharing, shown, i, item);
        if exists|k: int|
            0 <= k <= s.servers.len() && #[trigger] tray::locations_of(s.servers, s.selected)[k]
                == item {
            let k = choose|k: int|
                0 <= k <= s.servers.len() && #[trigger] tray::locations_of(
                    s.servers,
                    s.selected,
                )[k] == item;
            assert(item.id == labels::loc_id(tray::pins_of(s.servers)[k]));
        }
    }
}

/// A click on a routing item sets the mode under which that item, and it alone of the two, is marked:
/// whatever was shown and read before, the menu built with the mode of the call marks just the item that
/// was clicked.
pub proof fn lemma_routing_click_marks_the_clicked_item(
    s: ShownModel,
    sharing: Sharing,
    shown: bool,
    state: Option<Seq<char>>,
    adblock: Option<bool>,
    shares: Option<bool>,
    id: Seq<char>,
    call: Call,
)
    requires
        id == "routing:smart"@ || id == "routing:full"@,
        tray::call_of(tray::click_of(id), state, adblock, shares, call),
    ensures
        call matches Call::SetRoutingMode(mode) && ({
            let m = tray::menu_of((ShownModel { routing: mode@, ..s }), sharing, shown);
            &&& shows_marked(m, id)
            &&& !shows_unmarked(m, id)
            &&& forall|other: Seq<char>|
                (other == "routing:smart"@ || other == "routing:full"@) && other != id
                    ==> !#[trigger] shows_marked(m, other) && shows_unmarked(m, other)
        }),
{
    tray::lemma_every_item_acts(s, sharing, shown);
    lemma_ids_differ();
    if let Call::SetRoutingMode(mode) = call {
        lemma_routing_items(ShownModel { routing: mode@, ..s }, sharing, shown);
    }
}

/// The two routing items ask for different modes.
pub proof fn lemma_routing_items_ask_for_different_modes(
    state: Option<Seq<char>>,
    adblock: Option<bool>,
    shares: Option<bool>,
    a: Call,
    b: Call,
)
    requires
        tray::call_of(tray::click_of("routing:smart"@), state, adblock, shares, a),
        tray::call_of(tray::click_of("routing:full"@), state, adblock, shares, b),
    ensures
        a matches Call::SetRoutingMode(x) && (b matches Call::SetRoutingMode(y) && x@ != y@),
{
    let s = ShownModel {
        state: Seq::empty(),
        servers: Seq::<ServerInfo>::empty(),
        routing: Seq::empty(),
        adblock: false,
        selected: None,
    };
    tray::lemma_every_item_acts(s, (Sharing { available: false, enabled: false, helping: 0 }), false);
    lemma_ids_differ();
}

/// A click on the item for advertisements turns its mark over: the menu built with what the call sets
/// marks the item just where it was not marked before. Where the setting could not be read, nothing is
/// set.
pub proof fn lemma_adblock_click_turns_the_mark_over(
    s: ShownModel,
    sharing: Sharing,
    shown: bool,
    state: Option<Seq<char>>,
    shares: Option<bool>,
    call: Call,
    unread: Call,
)
    requires
        tray::call_of(tray::click_of("adblock"@), state, Some(s.adblock), shares, call),
        tray::call_of(tray::click_of("adblock"@), state, None, shares, unread),
    ensures
        call matches Call::SetAdBlock(on) && ({
            let before = tray::menu_of(s, sharing, shown);
            let after = tray::menu_of((ShownModel { adblock: on, ..s }), sharing, shown);
            &&& shows_marked(after, "adblock"@) == shows_unmarked(before, "adblock"@)
            &&& shows_unmarked(after, "adblock"@) == shows_marked(before, "adblock"@)
        }),
        unread is Unread,
{
    lemma_clicks();
    if let Call::SetAdBlock(on) = call {
        lemma_routing_items(s, sharing, shown);
        lemma_routing_items(ShownModel { adblock: on, ..s }, sharing, shown);
    }
}

proof fn lemma_clicks()
    ensures
        tray::click_of("adblock"@) is AdBlock,
        tray::click_of("toggle"@) is Toggle,
        tray::click_of("unbounded_toggle"@) is Sharing,
        tray::click_of("quit"@) is Quit,
        tray::click_of("show"@) is Show,
        tray::click_of("split"@) is Split,
{
    reveal_strlit("show");
    reveal_strlit("split");
    reveal_strlit("quit");
    reveal_strlit("toggle");
    reveal_strlit("routing:smart");
    reveal_strlit("routing:full");
    reveal_strlit("adblock");
    reveal_strlit("unbounded_toggle");
    assert("show"@[1] == 'h' && "split"@[1] == 'p');
    assert("quit"@[0] == 'q' && "toggle"@[0] == 't' && "adblock"@[0] == 'a'
        && "unbounded_toggle"@[0] == 'u' && "show"@[0] == 's' && "split"@[0] == 's'
        && "routing:smart"@[0] == 'r' && "routing:full"@[0] == 'r');
}

/// A click on a location chooses it: the call's number stands for the pin of the location that was
/// clicked, and the menu built with that pin marks every location of that pin and no other. A place that
/// the call's number cannot hold asks for the best server.
pub proof fn lemma_location_click_marks_the_clicked_location(
    s: ShownModel,
    state: Option<Seq<char>>,
    adblock: Option<bool>,
    shares: Option<bool>,
    i: int,
    call: Call,
)
    requires
        0 <= i <= s.servers.len(),
        tray::call_of(
            tray::click_of(tray::locations_of(s.servers, s.selected)[i].id),
            state,
            adblock,
            shares,
            call,
        ),
    ensures
        ({
            let pin = tray::pins_of(s.servers)[i];
            let after = tray::locations_of(s.servers, pin);
            &&& call matches Call::SelectServer(n) && (match pin {
                None => n < 0,
                Some(place) => if place <= 0x7fff_ffff {
                    n == place
                } else {
                    n < 0
                },
            })
            &&& i == 0 <==> pin is None
            &&& i > 0 ==> pin == Some(s.servers[i - 1].index)
            &&& after[i].checked
            &&& forall|k: int|
                0 <= k <= s.servers.len() ==> (#[trigger] after[k]).checked == (after[k].id
                    == after[i].id)
        }),
{
    tray::lemma_every_item_acts(
        s,
        (Sharing { available: false, enabled: false, helping: 0 }),
        false,
    );
    let pin = tray::pins_of(s.servers)[i];
    let after = tray::locations_of(s.servers, pin);
    assert(tray::click_of(tray::locations_of(s.servers, s.selected)[i].id) == Click::Select(pin));
    assert forall|k: int| 0 <= k <= s.servers.len() implies (#[trigger] after[k]).checked == (
    after[k].id == after[i].id) by {
        let other = tray::pins_of(s.servers)[k];
        labels::lemma_loc_id_round_trip(pin);
        labels::lemma_loc_id_round_trip(other);
    }
}

/// The item that connects and disconnects does what its label says: where it can be clicked it reads
/// `Disconnect` and disconnects while the tunnel is connected, and reads `Connect` and connects
/// otherwise.
pub proof fn lemma_toggle_does_what_it_says(
    s: ShownModel,
    sharing: Sharing,
    shown: bool,
    adblock: Option<bool>,
    shares: Option<bool>,
    call: Call,
)
    requires
        tray::call_of(tray::click_of("toggle"@), Some(s.state), adblock, shares, call),
    ensures
        ({
            let e = tray::menu_of(s, sharing, shown)[1];
            &&& s.state == "connected"@ ==> offers(e, "toggle"@, "Disconnect"@)
            &&& offers(e, "toggle"@, "Disconnect"@) ==> call is Disconnect
            &&& offers(e, "toggle"@, "Connect"@) ==> call is Connect
            &&& s.state != "connected"@ && tray::clickable(e) ==> offers(e, "toggle"@, "Connect"@)
            &&& call is Connect || call is Disconnect
        }),
{
    lemma_clicks();
    reveal_strlit("Connect");
    reveal_strlit("Disconnect");
    assert("Connect"@.len() == 7 && "Disconnect"@.len() == 10);
    assert(tray::menu_of(s, sharing, shown)[1] == tray::top(s)[1]);
}

/// The item that starts and stops sharing does what its label says, and can be clicked just where the
/// server allows sharing.
pub proof fn lemma_sharing_item_does_what_it_says(
    s: ShownModel,
    sharing: Sharing,
    state: Option<Seq<char>>,
    adblock: Option<bool>,
    call: Call,
    unread: Call,
)
    requires
        tray::call_of(
            tray::click_of("unbounded_toggle"@),
            state,
            adblock,
            Some(sharing.enabled),
            call,
        ),
        tray::call_of(tray::click_of("unbounded_toggle"@), state, adblock, None, unread),
    ensures
        ({
            let e = tray::menu_of(s, sharing, true)[9];
            &&& tray::clickable(e) == sharing.available
            &&& offers(e, "unbounded_toggle"@, "Disable Unbounded"@) ==> call is StopSharing
            &&& offers(e, "unbounded_toggle"@, "Enable Unbounded"@) ==> call is StartSharing
            &&& sharing.available ==> offers(
                e,
                "unbounded_toggle"@,
                if sharing.enabled {
                    "Disable Unbounded"@
                } else {
                    "Enable Unbounded"@
                },
            )
            &&& unread is Unread
        }),
{
    lemma_clicks();
    reveal_strlit("Disable Unbounded");
    reveal_strlit("Enable Unbounded");
    assert("Disable Unbounded"@.len() == 17 && "Enable Unbounded"@.len() == 16);
    assert(tray::menu_of(s, sharing, true)[9] == tray::block(sharing)[2]);
}

/// Leaving disconnects first, whatever the state, and its failure is not reported; showing the window
/// asks nothing of the tunnel.
pub proof fn lemma_quit_disconnects(
    state: Option<Seq<char>>,
    adblock: Option<bool>,
    shares: Option<bool>,
    quit: Call,
    show: Call,
    split: Call,
)
    requires
        tray::call_of(tray::click_of("quit"@), state, adblock, shares, quit),
        tray::call_of(tray::click_of("show"@), state, adblock, shares, show),
        tray::call_of(tray::click_of("split"@), state, adblock, shares, split),
    ensures
        quit is Disconnect,
        tray::action_of(tray::click_of("quit"@), quit) is None,
        show is Nothing,
        split is Nothing,
        tray::click_of("show"@) is Show,
        tray::click_of("split"@) is Split,
{
    lemma_clicks();
}

/// A selection that the tunnel refused leaves the remembered pin as it was, and one that it took is
/// remembered: the pin of a snapshot wins over either.
pub proof fn lemma_selection_is_remembered_once_taken(
    remembered: Option<usize>,
    pin: Option<usize>,
)
    ensures
        pins::selected_after(remembered, pin, true) == pin,
        pins::selected_after(remembered, pin, false) == remembered,
{
}

} // verus!
