//! The texts of the tray: flags, labels and the ids of menu items.
use vstd::prelude::*;

use crate::text;
use crate::ui::models::{self, ServerInfo, Status};

verus! {

/// Whether a character is an ASCII letter.
pub open spec fn letter(c: char) -> bool {
    'A' <= c <= 'Z' || 'a' <= c <= 'z'
}

/// The place of a letter in the alphabet.
pub open spec fn letter_place(c: char) -> int {
    if 'A' <= c <= 'Z' {
        c as u32 - 0x41
    } else {
        c as u32 - 0x61
    }
}

/// The regional indicator symbol of a letter.
pub open spec fn indicator(c: char) -> char {
    ((0x1f1e6 + letter_place(c)) as u32) as char
}

/// The flag of a country code: two regional indicator symbols, or nothing where the code is not two
/// letters.
pub open spec fn flag_of(code: Seq<char>) -> Seq<char> {
    let code = text::trimmed(code);
    if code.len() == 2 && letter(code[0]) && letter(code[1]) {
        seq![indicator(code[0]), indicator(code[1])]
    } else {
        Seq::empty()
    }
}

fn push_indicator(s: &mut String, c: char)
    requires
        letter(c),
    ensures
        final(s)@ == old(s)@.push(indicator(c)),
{
    let place: u32 = if 'A' <= c && c <= 'Z' {
        c as u32 - 0x41
    } else {
        c as u32 - 0x61
    };
    if let Some(symbol) = text::char_of(0x1f1e6 + place) {
        assert(symbol == indicator(c));
        text::push_char(s, symbol);
    }
}

fn is_letter(c: char) -> (r: bool)
    ensures
        r == letter(c),
{
    ('A' <= c && c <= 'Z') || ('a' <= c && c <= 'z')
}

/// The flag of a country code.
pub fn flag_emoji(cc: &str) -> (flag: String)
    ensures
        flag@ == flag_of(cc@),
{
    let code: Vec<char> = text::chars_of(text::trim(cc));
    let mut flag: String = String::new();
    if code.len() == 2 && is_letter(code[0]) && is_letter(code[1]) {
        push_indicator(&mut flag, code[0]);
        push_indicator(&mut flag, code[1]);
    }
    assert(flag@ =~= flag_of(cc@));
    flag
}

/// The menu id of a location.
pub open spec fn loc_id(pin: Option<usize>) -> Seq<char> {
    match pin {
        Some(i) => "loc:"@ + text::decimal(i as nat),
        None => "loc:smart"@,
    }
}

/// The pin that a menu id stands for: nothing where it is no location's id.
pub open spec fn pin_in(id: Seq<char>) -> Option<Option<usize>> {
    if id == "loc:smart"@ {
        Some(None)
    } else {
        match text::after(id, "loc:"@) {
            Some(rest) => match text::number_in(rest, usize::MAX as u64) {
                Some(i) => Some(Some(i as usize)),
                None => None,
            },
            None => None,
        }
    }
}

/// The menu id of a location.
pub fn loc_menu_id(index: Option<usize>) -> (id: String)
    ensures
        id@ == loc_id(index),
{
    match index {
        Some(i) => {
            let mut id: String = "loc:".to_owned();
            let n: String = text::decimal_of(i as u128);
            text::append(&mut id, n.as_str());
            id
        },
        None => "loc:smart".to_owned(),
    }
}

/// The pin that a menu id stands for.
pub fn parse_loc_menu_id(id: &str) -> (pin: Option<Option<usize>>)
    ensures
        pin == pin_in(id@),
{
    if text::same(id, "loc:smart") {
        return Some(None);
    }
    match text::strip_prefix(id, "loc:") {
        Some(rest) => match text::parse_number(rest.as_str(), usize::MAX as u64) {
            Some(i) => Some(Some(i as usize)),
            None => None,
        },
        None => None,
    }
}

/// A location's menu id stands for that location.
pub proof fn lemma_loc_id_round_trip(pin: Option<usize>)
    ensures
        pin_in(loc_id(pin)) == Some(pin),
{
    if let Some(i) = pin {
        let id = loc_id(pin);
        let digits = text::decimal(i as nat);
        text::lemma_decimal_reads_back(i as u64, usize::MAX as u64);
        reveal_strlit("loc:");
        reveal_strlit("loc:smart");
        assert(text::number_in(digits, usize::MAX as u64) == Some(i as u64));
        assert(digits.len() > 0);
        assert(id.subrange(4, id.len() as int) =~= digits);
        assert(id.subrange(0, 4) =~= "loc:"@);
        assert(text::after(id, "loc:"@) == Some(digits));
        if id == "loc:smart"@ {
            assert(id[4] == 's');
            assert(digits[0] == 's');
            lemma_letter_is_no_number(digits, usize::MAX as u64);
        }
    }
}

proof fn lemma_letter_is_no_number(s: Seq<char>, max: u64)
    requires
        s.len() > 0,
        s[0] == 's',
    ensures
        text::number_in(s, max) is None,
{
    lemma_bad_digit(s);
}

proof fn lemma_bad_digit(s: Seq<char>)
    requires
        s.len() > 0,
        text::digit_value(s[0]) is None,
    ensures
        text::digits_value(s) is None,
    decreases s.len(),
{
    if s.len() > 1 {
        lemma_bad_digit(s.drop_last());
    }
}

/// The text that heads the menu in a state.
pub open spec fn state_text(state: Seq<char>) -> Seq<char> {
    if state == "connected"@ {
        "Connected"@
    } else if state == "connecting"@ {
        "Connecting…"@
    } else if state == "disconnecting"@ {
        "Disconnecting…"@
    } else {
        "Disconnected"@
    }
}

/// The text that heads the menu in a state.
pub fn header_text(state: &str) -> (r: &'static str)
    ensures
        r@ == state_text(state@),
{
    if text::same(state, "connected") {
        "Connected"
    } else if text::same(state, "connecting") {
        "Connecting…"
    } else if text::same(state, "disconnecting") {
        "Disconnecting…"
    } else {
        "Disconnected"
    }
}

/// Label, action and whether it can be clicked, of the item that connects and disconnects.
pub open spec fn toggle_of(state: Seq<char>) -> (Seq<char>, Seq<char>, bool) {
    if state == "connected"@ {
        ("Disconnect"@, "disconnect"@, true)
    } else if state == "connecting"@ {
        ("Connecting…"@, "connect"@, false)
    } else if state == "disconnecting"@ {
        ("Disconnecting…"@, "disconnect"@, false)
    } else {
        ("Connect"@, "connect"@, true)
    }
}

/// Label, action and whether it can be clicked, of the item that connects and disconnects.
pub fn connect_item(state: &str) -> (r: (&'static str, &'static str, bool))
    ensures
        (r.0@, r.1@, r.2) == toggle_of(state@),
{
    if text::same(state, "connected") {
        ("Disconnect", "disconnect", true)
    } else if text::same(state, "connecting") {
        ("Connecting…", "connect", false)
    } else if text::same(state, "disconnecting") {
        ("Disconnecting…", "disconnect", false)
    } else {
        ("Connect", "connect", true)
    }
}

/// The status line of sharing.
pub open spec fn sharing_text(enabled: bool, helping: nat) -> Seq<char> {
    if enabled {
        "Unbounded: helping "@ + text::decimal(helping)
    } else {
        "Unbounded: off"@
    }
}

/// The status line of sharing, where it may not be available.
pub open spec fn sharing_status(available: bool, enabled: bool, helping: nat) -> Seq<char> {
    if available {
        sharing_text(enabled, helping)
    } else {
        "Unbounded: unavailable"@
    }
}

/// The label of the item that starts and stops sharing.
pub open spec fn sharing_toggle(enabled: bool) -> Seq<char> {
    if enabled {
        "Disable Unbounded"@
    } else {
        "Enable Unbounded"@
    }
}

/// The status line of sharing.
pub fn unbounded_tray_label(enabled: bool, helping_now: usize) -> (label: String)
    ensures
        label@ == sharing_text(enabled, helping_now as nat),
{
    if !enabled {
        "Unbounded: off".to_owned()
    } else {
        let mut label: String = "Unbounded: helping ".to_owned();
        let n: String = text::decimal_of(helping_now as u128);
        text::append(&mut label, n.as_str());
        label
    }
}

/// The status line of sharing, where it may not be available.
pub fn unbounded_status_text(available: bool, enabled: bool, helping_now: usize) -> (label: String)
    ensures
        label@ == sharing_status(available, enabled, helping_now as nat),
{
    if !available {
        "Unbounded: unavailable".to_owned()
    } else {
        unbounded_tray_label(enabled, helping_now)
    }
}

/// The label of the item that starts and stops sharing.
pub fn unbounded_toggle_label(enabled: bool) -> (label: &'static str)
    ensures
        label@ == sharing_toggle(enabled),
{
    if enabled {
        "Disable Unbounded"
    } else {
        "Enable Unbounded"
    }
}

/// Whether the tray shows sharing at all: where the server allows it and the user has not hidden it.
/// `hidden` is not asked where the server does not allow it.
pub fn unbounded_tray_visible<F: FnOnce() -> bool>(available: bool, hidden: F) -> (shown: bool)
    requires
        available ==> call_requires(hidden, ()),
    ensures
        !available ==> !shown,
        available ==> call_ensures(hidden, (), !shown),
{
    if available {
        !hidden()
    } else {
        false
    }
}

/// The label of a server: its flag, its country and its city, as far as they are known.
pub open spec fn label_of(s: ServerInfo) -> Seq<char> {
    let flag = flag_of(models::text_or(s.country_code, Seq::empty()));
    let country = models::text_or(s.country, "Unknown"@);
    let place = if flag.len() == 0 {
        country
    } else {
        flag + " "@ + country
    };
    match s.city {
        Some(city) => place + " — "@ + city@,
        None => place,
    }
}

/// The label of a server.
pub fn server_label(s: &ServerInfo) -> (label: String)
    ensures
        label@ == label_of(*s),
{
    let flag: String = match &s.country_code {
        Some(code) => flag_emoji(code.as_str()),
        None => String::new(),
    };
    proof {
        assert(text::trimmed(Seq::<char>::empty()) =~= Seq::empty());
        assert(flag@ =~= flag_of(models::text_or(s.country_code, Seq::empty())));
    }
    let country: &str = models::text_or_else(&s.country, "Unknown");
    let mut label: String = String::new();
    if !flag.as_str().is_empty() {
        text::append(&mut label, flag.as_str());
        text::append(&mut label, " ");
        assert(label@ =~= flag@ + " "@);
    }
    text::append(&mut label, country);
    assert(label@ =~= if flag@.len() == 0 {
        country@
    } else {
        flag@ + " "@ + country@
    });
    if let Some(city) = &s.city {
        text::append(&mut label, " — ");
        text::append(&mut label, city.as_str());
    }
    label
}

/// What tells a server of the pool from another, as far as the menu shows it.
pub open spec fn sig_of(s: ServerInfo) -> Seq<char> {
    text::decimal(s.index as nat) + "|"@ + models::text_or(s.country_code, ""@) + "|"@
        + models::text_or(s.city, ""@)
}

/// What tells a server of the pool from another, as far as the menu shows it.
pub fn server_sig(s: &ServerInfo) -> (sig: String)
    ensures
        sig@ == sig_of(*s),
{
    let mut sig: String = text::decimal_of(s.index as u128);
    text::append(&mut sig, "|");
    text::append(&mut sig, models::text_or_else(&s.country_code, ""));
    text::append(&mut sig, "|");
    text::append(&mut sig, models::text_or_else(&s.city, ""));
    sig
}

/// The place of the first server with a pool index.
pub open spec fn place_of(servers: Seq<ServerInfo>, index: usize) -> Option<int>
    decreases servers.len(),
{
    if servers.len() == 0 {
        None
    } else if servers[0].index == index {
        Some(0)
    } else {
        match place_of(servers.drop_first(), index) {
            Some(i) => Some(i + 1),
            None => None,
        }
    }
}

/// The name of the chosen location.
pub open spec fn location_of(servers: Seq<ServerInfo>, selected: Option<usize>) -> Seq<char> {
    match selected {
        Some(index) => match place_of(servers, index) {
            Some(i) => label_of(servers[i]),
            None => "Selected location"@,
        },
        None => "Smart Location"@,
    }
}

/// The head of the menu: the state and the chosen location.
pub open spec fn header_of(
    state: Seq<char>,
    servers: Seq<ServerInfo>,
    selected: Option<usize>,
) -> Seq<char> {
    state_text(state) + " · "@ + location_of(servers, selected)
}

fn find_server(servers: &[ServerInfo], index: usize) -> (r: Option<usize>)
    ensures
        match r {
            Some(i) => i < servers@.len() && place_of(servers@, index) == Some(i as int),
            None => place_of(servers@, index) is None,
        },
{
    let mut i: usize = 0;
    assert(servers@.skip(0) =~= servers@);
    while i < servers.len()
        invariant
            i <= servers@.len(),
            place_of(servers@, index) == match place_of(servers@.skip(i as int), index) {
                Some(j) => Some(j + i as int),
                None => None,
            },
        decreases servers@.len() - i,
    {
        assert(servers@.skip(i as int).drop_first() =~= servers@.skip(i + 1));
        if servers[i].index == index {
            return Some(i);
        }
        i = i + 1;
    }
    None
}

/// The head of the menu: the state and the chosen location.
pub fn header_label(status: &Status, servers: &[ServerInfo], selected: Option<usize>) -> (label:
    String)
    ensures
        label@ == header_of(status.state@, servers@, selected),
{
    let mut label: String = header_text(status.state.as_str()).to_owned();
    text::append(&mut label, " · ");
    match selected {
        Some(index) => match find_server(servers, index) {
            Some(i) => {
                let location: String = server_label(&servers[i]);
                text::append(&mut label, location.as_str());
            },
            None => {
                text::append(&mut label, "Selected location");
            },
        },
        None => {
            text::append(&mut label, "Smart Location");
        },
    }
    label
}

} // verus!
