//! What the user interface shows of the tunnel.
use vstd::prelude::*;

use crate::json::{Json, JsonModel};

verus! {

/// The status that the window renders.
#[derive(Debug, Clone)]
pub struct Status {
    /// `connected`, `connecting`, `disconnecting` or `disconnected`.
    pub state: String,
    /// The protocol in use.
    pub protocol: String,
    /// Traffic goes direct, since the tunnel failed open.
    pub fail_open: bool,
}

/// One server of the pool.
#[derive(Debug, Clone)]
pub struct ServerInfo {
    /// Its place in the pool, by which it is selected.
    pub index: usize,
    /// Its name.
    pub name: Option<String>,
    /// Its country.
    pub country: Option<String>,
    /// The country's two letters.
    pub country_code: Option<String>,
    /// Its city.
    pub city: Option<String>,
    /// The protocol that it speaks.
    pub protocol: Option<String>,
    /// How far it is away (ms).
    pub latency_ms: Option<u64>,
    /// It answers.
    pub healthy: bool,
    /// Traffic goes through it.
    pub is_current: bool,
    /// The user chose it, as the tunnel sees it. It moves with the server when the pool is reordered.
    pub is_pinned: bool,
}

/// The view of an optional text.
pub open spec fn text_view(s: Option<String>) -> Option<Seq<char>> {
    match s {
        Some(s) => Some(s@),
        None => None,
    }
}

/// An optional text, or `other` where there is none.
pub open spec fn text_or(s: Option<String>, other: Seq<char>) -> Seq<char> {
    match s {
        Some(s) => s@,
        None => other,
    }
}

/// An optional text, or `other` where there is none.
pub fn text_or_else<'a>(s: &'a Option<String>, other: &'a str) -> (r: &'a str)
    ensures
        r@ == text_or(*s, other@),
{
    match s {
        Some(s) => s.as_str(),
        None => other,
    }
}

/// The status as JSON.
pub open spec fn status_json(state: Seq<char>, protocol: Seq<char>, fail_open: bool) -> JsonModel {
    JsonModel::Object(
        seq![
            ("state"@, JsonModel::Text(state)),
            ("protocol"@, JsonModel::Text(protocol)),
            ("failOpen"@, JsonModel::Flag(fail_open)),
        ],
    )
}

/// A member that is left out where there is no text.
pub open spec fn optional_member(key: Seq<char>, s: Option<String>) -> Seq<(Seq<char>, JsonModel)> {
    match s {
        Some(s) => seq![(key, JsonModel::Text(s@))],
        None => Seq::empty(),
    }
}

/// The server as JSON: what is not known is left out.
pub open spec fn server_members(s: ServerInfo) -> Seq<(Seq<char>, JsonModel)> {
    seq![("index"@, JsonModel::Number(s.index as u64))] + optional_member("name"@, s.name)
        + optional_member("country"@, s.country) + optional_member("countryCode"@, s.country_code)
        + optional_member("city"@, s.city) + optional_member("protocol"@, s.protocol) + (
    match s.latency_ms {
        Some(n) => seq![("latencyMs"@, JsonModel::Number(n))],
        None => Seq::empty(),
    }) + seq![
        ("healthy"@, JsonModel::Flag(s.healthy)),
        ("isCurrent"@, JsonModel::Flag(s.is_current)),
        ("isPinned"@, JsonModel::Flag(s.is_pinned)),
    ]
}

/// The models of members.
pub open spec fn members_view(v: Seq<(String, Json)>) -> Seq<(Seq<char>, JsonModel)> {
    Seq::new(v.len(), |i: int| (v[i].0@, v[i].1@))
}

/// Adds a member.
pub(crate) fn add_member(v: &mut Vec<(String, Json)>, key: &str, value: Json)
    ensures
        members_view(final(v)@) == members_view(old(v)@).push((key@, value@)),
{
    v.push((key.to_owned(), value));
    assert(members_view(v@) =~= members_view(old(v)@).push((key@, value@)));
}

/// Adds a member where there is a text.
fn add_optional(v: &mut Vec<(String, Json)>, key: &str, value: &Option<String>)
    ensures
        members_view(final(v)@) == members_view(old(v)@) + optional_member(key@, *value),
{
    match value {
        Some(s) => {
            add_member(v, key, text_json(s.as_str()));
            assert(members_view(v@) =~= members_view(old(v)@) + optional_member(key@, *value));
        },
        None => {
            assert(members_view(v@) =~= members_view(old(v)@) + optional_member(key@, *value));
        },
    }
}

/// A text as JSON.
pub(crate) fn text_json(s: &str) -> (j: Json)
    ensures
        j@ == JsonModel::Text(s@),
{
    Json::Text(s.to_owned())
}

/// A boolean as JSON.
pub(crate) fn flag_json(b: bool) -> (j: Json)
    ensures
        j@ == JsonModel::Flag(b),
{
    Json::Flag(b)
}

/// A number as JSON.
pub(crate) fn number_json(n: u64) -> (j: Json)
    ensures
        j@ == JsonModel::Number(n),
{
    Json::Number(n)
}

/// An object of these members.
pub(crate) fn object_json(v: Vec<(String, Json)>) -> (j: Json)
    ensures
        j@ == JsonModel::Object(members_view(v@)),
{
    let j: Json = Json::Object(v);
    assert(j@->Object_0 =~= members_view(v@));
    j
}

impl Status {
    /// The status as JSON.
    pub fn to_json(&self) -> (j: Json)
        ensures
            j@ == status_json(self.state@, self.protocol@, self.fail_open),
    {
        let mut v: Vec<(String, Json)> = Vec::new();
        assert(members_view(v@) =~= Seq::empty());
        add_member(&mut v, "state", text_json(self.state.as_str()));
        add_member(&mut v, "protocol", text_json(self.protocol.as_str()));
        add_member(&mut v, "failOpen", flag_json(self.fail_open));
        assert(members_view(v@) =~= status_json(
            self.state@,
            self.protocol@,
            self.fail_open,
        )->Object_0);
        object_json(v)
    }
}

impl ServerInfo {
    /// The server as JSON.
    pub fn to_json(&self) -> (j: Json)
        ensures
            j@ == JsonModel::Object(server_members(*self)),
    {
        let mut v: Vec<(String, Json)> = Vec::new();
        assert(members_view(v@) =~= Seq::empty());
        add_member(&mut v, "index", number_json(self.index as u64));
        add_optional(&mut v, "name", &self.name);
        add_optional(&mut v, "country", &self.country);
        add_optional(&mut v, "countryCode", &self.country_code);
        add_optional(&mut v, "city", &self.city);
        add_optional(&mut v, "protocol", &self.protocol);
        let ghost upto = members_view(v@);
        assert(upto =~= seq![("index"@, JsonModel::Number(self.index as u64))] + optional_member(
            "name"@,
            self.name,
        ) + optional_member("country"@, self.country) + optional_member(
            "countryCode"@,
            self.country_code,
        ) + optional_member("city"@, self.city) + optional_member("protocol"@, self.protocol));
        if let Some(n) = self.latency_ms {
            add_member(&mut v, "latencyMs", number_json(n));
            assert(members_view(v@) =~= upto + seq![("latencyMs"@, JsonModel::Number(n))]);
        } else {
            assert(members_view(v@) =~= upto + Seq::<(Seq<char>, JsonModel)>::empty());
        }
        add_member(&mut v, "healthy", flag_json(self.healthy));
        add_member(&mut v, "isCurrent", flag_json(self.is_current));
        add_member(&mut v, "isPinned", flag_json(self.is_pinned));
        assert(members_view(v@) =~= server_members(*self));
        object_json(v)
    }
}

/// A server as a configuration names it.
#[derive(Debug)]
pub struct PoolEntry {
    /// Its name.
    pub name: Option<String>,
    /// Its country.
    pub country: Option<String>,
    /// The country's two letters.
    pub country_code: Option<String>,
    /// Its city.
    pub city: Option<String>,
    /// The protocol that it speaks, where the configuration says.
    pub protocol: Option<String>,
}

/// The server that entry `i` of a configuration gives: what only a running tunnel knows is not made up.
pub open spec fn listed(e: PoolEntry, i: int, s: ServerInfo) -> bool {
    &&& s.index == i
    &&& s.name == e.name
    &&& s.country == e.country
    &&& s.country_code == e.country_code
    &&& s.city == e.city
    &&& s.protocol == e.protocol
    &&& s.latency_ms is None
    &&& !s.healthy
    &&& !s.is_current
    &&& !s.is_pinned
}

/// The servers of a configuration, in its order, which is that of the pool.
pub fn servers_from_entries(entries: Vec<PoolEntry>) -> (out: Vec<ServerInfo>)
    ensures
        out@.len() == entries@.len(),
        forall|i: int| 0 <= i < out@.len() ==> listed(entries@[i], i, #[trigger] out@[i]),
{
    let mut out: Vec<ServerInfo> = Vec::new();
    let mut rest: Vec<PoolEntry> = entries;
    let n: usize = rest.len();
    let mut i: usize = 0;
    assert(rest@ =~= entries@.skip(0));
    while i < n
        invariant
            i <= n,
            n == entries@.len(),
            rest@ == entries@.skip(i as int),
            out@.len() == i,
            forall|j: int| 0 <= j < i ==> listed(entries@[j], j, #[trigger] out@[j]),
        decreases n - i,
    {
        let e: PoolEntry = rest.remove(0);
        assert(e == entries@[i as int]);
        assert(rest@ =~= entries@.skip(i + 1));
        out.push(
            ServerInfo {
                index: i,
                name: e.name,
                country: e.country,
                country_code: e.country_code,
                city: e.city,
                protocol: e.protocol,
                latency_ms: None,
                healthy: false,
                is_current: false,
                is_pinned: false,
            },
        );
        i = i + 1;
    }
    out
}

// ---- what the window reads ----

/// One member has this key, and this is its value.
pub open spec fn tells(v: Seq<(Seq<char>, JsonModel)>, key: Seq<char>, value: JsonModel) -> bool {
    &&& v.contains((key, value))
    &&& forall|i: int| 0 <= i < v.len() && (#[trigger] v[i]).0 == key ==> v[i].1 == value
}

/// No member has this key.
pub open spec fn silent(v: Seq<(Seq<char>, JsonModel)>, key: Seq<char>) -> bool {
    forall|i: int| 0 <= i < v.len() ==> (#[trigger] v[i]).0 != key
}

/// A text that is told where it is known, and left out where it is not.
pub open spec fn tells_text(
    v: Seq<(Seq<char>, JsonModel)>,
    key: Seq<char>,
    s: Option<String>,
) -> bool {
    match s {
        Some(s) => tells(v, key, JsonModel::Text(s@)),
        None => silent(v, key),
    }
}

proof fn lemma_joined(
    a: Seq<(Seq<char>, JsonModel)>,
    b: Seq<(Seq<char>, JsonModel)>,
    key: Seq<char>,
    value: JsonModel,
)
    ensures
        tells(a, key, value) && silent(b, key) ==> tells(a + b, key, value),
        silent(a, key) && tells(b, key, value) ==> tells(a + b, key, value),
        silent(a, key) && silent(b, key) ==> silent(a + b, key),
{
    let v = a + b;
    assert forall|i: int| 0 <= i < v.len() implies #[trigger] v[i] == if i < a.len() {
        a[i]
    } else {
        b[i - a.len()]
    } by {}
    if a.contains((key, value)) {
        let i = choose|i: int| 0 <= i < a.len() && a[i] == (key, value);
        assert(v[i] == (key, value));
    }
    if b.contains((key, value)) {
        let i = choose|i: int| 0 <= i < b.len() && b[i] == (key, value);
        assert(v[i + a.len()] == (key, value));
    }
}

proof fn lemma_single(k: Seq<char>, x: JsonModel, key: Seq<char>)
    ensures
        tells(seq![(k, x)], k, x),
        key != k ==> silent(seq![(k, x)], key),
        silent(Seq::<(Seq<char>, JsonModel)>::empty(), key),
{
    assert(seq![(k, x)][0] == (k, x));
}

/// The keys of a server's members.
spec fn server_keys() -> Seq<Seq<char>> {
    seq![
        "index"@,
        "name"@,
        "country"@,
        "countryCode"@,
        "city"@,
        "protocol"@,
        "latencyMs"@,
        "healthy"@,
        "isCurrent"@,
        "isPinned"@,
    ]
}

proof fn lemma_server_keys_differ()
    ensures
        forall|i: int, j: int|
            0 <= i < 10 && 0 <= j < 10 && i != j ==> #[trigger] server_keys()[i]
                != #[trigger] server_keys()[j],
{
    reveal_strlit("index");
    reveal_strlit("name");
    reveal_strlit("country");
    reveal_strlit("countryCode");
    reveal_strlit("city");
    reveal_strlit("protocol");
    reveal_strlit("latencyMs");
    reveal_strlit("healthy");
    reveal_strlit("isCurrent");
    reveal_strlit("isPinned");
    let k = server_keys();
    assert(k[0].len() == 5 && k[1].len() == 4 && k[2].len() == 7 && k[3].len() == 11 && k[4].len()
        == 4 && k[5].len() == 8 && k[6].len() == 9 && k[7].len() == 7 && k[8].len() == 9
        && k[9].len() == 8);
    assert(k[1][0] == 'n' && k[4][0] == 'c' && k[2][0] == 'c' && k[7][0] == 'h' && k[5][0] == 'p'
        && k[9][0] == 'i' && k[6][0] == 'l' && k[8][0] == 'i');
    assert forall|i: int, j: int| 0 <= i < 10 && 0 <= j < 10 && i != j implies #[trigger] k[i]
        != #[trigger] k[j] by {
        if k[i].len() == k[j].len() {
            assert(k[i][0] != k[j][0]);
        }
    }
}

/// A part of a server's members, with the key that it may have.
spec fn server_part(s: ServerInfo, n: int) -> Seq<(Seq<char>, JsonModel)> {
    if n == 0 {
        seq![("index"@, JsonModel::Number(s.index as u64))]
    } else if n == 1 {
        optional_member("name"@, s.name)
    } else if n == 2 {
        optional_member("country"@, s.country)
    } else if n == 3 {
        optional_member("countryCode"@, s.country_code)
    } else if n == 4 {
        optional_member("city"@, s.city)
    } else if n == 5 {
        optional_member("protocol"@, s.protocol)
    } else if n == 6 {
        match s.latency_ms {
            Some(n) => seq![("latencyMs"@, JsonModel::Number(n))],
            None => Seq::empty(),
        }
    } else if n == 7 {
        seq![("healthy"@, JsonModel::Flag(s.healthy))]
    } else if n == 8 {
        seq![("isCurrent"@, JsonModel::Flag(s.is_current))]
    } else {
        seq![("isPinned"@, JsonModel::Flag(s.is_pinned))]
    }
}

spec fn server_parts(s: ServerInfo, n: int) -> Seq<(Seq<char>, JsonModel)>
    decreases n,
{
    if n <= 0 {
        Seq::empty()
    } else {
        server_parts(s, n - 1) + server_part(s, n - 1)
    }
}

proof fn lemma_parts(s: ServerInfo, n: int, k: int)
    requires
        0 <= n <= 10,
        0 <= k < 10,
    ensures
        n <= k ==> silent(server_parts(s, n), server_keys()[k]),
        n > k && server_part(s, k).len() == 0 ==> silent(server_parts(s, n), server_keys()[k]),
        n > k && server_part(s, k).len() == 1 ==> tells(
            server_parts(s, n),
            server_keys()[k],
            server_part(s, k)[0].1,
        ),
    decreases n,
{
    lemma_server_keys_differ();
    if n > 0 {
        lemma_parts(s, n - 1, k);
        let a = server_parts(s, n - 1);
        let b = server_part(s, n - 1);
        let key = server_keys()[k];
        assert(n - 1 == 0 || n - 1 == 1 || n - 1 == 2 || n - 1 == 3 || n - 1 == 4 || n - 1 == 5 || n
            - 1 == 6 || n - 1 == 7 || n - 1 == 8 || n - 1 == 9);
        if b.len() == 1 {
            assert(b =~= seq![(server_keys()[n - 1], b[0].1)]);
            lemma_single(server_keys()[n - 1], b[0].1, key);
            if k != n - 1 {
                assert(server_keys()[k] != server_keys()[n - 1]);
            }
        } else {
            assert(b =~= Seq::empty());
        }
        lemma_joined(a, b, key, if k == n - 1 {
            b[0].1
        } else {
            server_part(s, k)[0].1
        });
    }
}

/// Every fact of a server is told under its own name, and one that is not known is left out.
pub proof fn lemma_server_facts_are_told_under_their_names(s: ServerInfo)
    ensures
        ({
            let v = server_members(s);
            &&& tells(v, "index"@, JsonModel::Number(s.index as u64))
            &&& tells_text(v, "name"@, s.name)
            &&& tells_text(v, "country"@, s.country)
            &&& tells_text(v, "countryCode"@, s.country_code)
            &&& tells_text(v, "city"@, s.city)
            &&& tells_text(v, "protocol"@, s.protocol)
            &&& s.latency_ms matches Some(n) ==> tells(v, "latencyMs"@, JsonModel::Number(n))
            &&& s.latency_ms is None ==> silent(v, "latencyMs"@)
            &&& tells(v, "healthy"@, JsonModel::Flag(s.healthy))
            &&& tells(v, "isCurrent"@, JsonModel::Flag(s.is_current))
            &&& tells(v, "isPinned"@, JsonModel::Flag(s.is_pinned))
        }),
{
    let v = server_members(s);
    reveal_with_fuel(server_parts, 11);
    assert(v =~= server_parts(s, 10));
    lemma_parts(s, 10, 0);
    lemma_parts(s, 10, 1);
    lemma_parts(s, 10, 2);
    lemma_parts(s, 10, 3);
    lemma_parts(s, 10, 4);
    lemma_parts(s, 10, 5);
    lemma_parts(s, 10, 6);
    lemma_parts(s, 10, 7);
    lemma_parts(s, 10, 8);
    lemma_parts(s, 10, 9);
}

/// The status tells the state, the protocol and whether the tunnel failed open, each under its name.
pub proof fn lemma_status_is_told_under_its_names(
    state: Seq<char>,
    protocol: Seq<char>,
    fail_open: bool,
)
    ensures
        status_json(state, protocol, fail_open) matches JsonModel::Object(v) && ({
            &&& tells(v, "state"@, JsonModel::Text(state))
            &&& tells(v, "protocol"@, JsonModel::Text(protocol))
            &&& tells(v, "failOpen"@, JsonModel::Flag(fail_open))
            &&& v.len() == 3
        }),
{
    reveal_strlit("state");
    reveal_strlit("protocol");
    reveal_strlit("failOpen");
    let v = status_json(state, protocol, fail_open)->Object_0;
    assert(v[0].0.len() == 5 && v[1].0.len() == 8 && v[2].0.len() == 8);
    assert(v[1].0[0] == 'p' && v[2].0[0] == 'f');
    assert(v[0] == ("state"@, JsonModel::Text(state)));
    assert(v[1] == ("protocol"@, JsonModel::Text(protocol)));
    assert(v[2] == ("failOpen"@, JsonModel::Flag(fail_open)));
}

} // verus!
