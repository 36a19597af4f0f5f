//! JSON values as plain data, and their compact text.
use vstd::prelude::*;

use crate::text::{append, decimal_of};

verus! {

/// A JSON value that is written out.
#[derive(Debug)]
pub enum Json {
    /// Nothing.
    Null,
    /// A boolean.
    Flag(bool),
    /// A natural number.
    Number(u64),
    /// Any other number, as it is written.
    Numeral(String),
    /// A string.
    Text(String),
    /// An array.
    List(Vec<Json>),
    /// An object, its members in the order in which they are written.
    Object(Vec<(String, Json)>),
}

/// The mathematical form of a JSON value.
pub enum JsonModel {
    /// Nothing.
    Null,
    /// A boolean.
    Flag(bool),
    /// A natural number.
    Number(u64),
    /// Any other number, as it is written.
    Numeral(Seq<char>),
    /// A string.
    Text(Seq<char>),
    /// An array.
    List(Seq<JsonModel>),
    /// An object.
    Object(Seq<(Seq<char>, JsonModel)>),
}

/// The mathematical form of a JSON value.
pub open spec fn json_model(j: Json) -> JsonModel
    decreases j,
{
    match j {
        Json::Null => JsonModel::Null,
        Json::Flag(b) => JsonModel::Flag(b),
        Json::Number(n) => JsonModel::Number(n),
        Json::Numeral(s) => JsonModel::Numeral(s@),
        Json::Text(s) => JsonModel::Text(s@),
        Json::List(v) => JsonModel::List(
            Seq::new(
                v@.len(),
                |i: int|
                    if 0 <= i < v@.len() {
                        json_model(v@[i])
                    } else {
                        JsonModel::Flag(false)
                    },
            ),
        ),
        Json::Object(v) => JsonModel::Object(
            Seq::new(
                v@.len(),
                |i: int|
                    if 0 <= i < v@.len() {
                        (v@[i].0@, json_model(v@[i].1))
                    } else {
                        (Seq::empty(), JsonModel::Flag(false))
                    },
            ),
        ),
    }
}

impl View for Json {
    type V = JsonModel;

    open spec fn view(&self) -> JsonModel {
        json_model(*self)
    }
}

/// The lower-case hexadecimal digit of a number below sixteen.
pub open spec fn hex_digit(n: int) -> char {
    if n < 10 {
        ('0' as int + n) as char
    } else {
        ('a' as int + n - 10) as char
    }
}

/// How one character stands in a string literal: quotes, backslashes and control characters are escaped,
/// the common control characters by a letter and the others by their code.
pub open spec fn escaped(c: char) -> Seq<char> {
    if c == '"' || c == '\\' {
        seq!['\\', c]
    } else if c == '\u{8}' {
        seq!['\\', 'b']
    } else if c == '\t' {
        seq!['\\', 't']
    } else if c == '\n' {
        seq!['\\', 'n']
    } else if c == '\u{c}' {
        seq!['\\', 'f']
    } else if c == '\r' {
        seq!['\\', 'r']
    } else if (c as int) < 0x20 {
        seq!['\\', 'u', '0', '0', hex_digit(c as int / 16), hex_digit(c as int % 16)]
    } else {
        seq![c]
    }
}

/// A text with its characters escaped.
pub open spec fn all_escaped(s: Seq<char>) -> Seq<char>
    decreases s.len(),
{
    if s.len() == 0 {
        Seq::empty()
    } else {
        all_escaped(s.drop_last()) + escaped(s.last())
    }
}

/// The JSON string literal of a text.
pub open spec fn json_quoted(s: Seq<char>) -> Seq<char> {
    seq!['"'] + all_escaped(s) + seq!['"']
}

/// `serde_json::to_string` of a string: its JSON literal, in quotes. Quotes, backslashes and the
/// characters below a space are escaped, all others stand as they are.
#[verifier::external_body]
fn quoted(s: &str) -> (r: String)
    ensures
        r@ == json_quoted(s@),
{
    serde_json::to_string(s).expect("a string has a literal")
}

/// The compact text of a JSON value: no spaces, members in their order.
pub open spec fn json_text(j: JsonModel) -> Seq<char>
    decreases j,
{
    match j {
        JsonModel::Null => "null"@,
        JsonModel::Flag(b) => if b {
            "true"@
        } else {
            "false"@
        },
        JsonModel::Number(n) => crate::text::decimal(n as nat),
        JsonModel::Numeral(s) => s,
        JsonModel::Text(s) => json_quoted(s),
        JsonModel::List(v) => seq!['['] + list_text(v, v.len()) + seq![']'],
        JsonModel::Object(v) => seq!['{'] + members_text(v, v.len()) + seq!['}'],
    }
}

/// The first `n` elements, with commas between them.
pub open spec fn list_text(v: Seq<JsonModel>, n: nat) -> Seq<char>
    decreases v, n,
{
    if n == 0 || n > v.len() {
        Seq::empty()
    } else {
        let last = json_text(v[n - 1]);
        if n == 1 {
            last
        } else {
            list_text(v, (n - 1) as nat) + seq![','] + last
        }
    }
}

/// The first `n` members, with commas between them.
pub open spec fn members_text(v: Seq<(Seq<char>, JsonModel)>, n: nat) -> Seq<char>
    decreases v, n,
{
    if n == 0 || n > v.len() {
        Seq::empty()
    } else {
        let last = json_quoted(v[n - 1].0) + seq![':'] + json_text(v[n - 1].1);
        if n == 1 {
            last
        } else {
            members_text(v, (n - 1) as nat) + seq![','] + last
        }
    }
}

/// Writes a JSON value as compact text.
pub fn to_text(j: &Json) -> (s: String)
    ensures
        s@ == json_text(j@),
    decreases j,
{
    match j {
        Json::Null => "null".to_owned(),
        Json::Flag(b) => {
            let mut s: String = String::new();
            append(
                &mut s,
                if *b {
                    "true"
                } else {
                    "false"
                },
            );
            assert(s@ =~= json_text(j@));
            s
        },
        Json::Number(n) => decimal_of(*n as u128),
        Json::Numeral(t) => t.as_str().to_owned(),
        Json::Text(t) => quoted(t.as_str()),
        Json::List(v) => {
            let mut s: String = String::new();
            append(&mut s, "[");
            let ghost m = j@->List_0;
            let mut i: usize = 0;
            proof {
                reveal_strlit("[");
                reveal_strlit(",");
                reveal_strlit("]");
                assert(s@ =~= seq!['['] + list_text(m, 0));
            }
            while i < v.len()
                invariant
                    i <= v@.len(),
                    j@ == JsonModel::List(m),
                    *j == Json::List(*v),
                    m.len() == v@.len(),
                    s@ == seq!['['] + list_text(m, i as nat),
                    ","@ == seq![','],
                decreases v@.len() - i,
            {
                let ghost was = s@;
                if i > 0 {
                    append(&mut s, ",");
                }
                let item: String = to_text(&v[i]);
                append(&mut s, item.as_str());
                proof {
                    assert(m[i as int] == v@[i as int]@);
                    assert(s@ =~= seq!['['] + list_text(m, (i + 1) as nat));
                }
                i = i + 1;
            }
            append(&mut s, "]");
            assert(s@ =~= json_text(j@));
            s
        },
        Json::Object(v) => {
            let mut s: String = String::new();
            append(&mut s, "{");
            let ghost m = j@->Object_0;
            let mut i: usize = 0;
            proof {
                reveal_strlit("{");
                reveal_strlit(",");
                reveal_strlit(":");
                reveal_strlit("}");
                assert(s@ =~= seq!['{'] + members_text(m, 0));
            }
            while i < v.len()
                invariant
                    i <= v@.len(),
                    j@ == JsonModel::Object(m),
                    *j == Json::Object(*v),
                    m.len() == v@.len(),
                    s@ == seq!['{'] + members_text(m, i as nat),
                    ","@ == seq![','],
                    ":"@ == seq![':'],
                decreases v@.len() - i,
            {
                if i > 0 {
                    append(&mut s, ",");
                }
                let key: String = quoted(v[i].0.as_str());
                append(&mut s, key.as_str());
                append(&mut s, ":");
                let item: String = to_text(&v[i].1);
                append(&mut s, item.as_str());
                proof {
                    assert(m[i as int] == (v@[i as int].0@, v@[i as int].1@));
                    assert(s@ =~= seq!['{'] + members_text(m, (i + 1) as nat));
                }
                i = i + 1;
            }
            append(&mut s, "}");
            assert(s@ =~= json_text(j@));
            s
        },
    }
}

/// What one member of a JSON object holds.
#[derive(Debug)]
pub enum Leaf {
    /// A boolean.
    Flag(bool),
    /// A string.
    Text(String),
    /// Something else.
    Other,
}

/// What one member of a JSON object holds.
pub enum LeafModel {
    /// A boolean.
    Flag(bool),
    /// A string.
    Text(Seq<char>),
    /// Something else.
    Other,
}

impl View for Leaf {
    type V = LeafModel;

    open spec fn view(&self) -> LeafModel {
        match *self {
            Leaf::Flag(b) => LeafModel::Flag(b),
            Leaf::Text(s) => LeafModel::Text(s@),
            Leaf::Other => LeafModel::Other,
        }
    }
}

/// What a member of a JSON text holds, as `serde_json` reads it: an error where the text is not JSON,
/// and nothing where it is no object or has no such member.
pub uninterp spec fn json_member_of(text: Seq<char>, key: Seq<char>) -> Result<
    Option<LeafModel>,
    Seq<char>,
>;

/// The model of a read member.
pub open spec fn member_view(r: Result<Option<Leaf>, String>) -> Result<
    Option<LeafModel>,
    Seq<char>,
> {
    match r {
        Ok(Some(leaf)) => Ok(Some(leaf@)),
        Ok(None) => Ok(None),
        Err(e) => Err(e@),
    }
}

/// `serde_json::from_str` into a `serde_json::Value`, then `Value::get`: what the member `key` holds. The
/// error is the text of the parse error. It depends on the two texts alone.
#[verifier::external_body]
pub(crate) fn member(text: &str, key: &str) -> (r: Result<Option<Leaf>, String>)
    ensures
        member_view(r) == json_member_of(text@, key@),
{
    let value: serde_json::Value = serde_json::from_str(text).map_err(|e| e.to_string())?;
    Ok(value.get(key).map(|v| match v {
        serde_json::Value::Bool(b) => Leaf::Flag(*b),
        serde_json::Value::String(s) => Leaf::Text(s.clone()),
        serde_json::Value::Null => Leaf::Other,
        serde_json::Value::Number(_) => Leaf::Other,
        serde_json::Value::Array(_) => Leaf::Other,
        serde_json::Value::Object(_) => Leaf::Other,
    }))
}

/// The strings of a JSON array of strings, as `serde_json` reads it, or what is wrong with the text.
pub uninterp spec fn json_strings_of(text: Seq<char>) -> Result<Seq<Seq<char>>, Seq<char>>;

/// The texts of strings.
pub open spec fn texts(v: Seq<String>) -> Seq<Seq<char>> {
    Seq::new(v.len(), |i: int| v[i]@)
}

/// `serde_json::from_str` into a `Vec<String>`: the strings of an array of strings, or the text of the
/// parse error. It depends on the text alone.
#[verifier::external_body]
pub(crate) fn strings_in(text: &str) -> (r: Result<Vec<String>, String>)
    ensures
        match r {
            Ok(v) => json_strings_of(text@) == Ok::<Seq<Seq<char>>, Seq<char>>(texts(v@)),
            Err(e) => json_strings_of(text@) == Err::<Seq<Seq<char>>, Seq<char>>(e@),
        },
{
    serde_json::from_str(text).map_err(|e| e.to_string())
}

/// Whether a text is a JSON array, as `serde_json` reads it.
pub uninterp spec fn json_is_list(text: Seq<char>) -> bool;

/// `serde_json::from_str` into a `serde_json::Value`, then `Value::is_array`: whether the text is a JSON
/// array. It depends on the text alone.
#[verifier::external_body]
pub(crate) fn is_list(text: &str) -> (r: bool)
    ensures
        r == json_is_list(text@),
{
    serde_json::from_str::<serde_json::Value>(text).is_ok_and(|v| v.is_array())
}

/// A list of strings as JSON.
pub open spec fn strings_json(v: Seq<Seq<char>>) -> JsonModel {
    JsonModel::List(Seq::new(v.len(), |i: int| JsonModel::Text(v[i])))
}

/// A list of strings as JSON.
pub fn list_of(v: &Vec<String>) -> (j: Json)
    ensures
        j@ == strings_json(texts(v@)),
{
    let mut out: Vec<Json> = Vec::new();
    let mut i: usize = 0;
    while i < v.len()
        invariant
            i <= v@.len(),
            out@.len() == i,
            forall|k: int| 0 <= k < i ==> (#[trigger] out@[k])@ == JsonModel::Text(v@[k]@),
        decreases v@.len() - i,
    {
        out.push(Json::Text(v[i].as_str().to_owned()));
        i = i + 1;
    }
    let j: Json = Json::List(out);
    assert(j@->List_0 =~= strings_json(texts(v@))->List_0);
    j
}

} // verus!
