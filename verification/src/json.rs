//! The JSON replies Net2 sends, as far as Tusk reads them: the fields of an
//! object, or a list of objects, each field's value being text, a number, a
//! flag or something Tusk does not look at.
use vstd::prelude::*;
use serde_json::Value;
use crate::text::{chars_equal, chars_of, trim, trimmed};

verus! {

/// A JSON value as Tusk reads it. A number is kept as a whole number when it
/// is one that fits in 64 bits.
#[derive(Debug)]
pub enum Scalar {
    Text(String),
    Number(Option<i64>),
    Flag(bool),
    Other,
}

/// A value as the specifications see it.
pub enum ScalarView {
    Text(Seq<char>),
    Number(Option<i64>),
    Flag(bool),
    Other,
}

impl View for Scalar {
    type V = ScalarView;

    open spec fn view(&self) -> ScalarView {
        match self {
            Scalar::Text(s) => ScalarView::Text(s@),
            Scalar::Number(n) => ScalarView::Number(*n),
            Scalar::Flag(b) => ScalarView::Flag(*b),
            Scalar::Other => ScalarView::Other,
        }
    }
}

/// The fields of an object as the specifications see them.
pub open spec fn fields_view(fields: Seq<(String, Scalar)>) -> Seq<(Seq<char>, ScalarView)> {
    fields.map_values(|f: (String, Scalar)| (f.0@, f.1@))
}

/// An entry of a list: an object's fields, or `None` for anything else.
pub open spec fn entry_view(entry: Option<Vec<(String, Scalar)>>) -> Option<Seq<(Seq<char>, ScalarView)>> {
    match entry {
        Some(fields) => Some(fields_view(fields@)),
        None => None,
    }
}

/// A reply: the fields of an object, the entries of a list, or anything else
/// (text that is not JSON among it).
#[derive(Debug)]
pub enum Json {
    Object(Vec<(String, Scalar)>),
    List(Vec<Option<Vec<(String, Scalar)>>>),
    Other,
}

/// A reply as the specifications see it.
pub enum JsonView {
    Object(Seq<(Seq<char>, ScalarView)>),
    List(Seq<Option<Seq<(Seq<char>, ScalarView)>>>),
    Other,
}

impl View for Json {
    type V = JsonView;

    open spec fn view(&self) -> JsonView {
        match self {
            Json::Object(fields) => JsonView::Object(fields_view(fields@)),
            Json::List(entries) => JsonView::List(entries@.map_values(|e: Option<Vec<(String, Scalar)>>| entry_view(e))),
            Json::Other => JsonView::Other,
        }
    }
}

/// What `serde_json` reads from a text, kept as `json_text` keeps it.
pub uninterp spec fn json_reply(text: Seq<char>) -> JsonView;

/// Parses text with `serde_json::from_str` into a `serde_json::Value` and keeps
/// of it what Tusk reads: an object's fields in the order its map yields
/// them, or a list's entries in order, each an object's fields or nothing.
/// The contract only names the result.
#[verifier::external_body]
pub(crate) fn json_text(text: &str) -> (res: Json)
    ensures
        res@ == json_reply(text@),
{
    let fields = |map: serde_json::Map<String, Value>| -> Vec<(String, Scalar)> {
        map.into_iter().map(|(k, v)| (k, match v {
            Value::String(s) => Scalar::Text(s),
            Value::Number(n) => Scalar::Number(n.as_i64()),
            Value::Bool(b) => Scalar::Flag(b),
            _ => Scalar::Other,
        })).collect()
    };
    match serde_json::from_str(text) {
        Ok(Value::Object(map)) => Json::Object(fields(map)),
        Ok(Value::Array(list)) => Json::List(list.into_iter().map(|v| match v { Value::Object(m) => Some(fields(m)), _ => None }).collect()),
        _ => Json::Other,
    }
}

/// The value under a key. A JSON object holds each key once.
pub open spec fn lookup(fields: Seq<(Seq<char>, ScalarView)>, key: Seq<char>) -> Option<ScalarView>
    decreases fields.len(),
{
    if fields.len() == 0 {
        None
    } else if fields[0].0 == key {
        Some(fields[0].1)
    } else {
        lookup(fields.drop_first(), key)
    }
}

/// `char::to_ascii_uppercase`.
pub open spec fn upper_char(c: char) -> char {
    if 'a' <= c && c <= 'z' { ((c as u32) - 32) as char } else { c }
}

/// The key with its first letter capitalised.
pub open spec fn pascal(key: Seq<char>) -> Seq<char> {
    if key.len() == 0 { key } else { seq![upper_char(key[0])] + key.drop_first() }
}

/// A field under its camelCase key, or failing that its PascalCase key: Net2
/// documents one and shows the other.
pub open spec fn field_of(fields: Seq<(Seq<char>, ScalarView)>, key: Seq<char>) -> Option<ScalarView> {
    match lookup(fields, key) {
        Some(v) => Some(v),
        None => lookup(fields, pascal(key)),
    }
}

/// A text field, trimmed, or empty when it is missing or not text.
pub open spec fn text_of(fields: Seq<(Seq<char>, ScalarView)>, key: Seq<char>) -> Seq<char> {
    match field_of(fields, key) {
        Some(ScalarView::Text(s)) => trimmed(s),
        _ => Seq::empty(),
    }
}

/// The value under a key.
pub fn get<'a>(fields: &'a Vec<(String, Scalar)>, key: &[char]) -> (res: Option<&'a Scalar>)
    ensures
        match lookup(fields_view(fields@), key@) {
            Some(v) => res matches Some(r) && r@ == v,
            None => res is None,
        },
{
    let ghost all = fields_view(fields@);
    let n = fields.len();
    let mut k: usize = 0;
    assert(all.subrange(0, n as int) =~= all);
    while k < n
        invariant
            k <= n == fields@.len(),
            all == fields_view(fields@),
            lookup(all, key@) == lookup(all.subrange(k as int, n as int), key@),
        decreases n - k,
    {
        proof {
            let rest = all.subrange(k as int, n as int);
            assert(rest.drop_first() =~= all.subrange(k + 1, n as int));
            assert(rest[0] == (fields@[k as int].0@, fields@[k as int].1@));
        }
        let name = chars_of(fields[k].0.as_str());
        if chars_equal(name.as_slice(), key) {
            return Some(&fields[k].1);
        }
        k = k + 1;
    }
    None
}

/// The key with its first letter capitalised.
fn pascal_chars(key: &[char]) -> (res: Vec<char>)
    ensures
        res@ == pascal(key@),
{
    let mut out: Vec<char> = Vec::new();
    if key.len() == 0 {
        return out;
    }
    let c = key[0];
    let u = if 'a' <= c && c <= 'z' { ((c as u8) - 32) as char } else { c };
    out.push(u);
    let mut k: usize = 1;
    while k < key.len()
        invariant
            1 <= k <= key@.len(),
            out@ == seq![upper_char(key@[0])] + key@.subrange(1, k as int),
        decreases key@.len() - k,
    {
        out.push(key[k]);
        assert(seq![upper_char(key@[0])] + key@.subrange(1, k + 1) =~= (seq![upper_char(key@[0])] + key@.subrange(1, k as int)).push(key@[k as int]));
        k = k + 1;
    }
    assert(key@.subrange(1, key@.len() as int) =~= key@.drop_first());
    out
}

/// A field under its camelCase key or its PascalCase key.
pub fn field<'a>(fields: &'a Vec<(String, Scalar)>, key: &str) -> (res: Option<&'a Scalar>)
    ensures
        match field_of(fields_view(fields@), key@) {
            Some(v) => res matches Some(r) && r@ == v,
            None => res is None,
        },
{
    let k = chars_of(key);
    match get(fields, k.as_slice()) {
        Some(v) => Some(v),
        None => get(fields, pascal_chars(k.as_slice()).as_slice()),
    }
}

/// A text field, trimmed, or empty when it is missing or not text.
pub fn text(fields: &Vec<(String, Scalar)>, key: &str) -> (res: Vec<char>)
    ensures
        res@ == text_of(fields_view(fields@), key@),
{
    match field(fields, key) {
        Some(Scalar::Text(s)) => trim(chars_of(s.as_str()).as_slice()),
        _ => Vec::new(),
    }
}

} // verus!
