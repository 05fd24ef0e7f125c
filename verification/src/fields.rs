//! Fields of JSON objects.

use crate::grammar::JsonModel;
use crate::json;
use crate::json::Json;
use crate::number;
use crate::number::as_integer;
use crate::text::owned;
use vstd::prelude::*;

verus! {

/// The string field of an object; nothing where there is no such string.
pub open spec fn text_field(value: JsonModel, key: Seq<char>) -> Seq<char> {
    match json::field(value, key) {
        Some(JsonModel::String(s)) => s,
        _ => seq![],
    }
}

/// The array field of an object; nothing where there is no such array.
pub open spec fn list_field(value: JsonModel, key: Seq<char>) -> Seq<JsonModel> {
    match json::field(value, key) {
        Some(JsonModel::Array(items)) => items,
        _ => seq![],
    }
}

/// The string field of an object, where there is one.
pub open spec fn string_in(value: JsonModel, key: Seq<char>) -> Option<Seq<char>> {
    match json::field(value, key) {
        Some(JsonModel::String(s)) => Some(s),
        _ => None,
    }
}

/// The string at a path; nothing where there is no such string.
pub open spec fn text_at(value: JsonModel, path: Seq<Seq<char>>) -> Seq<char> {
    match json::at_path(value, path) {
        Some(JsonModel::String(s)) => s,
        _ => seq![],
    }
}

/// The items of the array at a path; nothing where there is no such array.
pub open spec fn list_at(value: JsonModel, path: Seq<Seq<char>>) -> Seq<JsonModel> {
    match json::at_path(value, path) {
        Some(JsonModel::Array(items)) => items,
        _ => seq![],
    }
}

/// The number field of an object as an integer, or the given one where there is none.
pub open spec fn integer_in(value: JsonModel, key: Seq<char>, default: int) -> int {
    match json::field(value, key) {
        Some(JsonModel::Number(n)) => number::integer_of(n),
        _ => default,
    }
}

/// The string field of an object, or the empty string.
pub fn text_of(value: &Json, key: &str) -> (out: String)
    ensures
        out@ == text_field(value@, key@),
{
    match value.get(key) {
        Some(inner) => match inner.string() {
            Some(s) => owned(s),
            None => String::new(),
        },
        None => String::new(),
    }
}

/// The items of the array field of an object, or none.
pub fn list_of<'a>(value: &'a Json, key: &str) -> (out: &'a [Json])
    ensures
        json::item_models(out@) == list_field(value@, key@),
{
    match value.get(key) {
        Some(inner) => match inner.array() {
            Some(items) => items,
            None => &[],
        },
        None => &[],
    }
}

/// The string field of an object, where there is one.
pub fn get_string(value: &Json, key: &str) -> (out: Option<String>)
    ensures
        match out {
            Some(s) => string_in(value@, key@) == Some(s@),
            None => string_in(value@, key@) is None,
        },
{
    match value.get(key) {
        Some(inner) => match inner.string() {
            Some(s) => Some(owned(s)),
            None => None,
        },
        None => None,
    }
}

/// The string at a path, or the empty string.
pub fn text_of_path(value: &Json, path: &[&str]) -> (out: String)
    ensures
        out@ == text_at(value@, json::path_texts(path@)),
{
    match value.get_path(path) {
        Some(inner) => match inner.string() {
            Some(s) => owned(s),
            None => String::new(),
        },
        None => String::new(),
    }
}

/// The items of the array at a path, or none.
pub fn list_of_path<'a>(value: &'a Json, path: &[&str]) -> (out: &'a [Json])
    ensures
        json::item_models(out@) == list_at(value@, json::path_texts(path@)),
{
    match value.get_path(path) {
        Some(inner) => match inner.array() {
            Some(items) => items,
            None => &[],
        },
        None => &[],
    }
}

/// The number field of an object as an integer, or the given one.
pub fn integer_of_field(value: &Json, key: &str, default: i64) -> (out: i64)
    ensures
        out == integer_in(value@, key@, default as int),
{
    match value.get(key) {
        Some(inner) => match inner.number() {
            Some(n) => as_integer(n),
            None => default,
        },
        None => default,
    }
}

// ---------------------------------------------------------------------------
// Laws
// ---------------------------------------------------------------------------

/// A string field gives the string that the object holds under the key.
pub proof fn lemma_text_field(value: JsonModel, key: Seq<char>, s: Seq<char>)
    ensures
        string_in(value, key) == Some(s) <==> json::holds(value, key, JsonModel::String(s)),
        json::holds(value, key, JsonModel::String(s)) ==> text_field(value, key) == s,
        text_field(value, key) == s && s.len() > 0 ==> json::holds(value, key, JsonModel::String(s)),
        (forall|t: Seq<char>| !json::holds(value, key, JsonModel::String(t))) ==> text_field(
            value,
            key,
        ).len() == 0 && string_in(value, key) is None,
{
    if let Some(JsonModel::String(t)) = json::field(value, key) {
        assert(json::holds(value, key, JsonModel::String(t)));
    }
}

/// An array field gives the items that the object holds under the key.
pub proof fn lemma_list_field(value: JsonModel, key: Seq<char>, items: Seq<JsonModel>)
    ensures
        json::holds(value, key, JsonModel::Array(items)) ==> list_field(value, key) == items,
        (forall|other: Seq<JsonModel>| !json::holds(value, key, JsonModel::Array(other)))
            ==> list_field(value, key).len() == 0,
{
    if let Some(JsonModel::Array(other)) = json::field(value, key) {
        assert(json::holds(value, key, JsonModel::Array(other)));
    }
}

/// A number field gives the integer of the numeral that the object holds under the key, and
/// the default where it holds none.
pub proof fn lemma_integer_in(value: JsonModel, key: Seq<char>, default: int, n: Seq<char>)
    ensures
        json::holds(value, key, JsonModel::Number(n)) ==> integer_in(value, key, default)
            == number::integer_of(n),
        (forall|m: Seq<char>| !json::holds(value, key, JsonModel::Number(m))) ==> integer_in(
            value,
            key,
            default,
        ) == default,
{
    if let Some(JsonModel::Number(m)) = json::field(value, key) {
        assert(json::holds(value, key, JsonModel::Number(m)));
    }
}

/// Whether an object holds a string under a key.
pub open spec fn has_text(value: JsonModel, key: Seq<char>, s: Seq<char>) -> bool {
    json::holds(value, key, JsonModel::String(s))
}

/// Whether a text is the string that an object holds under a key, or is empty where it holds
/// no string there.
pub open spec fn text_or_nothing(value: JsonModel, key: Seq<char>, s: Seq<char>) -> bool {
    has_text(value, key, s) || (s.len() == 0 && forall|t: Seq<char>| !has_text(value, key, t))
}

/// Whether an integer is that of the number that an object holds under a key, or is the given
/// one where it holds no number there.
pub open spec fn integer_or(value: JsonModel, key: Seq<char>, default: int, n: int) -> bool {
    ||| exists|m: Seq<char>|
        json::holds(value, key, JsonModel::Number(m)) && n == #[trigger] number::integer_of(m)
    ||| n == default && forall|m: Seq<char>| !json::holds(value, key, JsonModel::Number(m))
}

/// A string field is the string, or nothing.
pub proof fn lemma_text_or_nothing(value: JsonModel, key: Seq<char>, s: Seq<char>)
    ensures
        text_field(value, key) == s <==> text_or_nothing(value, key, s),
{
    lemma_text_field(value, key, s);
    lemma_text_field(value, key, text_field(value, key));
    if text_field(value, key) == s && !has_text(value, key, s) {
        assert forall|t: Seq<char>| !has_text(value, key, t) by {
            lemma_text_field(value, key, t);
        }
    }
    if s.len() == 0 && forall|t: Seq<char>| !has_text(value, key, t) {
        assert forall|t: Seq<char>| !json::holds(value, key, JsonModel::String(t)) by {
            assert(!has_text(value, key, t));
        }
        assert(text_field(value, key) =~= s);
    }
}

/// A number field is the integer of the number, or the default.
pub proof fn lemma_integer_or(value: JsonModel, key: Seq<char>, default: int, n: int)
    ensures
        integer_in(value, key, default) == n <==> integer_or(value, key, default, n),
{
    if let Some(JsonModel::Number(m)) = json::field(value, key) {
        assert(json::holds(value, key, JsonModel::Number(m)));
        assert(number::integer_of(m) == integer_in(value, key, default));
    }
}

} // verus!
