//! What `serde_json` reads in a JSON text. A value is handed on as its text.
use vstd::prelude::*;

verus! {

/// The text there is, if there is one.
pub open spec fn text_of(s: Option<String>) -> Option<Seq<char>> {
    match s {
        Some(s) => Some(s@),
        None => None,
    }
}

/// The texts of some strings.
pub open spec fn texts(v: Seq<String>) -> Seq<Seq<char>> {
    v.map_values(|s: String| s@)
}

/// The texts of some strings, if there are any.
pub open spec fn texts_of(v: Option<Vec<String>>) -> Option<Seq<Seq<char>>> {
    match v {
        Some(v) => Some(texts(v@)),
        None => None,
    }
}

/// Why a text is no JSON, in the words of `serde_json`. `None` where it is.
pub uninterp spec fn fault_in(json: Seq<char>) -> Option<Seq<char>>;

/// Why a text is no JSON: the error of `serde_json::from_str` into a `serde_json::Value`, if
/// it gives one, as it shows itself.
#[verifier::external_body]
pub(crate) fn fault(json: &str) -> (r: Option<String>)
    ensures
        text_of(r) == fault_in(json@),
{
    serde_json::from_str::<serde_json::Value>(json).err().map(|e| e.to_string())
}

/// The member of an object with a name, as a text. `None` where there is none.
pub uninterp spec fn member_in(json: Seq<char>, key: Seq<char>) -> Option<Seq<char>>;

/// The member of an object: what `serde_json::Value::get` gives for the name, written again
/// by `serde_json`. There is none where the text is no JSON, or no object.
#[verifier::external_body]
pub(crate) fn member(json: &str, key: &str) -> (r: Option<String>)
    ensures
        text_of(r) == member_in(json@, key@),
{
    let value: serde_json::Value = serde_json::from_str(json).ok()?;
    value.get(key).map(|m| m.to_string())
}

/// The items of an array, as texts. `None` where it is no array.
pub uninterp spec fn items_in(json: Seq<char>) -> Option<Seq<Seq<char>>>;

/// The items of an array: what `serde_json::from_str` gives as a list of values, each written
/// again by `serde_json`. There are none where the text is no array.
#[verifier::external_body]
pub(crate) fn items(json: &str) -> (r: Option<Vec<String>>)
    ensures
        texts_of(r) == items_in(json@),
{
    let values: Vec<serde_json::Value> = serde_json::from_str(json).ok()?;
    Some(values.iter().map(|v| v.to_string()).collect())
}

/// The text that a JSON string stands for. `None` where it is no string.
pub uninterp spec fn string_in(json: Seq<char>) -> Option<Seq<char>>;

/// The text that a JSON string stands for: what `serde_json::from_str` gives as a `String`,
/// if it does.
#[verifier::external_body]
pub(crate) fn string(json: &str) -> (r: Option<String>)
    ensures
        text_of(r) == string_in(json@),
{
    serde_json::from_str::<String>(json).ok()
}

/// What `true` or `false` stands for. `None` where it is neither.
pub uninterp spec fn flag_in(json: Seq<char>) -> Option<bool>;

/// What `true` or `false` stands for: what `serde_json::from_str` gives as a `bool`, if it
/// does.
#[verifier::external_body]
pub(crate) fn flag(json: &str) -> (r: Option<bool>)
    ensures
        r == flag_in(json@),
{
    serde_json::from_str::<bool>(json).ok()
}

/// The number that a JSON integer stands for. `None` where it is none, or too large.
pub uninterp spec fn integer_in(json: Seq<char>) -> Option<i64>;

/// The number that a JSON integer stands for: what `serde_json::from_str` gives as an `i64`,
/// if it does.
#[verifier::external_body]
pub(crate) fn integer(json: &str) -> (r: Option<i64>)
    ensures
        r == integer_in(json@),
{
    serde_json::from_str::<i64>(json).ok()
}

/// The member of a value that may not be there.
pub open spec fn member_of(json: Option<Seq<char>>, key: Seq<char>) -> Option<Seq<char>> {
    match json {
        Some(j) => member_in(j, key),
        None => None,
    }
}

/// The string that a value that may not be there stands for.
pub open spec fn string_of(json: Option<Seq<char>>) -> Option<Seq<char>> {
    match json {
        Some(j) => string_in(j),
        None => None,
    }
}

/// The items of a value that may not be there.
pub open spec fn items_of(json: Option<Seq<char>>) -> Option<Seq<Seq<char>>> {
    match json {
        Some(j) => items_in(j),
        None => None,
    }
}

/// The member of a value that may not be there.
pub(crate) fn next_member(json: Option<String>, key: &str) -> (r: Option<String>)
    ensures
        text_of(r) == member_of(text_of(json), key@),
{
    match json {
        Some(j) => member(j.as_str(), key),
        None => None,
    }
}

/// The string that a value that may not be there stands for.
pub(crate) fn as_string(json: Option<String>) -> (r: Option<String>)
    ensures
        text_of(r) == string_of(text_of(json)),
{
    match json {
        Some(j) => string(j.as_str()),
        None => None,
    }
}

/// The items of a value that may not be there.
pub(crate) fn as_items(json: Option<String>) -> (r: Option<Vec<String>>)
    ensures
        texts_of(r) == items_of(text_of(json)),
{
    match json {
        Some(j) => items(j.as_str()),
        None => None,
    }
}

} // verus!
