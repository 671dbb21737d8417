//! JSON values are held as their compact text; what the language reads of
//! them is computed by `serde_json` on that text.
use vstd::prelude::*;

verus! {

/// The string a JSON text holds, if it is a JSON string (`Value::as_str`).
pub uninterp spec fn json_str_of(text: Seq<char>) -> Option<Seq<char>>;

/// The boolean a JSON text holds, if it is a JSON boolean (`Value::as_bool`).
pub uninterp spec fn json_bool_of(text: Seq<char>) -> Option<bool>;

/// The keys of a JSON object text, in `serde_json`'s map order; empty for
/// anything else.
pub uninterp spec fn json_keys_of(text: Seq<char>) -> Seq<Seq<char>>;

/// `serde_json::to_string_pretty` of the value the text parses to; `None`
/// where it does not parse or does not print.
pub uninterp spec fn json_pretty_of(text: Seq<char>) -> Option<Seq<char>>;

/// How a JSON text is shown: pretty-printed, or `{}` where that fails.
pub open spec fn pretty_text(text: Seq<char>) -> Seq<char> {
    match json_pretty_of(text) {
        Some(t) => t,
        None => "{}"@,
    }
}

/// The text of the JSON number, if the value is a number.
pub uninterp spec fn json_number_of(text: Seq<char>) -> Option<Seq<char>>;

/// The compact text of the JSON value parsed from a string; `None` where it
/// does not parse.
pub uninterp spec fn json_parsed_of(text: Seq<char>) -> Option<Seq<char>>;

/// A string read as JSON: the compact text of its value, or `{}` where it
/// does not parse.
pub open spec fn parsed_text(text: Seq<char>) -> Seq<char> {
    match json_parsed_of(text) {
        Some(t) => t,
        None => "{}"@,
    }
}

/// Parses `text` with `serde_json::from_str` and returns `Value::as_str` of
/// the result; the contract claims only that the result is a function of
/// the text.
#[verifier::external_body]
pub(crate) fn json_str(text: &str) -> (r: Option<String>)
    ensures
        r matches Some(s) ==> json_str_of(text@) == Some(s@),
        r is None ==> json_str_of(text@) is None,
{
    match serde_json::from_str::<serde_json::Value>(text) {
        Ok(v) => v.as_str().map(|s| s.to_string()),
        Err(_) => None,
    }
}

/// Parses `text` with `serde_json::from_str` and returns `Value::as_bool`.
#[verifier::external_body]
pub(crate) fn json_bool(text: &str) -> (r: Option<bool>)
    ensures
        r == json_bool_of(text@),
{
    match serde_json::from_str::<serde_json::Value>(text) {
        Ok(v) => v.as_bool(),
        Err(_) => None,
    }
}

/// Parses `text` with `serde_json::from_str` and lists the keys of the
/// object (`Value::as_object`, `Map::keys`); empty for other values.
#[verifier::external_body]
pub(crate) fn json_keys(text: &str) -> (r: Vec<String>)
    ensures
        r@.map_values(|k: String| k@) == json_keys_of(text@),
{
    match serde_json::from_str::<serde_json::Value>(text) {
        Ok(v) => match v.as_object() {
            Some(obj) => obj.keys().cloned().collect(),
            None => Vec::new(),
        },
        Err(_) => Vec::new(),
    }
}

/// Parses `text` and prints it with `serde_json::to_string_pretty`; `None`
/// where either fails.
#[verifier::external_body]
pub(crate) fn json_pretty(text: &str) -> (r: Option<String>)
    ensures
        r matches Some(t) ==> json_pretty_of(text@) == Some(t@),
        r is None ==> json_pretty_of(text@) is None,
{
    match serde_json::from_str::<serde_json::Value>(text) {
        Ok(v) => serde_json::to_string_pretty(&v).ok(),
        Err(_) => None,
    }
}

/// How a JSON text is shown.
pub fn json_pretty_text(text: &str) -> (r: String)
    ensures
        r@ == pretty_text(text@),
{
    match json_pretty(text) {
        Some(t) => t,
        None => crate::text::lit("{}"),
    }
}

/// Parses `text` and, if it is a JSON number, returns the number's text
/// (`Value::as_number`, `Number::to_string`).
#[verifier::external_body]
pub(crate) fn json_number(text: &str) -> (r: Option<String>)
    ensures
        r matches Some(s) ==> json_number_of(text@) == Some(s@),
        r is None ==> json_number_of(text@) is None,
{
    match serde_json::from_str::<serde_json::Value>(text) {
        Ok(v) => v.as_number().map(|n| n.to_string()),
        Err(_) => None,
    }
}

/// Parses a string as JSON (`serde_json::from_str`) and returns the compact
/// text of the value; `None` where it does not parse.
#[verifier::external_body]
pub(crate) fn json_parse(text: &str) -> (r: Option<String>)
    ensures
        r matches Some(t) ==> json_parsed_of(text@) == Some(t@),
        r is None ==> json_parsed_of(text@) is None,
{
    match serde_json::from_str::<serde_json::Value>(text) {
        Ok(v) => Some(v.to_string()),
        Err(_) => None,
    }
}

/// A string read as JSON.
pub fn json_parse_text(text: &str) -> (r: String)
    ensures
        r@ == parsed_text(text@),
{
    match json_parse(text) {
        Some(t) => t,
        None => crate::text::lit("{}"),
    }
}

/// The compact text of `value[key]` for the JSON text (`null` where the
/// value has no such member or is not an object); `None` where the text
/// does not parse.
pub uninterp spec fn json_member_of(text: Seq<char>, key: Seq<char>) -> Option<Seq<char>>;

/// A member of a JSON text: a text that does not parse counts as `null`,
/// whose members are all `null`.
pub open spec fn member_text(text: Seq<char>, key: Seq<char>) -> Seq<char> {
    match json_member_of(text, key) {
        Some(t) => t,
        None => "null"@,
    }
}

/// The compact text of the JSON text with `key` set to the JSON value
/// `value` (`value[key] = ..`, a null becoming an object); `None` where
/// either text does not parse, or the value is neither an object nor null.
pub uninterp spec fn json_with_of(text: Seq<char>, key: Seq<char>, value: Seq<char>) -> Option<Seq<char>>;

/// Parses `text` and returns the compact text of `value[key]`
/// (`serde_json::Value` indexed by a string); `None` where it does not
/// parse.
#[verifier::external_body]
pub(crate) fn json_member(text: &str, key: &str) -> (r: Option<String>)
    ensures
        r matches Some(t) ==> json_member_of(text@, key@) == Some(t@),
        r is None ==> json_member_of(text@, key@) is None,
{
    match serde_json::from_str::<serde_json::Value>(text) {
        Ok(v) => Some(v[key].to_string()),
        Err(_) => None,
    }
}

/// A member of a JSON text.
pub fn json_member_text(text: &str, key: &str) -> (r: String)
    ensures
        r@ == member_text(text@, key@),
{
    match json_member(text, key) {
        Some(t) => t,
        None => crate::text::lit("null"),
    }
}

/// Parses `text` and `value`, sets `text[key] = value` and returns the
/// compact text; `None` where either does not parse, or where the value is
/// neither an object nor null, for which `serde_json` would panic.
#[verifier::external_body]
pub(crate) fn json_with(text: &str, key: &str, value: &str) -> (r: Option<String>)
    ensures
        match r {
            Some(t) => json_with_of(text@, key@, value@) == Some(t@),
            None => json_with_of(text@, key@, value@) is None,
        },
{
    match (serde_json::from_str::<serde_json::Value>(text), serde_json::from_str::<serde_json::Value>(value)) {
        (Ok(mut v), Ok(x)) => match &v {
            serde_json::Value::Object(_) | serde_json::Value::Null => {
                v[key] = x;
                Some(v.to_string())
            },
            _ => None,
        },
        _ => None,
    }
}

} // verus!
