//! The JSON object of file counts: its text, and reading the counts back
//! with `serde_json`.

use vstd::prelude::*;
use serde_json::Value;
use crate::text::integer_text;

verus! {

/// `serde_json::Value`, carried through as an opaque value.
#[verifier::external_type_specification]
#[verifier::external_body]
pub struct ExJsonValue(serde_json::Value);

/// What a JSON value holds, as the tool reads it: for each path of object keys
/// that leads from `v` to a value inside it (the empty path leads to `v`
/// itself), what `as_i64` gives for the value there.
pub uninterp spec fn json_integers(v: Value) -> Map<Seq<Seq<char>>, Option<i64>>;

/// What `serde_json::from_str::<Value>` makes of `text`, read as by
/// [`json_integers`]; `None` where `text` is not valid JSON.
pub uninterp spec fn parsed_json_integers(text: Seq<char>) -> Option<Map<Seq<Seq<char>>, Option<i64>>>;

/// `serde_json::from_str::<Value>(text).ok()`. Claimed: the result is `Some`
/// exactly when the text parses, and the parsed value holds what the name
/// [`parsed_json_integers`] gives for the text. Which texts parse, and to what,
/// is left to that name.
#[verifier::external_body]
pub(crate) fn parse_json(text: &str) -> (r: Option<Value>)
    ensures
        r is Some <==> parsed_json_integers(text@) is Some,
        r matches Some(v) ==> json_integers(v) == parsed_json_integers(text@)->0,
{
    serde_json::from_str::<Value>(text).ok()
}

/// `Value::get` with a string key. Its source: for an object, the member under
/// `key`; for any other value, `None`. Claimed over [`json_integers`]: the result
/// is `Some` exactly when the one-key path `[key]` leads somewhere; without it no
/// longer path through `key` leads anywhere; with it the paths inside the member
/// are those of `v` below `key`.
#[verifier::external_body]
pub(crate) fn json_member<'a>(v: &'a Value, key: &str) -> (r: Option<&'a Value>)
    ensures
        r is Some <==> json_integers(*v).contains_key(seq![key@]),
        r is None ==> (forall|p: Seq<Seq<char>>|
            !#[trigger] json_integers(*v).contains_key(seq![key@] + p)),
        r matches Some(m) ==> (forall|p: Seq<Seq<char>>|
            #![trigger json_integers(*m).contains_key(p)]
            json_integers(*m).contains_key(p) == json_integers(*v).contains_key(seq![key@] + p)),
        r matches Some(m) ==> (forall|p: Seq<Seq<char>>|
            #![trigger json_integers(*m)[p]]
            json_integers(*m).contains_key(p) ==> json_integers(*m)[p] == json_integers(
                *v,
            )[seq![key@] + p]),
{
    v.get(key)
}

/// `Value::as_i64`: the integer that `v` is, where it is one that fits in an
/// `i64`. Claimed: the result is what [`json_integers`] holds at the empty path.
#[verifier::external_body]
pub(crate) fn json_as_i64(v: &Value) -> (r: Option<i64>)
    ensures
        r == json_integers(*v)[Seq::empty()],
{
    v.as_i64()
}

/// `v.to_string()` (the `Display` of `Value`). Its source writes an integer
/// number with its decimal digits; claimed only for such a value: where `as_i64`
/// gives `n`, the text is that of `n`. The text of other values is left unsaid.
#[verifier::external_body]
pub(crate) fn json_to_text(v: &Value) -> (r: String)
    ensures
        json_integers(*v)[Seq::empty()] matches Some(n) ==> r@ == integer_text(n as int),
{
    v.to_string()
}

} // verus!
