//! JSON values, as the `serde_json` crate reads, changes and writes them.

use vstd::prelude::*;

verus! {

/// A JSON value of the `serde_json` crate.
#[verifier::external_type_specification]
#[verifier::external_body]
pub struct ExValue(serde_json::Value);

/// The error of the `serde_json` crate.
#[verifier::external_type_specification]
#[verifier::external_body]
pub struct ExJsonError(serde_json::Error);

/// Whether a JSON value is an object.
pub uninterp spec fn is_object(v: serde_json::Value) -> bool;

/// The members of a JSON object, by key. Empty for any other JSON value.
pub uninterp spec fn members(v: serde_json::Value) -> Map<Seq<char>, serde_json::Value>;

/// The JSON value that a text denotes, `None` where it denotes none or nests too deep.
pub uninterp spec fn parsed(json: Seq<char>) -> Option<serde_json::Value>;

/// The characters of a JSON string, as `serde_json::Value::as_str` gives them, and `None` for any other
/// JSON value.
pub uninterp spec fn text_of(v: serde_json::Value) -> Option<Seq<char>>;

/// The value of a JSON number that is written as a whole number in the range of `u64`, as
/// `serde_json::Value::as_u64` gives it, and `None` for any other JSON value.
pub uninterp spec fn number_of(v: serde_json::Value) -> Option<u64>;

/// The text of a JSON value, indented by two spaces.
pub uninterp spec fn pretty_text(v: serde_json::Value) -> Seq<char>;

/// The text of a JSON value, without any space between its parts.
pub uninterp spec fn compact_text(v: serde_json::Value) -> Seq<char>;

/// Whether a JSON value is what its own texts denote. A value with an object that has the key
/// [`RAW_VALUE_KEY`] before all others is not: as text, such an object stands for what the string beside
/// that key denotes.
pub open spec fn reads_back(v: serde_json::Value) -> bool {
    parsed(pretty_text(v)) == Some(v) && parsed(compact_text(v)) == Some(v)
}

/// The key by which `serde_json` marks JSON text inside a JSON value.
pub const RAW_VALUE_KEY: &'static str = "$serde_json::private::RawValue";

/// Whether `part` is in `json`, from position `i` on.
pub open spec fn occurs_at(json: Seq<char>, part: Seq<char>, i: int) -> bool {
    0 <= i <= json.len() - part.len() && json.subrange(i, i + part.len()) == part
}

/// Whether a backslash that begins an escape is at position `i` of a JSON text.
pub open spec fn is_escape(json: Seq<char>, i: int) -> bool
    decreases i + 1,
{
    0 <= i < json.len() && json[i] == '\\' && !is_escape(json, i - 1)
}

/// Whether a JSON text has neither [`RAW_VALUE_KEY`] in it nor a `\u00` escape, by which a character of
/// that key could be written, and so no such key.
pub open spec fn is_plain(json: Seq<char>) -> bool {
    &&& forall|i: int| !#[trigger] occurs_at(json, RAW_VALUE_KEY@, i)
    &&& forall|i: int| #[trigger] is_escape(json, i) ==> !occurs_at(json, "u00"@, i + 1)
}

/// `serde_json::from_str` reads a text as a JSON value: which one, is a function of the text alone. What
/// it reads from a plain text is what its own texts denote; of other texts that is not claimed.
#[verifier::external_body]
pub(crate) fn parse(json: &str) -> (value: Result<serde_json::Value, serde_json::Error>)
    ensures
        match value {
            Ok(v) => parsed(json@) == Some(v) && (is_plain(json@) ==> reads_back(v)),
            Err(_) => parsed(json@) is None,
        },
{
    serde_json::from_str(json)
}

/// `serde_json::Value::get`, with a string, finds the member of an object by its key.
#[verifier::external_body]
pub(crate) fn member<'a>(v: &'a serde_json::Value, key: &str) -> (found: Option<&'a serde_json::Value>)
    ensures
        match found {
            Some(m) => is_object(*v) && members(*v).contains_key(key@) && *m == members(*v)[key@],
            None => !members(*v).contains_key(key@),
        },
{
    v.get(key)
}

/// `serde_json::Value::as_str` gives the characters of a JSON string, and nothing for any other value.
pub assume_specification[ serde_json::Value::as_str ](v: &serde_json::Value) -> (s: Option<&str>)
    ensures
        match s {
            Some(t) => text_of(*v) == Some(t@),
            None => text_of(*v) is None,
        },
;

/// `serde_json::Map::new` makes an object without members. Its texts denote such an object again.
#[verifier::external_body]
pub(crate) fn empty_object() -> (v: serde_json::Value)
    ensures
        is_object(v),
        members(v).dom() == Set::<Seq<char>>::empty(),
        reads_back(v),
{
    serde_json::Value::Object(serde_json::Map::new())
}

/// A string or a whole number.
pub enum Scalar<'a> {
    Text(&'a str),
    Number(u64),
}

/// `serde_json::Map::insert` gives an object a member, in place of the one it had of that key, and leaves
/// the other members alone. Here the member is a string or a number. An object that its own texts denote
/// stays so, unless the key is the one that marks JSON text.
#[verifier::external_body]
pub(crate) fn set_member(v: &mut serde_json::Value, key: &str, value: Scalar<'_>)
    requires
        is_object(*old(v)),
    ensures
        is_object(*final(v)),
        members(*final(v)) == members(*old(v)).insert(key@, members(*final(v))[key@]),
        match value {
            Scalar::Text(t) => text_of(members(*final(v))[key@]) == Some(t@),
            Scalar::Number(n) => number_of(members(*final(v))[key@]) == Some(n),
        },
        reads_back(*old(v)) && key@ != RAW_VALUE_KEY@ ==> reads_back(*final(v)),
{
    if let Some(object) = v.as_object_mut() {
        let scalar = match value {
            Scalar::Text(t) => serde_json::Value::from(t),
            Scalar::Number(n) => serde_json::Value::from(n),
        };
        object.insert(key.to_owned(), scalar);
    }
}

/// `serde_json::to_string_pretty` writes a JSON value as text, indented: a function of the value alone.
/// It fails for no JSON value.
#[verifier::external_body]
pub(crate) fn print_pretty(v: &serde_json::Value) -> (json: Result<String, serde_json::Error>)
    ensures
        match json {
            Ok(t) => t@ == pretty_text(*v),
            Err(_) => false,
        },
{
    serde_json::to_string_pretty(v)
}

/// `serde_json::to_string` writes a JSON value as text, compactly: a function of the value alone. It fails
/// for no JSON value, and writes no line break.
#[verifier::external_body]
pub(crate) fn print_compact(v: &serde_json::Value) -> (json: Result<String, serde_json::Error>)
    ensures
        match json {
            Ok(t) => t@ == compact_text(*v) && !t@.contains('\n'),
            Err(_) => false,
        },
{
    serde_json::to_string(v)
}

} // verus!
