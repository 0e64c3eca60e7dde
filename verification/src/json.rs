//! JSON values: event payloads and tool replies.
//!
//! The values themselves are `serde_json`'s. Contracts speak of what a value
//! holds, a [`Json`].

use crate::text;
use serde_json::Value;
use vstd::prelude::*;

verus! {

/// What a JSON value holds. A number is held as the text that it prints as.
pub enum Json {
    Null,
    Bool(bool),
    Number(Seq<char>),
    Text(Seq<char>),
    List(Seq<Json>),
    Object(Map<Seq<char>, Json>),
}

/// `serde_json::Value`, a JSON value.
#[verifier::external_type_specification]
#[verifier::external_body]
pub struct ExValue(serde_json::Value);

/// What `value` holds.
pub uninterp spec fn json_view(value: serde_json::Value) -> Json;

/// What the values of a list hold.
pub open spec fn json_views(values: Seq<Value>) -> Seq<Json> {
    values.map_values(|v: Value| json_view(v))
}

// --- making values -------------------------------------------------------

/// `Value::default` is the null value.
#[verifier::external_body]
pub(crate) fn null_value() -> (r: Value)
    ensures
        json_view(r) == Json::Null,
{
    Value::default()
}

/// `Value::from` of a `bool` is that truth value.
#[verifier::external_body]
pub(crate) fn flag_value(flag: bool) -> (r: Value)
    ensures
        json_view(r) == Json::Bool(flag),
{
    Value::from(flag)
}

/// `Value::from` of a `u64` is a number that prints as its decimal digits.
#[verifier::external_body]
pub(crate) fn count_value(n: u64) -> (r: Value)
    ensures
        json_view(r) == Json::Number(text::decimal(n as nat)),
{
    Value::from(n)
}

/// `Value::from` of an `i64` is a number that prints as its decimal digits,
/// after a minus sign where it is negative.
#[verifier::external_body]
pub(crate) fn number_value(n: i64) -> (r: Value)
    ensures
        json_view(r) == Json::Number(text::decimal_signed(n as int)),
{
    Value::from(n)
}

/// `Value::from` of a `&str` is a string with the same characters.
#[verifier::external_body]
pub(crate) fn text_value(text: &str) -> (r: Value)
    ensures
        json_view(r) == Json::Text(text@),
{
    Value::from(text)
}

/// `Value::from` of a vector of values is the array of them, in order.
#[verifier::external_body]
pub(crate) fn list_value(items: Vec<Value>) -> (r: Value)
    ensures
        json_view(r) == Json::List(json_views(items@)),
{
    Value::from(items)
}

/// `Value::from` of an empty `serde_json::Map` is an object without fields.
#[verifier::external_body]
pub(crate) fn object_value() -> (r: Value)
    ensures
        json_view(r) == Json::Object(Map::<Seq<char>, Json>::empty()),
{
    Value::from(serde_json::Map::new())
}

/// Assigning to `object[key]` puts the value under the key, in place of what
/// was there; the other fields stay. It panics on a value that is neither an
/// object nor null.
#[verifier::external_body]
pub(crate) fn set_field(object: &mut Value, key: &str, value: Value)
    requires
        json_view(*old(object)) is Object,
    ensures
        json_view(*final(object)) == Json::Object(
            json_view(*old(object))->Object_0.insert(key@, json_view(value)),
        ),
{
    object[key] = value;
}

/// `<Value as Clone>::clone` holds what the value that it copies
/// holds.
pub assume_specification[ <serde_json::Value as Clone>::clone ](value: &Value) -> (r: Value)
    ensures
        json_view(r) == json_view(*value),
;

/// A string, or null for none.
pub(crate) fn opt_text_value(text: &Option<String>) -> (r: Value)
    ensures
        json_view(r) == opt_json(text::text_opt(*text)),
{
    match text {
        Some(text) => text_value(text.as_str()),
        None => null_value(),
    }
}

/// A string, or null for none.
pub open spec fn opt_json(text: Option<Seq<char>>) -> Json {
    match text {
        Some(text) => Json::Text(text),
        None => Json::Null,
    }
}

/// An array of strings.
pub open spec fn texts_json(list: Seq<Seq<char>>) -> Json {
    Json::List(list.map_values(|t: Seq<char>| Json::Text(t)))
}

/// An array of strings.
pub(crate) fn texts_value(list: &Vec<String>) -> (r: Value)
    ensures
        json_view(r) == texts_json(text::texts(list@)),
{
    let mut items: Vec<Value> = Vec::new();
    let ghost all = text::texts(list@).map_values(|t: Seq<char>| Json::Text(t));
    let mut i: usize = 0;
    while i < list.len()
        invariant
            i <= list.len(),
            all == text::texts(list@).map_values(|t: Seq<char>| Json::Text(t)),
            json_views(items@) == all.take(i as int),
        decreases list.len() - i,
    {
        let item = text_value(list[i].as_str());
        let ghost done = json_views(items@);
        items.push(item);
        assert(json_views(items@) =~= done.push(json_view(item)));
        assert(all.take(i + 1) =~= all.take(i as int).push(all[i as int]));
        i += 1;
    }
    assert(all.take(i as int) =~= all);
    list_value(items)
}

// --- reading values ------------------------------------------------------

/// The field `key` of an object; nothing where `j` is no object or lacks it.
pub open spec fn json_field(j: Json, key: Seq<char>) -> Option<Json> {
    match j {
        Json::Object(fields) if fields.contains_key(key) => Some(fields[key]),
        _ => None,
    }
}

/// The string at `key`, or the empty text.
pub open spec fn text_at(j: Json, key: Seq<char>) -> Seq<char> {
    match json_field(j, key) {
        Some(Json::Text(text)) => text,
        _ => seq![],
    }
}

/// The number at `key` that an unsigned number of 64 bits can hold, or zero.
pub open spec fn count_at(j: Json, key: Seq<char>) -> u64 {
    match json_field(j, key) {
        Some(Json::Number(text)) => match text::parsed_u64(text) {
            Some(n) => n,
            None => 0,
        },
        _ => 0,
    }
}

/// `Value::get` with a string index gives the field of that name of an
/// object, and nothing where there is none or the value is no object.
#[verifier::external_body]
pub(crate) fn field<'a>(value: &'a Value, key: &str) -> (r: Option<&'a Value>)
    ensures
        r is Some <==> json_field(json_view(*value), key@) is Some,
        r matches Some(v) ==> json_field(json_view(*value), key@) == Some(json_view(*v)),
{
    value.get(key)
}

/// `Value::as_str` gives the characters of a string, and nothing for any
/// other value.
pub assume_specification[ serde_json::Value::as_str ](value: &Value) -> (r: Option<&str>)
    ensures
        r is Some <==> json_view(*value) is Text,
        r matches Some(text) ==> json_view(*value) == Json::Text(text@),
;

/// `Value::as_u64` gives a number that is an integer from 0 to `u64::MAX`,
/// and nothing for any other value. Such a number is one that prints as
/// digits alone.
pub assume_specification[ serde_json::Value::as_u64 ](value: &Value) -> (r: Option<u64>)
    ensures
        r == (match json_view(*value) {
            Json::Number(text) => text::parsed_u64(text),
            _ => None,
        }),
;

/// `Value::is_object` tells objects from other values.
pub assume_specification[ serde_json::Value::is_object ](value: &Value) -> (r: bool)
    ensures
        r == (json_view(*value) is Object),
;

/// The string at `key`, or the empty text.
pub fn text_field(value: &Value, key: &str) -> (r: String)
    ensures
        r@ == text_at(json_view(*value), key@),
{
    match field(value, key) {
        Some(found) => match found.as_str() {
            Some(text) => text.to_owned(),
            None => String::new(),
        },
        None => String::new(),
    }
}

/// The number at `key`, or zero.
pub fn count_field(value: &Value, key: &str) -> (r: u64)
    ensures
        r == count_at(json_view(*value), key@),
{
    match field(value, key) {
        Some(found) => match found.as_u64() {
            Some(n) => n,
            None => 0,
        },
        None => 0,
    }
}

// --- text forms ----------------------------------------------------------

/// What `serde_json::from_str` reads in `text` as a value of any kind.
pub uninterp spec fn json_of(text: Seq<char>) -> Option<Json>;

/// What `<Value as ToString>::to_string` prints for a value that holds `j`.
pub uninterp spec fn compact_text(j: Json) -> Seq<char>;

/// What `serde_json::to_string_pretty` prints for a value that holds `j`.
pub uninterp spec fn pretty_text(j: Json) -> Option<Seq<char>>;

/// What `serde_json::from_str` reads in `text` as a list of strings.
pub uninterp spec fn strings_of(text: Seq<char>) -> Option<Seq<Seq<char>>>;

/// What `serde_json::to_string` prints for a list of strings.
pub uninterp spec fn strings_text(list: Seq<Seq<char>>) -> Option<Seq<char>>;

/// Null, a truth value, a string or an integer of 64 bits.
pub open spec fn is_scalar(j: Json) -> bool {
    match j {
        Json::Null | Json::Bool(_) | Json::Text(_) => true,
        Json::Number(text) => {
            ||| exists|n: u64| text == text::decimal(n as nat)
            ||| exists|n: i64| text == text::decimal_signed(n as int)
        },
        _ => false,
    }
}

/// How deep arrays and objects may be nested for their text to be read back.
pub const MAX_DEPTH: u8 = 100;

/// Whether `serde_json` keeps a key to itself: an object with such a key is
/// read as something else than an object.
pub open spec fn is_reserved(key: Seq<char>) -> bool {
    "$serde_json::private::"@.is_prefix_of(key)
}

/// A scalar, or an array or object of such values that is at most `depth`
/// deep, without reserved keys.
pub open spec fn is_plain(j: Json, depth: nat) -> bool
    decreases depth,
{
    match j {
        Json::List(items) => depth > 0 && forall|i: int|
            0 <= i < items.len() ==> is_plain(#[trigger] items[i], (depth - 1) as nat),
        Json::Object(fields) => depth > 0 && forall|key: Seq<char>|
            fields.contains_key(key) ==> !is_reserved(key) && is_plain(
                #[trigger] fields[key],
                (depth - 1) as nat,
            ),
        _ => is_scalar(j),
    }
}

/// `serde_json::from_str` to a `Value`: the value that the text spells, or an
/// error, which depends on the text alone.
#[verifier::external_body]
fn parse_json(text: &str) -> (r: Option<Value>)
    ensures
        r is Some <==> json_of(text@) is Some,
        r matches Some(v) ==> json_of(text@) == Some(json_view(v)),
{
    serde_json::from_str(text).ok()
}

/// `<Value as ToString>::to_string`: the compact text of the value. Reading
/// it back gives what a plain value holds; nothing is claimed of reading back
/// deeper values, numbers with a fraction, or objects with reserved keys.
#[verifier::external_body]
fn print_json(value: &Value) -> (r: String)
    ensures
        r@ == compact_text(json_view(*value)),
        is_plain(json_view(*value), MAX_DEPTH as nat) ==> json_of(r@) == Some(json_view(*value)),
{
    value.to_string()
}

/// `serde_json::to_string_pretty`: the indented text of the value, or an
/// error, which depends on the value alone.
#[verifier::external_body]
fn print_pretty(value: &Value) -> (r: Option<String>)
    ensures
        r is Some <==> pretty_text(json_view(*value)) is Some,
        r matches Some(text) ==> pretty_text(json_view(*value)) == Some(text@),
{
    serde_json::to_string_pretty(value).ok()
}

/// `serde_json::from_str` to a `Vec<String>`: the strings of the array that
/// the text spells, or an error, which depends on the text alone.
#[verifier::external_body]
fn parse_strings(text: &str) -> (r: Option<Vec<String>>)
    ensures
        r is Some <==> strings_of(text@) is Some,
        r matches Some(list) ==> strings_of(text@) == Some(text::texts(list@)),
{
    serde_json::from_str(text).ok()
}

/// `serde_json::to_string` of a list of strings: the array's text, which
/// reads back as the same strings, or an error, which depends on the list
/// alone.
#[verifier::external_body]
fn print_strings(list: &Vec<String>) -> (r: Option<String>)
    ensures
        r is Some <==> strings_text(text::texts(list@)) is Some,
        r matches Some(text) ==> strings_text(text::texts(list@)) == Some(text@),
        r matches Some(text) ==> strings_of(text@) == Some(text::texts(list@)),
{
    serde_json::to_string(list).ok()
}

/// What a payload column holds: null where its text is not JSON.
pub open spec fn payload_of(text: Seq<char>) -> Json {
    match json_of(text) {
        Some(j) => j,
        None => Json::Null,
    }
}

/// Reads a payload column; null where its text is not JSON.
pub fn read_payload(text: &str) -> (r: Value)
    ensures
        json_view(r) == payload_of(text@),
{
    match parse_json(text) {
        Some(value) => value,
        None => null_value(),
    }
}

/// The text of a payload column. A plain payload reads back as it was
/// written.
pub fn write_payload(value: &Value) -> (r: String)
    ensures
        r@ == compact_text(json_view(*value)),
        is_plain(json_view(*value), MAX_DEPTH as nat) ==> payload_of(r@) == json_view(*value),
{
    print_json(value)
}

/// What is left of a payload that was written to a column and read again.
pub open spec fn kept(j: Json) -> Json {
    payload_of(compact_text(j))
}

/// Whether a payload reads back from a column as it was written.
pub open spec fn is_kept(j: Json) -> bool {
    kept(j) == j
}

/// What is left of a payload that is written to a column and read again. A
/// plain payload reads back as it was written.
pub fn keep(value: &Value) -> (r: Value)
    ensures
        json_view(r) == kept(json_view(*value)),
        is_plain(json_view(*value), MAX_DEPTH as nat) ==> is_kept(json_view(*value)),
{
    let text = write_payload(value);
    read_payload(text.as_str())
}

/// What a column of sample paths holds: nothing where its text is not an
/// array of strings.
pub open spec fn sample_of(text: Seq<char>) -> Seq<Seq<char>> {
    match strings_of(text) {
        Some(list) => list,
        None => seq![],
    }
}

/// Reads a column of sample paths; none where its text is not an array of
/// strings.
pub fn read_sample(text: &str) -> (r: Vec<String>)
    ensures
        text::texts(r@) == sample_of(text@),
{
    match parse_strings(text) {
        Some(list) => list,
        None => {
            let none: Vec<String> = Vec::new();
            assert(text::texts(none@) =~= seq![]);
            none
        },
    }
}

/// The text of a column of sample paths. It reads back as it was written
/// unless the list cannot be printed, which leaves an empty array.
pub fn write_sample(list: &Vec<String>) -> (r: String)
    ensures
        strings_text(text::texts(list@)) matches Some(text) ==> r@ == text && sample_of(r@) == text::texts(
            list@,
        ),
        strings_text(text::texts(list@)) is None ==> r@ == "[]"@,
{
    match print_strings(list) {
        Some(text) => text,
        None => "[]".to_owned(),
    }
}

/// The indented text of a reply, or its compact text where it has none.
pub open spec fn reply_text(j: Json) -> Seq<char> {
    match pretty_text(j) {
        Some(text) => text,
        None => compact_text(j),
    }
}

/// The text of a reply.
pub fn pretty(value: &Value) -> (r: String)
    ensures
        r@ == reply_text(json_view(*value)),
{
    match print_pretty(value) {
        Some(text) => text,
        None => print_json(value),
    }
}

/// A number of 64 bits is a scalar.
pub proof fn lemma_count_is_scalar(n: nat)
    requires
        n <= u64::MAX,
    ensures
        is_scalar(Json::Number(text::decimal(n))),
{
    let m = n as u64;
    assert(text::decimal(n) == text::decimal(m as nat));
}

/// A signed number of 64 bits is a scalar.
pub proof fn lemma_number_is_scalar(n: int)
    requires
        i64::MIN <= n <= i64::MAX,
    ensures
        is_scalar(Json::Number(text::decimal_signed(n))),
{
    let m = n as i64;
    assert(text::decimal_signed(n) == text::decimal_signed(m as int));
}

/// A list of texts is plain.
pub proof fn lemma_texts_are_plain(list: Seq<Seq<char>>, depth: nat)
    requires
        depth > 0,
    ensures
        is_plain(texts_json(list), depth),
{
    reveal_with_fuel(is_plain, 2);
}

} // verus!
