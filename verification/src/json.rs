//! JSON values as the library reads and builds them.
use vstd::prelude::*;

verus! {

#[verifier::external_type_specification]
#[verifier::external_body]
pub struct ExValue(serde_json::Value);

#[verifier::external_type_specification]
#[verifier::external_body]
#[verifier::reject_recursive_types(K)]
#[verifier::reject_recursive_types(V)]
pub struct ExMap<K, V>(serde_json::Map<K, V>);

/// The text a JSON string holds; `None` for any other value.
pub uninterp spec fn json_text(value: serde_json::Value) -> Option<Seq<char>>;

/// The members a JSON object holds; `None` for any other value.
pub uninterp spec fn json_members(value: serde_json::Value) -> Option<
    Map<Seq<char>, serde_json::Value>,
>;

/// The unsigned number a JSON value holds; `None` for any other value.
pub uninterp spec fn json_u64(value: serde_json::Value) -> Option<u64>;

/// The value a text is the JSON of; `None` for a text that is none.
pub uninterp spec fn json_of(text: Seq<char>) -> Option<serde_json::Value>;

/// The JSON of a value.
pub uninterp spec fn json_rendered(value: serde_json::Value) -> Seq<char>;

/// The members of a JSON object under construction.
pub uninterp spec fn map_members(
    map: serde_json::Map<String, serde_json::Value>,
) -> Map<Seq<char>, serde_json::Value>;

/// The member of a value under a name.
pub open spec fn member_of(value: serde_json::Value, name: Seq<char>) -> Option<
    serde_json::Value,
> {
    match json_members(value) {
        Some(members) => if members.contains_key(name) {
            Some(members[name])
        } else {
            None
        },
        None => None,
    }
}

/// The text a value holds under a name.
pub open spec fn text_member_of(value: serde_json::Value, name: Seq<char>) -> Option<Seq<char>> {
    match member_of(value, name) {
        Some(member) => json_text(member),
        None => None,
    }
}

/// `serde_json::Value::get`: the member an object has under a name, and nothing
/// for a missing member or a value that is no object.
#[verifier::external_body]
pub(crate) fn member<'a>(value: &'a serde_json::Value, name: &str) -> (out: Option<
    &'a serde_json::Value,
>)
    ensures
        match member_of(*value, name@) {
            Some(v) => out == Some(&v),
            None => out is None,
        },
{
    value.get(name)
}

/// `serde_json::Value::as_str`: the text of a string, nothing for any other value.
#[verifier::external_body]
pub(crate) fn as_text(value: &serde_json::Value) -> (out: Option<String>)
    ensures
        match json_text(*value) {
            Some(t) => out is Some && out->Some_0@ == t,
            None => out is None,
        },
{
    value.as_str().map(str::to_owned)
}

/// `serde_json::Value::String`: a value that holds a text and no members.
#[verifier::external_body]
pub(crate) fn text_value(text: &str) -> (out: serde_json::Value)
    ensures
        json_text(out) == Some(text@),
        json_members(out) is None,
        json_u64(out) is None,
{
    serde_json::Value::String(text.to_owned())
}

/// `serde_json::Value::as_u64`: the unsigned number of a value, nothing for any
/// other value.
#[verifier::external_body]
pub(crate) fn as_u64(value: &serde_json::Value) -> (out: Option<u64>)
    ensures
        out == json_u64(*value),
{
    value.as_u64()
}

/// `serde_json::Value::from`: a value that holds an unsigned number, and no text
/// and no members.
#[verifier::external_body]
pub(crate) fn u64_value(n: u64) -> (out: serde_json::Value)
    ensures
        json_u64(out) == Some(n),
        json_text(out) is None,
        json_members(out) is None,
{
    serde_json::Value::from(n)
}

/// Whether a value is an object of texts and unsigned numbers.
pub open spec fn is_flat(value: serde_json::Value) -> bool {
    json_members(value) matches Some(members) && forall|name: Seq<char>| #[trigger]
        members.contains_key(name) ==> json_text(members[name]) is Some || json_u64(
            members[name],
        ) is Some
}

/// The unsigned number a value holds under a name.
pub open spec fn u64_member_of(value: serde_json::Value, name: Seq<char>) -> Option<u64> {
    match member_of(value, name) {
        Some(member) => json_u64(member),
        None => None,
    }
}

/// Whether two objects hold the same texts and numbers under the same names.
pub open spec fn same_members(a: serde_json::Value, b: serde_json::Value) -> bool {
    forall|name: Seq<char>|
        #![trigger text_member_of(b, name)]
        #![trigger u64_member_of(b, name)]
        text_member_of(a, name) == text_member_of(b, name) && u64_member_of(a, name)
            == u64_member_of(b, name)
}

/// Whether a text is read back as the object of texts and numbers a value is;
/// of any other value nothing is said.
pub open spec fn reads_back(value: serde_json::Value, text: Seq<char>) -> bool {
    is_flat(value) ==> (json_of(text) matches Some(back) && same_members(value, back))
}

/// `serde_json::from_str`: the value a text is the JSON of is a function of the
/// text.
#[verifier::external_body]
pub(crate) fn parse(text: &str) -> (out: Option<serde_json::Value>)
    ensures
        out == json_of(text@),
{
    serde_json::from_str(text).ok()
}

/// `serde_json::Value::to_string`: the JSON of a value is a function of the
/// value. The JSON of an object of texts and unsigned numbers is read back as
/// the same texts and numbers; of other values that is left unsaid, because a
/// fraction can be read back as a neighbouring one.
#[verifier::external_body]
pub(crate) fn render(value: &serde_json::Value) -> (out: String)
    ensures
        out@ == json_rendered(*value),
        reads_back(*value, out@),
{
    value.to_string()
}

/// `serde_json::Map::new`: no members.
#[verifier::external_body]
pub(crate) fn new_map() -> (out: serde_json::Map<String, serde_json::Value>)
    ensures
        forall|name: Seq<char>| !(#[trigger] map_members(out).contains_key(name)),
{
    serde_json::Map::new()
}

/// `serde_json::Map::insert`: the member is set, over one of the same name.
#[verifier::external_body]
pub(crate) fn insert(
    map: &mut serde_json::Map<String, serde_json::Value>,
    name: &str,
    value: serde_json::Value,
)
    ensures
        map_members(*final(map)) == map_members(*old(map)).insert(name@, value),
{
    map.insert(name.to_owned(), value);
}

/// `serde_json::Value::Object`: a value that holds the map's members and no text.
#[verifier::external_body]
pub(crate) fn object(map: serde_json::Map<String, serde_json::Value>) -> (out: serde_json::Value)
    ensures
        json_members(out) == Some(map_members(map)),
        json_text(out) is None,
        json_u64(out) is None,
{
    serde_json::Value::Object(map)
}

/// `serde_json::Value::as_object` and `serde_json::Map::iter`: every member of an
/// object once, by name and value; nothing for a value that is no object. The
/// order the map hands them out in is left open.
#[verifier::external_body]
pub(crate) fn members<'a>(value: &'a serde_json::Value) -> (out: Vec<
    (String, &'a serde_json::Value),
>)
    ensures
        json_members(*value) is None ==> out@.len() == 0,
        json_members(*value) matches Some(m) ==> {
            &&& forall|i: int|
                0 <= i < out@.len() ==> m.contains_key((#[trigger] out@[i]).0@)
                    && m[out@[i].0@] == *out@[i].1
            &&& forall|i: int, j: int|
                0 <= i < j < out@.len() ==> (#[trigger] out@[i]).0@ != (#[trigger] out@[j]).0@
            &&& forall|name: Seq<char>| #[trigger]
                m.contains_key(name) ==> exists|i: int|
                    0 <= i < out@.len() && (#[trigger] out@[i]).0@ == name
        },
{
    match value.as_object() {
        Some(map) => map.iter().map(|(name, value)| (name.clone(), value)).collect(),
        None => Vec::new(),
    }
}

} // verus!
