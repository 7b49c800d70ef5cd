//! JSON values, as `serde_json` keeps and writes them.
use vstd::prelude::*;

use crate::text;

verus! {

/// What a JSON value holds. Its numbers are the natural ones.
pub enum JsonTree {
    Null,
    Number(nat),
    Text(Seq<char>),
    List(Seq<JsonTree>),
    Object(Map<Seq<char>, JsonTree>),
}

/// A JSON value of `serde_json`.
#[verifier::external_type_specification]
#[verifier::external_body]
pub struct ExValue(serde_json::Value);

/// The members of a JSON object of `serde_json`.
#[verifier::external_type_specification]
#[verifier::external_body]
#[verifier::reject_recursive_types(K)]
#[verifier::reject_recursive_types(V)]
pub struct ExMembers<K, V>(serde_json::Map<K, V>);

/// What a value of `serde_json` holds.
pub uninterp spec fn tree_of(value: serde_json::Value) -> JsonTree;

/// The members of an object of `serde_json`: the value of each key.
pub uninterp spec fn members_of(members: serde_json::Map<String, serde_json::Value>) -> Map<
    Seq<char>,
    JsonTree,
>;

/// The text that `serde_json` writes for a value, spread over lines.
pub uninterp spec fn pretty_text(tree: JsonTree) -> Seq<char>;

/// What each of the values holds.
pub open spec fn trees_of(values: Seq<serde_json::Value>) -> Seq<JsonTree> {
    Seq::new(values.len(), |i: int| tree_of(values[i]))
}

/// `serde_json::Map::new` gives an object without members.
#[verifier::external_body]
pub(crate) fn no_members() -> (members: serde_json::Map<String, serde_json::Value>)
    ensures
        members_of(members).dom() == Set::<Seq<char>>::empty(),
{
    serde_json::Map::new()
}

/// `serde_json::Map::insert` gives the key its value, and hands back the value that the key
/// had, if it had one.
#[verifier::external_body]
pub(crate) fn insert_member(
    members: &mut serde_json::Map<String, serde_json::Value>,
    key: String,
    value: serde_json::Value,
) -> (earlier: Option<serde_json::Value>)
    ensures
        members_of(*final(members)) == members_of(*old(members)).insert(key@, tree_of(value)),
        match earlier {
            Some(had) => members_of(*old(members)).contains_pair(key@, tree_of(had)),
            None => !members_of(*old(members)).contains_key(key@),
        },
{
    members.insert(key, value)
}

/// `serde_json::Value::Null` is the value that holds nothing.
#[verifier::external_body]
pub(crate) fn null_value() -> (value: serde_json::Value)
    ensures
        tree_of(value) == JsonTree::Null,
{
    serde_json::Value::Null
}

/// `serde_json::Value::from` on a `u64` gives the number.
#[verifier::external_body]
pub(crate) fn number_value(n: u64) -> (value: serde_json::Value)
    ensures
        tree_of(value) == JsonTree::Number(n as nat),
{
    serde_json::Value::from(n)
}

/// `serde_json::Value::String` holds the text.
#[verifier::external_body]
pub(crate) fn text_value(s: String) -> (value: serde_json::Value)
    ensures
        tree_of(value) == JsonTree::Text(s@),
{
    serde_json::Value::String(s)
}

/// `serde_json::Value::Array` holds the values, in their order.
#[verifier::external_body]
pub(crate) fn list_value(values: Vec<serde_json::Value>) -> (value: serde_json::Value)
    ensures
        tree_of(value) == JsonTree::List(trees_of(values@)),
{
    serde_json::Value::Array(values)
}

/// `serde_json::Value::Object` holds the members.
#[verifier::external_body]
pub(crate) fn object_value(members: serde_json::Map<String, serde_json::Value>) -> (value:
    serde_json::Value)
    ensures
        tree_of(value) == JsonTree::Object(members_of(members)),
{
    serde_json::Value::Object(members)
}

/// `serde_json::to_string_pretty` writes what a value holds, and nothing else goes into the text:
/// the members of an object come in the order of their keys, which is how `serde_json::Map` keeps
/// them. It fails only where the value's own serialisation does or where a key is no string, and a
/// `serde_json::Value` knows neither. Which text it is, is left unsaid.
#[verifier::external_body]
pub(crate) fn to_pretty_text(value: &serde_json::Value) -> (r: Option<String>)
    ensures
        r is Some,
        r->0@ == pretty_text(tree_of(*value)),
{
    serde_json::to_string_pretty(value).ok()
}

/// The text, or that of an object without members where there is none.
pub fn text_or_empty_object(written: Option<String>) -> (r: String)
    ensures
        r@ == match text::optional_text(written) {
            Some(text) => text,
            None => "{}"@,
        },
{
    match written {
        Some(text) => text,
        None => "{}".to_owned(),
    }
}

/// A text that was written is kept as it is, and what stands for one that was not is never
/// empty: two braces with nothing between them.
pub proof fn law_written_text_is_kept(written: Option<String>, r: String)
    requires
        call_ensures(text_or_empty_object, (written,), r),
    ensures
        written is Some ==> r@ == written->0@,
        written is None ==> r@ == seq!['{', '}'],
{
    reveal_strlit("{}");
}

} // verus!
