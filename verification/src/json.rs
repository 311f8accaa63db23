//! JSON documents, written and read by `serde_json`.

use vstd::prelude::*;
use vstd::utf8::encode_utf8;

verus! {

/// A JSON document. What is no text, no list and no object (a number, a truth
/// value, null) is not told apart.
pub enum JsonTree {
    Text(Seq<char>),
    List(Seq<JsonTree>),
    Object(Map<Seq<char>, JsonTree>),
    Other,
}

/// A name that `serde_json` does not keep for itself: those begin with a dollar
/// sign.
pub open spec fn is_plain_name(name: Seq<char>) -> bool {
    name.len() > 0 ==> name[0] != '$'
}

/// The document is made of texts, in lists and objects at most `depth` deep, and
/// the members of its objects have plain names.
pub open spec fn textual(tree: JsonTree, depth: nat) -> bool
    decreases depth,
{
    match tree {
        JsonTree::Text(_) => true,
        JsonTree::List(items) => depth > 0 && forall|i: int|
            0 <= i < items.len() ==> textual(#[trigger] items[i], (depth - 1) as nat),
        JsonTree::Object(members) => depth > 0 && forall|name: Seq<char>| #[trigger]
            members.dom().contains(name) ==> is_plain_name(name) && textual(
                members[name],
                (depth - 1) as nat,
            ),
        JsonTree::Other => false,
    }
}

/// `serde_json::Value`.
#[verifier::external_type_specification]
#[verifier::external_body]
pub struct ExValue(serde_json::Value);

/// The document that a JSON value holds.
pub uninterp spec fn json_tree(value: serde_json::Value) -> JsonTree;

/// The text of a document, indented.
pub uninterp spec fn pretty_text(tree: JsonTree) -> Seq<char>;

/// The document that `bytes` are the text of, if they are one.
pub uninterp spec fn parsed_json(bytes: Seq<u8>) -> Option<JsonTree>;

/// The documents that a list of JSON values holds.
pub open spec fn json_trees(values: Seq<serde_json::Value>) -> Seq<JsonTree> {
    Seq::new(values.len(), |i: int| json_tree(values[i]))
}

/// The members of an object, put in one after the other.
pub open spec fn member_map(members: Seq<(String, serde_json::Value)>) -> Map<
    Seq<char>,
    JsonTree,
>
    decreases members.len(),
{
    if members.len() == 0 {
        Map::empty()
    } else {
        member_map(members.drop_last()).insert(members.last().0@, json_tree(members.last().1))
    }
}

/// No member is named twice.
pub open spec fn members_differ(members: Seq<(String, serde_json::Value)>) -> bool {
    forall|i: int, j: int|
        0 <= i < j < members.len() ==> (#[trigger] members[i]).0@ != (#[trigger] members[j]).0@
}

/// `serde_json::Value::from` of a text: the value is that text.
#[verifier::external_body]
pub(crate) fn json_string(text: &str) -> (value: serde_json::Value)
    ensures
        json_tree(value) == JsonTree::Text(text@),
{
    serde_json::Value::from(text)
}

/// `serde_json::Value::from` of a vector: the value is the list of the vector's
/// values.
#[verifier::external_body]
pub(crate) fn json_list(values: Vec<serde_json::Value>) -> (value: serde_json::Value)
    ensures
        json_tree(value) == JsonTree::List(json_trees(values@)),
{
    serde_json::Value::from(values)
}

/// `serde_json::Value::from_iter` of named values: the value is the object that
/// has just these members.
#[verifier::external_body]
pub(crate) fn json_object(members: Vec<(String, serde_json::Value)>) -> (value: serde_json::Value)
    requires
        members_differ(members@),
    ensures
        json_tree(value) == JsonTree::Object(member_map(members@)),
{
    serde_json::Value::from_iter(members)
}

/// `serde_json::to_string_pretty` of a document of texts whose members have plain
/// names: the text depends on the document alone, for the members of an object
/// stand in the order of their names, however it was made. Reading the text gives
/// the document back: texts are escaped as the reader expects them, an object
/// without the names that the reader gives another meaning is read as an object,
/// and the nesting is far from where the reader stops.
#[verifier::external_body]
pub(crate) fn json_pretty(value: &serde_json::Value) -> (text: String)
    requires
        textual(json_tree(*value), 3),
    ensures
        text@ == pretty_text(json_tree(*value)),
        parsed_json(encode_utf8(text@)) == Some(json_tree(*value)),
{
    serde_json::to_string_pretty(value).unwrap()
}

/// `serde_json::from_slice` of a value: what is read, if anything, depends on the
/// bytes alone.
#[verifier::external_body]
pub(crate) fn json_parse(bytes: &[u8]) -> (value: Option<serde_json::Value>)
    ensures
        match value {
            Some(v) => parsed_json(bytes@) == Some(json_tree(v)),
            None => parsed_json(bytes@) is None,
        },
{
    match serde_json::from_slice::<serde_json::Value>(bytes) {
        Ok(value) => Some(value),
        Err(_) => None,
    }
}

/// `serde_json::Value::as_str`: the text, where the value is one.
#[verifier::external_body]
pub(crate) fn json_text(value: &serde_json::Value) -> (text: Option<&str>)
    ensures
        match text {
            Some(s) => json_tree(*value) == JsonTree::Text(s@),
            None => json_tree(*value) !is Text,
        },
{
    value.as_str()
}

/// `serde_json::Value::as_array`: the values in the list, where the value is one.
#[verifier::external_body]
pub(crate) fn json_items(value: &serde_json::Value) -> (items: Option<&Vec<serde_json::Value>>)
    ensures
        match items {
            Some(v) => json_tree(*value) == JsonTree::List(json_trees(v@)),
            None => json_tree(*value) !is List,
        },
{
    value.as_array()
}

/// The member `name` of a document, where it is an object that has one.
pub open spec fn member_of(tree: JsonTree, name: Seq<char>) -> Option<JsonTree> {
    match tree {
        JsonTree::Object(members) => if members.dom().contains(name) {
            Some(members[name])
        } else {
            None
        },
        _ => None,
    }
}

/// `serde_json::Value::get` of a name: the member of that name, where the value is
/// an object that has one.
#[verifier::external_body]
pub(crate) fn json_member<'a>(value: &'a serde_json::Value, name: &str) -> (member: Option<
    &'a serde_json::Value,
>)
    ensures
        match member {
            Some(m) => member_of(json_tree(*value), name@) == Some(json_tree(*m)),
            None => member_of(json_tree(*value), name@) is None,
        },
{
    value.get(name)
}

/// The text that a document is, if it is one.
pub open spec fn text_in(tree: Option<JsonTree>) -> Option<Seq<char>> {
    match tree {
        Some(JsonTree::Text(text)) => Some(text),
        _ => None,
    }
}

/// The text of the member `name`.
pub(crate) fn member_text<'a>(value: &'a serde_json::Value, name: &str) -> (text: Option<&'a str>)
    ensures
        match text {
            Some(s) => text_in(member_of(json_tree(*value), name@)) == Some(s@),
            None => text_in(member_of(json_tree(*value), name@)) is None,
        },
{
    match json_member(value, name) {
        Some(member) => json_text(member),
        None => None,
    }
}

} // verus!
