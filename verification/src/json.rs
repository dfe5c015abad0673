//! JSON trees, and their text as `serde_json` writes it.

use vstd::prelude::*;
use vstd::string::*;

use crate::strings::text_of;

verus! {

broadcast use vstd::string::group_string_axioms;

/// A JSON value.
#[derive(Debug)]
pub enum Json {
    Null,
    Bool(bool),
    Number(i64),
    Text(String),
    List(Vec<Json>),
    /// Members in the order they were given; a later one replaces an earlier one
    /// of the same name.
    Object(Vec<(String, Json)>),
}

/// A JSON value as mathematics.
pub enum JsonView {
    Null,
    Bool(bool),
    Number(int),
    Text(Seq<char>),
    List(Seq<JsonView>),
    Object(Map<Seq<char>, JsonView>),
}

/// The values of a list.
pub open spec fn list_view(items: Seq<Json>) -> Seq<JsonView>
    decreases items,
{
    if items.len() == 0 {
        seq![]
    } else {
        list_view(items.drop_last()).push(items.last().tree())
    }
}

/// The members of an object.
pub open spec fn object_view(members: Seq<(String, Json)>) -> Map<Seq<char>, JsonView>
    decreases members,
{
    if members.len() == 0 {
        Map::empty()
    } else {
        object_view(members.drop_last()).insert(members.last().0@, members.last().1.tree())
    }
}

impl Json {
    /// The value as mathematics.
    pub open spec fn tree(self) -> JsonView
        decreases self,
    {
        match self {
            Json::Null => JsonView::Null,
            Json::Bool(value) => JsonView::Bool(value),
            Json::Number(value) => JsonView::Number(value as int),
            Json::Text(text) => JsonView::Text(text@),
            Json::List(items) => JsonView::List(list_view(items@)),
            Json::Object(members) => JsonView::Object(object_view(members@)),
        }
    }
}

impl View for Json {
    type V = JsonView;

    open spec fn view(&self) -> JsonView {
        self.tree()
    }
}

/// A value of `serde_json`.
#[verifier::external_type_specification]
#[verifier::external_body]
pub struct ExValue(serde_json::Value);

/// The tree that a `serde_json` value holds.
pub uninterp spec fn held(value: serde_json::Value) -> JsonView;

/// The text of a tree without any layout.
pub uninterp spec fn compact_text(tree: JsonView) -> Seq<char>;

/// The text of a tree laid out over indented lines, if it can be written.
pub uninterp spec fn pretty_text(tree: JsonView) -> Option<Seq<char>>;

/// `serde_json::Value::Null` holds the null value.
#[verifier::external_body]
fn null_value() -> (r: serde_json::Value)
    ensures
        held(r) == JsonView::Null,
{
    serde_json::Value::Null
}

/// `serde_json::Value::from` of a boolean holds that boolean.
#[verifier::external_body]
fn bool_value(value: bool) -> (r: serde_json::Value)
    ensures
        held(r) == JsonView::Bool(value),
{
    serde_json::Value::from(value)
}

/// `serde_json::Value::from` of an integer holds that integer.
#[verifier::external_body]
fn number_value(value: i64) -> (r: serde_json::Value)
    ensures
        held(r) == JsonView::Number(value as int),
{
    serde_json::Value::from(value)
}

/// `serde_json::Value::from` of a string slice holds that text.
#[verifier::external_body]
fn text_value(value: &str) -> (r: serde_json::Value)
    ensures
        held(r) == JsonView::Text(value@),
{
    serde_json::Value::from(value)
}

/// `serde_json::Value::from` of a vector of values holds the list of what they
/// hold, in order.
#[verifier::external_body]
fn list_value(values: Vec<serde_json::Value>) -> (r: serde_json::Value)
    ensures
        held(r) == JsonView::List(values@.map_values(|value: serde_json::Value| held(value))),
{
    serde_json::Value::from(values)
}

/// `serde_json::Value::from` of an empty `serde_json::Map` holds an object
/// without members.
#[verifier::external_body]
fn empty_object() -> (r: serde_json::Value)
    ensures
        held(r) == JsonView::Object(Map::empty()),
{
    serde_json::Value::from(serde_json::Map::new())
}

/// Assigning through `serde_json::Value`'s index by name gives an object that
/// member, in place of one of the same name if there is one.
#[verifier::external_body]
fn set_member(object: &mut serde_json::Value, name: &str, value: serde_json::Value)
    requires
        held(*old(object)) is Object,
    ensures
        held(*final(object)) == JsonView::Object(
            held(*old(object))->Object_0.insert(name@, held(value)),
        ),
{
    object[name] = value;
}

/// Build the `serde_json` value of a tree, node for node.
fn to_value(json: &Json) -> (r: serde_json::Value)
    ensures
        held(r) == json@,
    decreases json,
{
    match json {
        Json::Null => null_value(),
        Json::Bool(value) => bool_value(*value),
        Json::Number(value) => number_value(*value),
        Json::Text(text) => text_value(text.as_str()),
        Json::List(items) => {
            let mut values: Vec<serde_json::Value> = Vec::new();
            let mut i: usize = 0;
            while i < items.len()
                invariant
                    i <= items@.len(),
                    *json == Json::List(*items),
                    values@.map_values(|value: serde_json::Value| held(value)) == list_view(
                        items@.take(i as int),
                    ),
                decreases items@.len() - i,
            {
                proof {
                    assert(decreases_to!(json => json->List_0));
                    assert(decreases_to!(json->List_0 => json->List_0@));
                    assert(decreases_to!(items@ => items@[i as int]));
                    assert(items@.take(i + 1).drop_last() =~= items@.take(i as int));
                }
                let ghost before = values@;
                let value = to_value(&items[i]);
                values.push(value);
                assert(values@.map_values(|value: serde_json::Value| held(value))
                    =~= before.map_values(|value: serde_json::Value| held(value)).push(
                    held(value),
                ));
                i += 1;
            }
            assert(items@.take(i as int) =~= items@);
            list_value(values)
        },
        Json::Object(members) => {
            let mut object = empty_object();
            let mut i: usize = 0;
            while i < members.len()
                invariant
                    i <= members@.len(),
                    *json == Json::Object(*members),
                    held(object) == JsonView::Object(object_view(members@.take(i as int))),
                decreases members@.len() - i,
            {
                proof {
                    assert(decreases_to!(json => json->Object_0));
                    assert(decreases_to!(json->Object_0 => json->Object_0@));
                    assert(decreases_to!(members@ => members@[i as int]));
                    assert(decreases_to!(members@[i as int] => members@[i as int].1));
                    assert(members@.take(i + 1).drop_last() =~= members@.take(i as int));
                }
                let value = to_value(&members[i].1);
                set_member(&mut object, members[i].0.as_str(), value);
                i += 1;
            }
            assert(members@.take(i as int) =~= members@);
            object
        },
    }
}

/// `serde_json::Value`'s `to_string` depends on the tree alone; its text is
/// called [`compact_text`]. Control characters inside strings are escaped and
/// nothing is put between tokens, so no line break occurs in it.
#[verifier::external_body]
fn value_to_string(value: &serde_json::Value) -> (r: String)
    ensures
        r@ == compact_text(held(*value)),
        !r@.contains('\n'),
{
    value.to_string()
}

/// `serde_json::to_string_pretty` depends on the tree alone; its text, or that
/// there is none, is called [`pretty_text`].
#[verifier::external_body]
fn value_to_string_pretty(value: &serde_json::Value) -> (r: Option<String>)
    ensures
        text_of(r) == pretty_text(held(*value)),
{
    serde_json::to_string_pretty(value).ok()
}

/// Write a tree on one line.
pub fn compact(json: &Json) -> (r: String)
    ensures
        r@ == compact_text(json@),
        !r@.contains('\n'),
{
    value_to_string(&to_value(json))
}

/// Write a tree over indented lines.
pub fn pretty(json: &Json) -> (r: Option<String>)
    ensures
        text_of(r) == pretty_text(json@),
{
    value_to_string_pretty(&to_value(json))
}

/// A text node.
pub fn text_node(value: &str) -> (r: Json)
    ensures
        r@ == JsonView::Text(value@),
{
    Json::Text(value.to_owned())
}

/// Add a member to the members of an object.
pub fn add_member(members: &mut Vec<(String, Json)>, name: &str, value: Json)
    ensures
        object_view(final(members)@) == object_view(old(members)@).insert(name@, value@),
{
    let ghost before = members@;
    members.push((name.to_owned(), value));
    assert(members@.drop_last() =~= before);
}

/// Add a value to the values of a list.
pub fn add_item(items: &mut Vec<Json>, value: Json)
    ensures
        list_view(final(items)@) == list_view(old(items)@).push(value@),
{
    let ghost before = items@;
    items.push(value);
    assert(items@.drop_last() =~= before);
}

} // verus!
