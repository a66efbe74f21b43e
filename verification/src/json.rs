//! JSON values: the tree that a `serde_json::Value` holds, and the few operations
//! on it that the protocol needs.
use vstd::prelude::*;
use vstd::string::*;

verus! {

/// `serde_json::Value`, whose content is [`json_content`].
#[verifier::external_type_specification]
#[verifier::external_body]
pub struct ExValue(serde_json::Value);

/// A JSON tree. An integer is told apart from a floating-point number, which stands
/// as the text that it is written as.
pub enum JsonView {
    Null,
    Bool(bool),
    Int(int),
    Float(Seq<char>),
    Text(Seq<char>),
    List(Seq<JsonView>),
    Object(Map<Seq<char>, JsonView>),
}

/// The tree that a value holds.
pub uninterp spec fn json_content(v: serde_json::Value) -> JsonView;

/// The text that `serde_json` writes for a tree.
pub uninterp spec fn json_text(v: JsonView) -> Seq<char>;

/// What `serde_json` reads in a text: a tree, or the text of its error.
pub uninterp spec fn json_parsed(s: Seq<char>) -> Result<JsonView, Seq<char>>;

// ---------------------------------------------------------------------------
// Specifications
// ---------------------------------------------------------------------------
/// The trees that some values hold.
pub open spec fn json_contents(v: Seq<serde_json::Value>) -> Seq<JsonView> {
    v.map_values(|x: serde_json::Value| json_content(x))
}

/// The member of an object; null where there is none.
pub open spec fn json_member(v: JsonView, key: Seq<char>) -> JsonView {
    match v {
        JsonView::Object(m) => if m.dom().contains(key) {
            m[key]
        } else {
            JsonView::Null
        },
        _ => JsonView::Null,
    }
}

/// The text that a tree is, if it is one.
pub open spec fn json_str(v: JsonView) -> Option<Seq<char>> {
    match v {
        JsonView::Text(s) => Some(s),
        _ => None,
    }
}

/// The unsigned 64-bit integer that a tree is, if it is one.
pub open spec fn json_u64(v: JsonView) -> Option<u64> {
    match v {
        JsonView::Int(n) => if 0 <= n <= u64::MAX {
            Some(n as u64)
        } else {
            None
        },
        _ => None,
    }
}

/// The elements of a list, if the tree is one.
pub open spec fn json_elements(v: JsonView) -> Option<Seq<JsonView>> {
    match v {
        JsonView::List(s) => Some(s),
        _ => None,
    }
}

/// The tree that a text is read as; null where it is no JSON.
pub open spec fn json_read(s: Seq<char>) -> JsonView {
    match json_parsed(s) {
        Ok(v) => v,
        Err(_) => JsonView::Null,
    }
}

/// The content of a parse result.
pub open spec fn parsed_view(r: Result<serde_json::Value, String>) -> Result<
    JsonView,
    Seq<char>,
> {
    match r {
        Ok(v) => Ok(json_content(v)),
        Err(e) => Err(e@),
    }
}

/// The content of an optional text.
pub open spec fn opt_text(r: Option<String>) -> Option<Seq<char>> {
    match r {
        Some(s) => Some(s@),
        None => None,
    }
}

/// The contents of an optional list.
pub open spec fn opt_contents(r: Option<Vec<serde_json::Value>>) -> Option<Seq<JsonView>> {
    match r {
        Some(v) => Some(json_contents(v@)),
        None => None,
    }
}

// ---------------------------------------------------------------------------
// serde_json
// ---------------------------------------------------------------------------
/// `serde_json::Value::default`: null.
#[verifier::external_body]
pub(crate) fn null_value() -> (r: serde_json::Value)
    ensures
        json_content(r) == JsonView::Null,
{
    serde_json::Value::default()
}

/// `serde_json::Value::from` on a boolean.
#[verifier::external_body]
pub(crate) fn bool_value(b: bool) -> (r: serde_json::Value)
    ensures
        json_content(r) == JsonView::Bool(b),
{
    serde_json::Value::from(b)
}

/// `serde_json::Value::from` on an integer.
#[verifier::external_body]
pub(crate) fn int_value(n: i64) -> (r: serde_json::Value)
    ensures
        json_content(r) == JsonView::Int(n as int),
{
    serde_json::Value::from(n)
}

/// `serde_json::Value::from` on a text.
#[verifier::external_body]
pub(crate) fn text_value(s: &str) -> (r: serde_json::Value)
    ensures
        json_content(r) == JsonView::Text(s@),
{
    serde_json::Value::from(s)
}

/// `serde_json::Value::from` on a list of values.
#[verifier::external_body]
pub(crate) fn list_value(v: Vec<serde_json::Value>) -> (r: serde_json::Value)
    ensures
        json_content(r) == JsonView::List(json_contents(v@)),
{
    serde_json::Value::from(v)
}

/// `serde_json::Value::from` on a new `serde_json::Map`: an object without members.
#[verifier::external_body]
pub(crate) fn empty_object() -> (r: serde_json::Value)
    ensures
        json_content(r) == JsonView::Object(Map::empty()),
{
    serde_json::Value::from(serde_json::Map::new())
}

/// Assignment through `serde_json::Value`'s `IndexMut` with a text as the index: an
/// object gets the member, in place of one of the same name.
#[verifier::external_body]
pub(crate) fn set_member(v: &mut serde_json::Value, key: &str, member: serde_json::Value)
    requires
        json_content(*old(v)) is Object,
    ensures
        json_content(*final(v)) == JsonView::Object(
            json_content(*old(v))->Object_0.insert(key@, json_content(member)),
        ),
{
    v[key] = member;
}

/// `serde_json::Value`'s `Index` with a text as the index: a copy of the member, or
/// null where the value is no object or has no such member.
#[verifier::external_body]
pub(crate) fn member(v: &serde_json::Value, key: &str) -> (r: serde_json::Value)
    ensures
        json_content(r) == json_member(json_content(*v), key@),
{
    v[key].clone()
}

/// `serde_json::Value::as_str`.
#[verifier::external_body]
pub(crate) fn as_str(v: &serde_json::Value) -> (r: Option<String>)
    ensures
        opt_text(r) == json_str(json_content(*v)),
{
    v.as_str().map(|s| s.to_string())
}

/// `serde_json::Value::as_u64`.
#[verifier::external_body]
pub(crate) fn as_u64(v: &serde_json::Value) -> (r: Option<u64>)
    ensures
        r == json_u64(json_content(*v)),
{
    v.as_u64()
}

/// `serde_json::Value::as_array`, with the elements copied.
#[verifier::external_body]
pub(crate) fn as_array(v: &serde_json::Value) -> (r: Option<Vec<serde_json::Value>>)
    ensures
        opt_contents(r) == json_elements(json_content(*v)),
{
    v.as_array().cloned()
}

/// `serde_json::Value`'s `Clone`: the copy holds the same tree.
pub assume_specification[ <serde_json::Value as Clone>::clone ](v: &serde_json::Value) -> (r:
    serde_json::Value)
    ensures
        json_content(r) == json_content(*v),
;

/// `serde_json::Value`'s `Display`: the compact text of the value.
#[verifier::external_body]
pub(crate) fn to_text(v: &serde_json::Value) -> (r: String)
    ensures
        r@ == json_text(json_content(*v)),
{
    v.to_string()
}

/// `serde_json::from_str` into a `serde_json::Value`, with the error as the text
/// that it displays.
#[verifier::external_body]
pub(crate) fn parse(s: &str) -> (r: Result<serde_json::Value, String>)
    ensures
        parsed_view(r) == json_parsed(s@),
{
    serde_json::from_str::<serde_json::Value>(s).map_err(|e| e.to_string())
}

// ---------------------------------------------------------------------------
// Executable functions
// ---------------------------------------------------------------------------
/// Reads a text as JSON; null where it is none.
pub fn read_or_null(s: &str) -> (r: serde_json::Value)
    ensures
        json_content(r) == json_read(s@),
{
    match parse(s) {
        Ok(v) => v,
        Err(_) => null_value(),
    }
}

// ---------------------------------------------------------------------------
// Laws
// ---------------------------------------------------------------------------
/// A member is read back from an object that holds it, whatever else it holds, and what is
/// no object or does not hold it reads as null.
pub proof fn law_members_are_read_back(
    m: Map<Seq<char>, JsonView>,
    key: Seq<char>,
    other: Seq<char>,
    x: JsonView,
)
    requires
        key != other,
    ensures
        json_member(JsonView::Object(m.insert(key, x)), key) == x,
        json_member(JsonView::Object(m.insert(other, x)), key) == json_member(
            JsonView::Object(m),
            key,
        ),
        json_member(JsonView::Object(m.remove(key)), key) == JsonView::Null,
        !(x is Object) ==> json_member(x, key) == JsonView::Null,
{
}

/// A text, an integer or a list is read as what it is, and as nothing else.
pub proof fn law_leaves_are_read_as_what_they_are(
    v: JsonView,
    s: Seq<char>,
    n: u64,
    below: nat,
    l: Seq<JsonView>,
)
    ensures
        json_str(JsonView::Text(s)) == Some(s),
        json_u64(JsonView::Int(n as int)) == Some(n),
        below > 0 ==> json_u64(JsonView::Int(-below)) is None,
        json_u64(JsonView::Int((0x1_0000_0000_0000_0000 + below) as int)) is None,
        json_elements(JsonView::List(l)) == Some(l),
        !(v is Text) ==> json_str(v) is None,
        !(v is Int) ==> json_u64(v) is None,
        !(v is List) ==> json_elements(v) is None,
{
}

} // verus!
