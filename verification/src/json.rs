//! JSON values, and their exchange with text through `serde_json`.

use vstd::prelude::*;
use crate::error::Error;

verus! {

/// A named member of a JSON object.
#[derive(Debug, PartialEq, Eq)]
pub struct Member {
    pub name: String,
    pub value: Json,
}

/// A JSON value.
///
/// An object is written as the list of its members. Where a name occurs more
/// than once, the last member with that name counts.
#[derive(Debug, PartialEq, Eq)]
pub enum Json {
    Null,
    Bool(bool),
    /// A number that is a whole number from 0 to 2^64 - 1.
    Number(u64),
    /// Any other number, as its decimal text.
    Numeral(String),
    Text(String),
    Array(Vec<Json>),
    Object(Vec<Member>),
}

/// The mathematical content of a [`Json`] value.
pub enum JsonView {
    Null,
    Bool(bool),
    Number(u64),
    Numeral(Seq<char>),
    Text(Seq<char>),
    Array(Seq<JsonView>),
    Object(Map<Seq<char>, JsonView>),
}

/// The content of a JSON value.
pub open spec fn json_view(json: Json) -> JsonView
    decreases json, 0nat,
{
    match json {
        Json::Null => JsonView::Null,
        Json::Bool(b) => JsonView::Bool(b),
        Json::Number(n) => JsonView::Number(n),
        Json::Numeral(text) => JsonView::Numeral(text@),
        Json::Text(text) => JsonView::Text(text@),
        Json::Array(items) => JsonView::Array(items_view(items@, items@.len())),
        Json::Object(members) => JsonView::Object(members_view(members@, members@.len())),
    }
}

/// The contents of the first `count` values of a list.
pub open spec fn items_view(items: Seq<Json>, count: nat) -> Seq<JsonView>
    decreases items, count,
{
    if count == 0 || count > items.len() {
        Seq::empty()
    } else {
        items_view(items, (count - 1) as nat).push(json_view(items[count - 1]))
    }
}

/// The object that the first `count` members of a list make up.
pub open spec fn members_view(members: Seq<Member>, count: nat) -> Map<Seq<char>, JsonView>
    decreases members, count,
{
    if count == 0 || count > members.len() {
        Map::empty()
    } else {
        members_view(members, (count - 1) as nat).insert(
            members[count - 1].name@,
            json_view(members[count - 1].value),
        )
    }
}

impl View for Json {
    type V = JsonView;

    open spec fn view(&self) -> JsonView {
        json_view(*self)
    }
}

impl JsonView {
    /// The value holds no number outside the whole numbers from 0 to 2^64 - 1.
    pub open spec fn writable(self) -> bool
        decreases self,
    {
        match self {
            JsonView::Numeral(_) => false,
            JsonView::Array(items) => forall|i: int|
                0 <= i < items.len() ==> (#[trigger] items[i]).writable(),
            JsonView::Object(members) => forall|name: Seq<char>|
                members.contains_key(name) ==> (#[trigger] members[name]).writable(),
            _ => true,
        }
    }
}

/// `serde_json::Value`, the tree of values that `serde_json` reads and writes.
#[verifier::external_type_specification]
#[verifier::external_body]
pub struct ExValue(serde_json::Value);

/// What a `serde_json::Value` holds: null, a boolean, a number, a string, a
/// list of values, or a map from names to values.
pub uninterp spec fn json_of(value: serde_json::Value) -> JsonView;

/// The text that `serde_json::to_string` writes for a value. It writes the
/// members of an object in the order of their names, which is how
/// `serde_json::Map` keeps them unless it is built to preserve their order.
pub uninterp spec fn json_text(json: JsonView) -> Seq<char>;

/// The value that `serde_json::from_slice` reads from bytes; `None` where it
/// refuses them.
pub uninterp spec fn json_parse(bytes: Seq<u8>) -> Option<JsonView>;

/// Builds the `serde_json::Value` with the same content, variant by variant.
/// The members of an object are put into a `serde_json::Map` with
/// `Map::insert`, in their order, so that the last of equal names counts.
///
/// Trusted: the value built holds what `json` holds. A `Numeral` has no
/// counterpart that can be built from its text alone, so it is left out by
/// the precondition.
#[verifier::external_body]
fn to_value(json: &Json) -> (r: serde_json::Value)
    requires
        json@.writable(),
    ensures
        json_of(r) == json@,
{
    match json {
        Json::Null | Json::Numeral(_) => serde_json::Value::Null,
        Json::Bool(b) => serde_json::Value::Bool(*b),
        Json::Number(n) => serde_json::Value::Number(serde_json::Number::from(*n)),
        Json::Text(text) => serde_json::Value::String(text.clone()),
        Json::Array(items) => serde_json::Value::Array(items.iter().map(to_value).collect()),
        Json::Object(members) => {
            let mut map = serde_json::Map::new();
            for member in members {
                map.insert(member.name.clone(), to_value(&member.value));
            }
            serde_json::Value::Object(map)
        },
    }
}

/// Takes a `serde_json::Value` apart, variant by variant. A number that
/// `Number::as_u64` gives as a `u64` becomes a `Number`; any other becomes a
/// `Numeral` with the text that the number's `Display` writes. The members
/// of an object come in the order in which `serde_json::Map` hands them out,
/// each name once.
///
/// Trusted: the result holds what the value holds.
#[verifier::external_body]
fn from_value(value: serde_json::Value) -> (r: Json)
    ensures
        r@ == json_of(value),
{
    match value {
        serde_json::Value::Null => Json::Null,
        serde_json::Value::Bool(b) => Json::Bool(b),
        serde_json::Value::Number(n) => match n.as_u64() {
            Some(whole) => Json::Number(whole),
            None => Json::Numeral(n.to_string()),
        },
        serde_json::Value::String(text) => Json::Text(text),
        serde_json::Value::Array(items) => Json::Array(items.into_iter().map(from_value).collect()),
        serde_json::Value::Object(map) => Json::Object(
            map.into_iter().map(|(name, v)| Member { name, value: from_value(v) }).collect(),
        ),
    }
}

/// Calls `serde_json::to_string` on a `serde_json::Value`; an error comes
/// back as the message that its `Display` writes.
///
/// Trusted: the call succeeds, since a `Value` has only strings as the names
/// of its members and only finite numbers, and its text depends on what the
/// value holds alone; the contract names the text [`json_text`].
#[verifier::external_body]
fn render(value: &serde_json::Value) -> (r: Result<String, String>)
    ensures
        match r {
            Ok(text) => text@ == json_text(json_of(*value)),
            Err(_) => false,
        },
{
    serde_json::to_string(value).map_err(|e| e.to_string())
}

/// Calls `serde_json::from_slice` to read one `serde_json::Value` from
/// bytes; an error comes back as the message that its `Display` writes.
///
/// Trusted: whether the bytes are accepted, and the value read, depend on
/// the bytes alone; the contract names the outcome [`json_parse`].
#[verifier::external_body]
fn parse(bytes: &[u8]) -> (r: Result<serde_json::Value, String>)
    ensures
        match r {
            Ok(value) => json_parse(bytes@) == Some(json_of(value)),
            Err(_) => json_parse(bytes@) is None,
        },
{
    serde_json::from_slice::<serde_json::Value>(bytes).map_err(|e| e.to_string())
}

/// Writes a JSON value as text.
pub fn encode(json: &Json) -> (r: String)
    requires
        json@.writable(),
    ensures
        r@ == json_text(json@),
{
    let value = to_value(json);
    match render(&value) {
        Ok(text) => text,
        Err(_) => vstd::pervasive::unreached(),
    }
}

/// Reads a JSON value from bytes.
pub fn decode(bytes: &[u8]) -> (r: Result<Json, Error>)
    ensures
        match r {
            Ok(json) => json_parse(bytes@) == Some(json@),
            Err(e) => json_parse(bytes@) is None && e is Json,
        },
{
    match parse(bytes) {
        Ok(value) => Ok(from_value(value)),
        Err(message) => Err(Error::Json(message)),
    }
}

/// The value of the member `name` of an object, if the object has one.
pub fn member<'a>(members: &'a Vec<Member>, name: &str) -> (r: Option<&'a Json>)
    ensures
        match r {
            Some(value) => {
                &&& members_view(members@, members@.len()).contains_key(name@)
                &&& value@ == members_view(members@, members@.len())[name@]
                &&& exists|i: int| 0 <= i < members.len() && #[trigger] members[i].value == *value
            },
            None => !members_view(members@, members@.len()).contains_key(name@),
        },
{
    let wanted = name.to_owned();
    let mut i: usize = members.len();
    while i > 0
        invariant
            i <= members.len(),
            wanted@ == name@,
            members_view(members@, members@.len()).contains_key(name@) == members_view(
                members@,
                i as nat,
            ).contains_key(name@),
            members_view(members@, members@.len()).contains_key(name@) ==> members_view(
                members@,
                members@.len(),
            )[name@] == members_view(members@, i as nat)[name@],
        decreases i,
    {
        i -= 1;
        if members[i].name == wanted {
            return Some(&members[i].value);
        }
    }
    None
}

/// The content of a list of values has one entry for each value that counts.
pub proof fn lemma_items_view_len(items: Seq<Json>, count: nat)
    requires
        count <= items.len(),
    ensures
        items_view(items, count).len() == count,
    decreases count,
{
    if count > 0 {
        lemma_items_view_len(items, (count - 1) as nat);
    }
}

/// The content of a list of values holds the content of each value, in order.
pub proof fn lemma_items_view_index(items: Seq<Json>, count: nat, i: int)
    requires
        0 <= i < count <= items.len(),
    ensures
        items_view(items, count)[i] == json_view(items[i]),
    decreases count,
{
    lemma_items_view_len(items, (count - 1) as nat);
    if i < count - 1 {
        lemma_items_view_index(items, (count - 1) as nat, i);
    }
}

/// The content of the first values of a list does not depend on what is
/// added at its end.
pub proof fn lemma_items_view_prefix(items: Seq<Json>, last: Json, count: nat)
    requires
        count <= items.len(),
    ensures
        items_view(items.push(last), count) == items_view(items, count),
    decreases count,
{
    if count > 0 {
        lemma_items_view_prefix(items, last, (count - 1) as nat);
        assert(items.push(last)[count - 1] == items[count - 1]);
    }
}

/// The content of a list of values, with one more value added at its end.
pub proof fn lemma_items_view_push(items: Seq<Json>, last: Json)
    ensures
        items_view(items.push(last), items.len() + 1) == items_view(items, items.len()).push(
            json_view(last),
        ),
{
    lemma_items_view_prefix(items, last, items.len());
    assert(items.push(last)[items.len() as int] == last);
}

} // verus!
