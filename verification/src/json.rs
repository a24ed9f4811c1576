//! JSON documents as plain values, and their text form read with `serde_json`.

use vstd::prelude::*;

use crate::text::same_text;

verus! {

/// A JSON value. A number keeps its text.
#[derive(Debug)]
pub enum Json {
    Null,
    Bool(bool),
    Number(String),
    Text(String),
    Array(Vec<Json>),
    Object(Vec<Member>),
}

/// A named value of a JSON object.
#[derive(Debug)]
pub struct Member {
    pub name: String,
    pub value: Json,
}

/// What a JSON value holds.
pub enum JsonShape {
    Null,
    Bool(bool),
    Number(Seq<char>),
    Text(Seq<char>),
    Array(Seq<JsonShape>),
    Object(Seq<(Seq<char>, JsonShape)>),
}

impl View for Json {
    type V = JsonShape;

    open spec fn view(&self) -> JsonShape {
        shape_of(*self)
    }
}

/// What a JSON value holds.
pub open spec fn shape_of(json: Json) -> JsonShape
    decreases json,
{
    match json {
        Json::Null => JsonShape::Null,
        Json::Bool(b) => JsonShape::Bool(b),
        Json::Number(n) => JsonShape::Number(n@),
        Json::Text(t) => JsonShape::Text(t@),
        Json::Array(items) => JsonShape::Array(
            Seq::new(
                items@.len(),
                |i: int|
                    if 0 <= i < items@.len() {
                        shape_of(items@[i])
                    } else {
                        JsonShape::Null
                    },
            ),
        ),
        Json::Object(members) => JsonShape::Object(
            Seq::new(
                members@.len(),
                |i: int|
                    if 0 <= i < members@.len() {
                        (members@[i].name@, shape_of(members@[i].value))
                    } else {
                        (Seq::empty(), JsonShape::Null)
                    },
            ),
        ),
    }
}

/// The place of the first member of that name, from `from` on.
pub open spec fn member_from(members: Seq<(Seq<char>, JsonShape)>, name: Seq<char>, from: int) -> Option<
    int,
>
    decreases members.len() - from,
{
    if from >= members.len() {
        None
    } else if members[from].0 == name {
        Some(from)
    } else {
        member_from(members, name, from + 1)
    }
}

/// The value that an object holds under a name; none for anything else.
pub open spec fn member(shape: JsonShape, name: Seq<char>) -> Option<JsonShape> {
    match shape {
        JsonShape::Object(members) => match member_from(members, name, 0) {
            Some(i) => Some(members[i].1),
            None => None,
        },
        _ => None,
    }
}

/// The text that an object holds under a name.
pub open spec fn member_text(shape: JsonShape, name: Seq<char>) -> Option<Seq<char>> {
    match member(shape, name) {
        Some(JsonShape::Text(t)) => Some(t),
        _ => None,
    }
}

/// The items of the array that an object holds under a name.
pub open spec fn member_items(shape: JsonShape, name: Seq<char>) -> Option<Seq<JsonShape>> {
    match member(shape, name) {
        Some(JsonShape::Array(items)) => Some(items),
        _ => None,
    }
}

impl Json {
    /// The value that this object holds under `name`.
    pub fn get(&self, name: &str) -> (r: Option<&Json>)
        ensures
            match r {
                Some(value) => member(self@, name@) == Some(value@),
                None => member(self@, name@) is None,
            },
    {
        match self {
            Json::Object(members) => {
                let ghost shapes = self@->Object_0;
                assert(shapes.len() == members@.len());
                let mut i: usize = 0;
                while i < members.len()
                    invariant
                        i <= members@.len(),
                        shapes.len() == members@.len(),
                        self@ == JsonShape::Object(shapes),
                        self == Json::Object(*members),
                        member_from(shapes, name@, 0) == member_from(shapes, name@, i as int),
                    decreases members@.len() - i,
                {
                    assert(shapes[i as int] == (
                        members@[i as int].name@,
                        members@[i as int].value@,
                    ));
                    if same_text(&members[i].name, name) {
                        return Some(&members[i].value);
                    }
                    i += 1;
                }
                None
            },
            _ => None,
        }
    }

    /// The text that this object holds under `name`.
    pub fn get_text(&self, name: &str) -> (r: Option<&str>)
        ensures
            match r {
                Some(text) => member_text(self@, name@) == Some(text@),
                None => member_text(self@, name@) is None,
            },
    {
        match self.get(name) {
            Some(Json::Text(t)) => Some(t.as_str()),
            _ => None,
        }
    }
}

/// A parsed JSON document of `serde_json`.
#[verifier::external_type_specification]
#[verifier::external_body]
pub struct ExJsonValue(serde_json::Value);

/// What a parsed document holds.
pub uninterp spec fn value_shape(value: serde_json::Value) -> JsonShape;

/// What `serde_json` reads from a text: the document, or the message of the
/// error.
pub uninterp spec fn json_of(text: Seq<char>) -> Result<JsonShape, Seq<char>>;

/// `serde_json::from_str` into a `serde_json::Value`: the document that the
/// text stands for, or the message of the error, named [`json_of`].
#[verifier::external_body]
fn read_value(text: &str) -> (r: Result<serde_json::Value, String>)
    ensures
        match r {
            Ok(value) => json_of(text@) == Ok::<JsonShape, Seq<char>>(value_shape(value)),
            Err(message) => json_of(text@) == Err::<JsonShape, Seq<char>>(message@),
        },
{
    serde_json::from_str(text).map_err(|error: serde_json::Error| error.to_string())
}

/// Takes a `serde_json::Value` apart by its variants, item by item; a number
/// becomes the text that `serde_json::Number` prints. The result is named
/// [`value_shape`].
#[verifier::external_body]
fn plain(value: serde_json::Value) -> (r: Json)
    ensures
        r@ == value_shape(value),
{
    match value {
        serde_json::Value::Null => Json::Null,
        serde_json::Value::Bool(b) => Json::Bool(b),
        serde_json::Value::Number(n) => Json::Number(n.to_string()),
        serde_json::Value::String(s) => Json::Text(s),
        serde_json::Value::Array(items) => Json::Array(items.into_iter().map(plain).collect()),
        serde_json::Value::Object(members) => Json::Object(
            members.into_iter().map(|(name, v)| Member { name, value: plain(v) }).collect(),
        ),
    }
}

/// Reads a JSON document.
pub fn parse_json(text: &str) -> (r: Result<Json, String>)
    ensures
        match r {
            Ok(json) => json_of(text@) == Ok::<JsonShape, Seq<char>>(json@),
            Err(message) => json_of(text@) == Err::<JsonShape, Seq<char>>(message@),
        },
{
    match read_value(text) {
        Ok(value) => Ok(plain(value)),
        Err(message) => Err(message),
    }
}

} // verus!
