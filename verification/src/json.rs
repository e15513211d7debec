//! JSON documents as plain values. Text is read and written by `serde_json`.
use vstd::prelude::*;
use vstd::string::*;

use crate::text::str_eq;

verus! {

/// A JSON value.
#[derive(Debug, PartialEq, Eq)]
pub enum Json {
    Null,
    Bool(bool),
    /// A number: its text, and its value where it is an unsigned 64-bit integer.
    Number { text: String, unsigned: Option<u64> },
    Text(String),
    Array(Vec<Json>),
    Object(Vec<(String, Json)>),
}

/// The mathematical value of a [`Json`].
pub enum JsonView {
    Null,
    Bool(bool),
    Number { text: Seq<char>, unsigned: Option<u64> },
    Text(Seq<char>),
    Array(Seq<JsonView>),
    Object(Seq<(Seq<char>, JsonView)>),
}

impl Json {
    pub open spec fn view(&self) -> JsonView
        decreases self,
    {
        match *self {
            Json::Null => JsonView::Null,
            Json::Bool(b) => JsonView::Bool(b),
            Json::Number { text, unsigned } => JsonView::Number { text: text@, unsigned },
            Json::Text(s) => JsonView::Text(s@),
            Json::Array(items) => JsonView::Array(
                Seq::new(
                    items@.len(),
                    |i: int|
                        if 0 <= i < items@.len() {
                            items@[i].view()
                        } else {
                            arbitrary()
                        },
                ),
            ),
            Json::Object(fields) => JsonView::Object(
                Seq::new(
                    fields@.len(),
                    |i: int|
                        if 0 <= i < fields@.len() {
                            (fields@[i].0@, fields@[i].1.view())
                        } else {
                            arbitrary()
                        },
                ),
            ),
        }
    }
}

/// The mathematical value of an object.
pub proof fn lemma_object(fields: Vec<(String, Json)>)
    ensures
        Json::Object(fields)@ == JsonView::Object(fields_view(fields@)),
{
    assert(Json::Object(fields)@->Object_0 =~= fields_view(fields@));
}

/// The mathematical value of an array.
pub proof fn lemma_array(items: Vec<Json>)
    ensures
        Json::Array(items)@ == JsonView::Array(items_view(items@)),
{
    assert(Json::Array(items)@->Array_0 =~= items_view(items@));
}

/// The mathematical values of a list of items.
pub open spec fn items_view(items: Seq<Json>) -> Seq<JsonView> {
    Seq::new(items.len(), |i: int| items[i]@)
}

/// The mathematical values of a list of fields.
pub open spec fn fields_view(fields: Seq<(String, Json)>) -> Seq<(Seq<char>, JsonView)> {
    Seq::new(fields.len(), |i: int| (fields[i].0@, fields[i].1@))
}

// ---------------------------------------------------------------------------
// Reading and writing.
// ---------------------------------------------------------------------------

/// A value of `serde_json`.
#[verifier::external_type_specification]
#[verifier::external_body]
pub struct ExValue(serde_json::Value);

/// Converts a `serde_json::Value`, variant by variant. Nothing is stated of the result here; see
/// [`read`].
#[verifier::external_body]
fn from_value(v: serde_json::Value) -> Json {
    match v {
        serde_json::Value::Null => Json::Null,
        serde_json::Value::Bool(b) => Json::Bool(b),
        serde_json::Value::Number(n) => Json::Number { text: n.to_string(), unsigned: n.as_u64() },
        serde_json::Value::String(s) => Json::Text(s),
        serde_json::Value::Array(a) => Json::Array(a.into_iter().map(from_value).collect()),
        serde_json::Value::Object(m) =>
            Json::Object(m.into_iter().map(|(k, v)| (k, from_value(v))).collect()),
    }
}

/// Converts to a `serde_json::Value`, variant by variant; the text of a number is read by
/// `serde_json::from_str`. Nothing is stated of the result here; see [`pretty`] and [`compact`].
#[verifier::external_body]
fn to_value(j: &Json) -> serde_json::Value {
    match j {
        Json::Null => serde_json::Value::Null,
        Json::Bool(b) => serde_json::Value::Bool(*b),
        Json::Number { text, .. } => serde_json::from_str(text).unwrap_or_default(),
        Json::Text(s) => serde_json::Value::String(s.clone()),
        Json::Array(a) => serde_json::Value::Array(a.iter().map(to_value).collect()),
        Json::Object(m) =>
            serde_json::Value::Object(m.iter().map(|(k, v)| (k.clone(), to_value(v))).collect()),
    }
}

/// What a text says as JSON, or why it is not JSON.
pub uninterp spec fn json_read(text: Seq<char>) -> Result<JsonView, Seq<char>>;

/// What a text says as JSON; none where it is not JSON.
pub open spec fn json_of(text: Seq<char>) -> Option<JsonView> {
    match json_read(text) {
        Ok(j) => Some(j),
        Err(_) => None,
    }
}

/// Reads a JSON text with `serde_json::from_str`. Trusted: the value, or the error in words, is a
/// function of the text; what it is on a given text is not stated.
#[verifier::external_body]
pub(crate) fn read(text: &str) -> (r: Result<Json, String>)
    ensures
        match r {
            Ok(j) => json_read(text@) == Ok::<JsonView, Seq<char>>(j@),
            Err(e) => json_read(text@) == Err::<JsonView, Seq<char>>(e@),
        },
{
    serde_json::from_str::<serde_json::Value>(text).map(from_value).map_err(|e| e.to_string())
}

/// Reads a JSON text; none where it is not JSON.
pub fn parse(text: &str) -> (r: Option<Json>)
    ensures
        match r {
            Some(j) => json_of(text@) == Some(j@),
            None => json_of(text@) is None,
        },
{
    match read(text) {
        Ok(j) => Some(j),
        Err(_) => None,
    }
}

/// The indented text of a JSON value.
pub uninterp spec fn pretty_text(j: JsonView) -> Seq<char>;

/// Writes a JSON value with `serde_json::to_string_pretty`. Trusted: the text is a function of the
/// value; what it is on a given value is not stated.
#[verifier::external_body]
pub(crate) fn pretty(j: &Json) -> (s: String)
    ensures
        s@ == pretty_text(j@),
{
    serde_json::to_string_pretty(&to_value(j)).unwrap_or_default()
}

/// The one-line text of a JSON value.
pub uninterp spec fn compact_text(j: JsonView) -> Seq<char>;

/// Writes a JSON value on one line: `<serde_json::Value as Display>::fmt`. Trusted: the text is a
/// function of the value; what it is on a given value is not stated.
#[verifier::external_body]
pub(crate) fn compact(j: &Json) -> (s: String)
    ensures
        s@ == compact_text(j@),
{
    to_value(j).to_string()
}

// ---------------------------------------------------------------------------
// Looking into values.
// ---------------------------------------------------------------------------

/// Index of the field with a name, at or after `from`.
pub open spec fn field_index(fields: Seq<(Seq<char>, JsonView)>, name: Seq<char>, from: int) -> Option<
    int,
>
    decreases fields.len() - from,
{
    if from < 0 || from >= fields.len() {
        None
    } else if fields[from].0 == name {
        Some(from)
    } else {
        field_index(fields, name, from + 1)
    }
}

/// The field of an object.
pub open spec fn field(j: JsonView, name: Seq<char>) -> Option<JsonView> {
    match j {
        JsonView::Object(fields) => match field_index(fields, name, 0) {
            Some(i) => Some(fields[i].1),
            None => None,
        },
        _ => None,
    }
}

/// The fields with one set to a value: in its place, or behind the others.
pub open spec fn with_field(
    fields: Seq<(Seq<char>, JsonView)>,
    name: Seq<char>,
    value: JsonView,
) -> Seq<(Seq<char>, JsonView)> {
    match field_index(fields, name, 0) {
        Some(i) => fields.update(i, (name, value)),
        None => fields.push((name, value)),
    }
}

/// The truth value of a value that is one.
pub open spec fn truth(j: Option<JsonView>) -> Option<bool> {
    match j {
        Some(JsonView::Bool(b)) => Some(b),
        _ => None,
    }
}

/// The number of a value that is an unsigned 64-bit integer.
pub open spec fn unsigned_number(j: Option<JsonView>) -> Option<u64> {
    match j {
        Some(JsonView::Number { text, unsigned }) => unsigned,
        _ => None,
    }
}

/// The text of a value that is one.
pub open spec fn text_value(j: Option<JsonView>) -> Option<Seq<char>> {
    match j {
        Some(JsonView::Text(s)) => Some(s),
        _ => None,
    }
}

/// Index of the field with a name.
pub fn find_field(fields: &Vec<(String, Json)>, name: &str) -> (r: Option<usize>)
    ensures
        match r {
            Some(i) => field_index(fields_view(fields@), name@, 0) == Some(i as int) && i
                < fields@.len(),
            None => field_index(fields_view(fields@), name@, 0) is None,
        },
{
    let ghost v = fields_view(fields@);
    let mut i: usize = 0;
    while i < fields.len()
        invariant
            i <= fields@.len(),
            v == fields_view(fields@),
            field_index(v, name@, 0) == field_index(v, name@, i as int),
        decreases fields@.len() - i,
    {
        if str_eq(fields[i].0.as_str(), name) {
            return Some(i);
        }
        i = i + 1;
    }
    None
}

/// Sets a field.
pub fn set_field(fields: &mut Vec<(String, Json)>, name: &str, value: Json)
    ensures
        fields_view(final(fields)@) == with_field(fields_view(old(fields)@), name@, value@),
{
    match find_field(fields, name) {
        Some(i) => {
            fields.set(i, (String::from_str(name), value));
            assert(fields_view(fields@) =~= fields_view(old(fields)@).update(
                i as int,
                (name@, value@),
            ));
        },
        None => {
            fields.push((String::from_str(name), value));
            assert(fields_view(fields@) =~= fields_view(old(fields)@).push((name@, value@)));
        },
    }
}

impl Json {
    /// The field of an object.
    pub fn get(&self, name: &str) -> (r: Option<&Json>)
        ensures
            match r {
                Some(j) => field(self@, name@) == Some(j@),
                None => field(self@, name@) is None,
            },
    {
        match self {
            Json::Object(fields) => {
                assert(fields_view(fields@) =~= self@->Object_0);
                match find_field(fields, name) {
                    Some(i) => Some(&fields[i].1),
                    None => None,
                }
            },
            _ => None,
        }
    }

    /// The truth value in a field.
    pub fn get_bool(&self, name: &str) -> (r: Option<bool>)
        ensures
            r == truth(field(self@, name@)),
    {
        match self.get(name) {
            Some(Json::Bool(b)) => Some(*b),
            _ => None,
        }
    }

    /// The unsigned number in a field.
    pub fn get_u64(&self, name: &str) -> (r: Option<u64>)
        ensures
            r == unsigned_number(field(self@, name@)),
    {
        match self.get(name) {
            Some(Json::Number { unsigned, .. }) => *unsigned,
            _ => None,
        }
    }

    /// The text in a field.
    pub fn get_str(&self, name: &str) -> (r: Option<String>)
        ensures
            crate::text::opt_text(r) == text_value(field(self@, name@)),
    {
        match self.get(name) {
            Some(Json::Text(s)) => Some(s.clone()),
            _ => None,
        }
    }
}

} // verus!
