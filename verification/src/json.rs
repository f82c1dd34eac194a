//! JSON documents: what they say, and their text.
use crate::text::{optional_text, text_outcome, texts};
use vstd::prelude::*;

verus! {

/// What a JSON document says.
pub enum JsonModel {
    Null,
    /// A number or a truth value, by its text. This library neither writes nor reads any.
    Other(Seq<char>),
    Text(Seq<char>),
    List(Seq<JsonModel>),
    Object(Map<Seq<char>, JsonModel>),
}

/// `serde_json::Value`, a JSON document in memory.
#[verifier::external_type_specification]
#[verifier::external_body]
pub struct ExValue(serde_json::Value);

/// What a JSON document in memory says.
pub uninterp spec fn document(value: serde_json::Value) -> JsonModel;

/// What each of several documents says.
pub open spec fn documents(values: Seq<serde_json::Value>) -> Seq<JsonModel> {
    values.map_values(|value: serde_json::Value| document(value))
}

/// The object with the given fields. Of two fields with one name the later counts.
pub open spec fn object(fields: Seq<(Seq<char>, JsonModel)>) -> Map<Seq<char>, JsonModel>
    decreases fields.len(),
{
    if fields.len() == 0 {
        Map::empty()
    } else {
        object(fields.drop_last()).insert(fields.last().0, fields.last().1)
    }
}

/// The names of some fields, each with what its document says.
pub open spec fn field_documents(fields: Seq<(String, serde_json::Value)>) -> Seq<
    (Seq<char>, JsonModel),
> {
    fields.map_values(|field: (String, serde_json::Value)| (field.0@, document(field.1)))
}

/// The text that `serde_json` writes for a document.
pub uninterp spec fn json_text(content: JsonModel) -> Seq<char>;

/// `serde_json::Value::Null` is the null document.
#[verifier::external_body]
pub(crate) fn null_value() -> (value: serde_json::Value)
    ensures
        document(value) == JsonModel::Null,
{
    serde_json::Value::Null
}

/// `serde_json::Value::String` is the document that is one text.
#[verifier::external_body]
pub(crate) fn text_value(text: &str) -> (value: serde_json::Value)
    ensures
        document(value) == JsonModel::Text(text@),
{
    serde_json::Value::String(text.to_owned())
}

/// `serde_json::Value::Array` is the document that lists its items in their order.
#[verifier::external_body]
pub(crate) fn list_value(items: Vec<serde_json::Value>) -> (value: serde_json::Value)
    ensures
        document(value) == JsonModel::List(documents(items@)),
{
    serde_json::Value::Array(items)
}

/// `serde_json::Value::Object` of the `serde_json::Map` collected from `fields`: each
/// name stands for its document, and a later field replaces an earlier one of the
/// same name.
#[verifier::external_body]
pub(crate) fn object_value(fields: Vec<(String, serde_json::Value)>) -> (value: serde_json::Value)
    ensures
        document(value) == JsonModel::Object(object(field_documents(fields@))),
{
    serde_json::Value::Object(fields.into_iter().collect())
}

/// The `Display` of `serde_json::Value` writes a document as text. What the document
/// says decides the text.
#[verifier::external_body]
pub(crate) fn render(value: &serde_json::Value) -> (text: String)
    ensures
        text@ == json_text(document(*value)),
{
    value.to_string()
}

/// The document that `serde_json` reads from a text, if the text is one.
pub uninterp spec fn text_document(text: Seq<char>) -> Option<JsonModel>;

/// What a document says, if there is one.
pub open spec fn optional_document(value: Option<serde_json::Value>) -> Option<JsonModel> {
    match value {
        Some(value) => Some(document(value)),
        None => None,
    }
}

/// `serde_json::from_str` reads a JSON document of any kind. The text decides whether
/// there is one, and what it says.
#[verifier::external_body]
pub(crate) fn read_document(text: &str) -> (value: Option<serde_json::Value>)
    ensures
        optional_document(value) == text_document(text@),
{
    serde_json::from_str(text).ok()
}

/// The text under a name, if the document is an object that has one there.
pub open spec fn text_under(content: JsonModel, name: Seq<char>) -> Option<Seq<char>> {
    match content {
        JsonModel::Object(fields) => if fields.contains_key(name) {
            match fields[name] {
                JsonModel::Text(text) => Some(text),
                _ => None,
            }
        } else {
            None
        },
        _ => None,
    }
}

/// `serde_json::Value::get` finds what an object has under a name, and
/// `serde_json::Value::as_str` gives it if it is a text.
#[verifier::external_body]
pub(crate) fn text_field(value: &serde_json::Value, name: &str) -> (text: Option<String>)
    ensures
        optional_text(text) == text_under(document(*value), name@),
{
    value.get(name).and_then(|field| field.as_str()).map(|text| text.to_owned())
}

/// The list of texts as `serde_json` writes it, or why it cannot.
pub uninterp spec fn list_text(items: Seq<Seq<char>>) -> Result<Seq<char>, Seq<char>>;

/// The list of texts that `serde_json` reads from a text, or why it cannot.
pub uninterp spec fn text_list(text: Seq<char>) -> Result<Seq<Seq<char>>, Seq<char>>;

/// A list of texts or a message, by their characters.
pub open spec fn texts_outcome(outcome: Result<Vec<String>, String>) -> Result<
    Seq<Seq<char>>,
    Seq<char>,
> {
    match outcome {
        Ok(items) => Ok(texts(items@)),
        Err(message) => Err(message@),
    }
}

/// Whether a text reads as the given list.
pub open spec fn reads_as(text: Seq<char>, items: Seq<Seq<char>>) -> bool {
    text_list(text) matches Ok(list) && list == items
}

/// `serde_json::to_string` writes a list of texts as a JSON array of strings: nothing in
/// such a list can stop it. The texts decide what is written, and reading it gives them
/// back.
#[verifier::external_body]
pub(crate) fn write_list(items: &Vec<String>) -> (outcome: Result<String, String>)
    ensures
        outcome is Ok,
        text_outcome(outcome) == list_text(texts(items@)),
        outcome matches Ok(text) ==> reads_as(text@, texts(items@)),
{
    serde_json::to_string(items).map_err(|error| error.to_string())
}

/// `serde_json::from_str` reads a JSON array of strings. The text decides the outcome.
#[verifier::external_body]
pub(crate) fn read_list(text: &str) -> (outcome: Result<Vec<String>, String>)
    ensures
        texts_outcome(outcome) == text_list(text@),
{
    serde_json::from_str(text).map_err(|error| error.to_string())
}

} // verus!
