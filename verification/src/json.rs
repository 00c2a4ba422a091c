//! A reduced JSON document model.
//!
//! Package manifests are parsed by serde_json behind one trusted boundary;
//! the parsed tree is carried into the library as [`JsonValue`], which keeps
//! exactly what export resolution reads: strings, arrays, and objects with
//! their fields in serde_json's iteration order.  Every other JSON value is
//! opaque.

use vstd::prelude::*;

verus! {

/// A parsed JSON document, reduced to what package resolution reads.
pub enum JsonValue {
    Str(String),
    Arr(Vec<JsonValue>),
    Obj(Vec<(String, JsonValue)>),
    Other,
}

/// The mathematical shape of a reduced JSON document.
pub enum JsonModel {
    Str(Seq<char>),
    Arr(Seq<JsonModel>),
    Obj(Seq<(Seq<char>, JsonModel)>),
    Other,
}

/// The model of one reduced document.
pub open spec fn json_model(v: JsonValue) -> JsonModel
    decreases v,
{
    match v {
        JsonValue::Str(s) => JsonModel::Str(s@),
        JsonValue::Arr(items) => {
            proof {
                assert(decreases_to!(v => items));
                assert(decreases_to!(items => items@));
            }
            JsonModel::Arr(json_models(items@))
        },
        JsonValue::Obj(fields) => {
            proof {
                assert(decreases_to!(v => fields));
                assert(decreases_to!(fields => fields@));
            }
            JsonModel::Obj(json_field_models(fields@))
        },
        JsonValue::Other => JsonModel::Other,
    }
}

/// The models of a sequence of documents.
pub open spec fn json_models(items: Seq<JsonValue>) -> Seq<JsonModel>
    decreases items,
{
    if items.len() == 0 {
        Seq::empty()
    } else {
        json_models(items.drop_last()).push(json_model(items.last()))
    }
}

/// The models of a sequence of object fields.
pub open spec fn json_field_models(fields: Seq<(String, JsonValue)>) -> Seq<
    (Seq<char>, JsonModel),
>
    decreases fields,
{
    if fields.len() == 0 {
        Seq::empty()
    } else {
        proof {
            assert(decreases_to!(fields => fields.last()));
            assert(decreases_to!(fields.last() => fields.last().1));
        }
        json_field_models(fields.drop_last()).push(
            (fields.last().0@, json_model(fields.last().1)),
        )
    }
}

impl View for JsonValue {
    type V = JsonModel;

    open spec fn view(&self) -> JsonModel {
        json_model(*self)
    }
}

/// The length and the elements of a modelled document sequence.
pub proof fn lemma_json_models_index(items: Seq<JsonValue>)
    ensures
        json_models(items).len() == items.len(),
        forall|i: int| 0 <= i < items.len() ==> json_models(items)[i] == json_model(items[i]),
    decreases items.len(),
{
    if items.len() > 0 {
        lemma_json_models_index(items.drop_last());
    }
}

/// The length and the elements of a modelled field sequence.
pub proof fn lemma_json_field_models_index(fields: Seq<(String, JsonValue)>)
    ensures
        json_field_models(fields).len() == fields.len(),
        forall|i: int|
            0 <= i < fields.len() ==> json_field_models(fields)[i] == (
                fields[i].0@,
                json_model(fields[i].1),
            ),
    decreases fields.len(),
{
    if fields.len() > 0 {
        lemma_json_field_models_index(fields.drop_last());
    }
}

/// The tree type serde_json parses into, declared so that the conversion
/// below can name it; the library never looks inside a value of it.
#[verifier::external_type_specification]
#[verifier::external_body]
pub struct ExValue(serde_json::Value);

/// What serde_json parses a given text to, reduced to this model; nothing
/// when the text is not valid JSON.
pub uninterp spec fn json_of_text(s: Seq<char>) -> Option<JsonModel>;

/// Relies on serde_json::from_str: whether a text parses, and to what
/// document, depends on the text alone.
#[verifier::external_body]
pub(crate) fn parse_json(text: &str) -> (r: Option<JsonValue>)
    ensures
        match r {
            Some(v) => json_of_text(text@) == Some(v@),
            None => json_of_text(text@) is None,
        },
{
    match serde_json::from_str::<serde_json::Value>(text) {
        Ok(v) => Some(json_from_value(v)),
        Err(_) => None,
    }
}

/// Relies on serde_json::Value: each variant of the parsed tree moves into
/// the reduced model, object fields in serde_json's iteration order.
#[verifier::external_body]
fn json_from_value(v: serde_json::Value) -> JsonValue {
    match v {
        serde_json::Value::String(s) => JsonValue::Str(s),
        serde_json::Value::Array(items) => JsonValue::Arr(
            items.into_iter().map(json_from_value).collect(),
        ),
        serde_json::Value::Object(fields) => JsonValue::Obj(
            fields.into_iter().map(|(key, value)| (key, json_from_value(value))).collect(),
        ),
        _ => JsonValue::Other,
    }
}

} // verus!
