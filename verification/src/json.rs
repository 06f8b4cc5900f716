//! JSON values: the tree that a reply is read through.

use vstd::prelude::*;

verus! {

/// A JSON value.
#[derive(Debug)]
pub enum Json {
    Null,
    Flag(bool),
    Number(Number),
    Text(String),
    List(Vec<Json>),
    /// The fields of an object. Every name stands once.
    Record(Vec<Field>),
}

/// A JSON number: its text, and its value when it is a whole number that
/// fits.
#[derive(Debug)]
pub struct Number {
    pub text: String,
    pub whole: Option<u64>,
}

/// One field of an object.
#[derive(Debug)]
pub struct Field {
    pub name: String,
    pub value: Json,
}

/// A JSON value as a mathematical one.
pub enum JsonModel {
    Null,
    Flag(bool),
    Number(Seq<char>, Option<u64>),
    Text(Seq<char>),
    List(Seq<JsonModel>),
    Record(Seq<(Seq<char>, JsonModel)>),
}

/// What a value says.
pub open spec fn model_of(value: Json) -> JsonModel
    decreases value,
{
    match value {
        Json::Null => JsonModel::Null,
        Json::Flag(flag) => JsonModel::Flag(flag),
        Json::Number(number) => JsonModel::Number(number.text@, number.whole),
        Json::Text(text) => JsonModel::Text(text@),
        Json::List(items) => JsonModel::List(models_of(items@)),
        Json::Record(fields) => JsonModel::Record(fields_of(fields@)),
    }
}

/// What the values of a list say.
pub open spec fn models_of(items: Seq<Json>) -> Seq<JsonModel>
    decreases items,
{
    if items.len() == 0 {
        Seq::empty()
    } else {
        models_of(items.drop_last()).push(model_of(items.last()))
    }
}

/// What the fields of an object say.
pub open spec fn fields_of(fields: Seq<Field>) -> Seq<(Seq<char>, JsonModel)>
    decreases fields,
{
    if fields.len() == 0 {
        Seq::empty()
    } else {
        fields_of(fields.drop_last()).push((fields.last().name@, model_of(fields.last().value)))
    }
}

/// A list says what its values say, one by one.
pub proof fn lemma_models(items: Seq<Json>)
    ensures
        models_of(items).len() == items.len(),
        forall|i: int| 0 <= i < items.len() ==> #[trigger] models_of(items)[i] == model_of(items[i]),
    decreases items.len(),
{
    if items.len() > 0 {
        lemma_models(items.drop_last());
        assert forall|i: int| 0 <= i < items.len() implies #[trigger] models_of(items)[i]
            == model_of(items[i]) by {
            if i < items.len() - 1 {
                assert(items.drop_last()[i] == items[i]);
                assert(models_of(items.drop_last())[i] == model_of(items[i]));
            }
        }
    }
}

/// An object says what its fields say, one by one.
pub proof fn lemma_fields(fields: Seq<Field>)
    ensures
        fields_of(fields).len() == fields.len(),
        forall|i: int|
            0 <= i < fields.len() ==> #[trigger] fields_of(fields)[i] == (
                fields[i].name@,
                model_of(fields[i].value),
            ),
    decreases fields.len(),
{
    if fields.len() > 0 {
        lemma_fields(fields.drop_last());
        assert forall|i: int| 0 <= i < fields.len() implies #[trigger] fields_of(fields)[i] == (
            fields[i].name@,
            model_of(fields[i].value),
        ) by {
            if i < fields.len() - 1 {
                assert(fields.drop_last()[i] == fields[i]);
                assert(fields_of(fields.drop_last())[i] == (
                    fields[i].name@,
                    model_of(fields[i].value),
                ));
            }
        }
    }
}

// -- Reading ----------------------------------------------------------------

/// The first field called `name` from `i` on.
pub open spec fn field_from(fields: Seq<(Seq<char>, JsonModel)>, name: Seq<char>, i: int) -> Option<
    JsonModel,
>
    decreases fields.len() - i,
{
    if i < 0 || i >= fields.len() {
        None
    } else if fields[i].0 == name {
        Some(fields[i].1)
    } else {
        field_from(fields, name, i + 1)
    }
}

/// The field of an object called `name`.
pub open spec fn field_in(value: JsonModel, name: Seq<char>) -> Option<JsonModel> {
    match value {
        JsonModel::Record(fields) => field_from(fields, name, 0),
        _ => None,
    }
}

/// The items of a list.
pub open spec fn items_in(value: JsonModel) -> Option<Seq<JsonModel>> {
    match value {
        JsonModel::List(items) => Some(items),
        _ => None,
    }
}

/// The value of a whole number.
pub open spec fn whole_in(value: JsonModel) -> Option<u64> {
    match value {
        JsonModel::Number(_, whole) => whole,
        _ => None,
    }
}

impl Json {
    /// The field of an object called `name`.
    pub fn field(&self, name: &str) -> (r: Option<&Json>)
        ensures
            match r {
                Some(value) => field_in(model_of(*self), name@) == Some(model_of(*value)),
                None => field_in(model_of(*self), name@) is None,
            },
    {
        match self {
            Json::Record(fields) => {
                proof {
                    lemma_fields(fields@);
                }
                let ghost all = fields_of(fields@);
                let mut i: usize = 0;
                while i < fields.len()
                    invariant
                        i <= fields@.len(),
                        all == fields_of(fields@),
                        all.len() == fields@.len(),
                        forall|j: int|
                            0 <= j < fields@.len() ==> #[trigger] all[j] == (
                                fields@[j].name@,
                                model_of(fields@[j].value),
                            ),
                        field_from(all, name@, 0) == field_from(all, name@, i as int),
                        model_of(*self) == JsonModel::Record(all),
                    decreases fields@.len() - i,
                {
                    assert(all[i as int] == (
                        fields@[i as int].name@,
                        model_of(fields@[i as int].value),
                    ));
                    if *fields[i].name.as_str() == *name {
                        return Some(&fields[i].value);
                    }
                    i += 1;
                }
                None
            },
            _ => None,
        }
    }

    /// The items of a list.
    pub fn items(&self) -> (r: Option<&Vec<Json>>)
        ensures
            match r {
                Some(items) => items_in(model_of(*self)) == Some(models_of(items@)) && models_of(
                    items@,
                ).len() == items@.len() && forall|i: int|
                    0 <= i < items@.len() ==> #[trigger] models_of(items@)[i] == model_of(
                        items@[i],
                    ),
                None => items_in(model_of(*self)) is None,
            },
    {
        match self {
            Json::List(items) => {
                proof {
                    lemma_models(items@);
                }
                Some(items)
            },
            _ => None,
        }
    }

    /// The value of a whole number.
    pub fn whole(&self) -> (r: Option<u64>)
        ensures
            r == whole_in(model_of(*self)),
    {
        match self {
            Json::Number(number) => number.whole,
            _ => None,
        }
    }

    /// True for an object.
    pub fn is_record(&self) -> (r: bool)
        ensures
            r == (model_of(*self) is Record),
    {
        match self {
            Json::Record(_) => true,
            _ => false,
        }
    }
}

fn copy_list(items: &Vec<Json>) -> (r: Vec<Json>)
    ensures
        models_of(r@) == models_of(items@),
    decreases items,
{
    let mut r: Vec<Json> = Vec::new();
    let mut i: usize = 0;
    proof {
        lemma_models(items@);
    }
    while i < items.len()
        invariant
            i <= items@.len(),
            r@.len() == i,
            forall|j: int| 0 <= j < i ==> model_of(#[trigger] r@[j]) == model_of(items@[j]),
        decreases items@.len() - i,
    {
        proof {
            assert(decreases_to!(items => items@[i as int]));
        }
        r.push(items[i].copy());
        i += 1;
    }
    proof {
        lemma_models(r@);
        assert(models_of(r@) =~= models_of(items@));
    }
    r
}

fn copy_fields(fields: &Vec<Field>) -> (r: Vec<Field>)
    ensures
        fields_of(r@) == fields_of(fields@),
    decreases fields,
{
    let mut r: Vec<Field> = Vec::new();
    let mut i: usize = 0;
    proof {
        lemma_fields(fields@);
    }
    while i < fields.len()
        invariant
            i <= fields@.len(),
            r@.len() == i,
            forall|j: int|
                0 <= j < i ==> (#[trigger] r@[j]).name@ == fields@[j].name@ && model_of(r@[j].value)
                    == model_of(fields@[j].value),
        decreases fields@.len() - i,
    {
        proof {
            assert(decreases_to!(fields => fields@[i as int]));
            assert(decreases_to!(fields => fields@[i as int].value));
        }
        r.push(Field { name: fields[i].name.clone(), value: fields[i].value.copy() });
        i += 1;
    }
    proof {
        lemma_fields(r@);
        assert(fields_of(r@) =~= fields_of(fields@));
    }
    r
}

impl Json {
    /// A copy of the value.
    pub fn copy(&self) -> (r: Json)
        ensures
            model_of(r) == model_of(*self),
        decreases self,
    {
        match self {
            Json::Null => Json::Null,
            Json::Flag(flag) => Json::Flag(*flag),
            Json::Number(number) => Json::Number(
                Number { text: number.text.clone(), whole: number.whole },
            ),
            Json::Text(text) => Json::Text(text.clone()),
            Json::List(items) => Json::List(copy_list(items)),
            Json::Record(fields) => Json::Record(copy_fields(fields)),
        }
    }
}

// -- Parsing ----------------------------------------------------------------

/// A parsed JSON value of `serde_json`.
#[verifier::external_type_specification]
#[verifier::external_body]
pub struct ExValue(serde_json::Value);

/// What `serde_json::from_str` makes of a text: the value, or the message of
/// its error.
pub uninterp spec fn json_reading(text: Seq<char>) -> Result<JsonModel, Seq<char>>;

/// What a value of `serde_json` holds: its scalars, its items in order, and
/// its fields in the order of their map.
pub uninterp spec fn contents(value: serde_json::Value) -> JsonModel;

/// Calls `serde_json::from_str`. The value parsed, or the text of the error,
/// depends on `text` alone and is named by `json_reading`.
#[verifier::external_body]
fn parse_value(text: &str) -> (r: Result<serde_json::Value, String>)
    ensures
        match r {
            Ok(value) => json_reading(text@) == Ok::<JsonModel, Seq<char>>(contents(value)),
            Err(message) => json_reading(text@) == Err::<JsonModel, Seq<char>>(message@),
        },
{
    serde_json::from_str(text).map_err(|error| error.to_string())
}

/// Takes a value of `serde_json` apart, variant by variant: a number by
/// `Number::to_string` and `Number::as_u64`, an array item by item, an object
/// field by field. The result says what the value holds.
#[verifier::external_body]
fn tree_of(value: &serde_json::Value) -> (r: Json)
    ensures
        model_of(r) == contents(*value),
{
    match value {
        serde_json::Value::Null => Json::Null,
        serde_json::Value::Bool(flag) => Json::Flag(*flag),
        serde_json::Value::Number(n) => {
            Json::Number(Number { text: n.to_string(), whole: n.as_u64() })
        },
        serde_json::Value::String(text) => Json::Text(text.clone()),
        serde_json::Value::Array(items) => Json::List(items.iter().map(tree_of).collect()),
        serde_json::Value::Object(map) => {
            Json::Record(
                map.iter().map(|(name, v)| Field { name: name.clone(), value: tree_of(v) }).collect(),
            )
        },
    }
}

/// Reads `text` as one JSON value. The error is the parser's message.
pub fn parse_json(text: &str) -> (r: Result<Json, String>)
    ensures
        match r {
            Ok(value) => json_reading(text@) == Ok::<JsonModel, Seq<char>>(model_of(value)),
            Err(message) => json_reading(text@) == Err::<JsonModel, Seq<char>>(message@),
        },
{
    match parse_value(text) {
        Ok(value) => Ok(tree_of(&value)),
        Err(message) => Err(message),
    }
}

/// A field of an object is found by its name: the first one with it. A name
/// that no field has finds none.
pub proof fn law_a_field_is_found_by_its_name(
    fields: Seq<(Seq<char>, JsonModel)>,
    name: Seq<char>,
    k: int,
)
    requires
        0 <= k <= fields.len(),
        k < fields.len() ==> fields[k].0 == name,
        forall|j: int| 0 <= j < k ==> (#[trigger] fields[j]).0 != name,
    ensures
        field_in(JsonModel::Record(fields), name) == if k < fields.len() {
            Some(fields[k].1)
        } else {
            None::<JsonModel>
        },
{
    lemma_field_found(fields, name, 0, k);
}

proof fn lemma_field_found(
    fields: Seq<(Seq<char>, JsonModel)>,
    name: Seq<char>,
    from: int,
    k: int,
)
    requires
        0 <= from <= k <= fields.len(),
        k < fields.len() ==> fields[k].0 == name,
        forall|j: int| 0 <= j < k ==> (#[trigger] fields[j]).0 != name,
    ensures
        field_from(fields, name, from) == if k < fields.len() {
            Some(fields[k].1)
        } else {
            None::<JsonModel>
        },
    decreases k - from,
{
    if from < k {
        assert(fields[from].0 != name);
        lemma_field_found(fields, name, from + 1, k);
    }
}

} // verus!
