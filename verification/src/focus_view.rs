//! The artifact as a focused edit sees it: its title, its theme, its canvas,
//! how many units it has, and only the units named, each with its index.

use vstd::prelude::*;

use crate::edit_focus::FocusedUnit;
use crate::json;
use crate::json::{Field, Json, JsonModel, Number};
use crate::prompts::Kind;
use crate::text;
use crate::text::{decimal_of, owned};

verus! {

/// The parts of a focused view.
#[derive(Debug)]
pub struct FocusView {
    pub title: String,
    pub theme: Json,
    /// The viewport, the paper, or the format.
    pub canvas: Json,
    /// How many units the whole artifact has.
    pub count: usize,
    /// The units named, each as JSON.
    pub units: Vec<FocusedUnit<Json>>,
}

/// The field that holds the canvas of an artifact.
pub open spec fn canvas_field(kind: Kind) -> Seq<char> {
    match kind {
        Kind::Design => "viewport"@,
        Kind::Document => "paper"@,
        Kind::Mailing => "format"@,
    }
}

/// The field that holds the number of units.
pub open spec fn count_field(kind: Kind) -> Seq<char> {
    match kind {
        Kind::Design => "screen_count"@,
        Kind::Document => "page_count"@,
        Kind::Mailing => "email_count"@,
    }
}

/// The field that holds the units shown.
pub open spec fn units_field(kind: Kind) -> Seq<char> {
    match kind {
        Kind::Design => "screens"@,
        Kind::Document => "pages"@,
        Kind::Mailing => "emails"@,
    }
}

/// The field that holds one unit.
pub open spec fn unit_field(kind: Kind) -> Seq<char> {
    match kind {
        Kind::Design => "screen"@,
        Kind::Document => "page"@,
        Kind::Mailing => "email"@,
    }
}

/// A count as a JSON number.
pub open spec fn count_model(n: usize) -> JsonModel {
    JsonModel::Number(text::decimal(n as nat), Some(n as u64))
}

/// One unit shown, with its index.
pub open spec fn shown_unit(kind: Kind, shown: FocusedUnit<Json>) -> JsonModel {
    JsonModel::Record(
        seq![
            ("index"@, count_model(shown.index)),
            (unit_field(kind), json::model_of(shown.unit)),
        ],
    )
}

/// The units shown, in order.
pub open spec fn shown_list(kind: Kind, units: Seq<FocusedUnit<Json>>) -> JsonModel {
    JsonModel::List(units.map_values(|shown: FocusedUnit<Json>| shown_unit(kind, shown)))
}

/// What a focused edit sees.
pub open spec fn focused_model(kind: Kind, view: FocusView) -> JsonModel {
    JsonModel::Record(
        seq![
            ("title"@, JsonModel::Text(view.title@)),
            ("theme"@, json::model_of(view.theme)),
            (canvas_field(kind), json::model_of(view.canvas)),
            (count_field(kind), count_model(view.count)),
            (units_field(kind), shown_list(kind, view.units@)),
        ],
    )
}

struct FieldNames {
    canvas: &'static str,
    count: &'static str,
    units: &'static str,
    unit: &'static str,
}

fn names_of(kind: Kind) -> (r: FieldNames)
    ensures
        r.canvas@ == canvas_field(kind),
        r.count@ == count_field(kind),
        r.units@ == units_field(kind),
        r.unit@ == unit_field(kind),
{
    match kind {
        Kind::Design => FieldNames {
            canvas: "viewport",
            count: "screen_count",
            units: "screens",
            unit: "screen",
        },
        Kind::Document => FieldNames {
            canvas: "paper",
            count: "page_count",
            units: "pages",
            unit: "page",
        },
        Kind::Mailing => FieldNames {
            canvas: "format",
            count: "email_count",
            units: "emails",
            unit: "email",
        },
    }
}

fn count_json(n: usize) -> (r: Json)
    ensures
        json::model_of(r) == count_model(n),
{
    Json::Number(Number { text: decimal_of(n as u128), whole: Some(n as u64) })
}

fn unit_json(kind: Kind, shown: &FocusedUnit<Json>) -> (r: Json)
    ensures
        json::model_of(r) == shown_unit(kind, *shown),
{
    let names = names_of(kind);
    let mut fields: Vec<Field> = Vec::new();
    fields.push(Field { name: owned("index"), value: count_json(shown.index) });
    fields.push(Field { name: owned(names.unit), value: shown.unit.copy() });
    proof {
        json::lemma_fields(fields@);
        assert(json::fields_of(fields@) =~= seq![
            ("index"@, count_model(shown.index)),
            (unit_field(kind), json::model_of(shown.unit)),
        ]);
    }
    Json::Record(fields)
}

/// The artifact as a focused edit sees it.
pub fn focused_json(kind: Kind, view: FocusView) -> (r: Json)
    ensures
        json::model_of(r) == focused_model(kind, view),
{
    let names = names_of(kind);
    let mut items: Vec<Json> = Vec::new();
    let mut k: usize = 0;
    while k < view.units.len()
        invariant
            k <= view.units@.len(),
            items@.len() == k,
            forall|j: int|
                0 <= j < k ==> json::model_of(#[trigger] items@[j]) == shown_unit(
                    kind,
                    view.units@[j],
                ),
        decreases view.units@.len() - k,
    {
        items.push(unit_json(kind, &view.units[k]));
        k += 1;
    }
    proof {
        json::lemma_models(items@);
        assert(json::models_of(items@) =~= view.units@.map_values(
            |shown: FocusedUnit<Json>| shown_unit(kind, shown),
        ));
    }
    let ghost whole = view;
    let mut fields: Vec<Field> = Vec::new();
    fields.push(Field { name: owned("title"), value: Json::Text(view.title) });
    fields.push(Field { name: owned("theme"), value: view.theme });
    fields.push(Field { name: owned(names.canvas), value: view.canvas });
    fields.push(Field { name: owned(names.count), value: count_json(view.count) });
    fields.push(Field { name: owned(names.units), value: Json::List(items) });
    proof {
        json::lemma_fields(fields@);
        assert(json::fields_of(fields@) =~= seq![
            ("title"@, JsonModel::Text(whole.title@)),
            ("theme"@, json::model_of(whole.theme)),
            (canvas_field(kind), json::model_of(whole.canvas)),
            (count_field(kind), count_model(whole.count)),
            (units_field(kind), shown_list(kind, whole.units@)),
        ]);
    }
    Json::Record(fields)
}

/// A focused view says what it is cut from, and holds every unit shown with
/// its index, in order.
pub proof fn law_a_focused_view_has_its_parts(kind: Kind, view: FocusView, k: int)
    requires
        0 <= k < view.units@.len(),
    ensures
        ({
            let fields = focused_model(kind, view)->Record_0;
            let units = shown_list(kind, view.units@)->List_0;
            let unit = units[k]->Record_0;
            &&& fields.contains(("title"@, JsonModel::Text(view.title@)))
            &&& fields.contains(("theme"@, json::model_of(view.theme)))
            &&& fields.contains((canvas_field(kind), json::model_of(view.canvas)))
            &&& fields.contains(
                (
                    count_field(kind),
                    JsonModel::Number(text::decimal(view.count as nat), Some(view.count as u64)),
                ),
            )
            &&& fields.contains((units_field(kind), JsonModel::List(units)))
            &&& units.len() == view.units@.len()
            &&& unit.contains(
                (
                    "index"@,
                    JsonModel::Number(
                        text::decimal(view.units@[k].index as nat),
                        Some(view.units@[k].index as u64),
                    ),
                ),
            )
            &&& unit.contains((unit_field(kind), json::model_of(view.units@[k].unit)))
        }),
{
    let fields = focused_model(kind, view)->Record_0;
    assert(fields[0].0 == "title"@);
    assert(fields[1].0 == "theme"@);
    assert(fields[2].0 == canvas_field(kind));
    assert(fields[3].0 == count_field(kind));
    assert(fields[4].0 == units_field(kind));
    let unit = shown_unit(kind, view.units@[k])->Record_0;
    assert(unit[0].0 == "index"@);
    assert(unit[1].0 == unit_field(kind));
}

} // verus!
