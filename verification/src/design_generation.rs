//! Writing designs: the steps from a reply of the model to a design.

use vstd::prelude::*;

use crate::continuation;
use crate::continuation::{
    append_units, continuation_items, continued_units, end_of_continuation, shown_units,
    written_units, ContinueChunk, ContinueEnd,
};
use crate::edit_focus;
use crate::edit_focus::fresh_unit;
use crate::json::{Json, JsonModel};
use crate::model;
use crate::model::{duplicate_list, Duplicate, Design, Screen};
use crate::stream;
use crate::stream::{partial_json, partial_units_json};
use crate::text;

verus! {

/// What a turn reports when it continued nothing.
pub const NONE_CONTINUED: &'static str = "no design was continued";

/// What a turn reports when it wrote no candidate.
pub const NONE_STORED: &'static str = "no candidate reached the store";

/// The JSON of the design a streaming reply has written so far:
/// everything before the screens plus every complete screen. `None` until the
/// first screen is complete.
pub fn partial_design(reply: &str) -> (r: Option<String>)
    ensures
        model::optional(r) == stream::partial_artifact(reply@, "screens"@),
{
    partial_json(reply, "screens")
}

/// The new screens in a continuation reply, in order.
pub fn continuation_screens(written: usize, content: &str) -> (r: Result<Vec<Json>, String>)
    ensures
        match r {
            Ok(values) => continuation::units_in_reply(
                content@,
                written as nat,
                "screens"@,
                "screen"@,
            ) == Ok::<Seq<JsonModel>, Seq<char>>(continuation::values_of(values@)),
            Err(message) => continuation::units_in_reply(
                content@,
                written as nat,
                "screens"@,
                "screen"@,
            ) == Err::<Seq<JsonModel>, Seq<char>>(message@),
        },
{
    continuation_items(written, content, "screens", "screen")
}

/// The new screens of a reply that may not be complete, none when it cannot
/// be read.
pub open spec fn streamed_screens(reply: Seq<char>, written: nat) -> Seq<JsonModel> {
    match stream::partial_units(reply, "screens"@) {
        Some(units) => match continuation::units_in_reply(
            units,
            written,
            "screens"@,
            "screen"@,
        ) {
            Ok(values) => values,
            Err(_) => Seq::empty(),
        },
        None => Seq::empty(),
    }
}

/// The new screens a streaming continuation reply has completed so far.
pub fn partial_continuation_screens(written: usize, reply: &str) -> (r: Vec<Json>)
    ensures
        continuation::values_of(r@) == streamed_screens(reply@, written as nat),
{
    if let Some(units) = partial_units_json(reply, "screens") {
        if let Ok(values) = continuation_screens(written, units.as_str()) {
            return values;
        }
    }
    let none: Vec<Json> = Vec::new();
    assert(continuation::values_of(none@) =~= Seq::<JsonModel>::empty());
    none
}

fn with_screens(design: &Design, screens: Vec<Screen>, keeps_outline: bool) -> (r: Design)
    ensures
        r.title == design.title,
        r.theme == design.theme,
        r.viewport == design.viewport,
        r.transition == design.transition,
        r.screens == screens,
        r.outline@ == if keeps_outline {
            design.outline@
        } else {
            Seq::empty()
        },
{
    Design {
        title: design.title.clone(),
        theme: design.theme.duplicate(),
        viewport: design.viewport,
        transition: design.transition,
        screens,
        outline: if keeps_outline {
            duplicate_list(&design.outline)
        } else {
            Vec::new()
        },
    }
}

/// The design without the placeholders that a stopped run left behind.
pub fn written_design(design: &Design, class: &str) -> (r: Design)
    ensures
        r.title == design.title,
        r.theme == design.theme,
        r.viewport == design.viewport,
        r.transition == design.transition,
        r.outline@ == design.outline@,
        r.screens@ == continuation::without_pending(design.screens@, class@),
{
    let screens = written_units(&design.screens, class);
    with_screens(design, screens, true)
}

/// The design to show while the chunks run: the preview, then every chunk
/// up to the last one that has screens, with placeholders for the screens an
/// earlier chunk still owes.
pub fn shown_design(
    preview: &Design,
    chunks: &[ContinueChunk],
    board: &[Vec<Screen>],
    class: &str,
) -> (r: Design)
    ensures
        r.title == preview.title,
        r.theme == preview.theme,
        r.viewport == preview.viewport,
        r.transition == preview.transition,
        r.outline@ == preview.outline@,
        model::units_of(r.screens@) == continuation::shown::<Screen>(
            model::units_of(preview.screens@),
            text::strings(preview.outline@),
            chunks@,
            continuation::board_of(board@),
            class@,
        ),
{
    let screens = shown_units(&preview.screens, &preview.outline, chunks, board, class);
    with_screens(preview, screens, true)
}

/// Appends the reply's new screens to the design in progress. The outline
/// stays until every title has a screen, so a short reply leaves the
/// design continuable.
pub fn apply_continuation(original: &Design, new_screens: &[Screen]) -> (r: Result<
    Design,
    String,
>)
    ensures
        match r {
            Ok(continued) => {
                &&& new_screens@.len() > 0
                &&& continued.title == original.title
                &&& continued.theme == original.theme
                &&& continued.viewport == original.viewport
                &&& continued.transition == original.transition
                &&& model::units_of(continued.screens@) == model::units_of(original.screens@)
                    + model::units_of(new_screens@)
                &&& continued.outline@ == if original.screens@.len() + new_screens@.len()
                    >= original.outline@.len() {
                    Seq::empty()
                } else {
                    original.outline@
                }
            },
            Err(message) => new_screens@.len() == 0 && message@ == continuation::nothing_added(
                "screens"@,
                "screen"@,
            ),
        },
{
    match append_units(&original.screens, new_screens, "screens", "screen") {
        Ok(screens) => {
            let is_complete = screens.len() >= original.outline.len();
            Ok(with_screens(original, screens, !is_complete))
        },
        Err(message) => Err(message),
    }
}

/// The design that the chunks leave behind, and what it came to. A failed
/// chunk leaves the design continuable: the outline stays until every
/// title has a screen.
pub fn continued_design(preview: &Design, board: &[Vec<Screen>]) -> (r: (
    Design,
    ContinueEnd,
))
    ensures
        ({
            let added = continuation::gathered(
                continuation::board_of(board@),
                board@.len() as int,
            );
            let total = preview.screens@.len() + added.len();
            &&& r.0.title == preview.title
            &&& r.0.theme == preview.theme
            &&& r.0.viewport == preview.viewport
            &&& r.0.transition == preview.transition
            &&& model::units_of(r.0.screens@) == model::units_of(preview.screens@) + added
            &&& r.0.outline@ == if r.1 is Finished {
                Seq::empty()
            } else {
                preview.outline@
            }
            &&& r.1 is Restored <==> added.len() == 0
            &&& r.1 is Finished <==> added.len() > 0 && total >= preview.outline@.len()
            &&& r.1 matches ContinueEnd::Grown(count) ==> count == added.len()
            &&& r.1 matches ContinueEnd::Finished(count) ==> count == added.len()
        }),
{
    let screens = continued_units(&preview.screens, board);
    assert(model::units_of(screens@).len() == screens@.len());
    assert(model::units_of(preview.screens@).len() == preview.screens@.len());
    let end = end_of_continuation(preview.screens.len(), screens.len(), preview.outline.len());
    let keeps_outline = match end {
        ContinueEnd::Finished(_) => false,
        _ => true,
    };
    (with_screens(preview, screens, keeps_outline), end)
}

/// What a continue reports when no chunk added a screen and none failed.
pub const NOTHING_ADDED: &'static str = "no screens were added";

/// The screen as a regenerate shows it: its name and notes, without its markup,
/// so the model writes it anew instead of tweaking it.
pub fn fresh_screen(screen: &Screen) -> (r: Screen)
    ensures
        r@ == edit_focus::fresh(screen@),
{
    fresh_unit(screen)
}

} // verus!
